//! Markup: cutting the text of a page into its pieces.
use vstd::prelude::*;
use crate::css::opt_text;
use crate::letters::{
    ascii_lower, ascii_lowercase, find_any_case, is_ascii, law_ascii_byte_len, law_ascii_char_index,
    law_ascii_lowercase, lemma_ascii_part, lemma_find_any_case_bounds, lower, lowercase, occurs_any_case,
    search_any_case, std_lowercase,
};
use crate::text::{
    before, byte_len, bytes_of, char_index, contains, find, find_char, find_char_from, find_mark, find_text,
    first_word, from_chars, has_prefix, index_of_byte, is_text, is_white, law_before_mark, law_char_index,
    law_find_is_first, law_occurs_between, leading_word, lemma_byte_len_concat, lemma_char_index_bounds,
    lemma_find_char_from_bounds, lemma_find_from_bounds, lemma_trim_end_keeps,
    lemma_trim_end_len, lemma_word_len, occurs_at, slice_of, starts_with, to_chars, trim, trim_start, trimmed,
};

verus! {

/// A place in a text was computed from its lower case and does not fall between two characters.
#[derive(Clone, Copy, Debug, PartialEq, Eq, Structural)]
pub struct OffBoundary;

// ---------------------------------------------------------------------------------------------
// Attributes
// ---------------------------------------------------------------------------------------------

/// The byte at which the value of the attribute `attr` begins, as counted in `low`, the lower case
/// of a tag: after the first place where the name is followed by an equals sign.
pub open spec fn attr_offset(low: Seq<char>, attr: Seq<char>) -> Option<int> {
    let search = attr + "="@;
    match find(low, search) {
        Some(p) => Some(byte_len(low.take(p)) + byte_len(search)),
        None => None,
    }
}

/// Whether the place of the attribute `attr`, as counted in `low`, falls between two characters of
/// `tag`.
pub open spec fn attr_reads(tag: Seq<char>, low: Seq<char>, attr: Seq<char>) -> bool {
    attr_offset(low, attr) matches Some(offset) ==> char_index(tag, offset) is Some
}

/// The text between the quotation marks that `s` begins with. A missing closing mark stands at the
/// end, and nothing at all is an empty quotation.
pub open spec fn quoted(s: Seq<char>) -> Option<Seq<char>> {
    if s.len() == 0 {
        Some(s)
    } else if s[0] == '"' || s[0] == '\'' {
        Some(before(s.skip(1), s[0]))
    } else {
        None
    }
}

/// The value of the attribute `attr` of `tag`, whose lower case is `low`.
pub open spec fn attr_value(tag: Seq<char>, low: Seq<char>, attr: Seq<char>) -> Option<Seq<char>> {
    match attr_offset(low, attr) {
        Some(offset) => quoted(tag.skip(char_index(tag, offset)->0)),
        None => None,
    }
}

/// Finds the attribute `attr` in `low` and says at which character of `tag` its value begins.
fn locate_attr(tag: &Vec<char>, low: &Vec<char>, attr: &str) -> (r: Result<Option<usize>, OffBoundary>)
    ensures
        r is Ok <==> attr_reads(tag@, low@, attr@),
        r matches Ok(place) ==> match attr_offset(low@, attr@) {
            Some(offset) => place matches Some(i) && i <= tag@.len() && char_index(tag@, offset)
                == Some(i as int),
            None => place is None,
        },
{
    let mut search = to_chars(attr);
    proof {
        reveal_strlit("=");
        assert(search@.push('=') =~= attr@ + "="@);
    }
    search.push('=');
    match find_text(low, &search, 0) {
        Some(idx) => {
            proof {
                lemma_find_from_bounds(low@, search@, 0);
                assert(search@.take(search@.len() as int) =~= search@);
            }
            let offset: u128 = bytes_of(low, idx) + bytes_of(&search, search.len());
            match index_of_byte(tag, offset) {
                Some(i) => Ok(Some(i)),
                None => Err(OffBoundary),
            }
        },
        None => Ok(None),
    }
}

/// The text between the quotation marks that begins at position `from` of `v`.
fn read_quoted(v: &Vec<char>, from: usize) -> (r: Option<String>)
    requires
        from <= v.len(),
    ensures
        opt_text(r) == quoted(v@.skip(from as int)),
{
    let ghost part = v@.skip(from as int);
    if from == v.len() {
        let empty = String::new();
        assert(empty@ =~= part);
        return Some(empty);
    }
    let quote = v[from];
    assert(part[0] == quote);
    if quote == '"' || quote == '\'' {
        let rest = slice_of(v, from + 1, v.len());
        assert(rest@ =~= part.skip(1));
        match find_mark(&rest, quote, 0) {
            Some(end) => {
                assert(rest@.subrange(0, end as int) =~= rest@.take(end as int));
                Some(from_chars(&slice_of(&rest, 0, end)))
            },
            None => Some(from_chars(&rest)),
        }
    } else {
        None
    }
}

/// The value of the attribute `attr` of `tag`, whose lower case is `low`.
pub fn attr_from_lowered(tag: &str, low: &str, attr: &str) -> (r: Option<String>)
    requires
        attr_reads(tag@, low@, attr@),
    ensures
        opt_text(r) == attr_value(tag@, low@, attr@),
{
    let chars = to_chars(tag);
    match locate_attr(&chars, &to_chars(low), attr) {
        Ok(Some(from)) => read_quoted(&chars, from),
        _ => None,
    }
}

/// The value of the attribute `attr` of `tag`, letter case of the name aside. The place of the
/// value is counted in the lower case of the tag, which must lead to a place between two
/// characters of the tag.
pub fn extract_attr(tag: &str, attr: &str) -> (r: Option<String>)
    requires
        attr_reads(tag@, lowercase(tag@), attr@),
    ensures
        opt_text(r) == attr_value(tag@, lowercase(tag@), attr@),
{
    let low = std_lowercase(tag);
    attr_from_lowered(tag, low.as_str(), attr)
}

/// As [`extract_attr`], for any tag: an error where the place of the value does not fall between
/// two characters.
pub fn try_extract_attr(tag: &str, attr: &str) -> (r: Result<Option<String>, OffBoundary>)
    ensures
        r is Ok <==> attr_reads(tag@, lowercase(tag@), attr@),
        r matches Ok(value) ==> opt_text(value) == attr_value(tag@, lowercase(tag@), attr@),
{
    let low = std_lowercase(tag);
    match locate_attr(&to_chars(tag), &to_chars(low.as_str()), attr) {
        Ok(_) => Ok(extract_attr(tag, attr)),
        Err(e) => Err(e),
    }
}

// ---------------------------------------------------------------------------------------------
// Scripts
// ---------------------------------------------------------------------------------------------

/// The byte at which a script mentions the cookie, as counted in `low`, its lower case.
pub open spec fn cookie_offset(low: Seq<char>) -> Option<int> {
    match find(low, "document.cookie"@) {
        Some(p) => Some(byte_len(low.take(p))),
        None => None,
    }
}

/// Whether the place of the cookie, as counted in `low`, falls between two characters of `script`.
pub open spec fn script_reads(script: Seq<char>, low: Seq<char>) -> bool {
    cookie_offset(low) matches Some(offset) ==> char_index(script, offset) is Some
}

/// The text assigned in `s`, which begins after an equals sign: what follows the first character
/// that is not white space, up to the next occurrence of that character or a semicolon.
pub open spec fn assigned_text(s: Seq<char>) -> Seq<char> {
    let v = trim(s);
    if v.len() == 0 {
        v
    } else {
        before(before(v.skip(1), v[0]), ';')
    }
}

/// The cookie that `script`, whose lower case is `low`, sets: the text assigned after the first
/// mention of the cookie, if it is the mark of a bot check.
pub open spec fn script_cookie(script: Seq<char>, low: Seq<char>) -> Option<Seq<char>> {
    match cookie_offset(low) {
        Some(offset) => {
            let after = script.skip(char_index(script, offset)->0);
            match find_char(after, '=') {
                Some(eq) => {
                    let value = assigned_text(after.skip(eq + 1));
                    if contains(value, "__test="@) {
                        Some(value)
                    } else {
                        None
                    }
                },
                None => None,
            }
        },
        None => None,
    }
}

/// Whether a script whose lower case is `low` loads the page again.
pub open spec fn script_reloads(low: Seq<char>) -> bool {
    contains(low, "location.reload"@)
}

/// The part of `v` before the first `c`.
fn part_before(v: &Vec<char>, c: char) -> (r: Vec<char>)
    ensures
        r@ == before(v@, c),
{
    match find_mark(v, c, 0) {
        Some(end) => {
            assert(v@.subrange(0, end as int) =~= v@.take(end as int));
            slice_of(v, 0, end)
        },
        None => {
            assert(v@.subrange(0, v@.len() as int) =~= v@);
            slice_of(v, 0, v.len())
        },
    }
}

fn read_assigned(s: &Vec<char>) -> (r: Vec<char>)
    ensures
        r@ == assigned_text(s@),
{
    let v = trimmed(s);
    if v.len() == 0 {
        return v;
    }
    let rest = slice_of(&v, 1, v.len());
    assert(rest@ =~= v@.skip(1));
    part_before(&part_before(&rest, v[0]), ';')
}

/// Whether `v` holds the text `p` somewhere.
pub(crate) fn has_text(v: &Vec<char>, p: &str) -> (r: bool)
    ensures
        r == contains(v@, p@),
{
    find_text(v, &to_chars(p), 0).is_some()
}

fn read_script(script: &Vec<char>, low: &Vec<char>) -> (r: Result<Option<String>, OffBoundary>)
    ensures
        r is Ok <==> script_reads(script@, low@),
        r matches Ok(cookie) ==> opt_text(cookie) == script_cookie(script@, low@),
{
    match find_text(low, &to_chars("document.cookie"), 0) {
        Some(idx) => {
            proof {
                lemma_find_from_bounds(low@, "document.cookie"@, 0);
            }
            match index_of_byte(script, bytes_of(low, idx)) {
                Some(from) => {
                    let after_cookie = slice_of(script, from, script.len());
                    assert(after_cookie@ =~= script@.skip(from as int));
                    match find_mark(&after_cookie, '=', 0) {
                        Some(eq_idx) => {
                            let assigned = slice_of(&after_cookie, eq_idx + 1, after_cookie.len());
                            assert(assigned@ =~= after_cookie@.skip(eq_idx + 1));
                            let cookie_val = read_assigned(&assigned);
                            if has_text(&cookie_val, "__test=") {
                                Ok(Some(from_chars(&cookie_val)))
                            } else {
                                Ok(None)
                            }
                        },
                        None => Ok(None),
                    }
                },
                None => Err(OffBoundary),
            }
        },
        None => Ok(None),
    }
}

/// The cookie that `script`, whose lower case is `low`, sets.
pub fn cookie_from_lowered(script: &str, low: &str) -> (r: Result<Option<String>, OffBoundary>)
    ensures
        r is Ok <==> script_reads(script@, low@),
        r matches Ok(cookie) ==> opt_text(cookie) == script_cookie(script@, low@),
{
    read_script(&to_chars(script), &to_chars(low))
}

// ---------------------------------------------------------------------------------------------
// Tags
// ---------------------------------------------------------------------------------------------

/// What an opening tag asks for, with what it needs out of its attributes.
#[derive(Debug)]
pub enum TagKind<S> {
    Div,
    Heading(u8),
    Link(S),
    Form(Option<S>),
    Input(S),
    Button(S),
    Image { src: S, alt: S },
    Bold,
    Italic,
    Other,
}

/// An opening tag.
#[derive(Debug)]
pub struct OpenTag {
    pub name: String,
    pub class: Option<String>,
    pub id: Option<String>,
    pub style: Option<String>,
    pub kind: TagKind<String>,
}

/// The contents of an [`OpenTag`].
pub struct TagView {
    pub name: Seq<char>,
    pub class: Option<Seq<char>>,
    pub id: Option<Seq<char>>,
    pub style: Option<Seq<char>>,
    pub kind: TagKind<Seq<char>>,
}

/// The contents of a [`TagKind`].
pub open spec fn kind_view(kind: TagKind<String>) -> TagKind<Seq<char>> {
    match kind {
        TagKind::Div => TagKind::Div,
        TagKind::Heading(level) => TagKind::Heading(level),
        TagKind::Link(href) => TagKind::Link(href@),
        TagKind::Form(action) => TagKind::Form(opt_text(action)),
        TagKind::Input(name) => TagKind::Input(name@),
        TagKind::Button(text) => TagKind::Button(text@),
        TagKind::Image { src, alt } => TagKind::Image { src: src@, alt: alt@ },
        TagKind::Bold => TagKind::Bold,
        TagKind::Italic => TagKind::Italic,
        TagKind::Other => TagKind::Other,
    }
}

impl View for OpenTag {
    type V = TagView;

    open spec fn view(&self) -> TagView {
        TagView {
            name: self.name@,
            class: opt_text(self.class),
            id: opt_text(self.id),
            style: opt_text(self.style),
            kind: kind_view(self.kind),
        }
    }
}

/// The value of the attribute `attr` of `tag`, or `default` where it has none.
pub open spec fn attr_or(
    tag: Seq<char>,
    low: Seq<char>,
    attr: Seq<char>,
    default: Seq<char>,
) -> Seq<char> {
    match attr_value(tag, low, attr) {
        Some(v) => v,
        None => default,
    }
}

/// Whether the attributes that are read of an opening tag called `name` have places that fall
/// between two characters of `tag`.
pub open spec fn tag_reads(tag: Seq<char>, low: Seq<char>, name: Seq<char>) -> bool {
    &&& attr_reads(tag, low, "class"@)
    &&& attr_reads(tag, low, "id"@)
    &&& attr_reads(tag, low, "style"@)
    &&& name == "a"@ ==> attr_reads(tag, low, "href"@)
    &&& name == "form"@ ==> attr_reads(tag, low, "action"@)
    &&& name == "input"@ ==> attr_reads(tag, low, "name"@)
    &&& name == "button"@ ==> attr_reads(tag, low, "value"@)
    &&& name == "img"@ ==> attr_reads(tag, low, "src"@) && attr_reads(tag, low, "alt"@)
}

/// What the opening tag `tag`, whose lower case is `low` and whose name is `name`, asks for.
pub open spec fn tag_kind(tag: Seq<char>, low: Seq<char>, name: Seq<char>) -> TagKind<Seq<char>> {
    if name == "div"@ {
        TagKind::Div
    } else if name == "h1"@ {
        TagKind::Heading(1)
    } else if name == "h2"@ {
        TagKind::Heading(2)
    } else if name == "a"@ {
        TagKind::Link(attr_or(tag, low, "href"@, Seq::empty()))
    } else if name == "form"@ {
        TagKind::Form(attr_value(tag, low, "action"@))
    } else if name == "input"@ {
        TagKind::Input(attr_or(tag, low, "name"@, "input"@))
    } else if name == "button"@ {
        TagKind::Button(attr_or(tag, low, "value"@, "Submit"@))
    } else if name == "img"@ {
        TagKind::Image {
            src: attr_or(tag, low, "src"@, Seq::empty()),
            alt: attr_or(tag, low, "alt"@, "IMG"@),
        }
    } else if name == "b"@ || name == "strong"@ {
        TagKind::Bold
    } else if name == "i"@ || name == "em"@ {
        TagKind::Italic
    } else {
        TagKind::Other
    }
}

/// The opening tag `tag`, whose lower case is `low` and whose name is `name`.
pub open spec fn open_tag(tag: Seq<char>, low: Seq<char>, name: Seq<char>) -> TagView {
    TagView {
        name,
        class: attr_value(tag, low, "class"@),
        id: attr_value(tag, low, "id"@),
        style: attr_value(tag, low, "style"@),
        kind: tag_kind(tag, low, name),
    }
}

/// The value of the attribute `attr`, or `default` where the tag has none.
fn attr_with_default(tag: &str, attr: &str, default: &str) -> (r: Result<String, OffBoundary>)
    ensures
        r is Ok <==> attr_reads(tag@, lowercase(tag@), attr@),
        r matches Ok(v) ==> v@ == attr_or(tag@, lowercase(tag@), attr@, default@),
{
    match try_extract_attr(tag, attr) {
        Ok(Some(v)) => Ok(v),
        Ok(None) => Ok(default.to_string()),
        Err(e) => Err(e),
    }
}

fn read_kind(tag: &str, name: &Vec<char>) -> (r: Result<TagKind<String>, OffBoundary>)
    ensures
        r is Err ==> !tag_reads(tag@, lowercase(tag@), name@),
        r matches Ok(kind) ==> kind_view(kind) == tag_kind(tag@, lowercase(tag@), name@),
        r is Ok && attr_reads(tag@, lowercase(tag@), "class"@) && attr_reads(
            tag@,
            lowercase(tag@),
            "id"@,
        ) && attr_reads(tag@, lowercase(tag@), "style"@) ==> tag_reads(tag@, lowercase(tag@), name@),
{
    proof {
        reveal_strlit("");
        assert(""@ =~= Seq::<char>::empty());
        lemma_names_differ();
    }
    if is_text(name, "div") {
        Ok(TagKind::Div)
    } else if is_text(name, "h1") {
        Ok(TagKind::Heading(1))
    } else if is_text(name, "h2") {
        Ok(TagKind::Heading(2))
    } else if is_text(name, "a") {
        match attr_with_default(tag, "href", "") {
            Ok(href) => Ok(TagKind::Link(href)),
            Err(e) => Err(e),
        }
    } else if is_text(name, "form") {
        match try_extract_attr(tag, "action") {
            Ok(action) => Ok(TagKind::Form(action)),
            Err(e) => Err(e),
        }
    } else if is_text(name, "input") {
        match attr_with_default(tag, "name", "input") {
            Ok(name) => Ok(TagKind::Input(name)),
            Err(e) => Err(e),
        }
    } else if is_text(name, "button") {
        match attr_with_default(tag, "value", "Submit") {
            Ok(text) => Ok(TagKind::Button(text)),
            Err(e) => Err(e),
        }
    } else if is_text(name, "img") {
        match (attr_with_default(tag, "src", ""), attr_with_default(tag, "alt", "IMG")) {
            (Ok(src), Ok(alt)) => Ok(TagKind::Image { src, alt }),
            _ => Err(OffBoundary),
        }
    } else if is_text(name, "b") || is_text(name, "strong") {
        Ok(TagKind::Bold)
    } else if is_text(name, "i") || is_text(name, "em") {
        Ok(TagKind::Italic)
    } else {
        Ok(TagKind::Other)
    }
}

/// The names of the tags whose attributes are read are all different.
proof fn lemma_names_differ()
    ensures
        "div"@ != "a"@ && "div"@ != "form"@ && "div"@ != "input"@ && "div"@ != "button"@ && "div"@
            != "img"@,
        "h1"@ != "a"@ && "h1"@ != "form"@ && "h1"@ != "input"@ && "h1"@ != "button"@ && "h1"@
            != "img"@,
        "h2"@ != "a"@ && "h2"@ != "form"@ && "h2"@ != "input"@ && "h2"@ != "button"@ && "h2"@
            != "img"@,
        "a"@ != "form"@ && "a"@ != "input"@ && "a"@ != "button"@ && "a"@ != "img"@,
        "form"@ != "input"@ && "form"@ != "button"@ && "form"@ != "img"@,
        "input"@ != "button"@ && "input"@ != "img"@ && "button"@ != "img"@,
{
    reveal_strlit("div");
    reveal_strlit("h1");
    reveal_strlit("h2");
    reveal_strlit("a");
    reveal_strlit("form");
    reveal_strlit("input");
    reveal_strlit("button");
    reveal_strlit("img");
    assert("h1"@.len() == 2 && "h2"@.len() == 2 && "a"@.len() == 1 && "form"@.len() == 4);
    assert("input"@.len() == 5 && "button"@.len() == 6);
    assert("div"@[0] == 'd' && "img"@[0] == 'i' && "div"@.len() == 3 && "img"@.len() == 3);
}

fn read_tag(tag: &str, name: &Vec<char>) -> (r: Result<OpenTag, OffBoundary>)
    ensures
        r is Ok <==> tag_reads(tag@, lowercase(tag@), name@),
        r matches Ok(t) ==> t@ == open_tag(tag@, lowercase(tag@), name@),
{
    let class = match try_extract_attr(tag, "class") {
        Ok(v) => v,
        Err(e) => return Err(e),
    };
    let id = match try_extract_attr(tag, "id") {
        Ok(v) => v,
        Err(e) => return Err(e),
    };
    let style = match try_extract_attr(tag, "style") {
        Ok(v) => v,
        Err(e) => return Err(e),
    };
    match read_kind(tag, name) {
        Ok(kind) => Ok(OpenTag { name: from_chars(name), class, id, style, kind }),
        Err(e) => Err(e),
    }
}

// ---------------------------------------------------------------------------------------------
// Pieces
// ---------------------------------------------------------------------------------------------

/// A piece of a page.
#[derive(Debug)]
pub enum Piece {
    /// Text between tags.
    Text(String),
    /// A title; `None` where it is never closed.
    Title(Option<String>),
    /// A script, with the cookie that it sets and whether it loads the page again.
    Script { cookie: Option<String>, reload: bool },
    /// An element whose content is not shown.
    Hidden,
    /// A closing tag, which may be that of a form.
    Close { form: bool },
    /// Any other tag.
    Open(OpenTag),
}

/// The contents of a [`Piece`].
pub enum PieceView {
    Text(Seq<char>),
    Title(Option<Seq<char>>),
    Script { cookie: Option<Seq<char>>, reload: bool },
    Hidden,
    Close { form: bool },
    Open(TagView),
}

impl View for Piece {
    type V = PieceView;

    open spec fn view(&self) -> PieceView {
        match *self {
            Piece::Text(text) => PieceView::Text(text@),
            Piece::Title(title) => PieceView::Title(opt_text(title)),
            Piece::Script { cookie, reload } => PieceView::Script { cookie: opt_text(cookie), reload },
            Piece::Hidden => PieceView::Hidden,
            Piece::Close { form } => PieceView::Close { form },
            Piece::Open(tag) => PieceView::Open(tag@),
        }
    }
}

/// The contents of a list of pieces.
pub open spec fn pieces_view(pieces: Seq<Piece>) -> Seq<PieceView> {
    pieces.map_values(|p: Piece| p@)
}

/// Where the content of an element that is not cut into pieces ends: after the closing tag `end`,
/// written in upper or lower case letters, or at the end of `s` where there is none. The letters of
/// these tags are the lower case of ASCII letters only, so that the lower case of the content ends
/// with the tag just where the content does.
pub open spec fn raw_end(s: Seq<char>, end: Seq<char>, at: int) -> int {
    match find_any_case(s, end, at) {
        Some(i) => i + end.len(),
        None => s.len() as int,
    }
}

/// The piece that begins with the tag `tag`, and where the next one begins. What stands in `s` from
/// `at` on follows the tag. `None` where a place in the tag or in its script does not fall between
/// two characters.
pub open spec fn piece_at(s: Seq<char>, tag: Seq<char>, at: int) -> Option<(PieceView, int)> {
    let low = lowercase(tag);
    let name = first_word(low);
    if name == "title"@ {
        Some(
            (
                PieceView::Title(
                    match find_any_case(s, "</title>"@, at) {
                        Some(i) => Some(trim(s.subrange(at, i))),
                        None => None,
                    },
                ),
                raw_end(s, "</title>"@, at),
            ),
        )
    } else if name == "script"@ {
        let end = raw_end(s, "</script>"@, at);
        let script = s.subrange(at, end);
        let script_low = lowercase(script);
        if script_reads(script, script_low) {
            let cookie = script_cookie(script, script_low);
            Some((PieceView::Script { cookie, reload: script_reloads(script_low) }, end))
        } else {
            None
        }
    } else if name == "style"@ {
        Some((PieceView::Hidden, raw_end(s, "</style>"@, at)))
    } else if name == "head"@ {
        Some((PieceView::Hidden, raw_end(s, "</head>"@, at)))
    } else if starts_with(name, "/"@) {
        Some((PieceView::Close { form: name == "/form"@ }, at))
    } else if tag_reads(tag, low, name) {
        Some((PieceView::Open(open_tag(tag, low, name)), at))
    } else {
        None
    }
}

/// The position of the first `c` of `s` from `from` on; the length of `s` where there is none.
pub open spec fn find_or_end(s: Seq<char>, c: char, from: int) -> int {
    match find_char_from(s, c, from) {
        Some(i) => i,
        None => s.len() as int,
    }
}

/// The position after the tag that ends at `end`.
pub open spec fn after_tag(s: Seq<char>, end: int) -> int {
    if end < s.len() {
        end + 1
    } else {
        s.len() as int
    }
}

/// The pieces of `s` from position `i` on. A tag that is never closed runs to the end. `None` where
/// a place in a tag or a script does not fall between two characters.
pub open spec fn pieces_from(s: Seq<char>, i: int) -> Option<Seq<PieceView>>
    decreases s.len() - i,
{
    if i < 0 || i >= s.len() {
        Some(Seq::empty())
    } else if s[i] != '<' {
        proof {
            lemma_find_char_from_bounds(s, '<', i);
        }
        let next = find_or_end(s, '<', i);
        match pieces_from(s, next) {
            Some(rest) => Some(seq![PieceView::Text(s.subrange(i, next))] + rest),
            None => None,
        }
    } else {
        let end = find_or_end(s, '>', i + 1);
        proof {
            lemma_find_char_from_bounds(s, '>', i + 1);
            lemma_piece_at_bounds(s, s.subrange(i + 1, end), after_tag(s, end));
        }
        match piece_at(s, s.subrange(i + 1, end), after_tag(s, end)) {
            Some((piece, next)) => match pieces_from(s, next) {
                Some(rest) => Some(seq![piece] + rest),
                None => None,
            },
            None => None,
        }
    }
}

/// The pieces of the page `html`.
pub open spec fn page_pieces(html: Seq<char>) -> Option<Seq<PieceView>> {
    pieces_from(html, 0)
}

pub proof fn lemma_piece_at_bounds(s: Seq<char>, tag: Seq<char>, at: int)
    requires
        0 <= at <= s.len(),
    ensures
        piece_at(s, tag, at) matches Some((_, next)) ==> at <= next <= s.len(),
{
    lemma_find_any_case_bounds(s, "</title>"@, at);
    lemma_find_any_case_bounds(s, "</script>"@, at);
    lemma_find_any_case_bounds(s, "</style>"@, at);
    lemma_find_any_case_bounds(s, "</head>"@, at);
}

/// Where the content of an element that is not cut into pieces ends.
fn find_raw_end(v: &Vec<char>, end: &str, at: usize) -> (r: usize)
    requires
        at <= v.len(),
    ensures
        r == raw_end(v@, end@, at as int),
        at <= r <= v.len(),
{
    let end = to_chars(end);
    match search_any_case(v, &end, at) {
        Some(i) => i + end.len(),
        None => v.len(),
    }
}

/// The piece that begins with the tag `tag`, and where the next one begins.
fn read_piece(v: &Vec<char>, tag: &Vec<char>, at: usize) -> (r: Result<(Piece, usize), OffBoundary>)
    requires
        at <= v.len(),
    ensures
        r is Ok <==> piece_at(v@, tag@, at as int) is Some,
        r matches Ok((piece, next)) ==> piece_at(v@, tag@, at as int) == Some((piece@, next as int))
            && at <= next <= v.len(),
{
    proof {
        lemma_piece_at_bounds(v@, tag@, at as int);
    }
    let name = leading_word(&lower(tag));
    if is_text(&name, "title") {
        let end = to_chars("</title>");
        match search_any_case(v, &end, at) {
            Some(i) => {
                let title = from_chars(&trimmed(&slice_of(v, at, i)));
                Ok((Piece::Title(Some(title)), i + end.len()))
            },
            None => Ok((Piece::Title(None), v.len())),
        }
    } else if is_text(&name, "script") {
        let next = find_raw_end(v, "</script>", at);
        let script = slice_of(v, at, next);
        let low = lower(&script);
        match read_script(&script, &low) {
            Ok(cookie) => {
                let reload = has_text(&low, "location.reload");
                Ok((Piece::Script { cookie, reload }, next))
            },
            Err(e) => Err(e),
        }
    } else if is_text(&name, "style") {
        Ok((Piece::Hidden, find_raw_end(v, "</style>", at)))
    } else if is_text(&name, "head") {
        Ok((Piece::Hidden, find_raw_end(v, "</head>", at)))
    } else if has_prefix(&name, "/") {
        Ok((Piece::Close { form: is_text(&name, "/form") }, at))
    } else {
        match read_tag(from_chars(tag).as_str(), &name) {
            Ok(tag) => Ok((Piece::Open(tag), at)),
            Err(e) => Err(e),
        }
    }
}

/// Cuts the page `html` into its pieces. An error where the place of an attribute or of a cookie,
/// which is counted in lower case text, does not fall between two characters.
pub fn scan_html(html: &str) -> (r: Result<Vec<Piece>, OffBoundary>)
    ensures
        r is Ok <==> page_pieces(html@) is Some,
        r matches Ok(pieces) ==> page_pieces(html@) == Some(pieces_view(pieces@)),
{
    let v = to_chars(html);
    let mut pieces: Vec<Piece> = Vec::new();
    let mut i: usize = 0;
    assert(pieces_from(v@, 0) is Some ==> pieces_from(v@, 0) == Some(
        pieces_view(pieces@) + pieces_from(v@, 0)->0,
    )) by {
        if pieces_from(v@, 0) is Some {
            assert(pieces_view(pieces@) + pieces_from(v@, 0)->0 =~= pieces_from(v@, 0)->0);
        }
    }
    while i < v.len()
        invariant
            i <= v.len(),
            v@ == html@,
            pieces_from(v@, 0) is Some <==> pieces_from(v@, i as int) is Some,
            pieces_from(v@, i as int) matches Some(rest) ==> pieces_from(v@, 0) == Some(
                pieces_view(pieces@) + rest,
            ),
        decreases v.len() - i,
    {
        let ghost seen = pieces_view(pieces@);
        let ghost here = i as int;
        let (piece, next) = if v[i] != '<' {
            let next = match find_mark(&v, '<', i) {
                Some(k) => k,
                None => v.len(),
            };
            assert(next > i);
            (Piece::Text(from_chars(&slice_of(&v, i, next))), next)
        } else {
            let end = match find_mark(&v, '>', i + 1) {
                Some(k) => k,
                None => v.len(),
            };
            let tag = slice_of(&v, i + 1, end);
            let at = if end < v.len() {
                end + 1
            } else {
                v.len()
            };
            match read_piece(&v, &tag, at) {
                Ok(found) => found,
                Err(e) => return Err(e),
            }
        };
        pieces.push(piece);
        proof {
            assert(pieces_view(pieces@) =~= seen.push(piece@));
            if pieces_from(v@, next as int) is Some {
                let rest = pieces_from(v@, next as int)->0;
                assert(pieces_from(v@, here) == Some(seq![piece@] + rest));
                assert(seen.push(piece@) + rest =~= seen + (seq![piece@] + rest));
            }
        }
        i = next;
    }
    assert(pieces_view(pieces@) + Seq::<PieceView>::empty() =~= pieces_view(pieces@));
    Ok(pieces)
}

// ---------------------------------------------------------------------------------------------
// Laws
// ---------------------------------------------------------------------------------------------

/// What is found in the lower case of an ASCII text is found at the same byte of the text.
proof fn lemma_ascii_place(s: Seq<char>, p: Seq<char>)
    requires
        is_ascii(s),
    ensures
        find(lowercase(s), p) matches Some(i) ==> {
            &&& 0 <= i
            &&& i + p.len() <= s.len()
            &&& byte_len(lowercase(s).take(i)) == i
            &&& byte_len(p) == p.len()
            &&& char_index(s, i) == Some(i)
            &&& char_index(s, i + p.len()) == Some(i + p.len())
        },
{
    let low = lowercase(s);
    law_ascii_lowercase(s);
    lemma_find_from_bounds(low, p, 0);
    if find(low, p) is Some {
        let i = find(low, p)->0;
        lemma_ascii_part(low, 0, i);
        assert(low.take(i) =~= low.subrange(0, i));
        law_ascii_byte_len(low.take(i));
        lemma_ascii_part(low, i, i + p.len());
        law_ascii_byte_len(p);
        law_ascii_char_index(s, i);
        law_ascii_char_index(s, i + p.len());
    }
}

/// Every attribute of an ASCII tag can be read.
pub proof fn law_ascii_attr_reads(tag: Seq<char>, attr: Seq<char>)
    requires
        is_ascii(tag),
    ensures
        attr_reads(tag, lowercase(tag), attr),
{
    lemma_ascii_place(tag, attr + "="@);
}

/// The cookie of an ASCII script can be read.
pub proof fn law_ascii_script_reads(script: Seq<char>)
    requires
        is_ascii(script),
    ensures
        script_reads(script, lowercase(script)),
{
    lemma_ascii_place(script, "document.cookie"@);
}

/// An ASCII page can be cut into pieces.
pub proof fn law_ascii_page_has_pieces(html: Seq<char>)
    requires
        is_ascii(html),
    ensures
        page_pieces(html) is Some,
{
    lemma_ascii_pieces(html, 0);
}

proof fn lemma_ascii_pieces(s: Seq<char>, i: int)
    requires
        is_ascii(s),
        0 <= i,
    ensures
        pieces_from(s, i) is Some,
    decreases s.len() - i,
{
    if i < s.len() {
        if s[i] != '<' {
            lemma_find_char_from_bounds(s, '<', i);
            lemma_ascii_pieces(s, find_or_end(s, '<', i));
        } else {
            lemma_find_char_from_bounds(s, '>', i + 1);
            let end = find_or_end(s, '>', i + 1);
            let tag = s.subrange(i + 1, end);
            let at = after_tag(s, end);
            lemma_ascii_part(s, i + 1, end);
            lemma_ascii_piece(s, tag, at);
            lemma_piece_at_bounds(s, tag, at);
            lemma_ascii_pieces(s, (piece_at(s, tag, at)->0).1);
        }
    }
}

proof fn lemma_ascii_piece(s: Seq<char>, tag: Seq<char>, at: int)
    requires
        is_ascii(s),
        is_ascii(tag),
        0 <= at <= s.len(),
    ensures
        piece_at(s, tag, at) is Some,
{
    lemma_find_any_case_bounds(s, "</script>"@, at);
    let end = raw_end(s, "</script>"@, at);
    lemma_ascii_part(s, at, end);
    law_ascii_script_reads(s.subrange(at, end));
    law_ascii_attr_reads(tag, "class"@);
    law_ascii_attr_reads(tag, "id"@);
    law_ascii_attr_reads(tag, "style"@);
    law_ascii_attr_reads(tag, "href"@);
    law_ascii_attr_reads(tag, "action"@);
    law_ascii_attr_reads(tag, "name"@);
    law_ascii_attr_reads(tag, "value"@);
    law_ascii_attr_reads(tag, "src"@);
    law_ascii_attr_reads(tag, "alt"@);
}

/// The value of an attribute is what was written between its quotation marks. The place of the
/// value, as counted in the lower case of the tag, must be the one where it was written: behind
/// `start`.
pub proof fn law_attribute_is_read_back(
    start: Seq<char>,
    quote: char,
    value: Seq<char>,
    tail: Seq<char>,
    low: Seq<char>,
    attr: Seq<char>,
)
    requires
        quote == '"' || quote == '\'',
        !value.contains(quote),
        attr_offset(low, attr) == Some(byte_len(start)),
    ensures
        attr_reads(start + seq![quote] + value + seq![quote] + tail, low, attr),
        attr_value(start + seq![quote] + value + seq![quote] + tail, low, attr) == Some(value),
{
    let tag = start + seq![quote] + value + seq![quote] + tail;
    let n = start.len() as int;
    assert(tag.take(n) =~= start);
    law_char_index(tag, byte_len(start), n);
    let part = tag.skip(n);
    assert(part[0] == quote);
    let rest = part.skip(1);
    assert(rest =~= value + seq![quote] + tail);
    lemma_find_char_from_bounds(rest, quote, 0);
    assert(rest[value.len() as int] == quote);
    assert forall|k: int| 0 <= k < value.len() implies rest[k] != quote by {
        assert(rest[k] == value[k]);
        assert(value.contains(value[k]));
    }
    assert(find_char(rest, quote) == Some(value.len() as int));
    assert(rest.take(value.len() as int) =~= value);
}

/// In an ASCII tag the value of an attribute is what was written between its quotation marks,
/// behind the first place where the name of the attribute is followed by an equals sign, in upper
/// or lower case letters.
pub proof fn law_ascii_attribute_is_read_back(
    head: Seq<char>,
    written: Seq<char>,
    quote: char,
    value: Seq<char>,
    tail: Seq<char>,
)
    requires
        is_ascii(head + written + "="@ + seq![quote] + value + seq![quote] + tail),
        quote == '"' || quote == '\'',
        !value.contains(quote),
        forall|k: int|
            0 <= k < head.len() ==> !#[trigger] occurs_at(
                lowercase(head + written + "="@ + seq![quote] + value + seq![quote] + tail),
                lowercase(written) + "="@,
                k,
            ),
    ensures
        attr_value(
            head + written + "="@ + seq![quote] + value + seq![quote] + tail,
            lowercase(head + written + "="@ + seq![quote] + value + seq![quote] + tail),
            lowercase(written),
        ) == Some(value),
{
    let start = head + written + "="@;
    let tag = start + seq![quote] + value + seq![quote] + tail;
    let low = lowercase(tag);
    let h = head.len() as int;
    let n = start.len() as int;
    reveal_strlit("=");
    assert(tag.subrange(h, n - 1) =~= written);
    lemma_ascii_part(tag, h, n - 1);
    law_ascii_lowercase(tag);
    law_ascii_lowercase(written);
    let search = lowercase(written) + "="@;
    assert(low.subrange(h, n) =~= search) by {
        assert forall|k: int| 0 <= k < search.len() implies low.subrange(h, n)[k] == search[k] by {
            assert(low[h + k] == ascii_lower(tag[h + k]));
            if k < written.len() {
                assert(tag[h + k] == written[k]);
                assert(lowercase(written)[k] == ascii_lower(written[k]));
            } else {
                assert(tag[h + k] == '=');
            }
        }
    }
    assert(occurs_at(low, search, h));
    law_find_is_first(low, search, 0);
    assert(find(low, search) == Some(h));
    lemma_ascii_place(tag, search);
    assert(tag.take(n) =~= start);
    assert(tag.take(n) =~= tag.subrange(0, n));
    lemma_ascii_part(tag, 0, n);
    law_ascii_byte_len(start);
    assert(attr_offset(low, lowercase(written)) == Some(byte_len(start)));
    law_attribute_is_read_back(start, quote, value, tail, low, lowercase(written));
}

/// Whether `piece`, where it is text, holds no tag, and where it is a heading, is of the first or
/// second level.
pub open spec fn holds_no_tag(piece: PieceView) -> bool {
    match piece {
        PieceView::Text(text) => !text.contains('<'),
        PieceView::Open(tag) => tag.kind matches TagKind::Heading(level) ==> level == 1 || level == 2,
        _ => true,
    }
}

/// A page is cut into pieces at its tags: no text among them holds one, and there are headings of two
/// levels only.
pub proof fn law_pieces_hold_no_tag(html: Seq<char>)
    ensures
        page_pieces(html) matches Some(pieces) ==> forall|k: int|
            0 <= k < pieces.len() ==> holds_no_tag(#[trigger] pieces[k]),
{
    lemma_pieces_hold_no_tag(html, 0);
}

proof fn lemma_pieces_hold_no_tag(s: Seq<char>, i: int)
    ensures
        pieces_from(s, i) matches Some(pieces) ==> forall|k: int|
            0 <= k < pieces.len() ==> holds_no_tag(#[trigger] pieces[k]),
    decreases s.len() - i,
{
    if 0 <= i < s.len() && pieces_from(s, i) is Some {
        let pieces = pieces_from(s, i)->0;
        lemma_find_char_from_bounds(s, '<', i);
        let end = find_or_end(s, '>', i + 1);
        let tag = s.subrange(i + 1, end);
        lemma_find_char_from_bounds(s, '>', i + 1);
        lemma_piece_at_bounds(s, tag, after_tag(s, end));
        let (first, next) = if s[i] != '<' {
            let next = find_or_end(s, '<', i);
            (PieceView::Text(s.subrange(i, next)), next)
        } else {
            piece_at(s, tag, after_tag(s, end))->0
        };
        lemma_pieces_hold_no_tag(s, next);
        let rest = pieces_from(s, next)->0;
        assert(pieces =~= seq![first] + rest);
        assert(holds_no_tag(first)) by {
            if s[i] != '<' {
                let text = s.subrange(i, next);
                assert forall|k: int| 0 <= k < text.len() implies text[k] != '<' by {
                    assert(text[k] == s[i + k]);
                }
            }
        }
        assert forall|k: int| 0 <= k < pieces.len() implies holds_no_tag(#[trigger] pieces[k]) by {
            if k > 0 {
                assert(pieces[k] == rest[k - 1]);
            }
        }
    }
}

/// A page without tags is one piece of text.
pub proof fn law_text_is_one_piece(html: Seq<char>)
    requires
        !html.contains('<'),
        html.len() > 0,
    ensures
        page_pieces(html) == Some(seq![PieceView::Text(html)]),
{
    lemma_find_char_from_bounds(html, '<', 0);
    assert(html.contains(html[0]));
    if find_char_from(html, '<', 0) is Some {
        assert(html.contains(html[find_char_from(html, '<', 0)->0]));
    }
    assert(html.subrange(0, html.len() as int) =~= html);
    assert(pieces_from(html, html.len() as int) == Some(Seq::<PieceView>::empty()));
    assert(seq![PieceView::Text(html)] + Seq::<PieceView>::empty() =~= seq![PieceView::Text(html)]);
}

/// The cookie that a script sets is the text between its quotation marks, or up to a semicolon. The
/// place of the cookie, as counted in the lower case of the script, must be the one where it was
/// written, and only a text that is marked as that of a bot check counts.
pub proof fn law_cookie_is_read_back(
    head: Seq<char>,
    name: Seq<char>,
    quote: char,
    value: Seq<char>,
    end: char,
    tail: Seq<char>,
    low: Seq<char>,
)
    requires
        !is_white(quote),
        !is_white(end),
        end == quote || end == ';',
        !name.contains('='),
        !value.contains(quote),
        !value.contains(';'),
        contains(value, "__test="@),
        cookie_offset(low) == Some(byte_len(head)),
    ensures
        script_reads(head + name + "="@ + seq![quote] + value + seq![end] + tail, low),
        script_cookie(head + name + "="@ + seq![quote] + value + seq![end] + tail, low) == Some(value),
{
    let script = head + name + "="@ + seq![quote] + value + seq![end] + tail;
    let h = head.len() as int;
    let n = name.len() as int;
    let len = value.len() as int;
    reveal_strlit("=");
    assert(script.take(h) =~= head);
    law_char_index(script, byte_len(head), h);
    let after = script.skip(h);
    assert(after =~= name + "="@ + seq![quote] + value + seq![end] + tail);
    lemma_find_char_from_bounds(after, '=', 0);
    assert(after[n] == '=');
    assert forall|k: int| 0 <= k < n implies after[k] != '=' by {
        assert(after[k] == name[k]);
        assert(name.contains(name[k]));
    }
    assert(find_char(after, '=') == Some(n));
    let assigned = after.skip(n + 1);
    assert(assigned =~= seq![quote] + value + seq![end] + tail);
    assert(trim_start(assigned) == assigned);
    lemma_trim_end_len(assigned);
    assert(assigned[len + 1] == end);
    lemma_trim_end_keeps(assigned, len + 1);
    let v = trim(assigned);
    assert(v[0] == quote);
    let rest = v.skip(1);
    assert(rest.len() > len && rest[len] == end);
    assert forall|k: int| 0 <= k < len implies rest[k] == value[k] && rest[k] != quote && rest[k] != ';' by {
        assert(rest[k] == assigned[k + 1]);
        assert(value.contains(value[k]));
    }
    lemma_find_char_from_bounds(rest, quote, 0);
    let first = before(rest, quote);
    lemma_find_char_from_bounds(first, ';', 0);
    if end == quote {
        assert(find_char(rest, quote) == Some(len));
        assert(first =~= value);
        assert(find_char(first, ';') is None);
    } else {
        assert(first.len() > len && first =~= rest.take(first.len() as int));
        assert(first[len] == ';');
        assert forall|k: int| 0 <= k < len implies first[k] != ';' by {
            assert(first[k] == rest[k]);
        }
        assert(find_char(first, ';') == Some(len));
        assert(first.take(len) =~= value);
    }
}

/// Whether a tag called `name` opens an element whose content is cut into pieces.
pub open spec fn opens_element(name: Seq<char>) -> bool {
    &&& name != "title"@ && name != "script"@ && name != "style"@ && name != "head"@
    &&& !starts_with(name, "/"@)
}

/// `piece` before `rest`, where `rest` could be cut.
pub open spec fn put_first(piece: PieceView, rest: Option<Seq<PieceView>>) -> Option<Seq<PieceView>> {
    match rest {
        Some(pieces) => Some(seq![piece] + pieces),
        None => None,
    }
}

/// An opening tag is the first piece of what it begins.
pub proof fn law_opening_tag_comes_first(tag: Seq<char>, rest: Seq<char>)
    requires
        !tag.contains('>'),
        opens_element(first_word(lowercase(tag))),
        tag_reads(tag, lowercase(tag), first_word(lowercase(tag))),
    ensures
        page_pieces(seq!['<'] + tag + seq!['>'] + rest) == put_first(
            PieceView::Open(open_tag(tag, lowercase(tag), first_word(lowercase(tag)))),
            page_pieces(rest),
        ),
{
    let html = seq!['<'] + tag + seq!['>'] + rest;
    let n = 2 + tag.len() as int;
    lemma_opening_tag(tag);
    assert(html.subrange(1, n - 1) =~= tag);
    assert(html.skip(n) =~= rest);
    lemma_first_piece(
        html,
        tag,
        PieceView::Open(open_tag(tag, lowercase(tag), first_word(lowercase(tag)))),
        n,
    );
}

/// A closing tag is the first piece of what it begins. Outside ASCII the lower case of the tag must
/// begin with the slash as well.
pub proof fn law_closing_tag_comes_first(close: Seq<char>, rest: Seq<char>)
    requires
        !close.contains('>'),
        is_ascii(close) || starts_with(first_word(lowercase(seq!['/'] + close)), "/"@),
    ensures
        page_pieces(seq!['<', '/'] + close + seq!['>'] + rest) == put_first(
            PieceView::Close { form: first_word(lowercase(seq!['/'] + close)) == "/form"@ },
            page_pieces(rest),
        ),
{
    let html = seq!['<', '/'] + close + seq!['>'] + rest;
    let tag = seq!['/'] + close;
    let n = 2 + tag.len() as int;
    lemma_closing_tag(close);
    assert(html.subrange(1, n - 1) =~= tag);
    assert(html.skip(n) =~= rest);
    lemma_first_piece(html, tag, PieceView::Close { form: first_word(lowercase(tag)) == "/form"@ }, n);
}

/// Text is the first piece of what it begins, up to the next tag.
pub proof fn law_text_comes_first(text: Seq<char>, rest: Seq<char>)
    requires
        text.len() > 0,
        !text.contains('<'),
        rest.len() > 0 ==> rest[0] == '<',
    ensures
        page_pieces(text + rest) == put_first(PieceView::Text(text), page_pieces(rest)),
{
    let html = text + rest;
    let n = text.len() as int;
    assert(html.subrange(0, n) =~= text);
    assert(html.skip(n) =~= rest);
    assert(html[0] == text[0] && text.contains(text[0]));
    if rest.len() > 0 {
        assert(html[n] == '<');
        lemma_first_mark(html, '<', 0, n, text);
    } else {
        assert(html =~= text);
        lemma_find_char_from_bounds(html, '<', 0);
    }
    law_rest_stands_alone(html, n);
}

/// A title is the first piece of what it begins, and is the text up to the first closing tag, in
/// upper or lower case letters, without the space around it.
pub proof fn law_title_comes_first(tag: Seq<char>, title: Seq<char>, end: Seq<char>, rest: Seq<char>)
    requires
        !tag.contains('>'),
        first_word(lowercase(tag)) == "title"@,
        ascii_lowercase(end) == "</title>"@,
        forall|k: int| 0 <= k < title.len() ==> !#[trigger] occurs_any_case(title + end, "</title>"@, k),
    ensures
        page_pieces(seq!['<'] + tag + seq!['>'] + title + end + rest) == put_first(
            PieceView::Title(Some(trim(title))),
            page_pieces(rest),
        ),
{
    let html = seq!['<'] + tag + seq!['>'] + title + end + rest;
    let a = 2 + tag.len() as int;
    let n = a + title.len();
    lemma_raw_parts(tag, title, end, rest);
    assert(html.subrange(a, n) =~= title);
    lemma_raw_end(html, "</title>"@, a, title, end);
    lemma_first_piece(html, tag, PieceView::Title(Some(trim(title))), n + end.len());
}

/// A script is the first piece of what it begins, and ends with its first closing tag, in upper or
/// lower case letters.
pub proof fn law_script_comes_first(tag: Seq<char>, content: Seq<char>, end: Seq<char>, rest: Seq<char>)
    requires
        !tag.contains('>'),
        first_word(lowercase(tag)) == "script"@,
        ascii_lowercase(end) == "</script>"@,
        forall|k: int|
            0 <= k < content.len() ==> !#[trigger] occurs_any_case(content + end, "</script>"@, k),
        script_reads(content + end, lowercase(content + end)),
    ensures
        page_pieces(seq!['<'] + tag + seq!['>'] + content + end + rest) == put_first(
            PieceView::Script {
                cookie: script_cookie(content + end, lowercase(content + end)),
                reload: script_reloads(lowercase(content + end)),
            },
            page_pieces(rest),
        ),
{
    let html = seq!['<'] + tag + seq!['>'] + content + end + rest;
    let a = 2 + tag.len() as int;
    let n = a + content.len();
    let low = lowercase(content + end);
    lemma_raw_parts(tag, content, end, rest);
    lemma_raw_end(html, "</script>"@, a, content, end);
    lemma_raw_names_differ();
    assert("</script>"@.len() == end.len());
    lemma_first_piece(
        html,
        tag,
        PieceView::Script { cookie: script_cookie(content + end, low), reload: script_reloads(low) },
        n + end.len(),
    );
}

/// An element whose content is not shown is the first piece of what it begins, and ends with its
/// first closing tag, in upper or lower case letters.
pub proof fn law_hidden_element_comes_first(
    tag: Seq<char>,
    content: Seq<char>,
    close: Seq<char>,
    end: Seq<char>,
    rest: Seq<char>,
)
    requires
        !tag.contains('>'),
        (first_word(lowercase(tag)) == "style"@ && close == "</style>"@) || (first_word(lowercase(tag))
            == "head"@ && close == "</head>"@),
        ascii_lowercase(end) == close,
        forall|k: int| 0 <= k < content.len() ==> !#[trigger] occurs_any_case(content + end, close, k),
    ensures
        page_pieces(seq!['<'] + tag + seq!['>'] + content + end + rest) == put_first(
            PieceView::Hidden,
            page_pieces(rest),
        ),
{
    let html = seq!['<'] + tag + seq!['>'] + content + end + rest;
    let a = 2 + tag.len() as int;
    let n = a + content.len();
    lemma_raw_parts(tag, content, end, rest);
    lemma_raw_end(html, close, a, content, end);
    lemma_raw_names_differ();
    lemma_first_piece(html, tag, PieceView::Hidden, n + end.len());
}

proof fn lemma_raw_names_differ()
    ensures
        "script"@ != "title"@ && "style"@ != "title"@ && "style"@ != "script"@,
        "head"@ != "title"@ && "head"@ != "script"@ && "head"@ != "style"@,
{
    reveal_strlit("title");
    reveal_strlit("script");
    reveal_strlit("style");
    reveal_strlit("head");
    assert("title"@[0] == 't' && "script"@[0] == 's' && "style"@[0] == 's' && "head"@[0] == 'h');
    assert("script"@[1] == 'c' && "style"@[1] == 't');
}

/// Where the parts of an element stand whose content is not cut into pieces.
proof fn lemma_raw_parts(tag: Seq<char>, content: Seq<char>, end: Seq<char>, rest: Seq<char>)
    ensures
        ({
            let html = seq!['<'] + tag + seq!['>'] + content + end + rest;
            let a = 2 + tag.len() as int;
            let n = a + content.len();
            &&& html.len() == n + end.len() + rest.len()
            &&& html[0] == '<' && html[a - 1] == '>'
            &&& html.subrange(1, a - 1) == tag
            &&& html.subrange(a, n + end.len()) == content + end
            &&& html.skip(n + end.len()) == rest
        }),
{
    let html = seq!['<'] + tag + seq!['>'] + content + end + rest;
    let a = 2 + tag.len() as int;
    let n = a + content.len();
    assert(html.subrange(1, a - 1) =~= tag);
    assert(html.subrange(a, n + end.len()) =~= content + end);
    assert(html.skip(n + end.len()) =~= rest);
}

/// Content that holds no closing tag ends with the one behind it.
proof fn lemma_raw_end(s: Seq<char>, close: Seq<char>, at: int, content: Seq<char>, end: Seq<char>)
    requires
        0 <= at,
        at + content.len() + end.len() <= s.len(),
        s.subrange(at, at + content.len() + end.len()) == content + end,
        ascii_lowercase(end) == close,
        forall|k: int| 0 <= k < content.len() ==> !#[trigger] occurs_any_case(content + end, close, k),
    ensures
        find_any_case(s, close, at) == Some(at + content.len()),
    decreases content.len(),
{
    let both = content + end;
    assert(close.len() == end.len());
    if content.len() == 0 {
        assert(s.subrange(at, at + close.len()) =~= end);
    } else {
        assert(!occurs_any_case(both, close, 0));
        assert(s.subrange(at, at + close.len()) =~= both.subrange(0, 0int + close.len())) by {
            assert forall|k: int| 0 <= k < close.len() implies s.subrange(at, at + close.len())[k]
                == both[k] by {
                assert(s.subrange(at, at + content.len() + end.len())[k] == both[k]);
            }
        }
        let left = content.skip(1);
        assert(s.subrange(at + 1, at + 1 + left.len() + end.len()) =~= left + end) by {
            assert forall|k: int| 0 <= k < left.len() + end.len() implies s.subrange(
                at + 1,
                at + 1 + left.len() + end.len(),
            )[k] == (left + end)[k] by {
                assert(s.subrange(at, at + content.len() + end.len())[k + 1] == both[k + 1]);
            }
        }
        assert forall|k: int| 0 <= k < left.len() implies !#[trigger] occurs_any_case(left + end, close, k) by {
            assert(!occurs_any_case(both, close, k + 1));
            assert((left + end).subrange(k, k + close.len()) =~= both.subrange(k + 1, k + 1 + close.len()));
        }
        lemma_raw_end(s, close, at + 1, left, end);
    }
}

/// A tag at the start is the first piece, and what follows is cut as if it stood alone.
proof fn lemma_first_piece(html: Seq<char>, tag: Seq<char>, piece: PieceView, next: int)
    requires
        tag.len() + 2 <= next <= html.len(),
        html[0] == '<',
        html[1 + tag.len() as int] == '>',
        html.subrange(1, 1 + tag.len() as int) == tag,
        !tag.contains('>'),
        piece_at(html, tag, 2 + tag.len() as int) == Some((piece, next)),
    ensures
        page_pieces(html) == put_first(piece, page_pieces(html.skip(next))),
{
    lemma_first_mark(html, '>', 1, 1 + tag.len() as int, tag);
    law_rest_stands_alone(html, next);
}

/// What opens an element is an opening tag, wherever it stands.
proof fn lemma_opening_tag(tag: Seq<char>)
    requires
        opens_element(first_word(lowercase(tag))),
        tag_reads(tag, lowercase(tag), first_word(lowercase(tag))),
    ensures
        forall|s: Seq<char>, at: int| #[trigger]
            piece_at(s, tag, at) == Some(
                (PieceView::Open(open_tag(tag, lowercase(tag), first_word(lowercase(tag)))), at),
            ),
{
}

/// The first `c` from `from` on is the one at `to`, where `part` without one stands between.
proof fn lemma_first_mark(s: Seq<char>, c: char, from: int, to: int, part: Seq<char>)
    requires
        0 <= from <= to < s.len(),
        s[to] == c,
        s.subrange(from, to) == part,
        !part.contains(c),
    ensures
        find_or_end(s, c, from) == to,
{
    lemma_find_char_from_bounds(s, c, from);
    assert forall|k: int| from <= k < to implies s[k] != c by {
        assert(part[k - from] == s[k]);
        assert(part.contains(part[k - from]));
    }
}

/// What begins with a slash is a closing tag, wherever it stands.
proof fn lemma_closing_tag(close: Seq<char>)
    requires
        is_ascii(close) || starts_with(first_word(lowercase(seq!['/'] + close)), "/"@),
        !close.contains('>'),
    ensures
        !(seq!['/'] + close).contains('>'),
        forall|s: Seq<char>, at: int| #[trigger]
            piece_at(s, seq!['/'] + close, at) == Some(
                (
                    PieceView::Close { form: first_word(lowercase(seq!['/'] + close)) == "/form"@ },
                    at,
                ),
            ),
{
    let tag = seq!['/'] + close;
    assert forall|i: int| 0 <= i < tag.len() implies tag[i] != '>' by {
        if i > 0 {
            assert(tag[i] == close[i - 1]);
            assert(close.contains(close[i - 1]));
        }
    }
    let low = lowercase(tag);
    let name = first_word(low);
    reveal_strlit("/");
    if is_ascii(close) {
        assert forall|i: int| 0 <= i < tag.len() implies #[trigger] tag[i] <= '\u{7f}' by {
            if i > 0 {
                assert(tag[i] == close[i - 1]);
            }
        }
        assert(is_ascii(tag));
        assert(low[0] == ascii_lower(tag[0]));
        assert(low[0] == '/');
        assert(trim_start(low) == low);
        lemma_word_len(low);
        assert(name[0] == '/');
        assert(name.take(1) =~= "/"@);
    }
    assert(starts_with(name, "/"@));
    assert("/"@.len() == 1 && "/"@[0] == '/');
    assert(name[0] == name.take(1)[0]);
    reveal_strlit("title");
    reveal_strlit("script");
    reveal_strlit("style");
    reveal_strlit("head");
    assert("title"@[0] == 't' && "script"@[0] == 's' && "style"@[0] == 's' && "head"@[0] == 'h');
}

/// What stands behind a piece is cut as if it stood alone.
pub proof fn law_rest_stands_alone(s: Seq<char>, i: int)
    requires
        0 <= i <= s.len(),
    ensures
        pieces_from(s, i) == page_pieces(s.skip(i)),
{
    lemma_pieces_shift(s, i, 0);
}

proof fn lemma_pieces_shift(s: Seq<char>, d: int, i: int)
    requires
        0 <= d,
        0 <= i,
        d + i <= s.len(),
    ensures
        pieces_from(s, d + i) == pieces_from(s.skip(d), i),
    decreases s.len() - d - i,
{
    let t = s.skip(d);
    if i < t.len() {
        assert(t[i] == s[d + i]);
        if t[i] != '<' {
            lemma_mark_shift(s, d, '<', i);
            let next = find_or_end(t, '<', i);
            lemma_find_char_from_bounds(t, '<', i);
            assert(t.subrange(i, next) =~= s.subrange(d + i, d + next));
            lemma_pieces_shift(s, d, next);
        } else {
            lemma_mark_shift(s, d, '>', i + 1);
            let end = find_or_end(t, '>', i + 1);
            lemma_find_char_from_bounds(t, '>', i + 1);
            let tag = t.subrange(i + 1, end);
            assert(tag =~= s.subrange(d + i + 1, d + end));
            let at = after_tag(t, end);
            assert(after_tag(s, d + end) == d + at);
            lemma_piece_shift(s, d, tag, at);
            lemma_piece_at_bounds(t, tag, at);
            if piece_at(t, tag, at) is Some {
                lemma_pieces_shift(s, d, (piece_at(t, tag, at)->0).1);
            }
        }
    }
}

proof fn lemma_mark_shift(s: Seq<char>, d: int, c: char, from: int)
    requires
        0 <= d,
        0 <= from,
        d + from <= s.len(),
    ensures
        find_or_end(s, c, d + from) == d + find_or_end(s.skip(d), c, from),
{
    lemma_find_char_from_bounds(s, c, d + from);
    lemma_find_char_from_bounds(s.skip(d), c, from);
    assert forall|k: int| from <= k < s.len() - d implies s.skip(d)[k] == s[d + k] by {}
    if find_char_from(s, c, d + from) is Some {
        let i = find_char_from(s, c, d + from)->0;
        assert(s.skip(d)[i - d] == c);
    }
}

proof fn lemma_any_case_shift(s: Seq<char>, d: int, p: Seq<char>, from: int)
    requires
        0 <= d,
        0 <= from,
        d + from <= s.len(),
    ensures
        find_any_case(s, p, d + from) == (match find_any_case(s.skip(d), p, from) {
            Some(i) => Some(d + i),
            None => None::<int>,
        }),
    decreases s.len() + 1 - from,
{
    let t = s.skip(d);
    if from + p.len() <= t.len() {
        assert(t.subrange(from, from + p.len()) =~= s.subrange(d + from, d + from + p.len()));
        if !occurs_any_case(t, p, from) {
            if d + from < s.len() {
                lemma_any_case_shift(s, d, p, from + 1);
            }
        }
    }
}

proof fn lemma_piece_shift(s: Seq<char>, d: int, tag: Seq<char>, at: int)
    requires
        0 <= d,
        0 <= at,
        d + at <= s.len(),
    ensures
        piece_at(s, tag, d + at) == (match piece_at(s.skip(d), tag, at) {
            Some((piece, next)) => Some((piece, d + next)),
            None => None,
        }),
{
    let t = s.skip(d);
    lemma_any_case_shift(s, d, "</title>"@, at);
    lemma_any_case_shift(s, d, "</script>"@, at);
    lemma_any_case_shift(s, d, "</style>"@, at);
    lemma_any_case_shift(s, d, "</head>"@, at);
    lemma_find_any_case_bounds(t, "</title>"@, at);
    lemma_find_any_case_bounds(t, "</script>"@, at);
    if find_any_case(t, "</title>"@, at) is Some {
        let i = find_any_case(t, "</title>"@, at)->0;
        assert(t.subrange(at, i) =~= s.subrange(d + at, d + i));
    }
    let end = raw_end(t, "</script>"@, at);
    assert(t.subrange(at, end) =~= s.subrange(d + at, d + end));
}

/// The value of an attribute stands behind the first place where the lower case of the tag has its
/// name and an equals sign; the bytes up to there are counted in the lower case, and as many are
/// passed over in the tag. Behind them, the value is what stands between quotation marks of one
/// kind, or behind an opening one that is never closed; without a quotation mark there is no value,
/// and at the end of the tag there is an empty one.
pub proof fn law_attribute_value(
    front: Seq<char>,
    attr: Seq<char>,
    back: Seq<char>,
    start: Seq<char>,
    rest: Seq<char>,
)
    requires
        forall|k: int|
            0 <= k < front.len() ==> !#[trigger] occurs_at(
                front + (attr + seq!['=']) + back,
                attr + seq!['='],
                k,
            ),
        byte_len(start) == byte_len(front) + byte_len(attr) + 1,
    ensures
        ({
            let low = front + (attr + seq!['=']) + back;
            let tag = start + rest;
            &&& attr_reads(tag, low, attr)
            &&& rest.len() == 0 ==> attr_value(tag, low, attr) == Some(Seq::<char>::empty())
            &&& rest.len() > 0 && rest[0] != '"' && rest[0] != '\'' ==> attr_value(tag, low, attr) is None
            &&& rest.len() > 0 && (rest[0] == '"' || rest[0] == '\'') ==> {
                &&& !rest.skip(1).contains(rest[0]) ==> attr_value(tag, low, attr) == Some(rest.skip(1))
                &&& forall|n: int|
                    0 <= n < rest.len() - 1 && rest[n + 1] == rest[0] && !(#[trigger] rest.subrange(
                        1,
                        n + 1,
                    )).contains(rest[0]) ==> attr_value(tag, low, attr) == Some(rest.subrange(1, n + 1))
            }
        }),
{
    let search = attr + seq!['='];
    let low = front + search + back;
    let tag = start + rest;
    let n = start.len() as int;
    lemma_attr_offset(front, attr, back);
    assert(tag.take(n) =~= start);
    law_char_index(tag, byte_len(start), n);
    assert(tag.skip(n) =~= rest);
    assert(attr_value(tag, low, attr) == quoted(rest));
    if rest.len() > 0 {
        let after = rest.skip(1);
        lemma_find_char_from_bounds(after, rest[0], 0);
        if !after.contains(rest[0]) {
            law_before_mark(after, rest[0], Seq::empty());
        }
        assert forall|m: int|
            0 <= m < rest.len() - 1 && rest[m + 1] == rest[0] && !(#[trigger] rest.subrange(
                1,
                m + 1,
            )).contains(rest[0]) implies before(after, rest[0]) == rest.subrange(1, m + 1) by {
            let value = rest.subrange(1, m + 1);
            law_before_mark(value, rest[0], after.skip(m + 1));
            assert(after =~= value + seq![rest[0]] + after.skip(m + 1));
        }
    } else {
        assert(rest =~= Seq::<char>::empty());
    }
}

/// Where the value of an attribute begins, as counted in the lower case of its tag.
proof fn lemma_attr_offset(front: Seq<char>, attr: Seq<char>, back: Seq<char>)
    requires
        forall|k: int|
            0 <= k < front.len() ==> !#[trigger] occurs_at(
                front + (attr + seq!['=']) + back,
                attr + seq!['='],
                k,
            ),
    ensures
        attr_offset(front + (attr + seq!['=']) + back, attr) == Some(
            byte_len(front) + byte_len(attr) + 1,
        ),
{
    let search = attr + seq!['='];
    let low = front + search + back;
    let n = front.len() as int;
    reveal_strlit("=");
    assert("="@ =~= seq!['=']);
    assert(low.subrange(n, n + search.len()) =~= search);
    assert(occurs_at(low, search, n));
    law_find_is_first(low, search, 0);
    let i = find(low, search)->0;
    assert(i <= n && occurs_at(low, search, i));
    assert(i == n);
    assert(low.take(n) =~= front);
    lemma_byte_len_concat(attr, seq!['=']);
    assert(is_ascii(seq!['=']));
    law_ascii_byte_len(seq!['=']);
    assert(byte_len(search) == byte_len(attr) + 1);
    assert(attr_offset(low, attr) == Some(byte_len(front) + byte_len(search)));
}

/// An attribute whose name is nowhere followed by an equals sign has no value. One whose place, as
/// counted in the lower case, does not fall between two characters of the tag cannot be read.
pub proof fn law_attribute_is_missing(
    tag: Seq<char>,
    low: Seq<char>,
    attr: Seq<char>,
    front: Seq<char>,
    back: Seq<char>,
)
    ensures
        (forall|k: int| !#[trigger] occurs_at(low, attr + seq!['='], k)) ==> attr_reads(tag, low, attr)
            && attr_value(tag, low, attr) is None,
        low == front + (attr + seq!['=']) + back && (forall|k: int|
            0 <= k < front.len() ==> !#[trigger] occurs_at(low, attr + seq!['='], k)) && (forall|i: int|
            0 <= i <= tag.len() ==> #[trigger] byte_len(tag.take(i)) != byte_len(front) + byte_len(attr)
                + 1) ==> !attr_reads(tag, low, attr),
{
    let search = attr + seq!['='];
    reveal_strlit("=");
    assert(attr + "="@ =~= search);
    law_find_is_first(low, search, 0);
    if low == front + search + back && (forall|k: int|
        0 <= k < front.len() ==> !#[trigger] occurs_at(low, search, k)) {
        lemma_attr_offset(front, attr, back);
        let offset = byte_len(front) + byte_len(attr) + 1;
        lemma_char_index_bounds(tag, offset);
        if char_index(tag, offset) is Some {
            law_char_index(tag, offset, char_index(tag, offset)->0);
        }
    }
}

/// Which attributes must be readable: those that say how an element looks, and besides only those that
/// its kind of element has.
pub proof fn law_attributes_that_are_read(tag: Seq<char>, low: Seq<char>, name: Seq<char>)
    ensures
        ({
            let looks = attr_reads(tag, low, "class"@) && attr_reads(tag, low, "id"@) && attr_reads(
                tag,
                low,
                "style"@,
            );
            let reads = tag_reads(tag, low, name);
            &&& name == "a"@ ==> (reads <==> looks && attr_reads(tag, low, "href"@))
            &&& name == "form"@ ==> (reads <==> looks && attr_reads(tag, low, "action"@))
            &&& name == "input"@ ==> (reads <==> looks && attr_reads(tag, low, "name"@))
            &&& name == "button"@ ==> (reads <==> looks && attr_reads(tag, low, "value"@))
            &&& name == "img"@ ==> (reads <==> looks && attr_reads(tag, low, "src"@) && attr_reads(
                tag,
                low,
                "alt"@,
            ))
            &&& name != "a"@ && name != "form"@ && name != "input"@ && name != "button"@ && name != "img"@
                ==> (reads <==> looks)
        }),
{
    lemma_names_differ();
}

/// The cookie of a script is looked for behind the first mention of `document.cookie` in its lower
/// case, the bytes before it being counted there and passed over in the script.
pub proof fn law_cookie_place(front: Seq<char>, back: Seq<char>, low: Seq<char>)
    requires
        forall|k: int|
            0 <= k < front.len() ==> !#[trigger] occurs_at(
                front + "document.cookie"@ + back,
                "document.cookie"@,
                k,
            ),
    ensures
        cookie_offset(front + "document.cookie"@ + back) == Some(byte_len(front)),
        (forall|k: int| !#[trigger] occurs_at(low, "document.cookie"@, k)) ==> cookie_offset(low) is None,
{
    let word = "document.cookie"@;
    let whole = front + word + back;
    let n = front.len() as int;
    assert(whole.subrange(n, n + word.len()) =~= word);
    assert(occurs_at(whole, word, n));
    law_find_is_first(whole, word, 0);
    law_find_is_first(low, word, 0);
    assert(find(whole, word) == Some(n));
    assert(whole.take(n) =~= front);
}

/// A script sets no cookie where it mentions none, where nothing is assigned behind the mention, and
/// where what is assigned is not marked as that of a bot check. A value that is never closed runs to
/// the end of the script.
pub proof fn law_cookie_is_missing(
    head: Seq<char>,
    name: Seq<char>,
    quote: char,
    value: Seq<char>,
    low: Seq<char>,
)
    requires
        !name.contains('='),
        !is_white(quote),
        !value.contains(quote),
        !value.contains(';'),
        value.len() > 0 && !is_white(value.last()),
    ensures
        cookie_offset(low) is None ==> script_reads(head, low) && script_cookie(head, low) is None,
        cookie_offset(low) == Some(byte_len(head)) ==> {
            &&& script_reads(head + name, low)
            &&& script_cookie(head + name, low) is None
            &&& script_reads(head + name + seq!['='] + (seq![quote] + value), low)
            &&& script_cookie(head + name + seq!['='] + (seq![quote] + value), low) == (if exists|k: int|
                #[trigger] occurs_at(value, "__test="@, k) {
                Some(value)
            } else {
                None
            })
        },
{
    if cookie_offset(low) == Some(byte_len(head)) {
        let h = head.len() as int;
        let n = name.len() as int;
        let assigned = seq![quote] + value;
        let bare = head + name;
        let script = head + name + seq!['='] + assigned;
        assert(bare.take(h) =~= head);
        assert(script.take(h) =~= head);
        law_char_index(bare, byte_len(head), h);
        law_char_index(script, byte_len(head), h);
        assert(bare.skip(h) =~= name);
        assert(script.skip(h) =~= name + seq!['='] + assigned);
        law_before_mark(name, '=', assigned);
        assert((name + seq!['='] + assigned).skip(n + 1) =~= assigned);
        assert(assigned[0] == quote);
        assert(assigned.last() == value.last());
        assert(trim(assigned) == assigned);
        assert(assigned.skip(1) =~= value);
        law_before_mark(value, quote, Seq::empty());
        law_before_mark(value, ';', Seq::empty());
        law_occurs_between(Seq::empty(), "__test="@, Seq::empty(), value, 0);
    }
}

/// A script loads its page again exactly where its lower case mentions `location.reload`.
pub proof fn law_reload_is_mentioned(low: Seq<char>)
    ensures
        script_reloads(low) <==> exists|k: int| #[trigger] occurs_at(low, "location.reload"@, k),
{
    law_occurs_between(Seq::empty(), "location.reload"@, Seq::empty(), low, 0);
}

/// A tag that is never closed runs to the end of the page, and is read as if it were closed there.
pub proof fn law_unclosed_tag(tag: Seq<char>)
    requires
        !tag.contains('>'),
    ensures
        page_pieces(seq!['<'] + tag) == page_pieces(seq!['<'] + tag + seq!['>']),
{
    let open = seq!['<'] + tag;
    let closed = open + seq!['>'];
    let n = open.len() as int;
    lemma_end_tags();
    assert(open.subrange(1, n) =~= tag);
    assert(closed.subrange(1, n) =~= tag);
    lemma_find_char_from_bounds(open, '>', 1);
    if find_char_from(open, '>', 1) is Some {
        let k = find_char_from(open, '>', 1)->0;
        assert(open[k] == tag[k - 1]);
        assert(tag.contains(tag[k - 1]));
    }
    lemma_first_mark(closed, '>', 1, n, tag);
    assert(find_or_end(open, '>', 1) == n);
    lemma_nothing_at_end(open, "</title>"@);
    lemma_nothing_at_end(open, "</script>"@);
    lemma_nothing_at_end(open, "</style>"@);
    lemma_nothing_at_end(open, "</head>"@);
    lemma_nothing_at_end(closed, "</title>"@);
    lemma_nothing_at_end(closed, "</script>"@);
    lemma_nothing_at_end(closed, "</style>"@);
    lemma_nothing_at_end(closed, "</head>"@);
    assert(open.subrange(n, n) =~= Seq::<char>::empty());
    assert(closed.subrange(n + 1, n + 1) =~= Seq::<char>::empty());
    match (piece_at(open, tag, n), piece_at(closed, tag, n + 1)) {
        (Some((a, i)), Some((b, j))) => {
            assert(a == b && i == n && j == n + 1);
            assert(pieces_from(open, i) == Some(Seq::<PieceView>::empty()));
            assert(pieces_from(closed, j) == Some(Seq::<PieceView>::empty()));
        },
        _ => {},
    }
}

proof fn lemma_nothing_at_end(s: Seq<char>, p: Seq<char>)
    requires
        p.len() > 0,
    ensures
        find_any_case(s, p, s.len() as int) is None,
{
}

proof fn lemma_end_tags()
    ensures
        "</title>"@.len() == 8 && "</script>"@.len() == 9 && "</style>"@.len() == 8 && "</head>"@.len()
            == 7,
{
    reveal_strlit("</title>");
    reveal_strlit("</script>");
    reveal_strlit("</style>");
    reveal_strlit("</head>");
}

/// A title, a script or an element that is not shown runs to the end of the page where it is never
/// closed. The title is lost then; the script counts.
pub proof fn law_unclosed_element(tag: Seq<char>, content: Seq<char>)
    requires
        !tag.contains('>'),
    ensures
        ({
            let name = first_word(lowercase(tag));
            let html = seq!['<'] + tag + seq!['>'] + content;
            &&& name == "title"@ && (forall|k: int| !#[trigger] occurs_any_case(content, "</title>"@, k))
                ==> page_pieces(html) == Some(seq![PieceView::Title(None)])
            &&& name == "style"@ && (forall|k: int| !#[trigger] occurs_any_case(content, "</style>"@, k))
                ==> page_pieces(html) == Some(seq![PieceView::Hidden])
            &&& name == "head"@ && (forall|k: int| !#[trigger] occurs_any_case(content, "</head>"@, k))
                ==> page_pieces(html) == Some(seq![PieceView::Hidden])
            &&& name == "script"@ && (forall|k: int| !#[trigger] occurs_any_case(content, "</script>"@, k))
                ==> page_pieces(html) == (if script_reads(content, lowercase(content)) {
                Some(
                    seq![
                        PieceView::Script {
                            cookie: script_cookie(content, lowercase(content)),
                            reload: script_reloads(lowercase(content)),
                        },
                    ],
                )
            } else {
                None
            })
        }),
{
    let name = first_word(lowercase(tag));
    let html = seq!['<'] + tag + seq!['>'] + content;
    let a = 2 + tag.len() as int;
    let n = html.len() as int;
    assert(html.skip(a) =~= content);
    assert(html.subrange(1, a - 1) =~= tag);
    assert(html.subrange(a, n) =~= content);
    lemma_first_mark(html, '>', 1, a - 1, tag);
    lemma_raw_names_differ();
    lemma_never_closed(html, a, content, "</title>"@);
    lemma_never_closed(html, a, content, "</style>"@);
    lemma_never_closed(html, a, content, "</head>"@);
    lemma_never_closed(html, a, content, "</script>"@);
    assert(pieces_from(html, n) == Some(Seq::<PieceView>::empty()));
    match piece_at(html, tag, a) {
        Some((piece, next)) => {
            assert(seq![piece] + Seq::<PieceView>::empty() =~= seq![piece]);
        },
        None => {},
    }
}

proof fn lemma_never_closed(html: Seq<char>, a: int, content: Seq<char>, end: Seq<char>)
    requires
        0 <= a <= html.len(),
        html.skip(a) == content,
    ensures
        (forall|k: int| !#[trigger] occurs_any_case(content, end, k)) ==> find_any_case(html, end, a) is None,
{
    if forall|k: int| !#[trigger] occurs_any_case(content, end, k) {
        lemma_any_case_shift(html, a, end, 0);
        lemma_not_found(content, end, 0);
    }
}

proof fn lemma_not_found(s: Seq<char>, p: Seq<char>, from: int)
    requires
        forall|k: int| !#[trigger] occurs_any_case(s, p, k),
    ensures
        find_any_case(s, p, from) is None,
    decreases s.len() + 1 - from,
{
    if 0 <= from && from + p.len() <= s.len() {
        lemma_not_found(s, p, from + 1);
    }
}

/// Where a tag has the contents of its element from: a link from `href`, a form from `action`, a field
/// from `name`, a button from `value`, and a picture from `src` and `alt`. A form without the attribute
/// has no address; the others have a text that stands in for it.
pub proof fn law_tag_contents(tag: Seq<char>, low: Seq<char>, name: Seq<char>)
    ensures
        ({
            let opened = open_tag(tag, low, name);
            &&& opened.name == name
            &&& opened.class == attr_value(tag, low, "class"@)
            &&& opened.id == attr_value(tag, low, "id"@)
            &&& opened.style == attr_value(tag, low, "style"@)
            &&& name == "a"@ ==> (opened.kind matches TagKind::Link(href) && {
                &&& attr_value(tag, low, "href"@) is Some ==> Some(href) == attr_value(tag, low, "href"@)
                &&& attr_value(tag, low, "href"@) is None ==> href.len() == 0
            })
            &&& name == "form"@ ==> (opened.kind matches TagKind::Form(action) && action == attr_value(
                tag,
                low,
                "action"@,
            ))
            &&& name == "input"@ ==> (opened.kind matches TagKind::Input(field) && {
                &&& attr_value(tag, low, "name"@) is Some ==> Some(field) == attr_value(tag, low, "name"@)
                &&& attr_value(tag, low, "name"@) is None ==> field == "input"@
            })
            &&& name == "button"@ ==> (opened.kind matches TagKind::Button(text) && {
                &&& attr_value(tag, low, "value"@) is Some ==> Some(text) == attr_value(tag, low, "value"@)
                &&& attr_value(tag, low, "value"@) is None ==> text == "Submit"@
            })
            &&& name == "img"@ ==> (opened.kind matches TagKind::Image { src, alt } && {
                &&& attr_value(tag, low, "src"@) is Some ==> Some(src) == attr_value(tag, low, "src"@)
                &&& attr_value(tag, low, "src"@) is None ==> src.len() == 0
                &&& attr_value(tag, low, "alt"@) is Some ==> Some(alt) == attr_value(tag, low, "alt"@)
                &&& attr_value(tag, low, "alt"@) is None ==> alt == "IMG"@
            })
        }),
{
    lemma_names_differ();
}

} // verus!
