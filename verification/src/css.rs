//! Styles and style sheets.
use vstd::hash_map::StringHashMap;
use vstd::prelude::*;
use crate::letters::{lower, lowercase, std_lowercase};
use crate::number::{float_literal, is_float_literal};
use crate::text::{
    find_char, find_char_from, find_mark, from_chars, is_text, is_white, law_before_mark, law_one_part,
    law_parts_hold_no_separator, law_parts_in_a_row, law_remove_all, law_remove_nothing, law_split_back,
    law_trim_ignores_space, law_two_parts, lemma_find_char_from_bounds, lemma_split_front, occurs_at,
    remove_all, slice_of, split, split_at_marks, split_from, texts, to_chars, trim, trim_end, trimmed,
    without,
};

verus! {

/// Where the content of a block stands between the two margins.
#[derive(Clone, Copy, Debug, PartialEq, Eq, Structural)]
pub enum Align {
    Min,
    Center,
    Max,
}

/// The colours that have a name.
#[derive(Clone, Copy, Debug, PartialEq, Eq, Structural)]
pub enum Color {
    Red,
    Blue,
    Green,
    Yellow,
    Gray,
    Black,
    White,
}

/// How a block is shown. What is `None` is left to the window. Sizes are kept as the decimal
/// literals of the style sheet, in points.
#[derive(Debug)]
pub struct CssStyle {
    pub align: Option<Align>,
    pub bg_color: Option<Color>,
    pub text_color: Option<Color>,
    pub font_size: Option<String>,
    pub padding: Option<String>,
    pub border_color: Option<Color>,
    pub is_bold: bool,
    pub is_italic: bool,
}

/// The contents of a [`CssStyle`].
pub struct StyleView {
    pub align: Option<Align>,
    pub bg_color: Option<Color>,
    pub text_color: Option<Color>,
    pub font_size: Option<Seq<char>>,
    pub padding: Option<Seq<char>>,
    pub border_color: Option<Color>,
    pub is_bold: bool,
    pub is_italic: bool,
}

/// The contents of a string that may be missing.
pub open spec fn opt_text(s: Option<String>) -> Option<Seq<char>> {
    match s {
        Some(t) => Some(t@),
        None => None,
    }
}

/// A copy of a string that may be missing.
pub(crate) fn copy_text(s: &Option<String>) -> (r: Option<String>)
    ensures
        opt_text(r) == opt_text(*s),
{
    match s {
        Some(t) => Some(t.clone()),
        None => None,
    }
}

impl View for CssStyle {
    type V = StyleView;

    open spec fn view(&self) -> StyleView {
        StyleView {
            align: self.align,
            bg_color: self.bg_color,
            text_color: self.text_color,
            font_size: opt_text(self.font_size),
            padding: opt_text(self.padding),
            border_color: self.border_color,
            is_bold: self.is_bold,
            is_italic: self.is_italic,
        }
    }
}

impl StyleView {
    /// The style that sets nothing.
    pub open spec fn plain() -> StyleView {
        StyleView {
            align: None,
            bg_color: None,
            text_color: None,
            font_size: None,
            padding: None,
            border_color: None,
            is_bold: false,
            is_italic: false,
        }
    }

    /// `self`, with whatever `over` sets taken from `over`.
    pub open spec fn merged(self, over: StyleView) -> StyleView {
        StyleView {
            align: later(self.align, over.align),
            bg_color: later(self.bg_color, over.bg_color),
            text_color: later(self.text_color, over.text_color),
            font_size: later(self.font_size, over.font_size),
            padding: later(self.padding, over.padding),
            border_color: later(self.border_color, over.border_color),
            is_bold: self.is_bold || over.is_bold,
            is_italic: self.is_italic || over.is_italic,
        }
    }

    /// Whether all that `self` sets is set in `after` too, be it to something else, and bold and italic
    /// stay.
    pub open spec fn stays_set_in(self, after: StyleView) -> bool {
        &&& self.align is Some ==> after.align is Some
        &&& self.bg_color is Some ==> after.bg_color is Some
        &&& self.text_color is Some ==> after.text_color is Some
        &&& self.font_size is Some ==> after.font_size is Some
        &&& self.padding is Some ==> after.padding is Some
        &&& self.border_color is Some ==> after.border_color is Some
        &&& self.is_bold ==> after.is_bold
        &&& self.is_italic ==> after.is_italic
    }

    /// Whether the sizes are decimal literals.
    pub open spec fn sizes_ok(self) -> bool {
        &&& self.font_size matches Some(s) ==> is_float_literal(s)
        &&& self.padding matches Some(s) ==> is_float_literal(s)
    }
}

/// `second` where it is there, else `first`.
pub open spec fn later<T>(first: Option<T>, second: Option<T>) -> Option<T> {
    if second is Some {
        second
    } else {
        first
    }
}

impl Clone for CssStyle {
    fn clone(&self) -> (r: CssStyle)
        ensures
            r@ == self@,
    {
        CssStyle {
            align: self.align,
            bg_color: self.bg_color,
            text_color: self.text_color,
            font_size: copy_text(&self.font_size),
            padding: copy_text(&self.padding),
            border_color: self.border_color,
            is_bold: self.is_bold,
            is_italic: self.is_italic,
        }
    }
}

impl Default for CssStyle {
    fn default() -> (r: CssStyle)
        ensures
            r@ == StyleView::plain(),
    {
        CssStyle {
            align: None,
            bg_color: None,
            text_color: None,
            font_size: None,
            padding: None,
            border_color: None,
            is_bold: false,
            is_italic: false,
        }
    }
}

impl CssStyle {
    /// Takes over from `other` whatever it sets.
    pub fn merge(&mut self, other: &CssStyle)
        ensures
            final(self)@ == old(self)@.merged(other@),
    {
        if other.align.is_some() {
            self.align = other.align;
        }
        if other.bg_color.is_some() {
            self.bg_color = other.bg_color;
        }
        if other.text_color.is_some() {
            self.text_color = other.text_color;
        }
        if other.font_size.is_some() {
            self.font_size = copy_text(&other.font_size);
        }
        if other.padding.is_some() {
            self.padding = copy_text(&other.padding);
        }
        if other.border_color.is_some() {
            self.border_color = other.border_color;
        }
        if other.is_bold {
            self.is_bold = true;
        }
        if other.is_italic {
            self.is_italic = true;
        }
    }
}

/// The colour that is called `n`, in lower case letters.
pub open spec fn color_called(n: Seq<char>) -> Option<Color> {
    if n == "red"@ {
        Some(Color::Red)
    } else if n == "blue"@ {
        Some(Color::Blue)
    } else if n == "green"@ {
        Some(Color::Green)
    } else if n == "yellow"@ {
        Some(Color::Yellow)
    } else if n == "gray"@ || n == "grey"@ {
        Some(Color::Gray)
    } else if n == "black"@ {
        Some(Color::Black)
    } else if n == "white"@ {
        Some(Color::White)
    } else {
        None
    }
}

/// The colour that `name` names, space around it and letter case aside.
pub open spec fn named_color(name: Seq<char>) -> Option<Color> {
    color_called(lowercase(trim(name)))
}

/// The colour that is called `name`, in lower case letters.
pub fn color_from_lowered(name: &str) -> (r: Option<Color>)
    ensures
        r == color_called(name@),
{
    let name = to_chars(name);
    if is_text(&name, "red") {
        Some(Color::Red)
    } else if is_text(&name, "blue") {
        Some(Color::Blue)
    } else if is_text(&name, "green") {
        Some(Color::Green)
    } else if is_text(&name, "yellow") {
        Some(Color::Yellow)
    } else if is_text(&name, "gray") || is_text(&name, "grey") {
        Some(Color::Gray)
    } else if is_text(&name, "black") {
        Some(Color::Black)
    } else if is_text(&name, "white") {
        Some(Color::White)
    } else {
        None
    }
}

/// The colour that `c` names.
pub fn parse_color(c: &str) -> (r: Option<Color>)
    ensures
        r == named_color(c@),
{
    let name = from_chars(&trimmed(&to_chars(c)));
    color_from_lowered(std_lowercase(name.as_str()).as_str())
}

/// The alignment that the value `v` of `text-align` asks for.
pub open spec fn named_align(v: Seq<char>) -> Align {
    if v == "center"@ {
        Align::Center
    } else if v == "right"@ {
        Align::Max
    } else {
        Align::Min
    }
}

/// The literal in a font size, whose unit may be `px` or `pt`.
pub open spec fn font_size_literal(v: Seq<char>) -> Seq<char> {
    trim(remove_all(remove_all(v, "px"@), "pt"@))
}

/// The literal in a padding, whose unit may be `px`.
pub open spec fn padding_literal(v: Seq<char>) -> Seq<char> {
    trim(remove_all(v, "px"@))
}

/// `style` after a declaration that gives the value `v` to the property `key`.
pub open spec fn with_property(style: StyleView, key: Seq<char>, v: Seq<char>) -> StyleView {
    if key == "text-align"@ {
        StyleView { align: Some(named_align(v)), ..style }
    } else if key == "background-color"@ {
        StyleView { bg_color: named_color(v), ..style }
    } else if key == "color"@ {
        StyleView { text_color: named_color(v), ..style }
    } else if key == "font-size"@ {
        if is_float_literal(font_size_literal(v)) {
            StyleView { font_size: Some(font_size_literal(v)), ..style }
        } else {
            style
        }
    } else if key == "padding"@ {
        if is_float_literal(padding_literal(v)) {
            StyleView { padding: Some(padding_literal(v)), ..style }
        } else {
            style
        }
    } else if key == "border"@ || key == "border-color"@ {
        StyleView { border_color: named_color(v), ..style }
    } else if key == "font-weight"@ {
        StyleView { is_bold: style.is_bold || v == "bold"@, ..style }
    } else if key == "font-style"@ {
        StyleView { is_italic: style.is_italic || v == "italic"@, ..style }
    } else {
        style
    }
}

/// `style` after the declaration `part`. One that does not have exactly one colon says nothing.
pub open spec fn with_declaration(style: StyleView, part: Seq<char>) -> StyleView {
    let kv = split(part, ':');
    if kv.len() == 2 {
        with_property(style, lowercase(trim(kv[0])), trim(kv[1]))
    } else {
        style
    }
}

/// The style that the declarations `parts` make, one after the other.
pub open spec fn declared(parts: Seq<Seq<char>>) -> StyleView
    decreases parts.len(),
{
    if parts.len() == 0 {
        StyleView::plain()
    } else {
        with_declaration(declared(parts.drop_last()), parts.last())
    }
}

/// `style` after the declarations `parts`, one after the other.
pub open spec fn declared_onto(style: StyleView, parts: Seq<Seq<char>>) -> StyleView
    decreases parts.len(),
{
    if parts.len() == 0 {
        style
    } else {
        with_declaration(declared_onto(style, parts.drop_last()), parts.last())
    }
}

/// The style that the list of declarations `s` describes.
pub open spec fn css_style(s: Seq<char>) -> StyleView {
    declared(split(s, ';'))
}

impl CssStyle {
    /// Gives the value `v` to the property `key`, which is in lower case letters. A property that is
    /// not known and a size that is no number change nothing; a colour that is not known takes the
    /// colour away.
    pub fn set_property(&mut self, key: &str, v: &str)
        ensures
            final(self)@ == with_property(old(self)@, key@, v@),
    {
        let key = to_chars(key);
        let value = to_chars(v);
        if is_text(&key, "text-align") {
            self.align = Some(
                if is_text(&value, "center") {
                    Align::Center
                } else if is_text(&value, "right") {
                    Align::Max
                } else {
                    Align::Min
                },
            );
        } else if is_text(&key, "background-color") {
            self.bg_color = parse_color(v);
        } else if is_text(&key, "color") {
            self.text_color = parse_color(v);
        } else if is_text(&key, "font-size") {
            let size = trimmed(&without(&without(&value, "px"), "pt"));
            if float_literal(&size) {
                self.font_size = Some(from_chars(&size));
            }
        } else if is_text(&key, "padding") {
            let p = trimmed(&without(&value, "px"));
            if float_literal(&p) {
                self.padding = Some(from_chars(&p));
            }
        } else if is_text(&key, "border") || is_text(&key, "border-color") {
            self.border_color = parse_color(v);
        } else if is_text(&key, "font-weight") {
            if is_text(&value, "bold") {
                self.is_bold = true;
            }
        } else if is_text(&key, "font-style") {
            if is_text(&value, "italic") {
                self.is_italic = true;
            }
        }
    }
}

/// The style that the list of declarations `style_str` describes.
pub fn parse_css_style(style_str: &str) -> (r: CssStyle)
    ensures
        r@ == css_style(style_str@),
{
    style_of(&to_chars(style_str))
}

fn style_of(style_str: &Vec<char>) -> (r: CssStyle)
    ensures
        r@ == css_style(style_str@),
{
    let mut style = CssStyle::default();
    let parts = split_at_marks(style_str, ';');
    let mut i: usize = 0;
    assert(texts(parts@).take(0) =~= Seq::<Seq<char>>::empty());
    while i < parts.len()
        invariant
            i <= parts.len(),
            style@ == declared(texts(parts@).take(i as int)),
        decreases parts.len() - i,
    {
        proof {
            assert(texts(parts@).take(i + 1).drop_last() =~= texts(parts@).take(i as int));
            assert(texts(parts@).take(i + 1).last() == parts@[i as int]@);
        }
        let kv = split_at_marks(&parts[i], ':');
        assert(texts(kv@).len() == kv@.len());
        if kv.len() == 2 {
            assert(texts(kv@)[0] == kv@[0]@ && texts(kv@)[1] == kv@[1]@);
            let key = from_chars(&lower(&trimmed(&kv[0])));
            let value = from_chars(&trimmed(&kv[1]));
            style.set_property(key.as_str(), value.as_str());
        }
        i = i + 1;
    }
    assert(texts(parts@).take(i as int) =~= texts(parts@));
    style
}

/// The style sheets of a page: for each selector the style that its rules make together.
pub struct StyleSheet {
    rules: StringHashMap<CssStyle>,
}

impl View for StyleSheet {
    type V = Map<Seq<char>, StyleView>;

    closed spec fn view(&self) -> Map<Seq<char>, StyleView> {
        self.rules@.map_values(|s: CssStyle| s@)
    }
}

/// The style that `sheet` gives to `selector`; a plain one where it has no rule for it.
pub open spec fn style_for(sheet: Map<Seq<char>, StyleView>, selector: Seq<char>) -> StyleView {
    if sheet.contains_key(selector) {
        sheet[selector]
    } else {
        StyleView::plain()
    }
}

impl StyleSheet {
    /// A style sheet without rules.
    pub fn new() -> (r: StyleSheet)
        ensures
            r@ == Map::<Seq<char>, StyleView>::empty(),
    {
        let r = StyleSheet { rules: StringHashMap::new() };
        assert(r@ =~= Map::<Seq<char>, StyleView>::empty());
        r
    }

    /// The style of `selector`.
    pub fn get(&self, selector: &str) -> (r: Option<&CssStyle>)
        ensures
            r is Some <==> self@.contains_key(selector@),
            r matches Some(style) ==> style@ == self@[selector@],
    {
        self.rules.get(selector)
    }

    /// Merges `style` into that of `selector`.
    pub fn merge_rule(&mut self, selector: String, style: &CssStyle)
        ensures
            final(self)@ == old(self)@.insert(
                selector@,
                style_for(old(self)@, selector@).merged(style@),
            ),
    {
        let mut entry = match self.rules.get(selector.as_str()) {
            Some(known) => known.clone(),
            None => CssStyle::default(),
        };
        entry.merge(style);
        self.rules.insert(selector, entry);
        assert(self@ =~= old(self)@.insert(
            selector@,
            style_for(old(self)@, selector@).merged(style@),
        ));
    }
}

/// `s` without its comments. The marks that open and close one go wherever they stand.
pub open spec fn without_comments(s: Seq<char>, in_comment: bool) -> Seq<char>
    decreases s.len(),
{
    if s.len() == 0 {
        s
    } else if s.len() > 1 && s[0] == '/' && s[1] == '*' {
        without_comments(s.skip(2), true)
    } else if s.len() > 1 && s[0] == '*' && s[1] == '/' {
        without_comments(s.skip(2), false)
    } else if in_comment {
        without_comments(s.skip(1), true)
    } else {
        seq![s[0]] + without_comments(s.skip(1), false)
    }
}

/// `sheet` after a rule that gives `style` to the selector written as `selector`, space around it
/// and letter case aside. An empty selector says nothing.
pub open spec fn with_selector(
    sheet: Map<Seq<char>, StyleView>,
    selector: Seq<char>,
    style: StyleView,
) -> Map<Seq<char>, StyleView> {
    let sel = lowercase(trim(selector));
    if sel.len() == 0 {
        sheet
    } else {
        sheet.insert(sel, style_for(sheet, sel).merged(style))
    }
}

/// `sheet` after a rule that gives `style` to each of `selectors`.
pub open spec fn with_selectors(
    sheet: Map<Seq<char>, StyleView>,
    selectors: Seq<Seq<char>>,
    style: StyleView,
) -> Map<Seq<char>, StyleView>
    decreases selectors.len(),
{
    if selectors.len() == 0 {
        sheet
    } else {
        with_selector(with_selectors(sheet, selectors.drop_last(), style), selectors.last(), style)
    }
}

/// `sheet` after the rule `rule`, written without its closing brace. Without an opening brace it
/// says nothing.
pub open spec fn with_rule(sheet: Map<Seq<char>, StyleView>, rule: Seq<char>) -> Map<
    Seq<char>,
    StyleView,
> {
    match find_char(rule, '{') {
        Some(i) => with_selectors(sheet, split(rule.take(i), ','), css_style(rule.skip(i + 1))),
        None => sheet,
    }
}

/// `sheet` after the rules `rules`.
pub open spec fn with_rules(sheet: Map<Seq<char>, StyleView>, rules: Seq<Seq<char>>) -> Map<
    Seq<char>,
    StyleView,
>
    decreases rules.len(),
{
    if rules.len() == 0 {
        sheet
    } else {
        with_rule(with_rules(sheet, rules.drop_last()), rules.last())
    }
}

/// `sheet` after the style sheet `css`.
pub open spec fn with_sheet(sheet: Map<Seq<char>, StyleView>, css: Seq<char>) -> Map<
    Seq<char>,
    StyleView,
> {
    with_rules(sheet, split(without_comments(css, false), '}'))
}

/// `css` without its comments.
fn strip_comments(css: &Vec<char>) -> (r: Vec<char>)
    ensures
        r@ == without_comments(css@, false),
{
    let mut clean_css: Vec<char> = Vec::new();
    let mut in_comment = false;
    let mut i: usize = 0;
    assert(css@.skip(0) =~= css@);
    while i < css.len()
        invariant
            i <= css.len(),
            without_comments(css@, false) == clean_css@ + without_comments(
                css@.skip(i as int),
                in_comment,
            ),
        decreases css.len() - i,
    {
        let ghost rest = css@.skip(i as int);
        let c = css[i];
        proof {
            assert(rest[0] == c);
            assert(rest.len() > 1 ==> rest[1] == css@[i + 1]);
            assert(rest.skip(1) =~= css@.skip(i + 1));
            if rest.len() > 1 {
                assert(rest.skip(2) =~= css@.skip(i + 2));
            }
        }
        if c == '/' && css.len() - i > 1 && css[i + 1] == '*' {
            in_comment = true;
            i = i + 2;
        } else if c == '*' && css.len() - i > 1 && css[i + 1] == '/' {
            in_comment = false;
            i = i + 2;
        } else {
            if !in_comment {
                proof {
                    let after = without_comments(rest.skip(1), false);
                    assert(clean_css@ + (seq![c] + after) =~= clean_css@.push(c) + after);
                }
                clean_css.push(c);
            }
            i = i + 1;
        }
    }
    assert(clean_css@ + without_comments(css@.skip(i as int), in_comment) =~= clean_css@);
    clean_css
}

/// Carries out the rule `rule`, written without its closing brace.
fn apply_rule(rule: &Vec<char>, global_styles: &mut StyleSheet)
    ensures
        final(global_styles)@ == with_rule(old(global_styles)@, rule@),
{
    match find_mark(rule, '{', 0) {
        Some(open) => {
            let selectors_str = slice_of(rule, 0, open);
            let declarations = slice_of(rule, open + 1, rule.len());
            assert(selectors_str@ =~= rule@.take(open as int));
            assert(declarations@ =~= rule@.skip(open + 1));
            let parsed_style = style_of(&declarations);
            let selectors = split_at_marks(&selectors_str, ',');
            let ghost sels = texts(selectors@);
            let mut i: usize = 0;
            assert(sels.take(0) =~= Seq::<Seq<char>>::empty());
            while i < selectors.len()
                invariant
                    i <= selectors.len(),
                    sels == texts(selectors@),
                    global_styles@ == with_selectors(
                        old(global_styles)@,
                        sels.take(i as int),
                        parsed_style@,
                    ),
                decreases selectors.len() - i,
            {
                proof {
                    assert(sels.take(i + 1).drop_last() =~= sels.take(i as int));
                    assert(sels.take(i + 1).last() == selectors@[i as int]@);
                }
                let sel = lower(&trimmed(&selectors[i]));
                if sel.len() > 0 {
                    global_styles.merge_rule(from_chars(&sel), &parsed_style);
                }
                i = i + 1;
            }
            assert(sels.take(i as int) =~= sels);
        },
        None => {},
    }
}

/// Reads the style sheet `css` into `global_styles`.
pub fn parse_css_sheet(css: &str, global_styles: &mut StyleSheet)
    ensures
        final(global_styles)@ == with_sheet(old(global_styles)@, css@),
{
    let clean_css = strip_comments(&to_chars(css));
    let rules = split_at_marks(&clean_css, '}');
    let ghost rs = texts(rules@);
    let mut i: usize = 0;
    assert(rs.take(0) =~= Seq::<Seq<char>>::empty());
    while i < rules.len()
        invariant
            i <= rules.len(),
            rs == texts(rules@),
            global_styles@ == with_rules(old(global_styles)@, rs.take(i as int)),
        decreases rules.len() - i,
    {
        proof {
            assert(rs.take(i + 1).drop_last() =~= rs.take(i as int));
            assert(rs.take(i + 1).last() == rules@[i as int]@);
        }
        apply_rule(&rules[i], global_styles);
        i = i + 1;
    }
    assert(rs.take(i as int) =~= rs);
}

// ---------------------------------------------------------------------------------------------
// Laws
// ---------------------------------------------------------------------------------------------

/// Merging a style that sets nothing, or merging into one, changes nothing.
pub proof fn law_plain_style_is_neutral(style: StyleView)
    ensures
        style.merged(StyleView::plain()) == style,
        StyleView::plain().merged(style) == style,
{
}

/// It does not matter which of two neighbouring merges is made first.
pub proof fn law_merge_is_associative(a: StyleView, b: StyleView, c: StyleView)
    ensures
        a.merged(b).merged(c) == a.merged(b.merged(c)),
{
}

/// Merging the same style twice is merging it once.
pub proof fn law_merge_is_idempotent(a: StyleView, b: StyleView)
    ensures
        a.merged(b).merged(b) == a.merged(b),
{
}

/// The sizes of a style that declarations describe are decimal literals, whatever was declared.
pub proof fn law_declared_sizes_are_literals(s: Seq<char>)
    ensures
        css_style(s).sizes_ok(),
{
    lemma_declared_sizes(split(s, ';'));
}

proof fn lemma_declared_sizes(parts: Seq<Seq<char>>)
    ensures
        declared(parts).sizes_ok(),
    decreases parts.len(),
{
    if parts.len() > 0 {
        lemma_declared_sizes(parts.drop_last());
    }
}

/// Two lists of declarations with a semicolon between them are read one after the other: the second
/// is declared on top of the first.
pub proof fn law_declarations_in_a_row(a: Seq<char>, b: Seq<char>)
    ensures
        css_style(a + seq![';'] + b) == declared_onto(css_style(a), split(b, ';')),
{
    law_parts_in_a_row(a, ';', b);
    lemma_declared_in_a_row(split(a, ';'), split(b, ';'));
}

proof fn lemma_declared_in_a_row(first: Seq<Seq<char>>, second: Seq<Seq<char>>)
    ensures
        declared(first + second) == declared_onto(declared(first), second),
    decreases second.len(),
{
    let both = first + second;
    if second.len() == 0 {
        assert(both =~= first);
    } else {
        assert(both.drop_last() =~= first + second.drop_last());
        assert(both.last() == second.last());
        lemma_declared_in_a_row(first, second.drop_last());
    }
}

/// Whether all styles of `sheet` have sizes that are decimal literals.
pub open spec fn sheet_ok(sheet: Map<Seq<char>, StyleView>) -> bool {
    forall|k: Seq<char>| #[trigger] sheet.contains_key(k) ==> sheet[k].sizes_ok()
}

/// Reading a style sheet takes away no selector and nothing that is set for one, gives no style to
/// the empty selector, and keeps all sizes decimal literals.
pub proof fn law_sheet_only_adds(sheet: Map<Seq<char>, StyleView>, css: Seq<char>)
    ensures
        forall|k: Seq<char>| #[trigger]
            sheet.contains_key(k) ==> with_sheet(sheet, css).contains_key(k) && sheet[k].stays_set_in(
                with_sheet(sheet, css)[k],
            ),
        sheet_ok(sheet) ==> sheet_ok(with_sheet(sheet, css)),
        !sheet.contains_key(Seq::empty()) ==> !with_sheet(sheet, css).contains_key(Seq::empty()),
{
    lemma_rules_only_add(sheet, split(without_comments(css, false), '}'));
    assert forall|k: Seq<char>| #[trigger] sheet.contains_key(k) implies with_sheet(
        sheet,
        css,
    ).contains_key(k) && sheet[k].stays_set_in(with_sheet(sheet, css)[k]) by {
        law_sheet_is_a_merge(sheet, css, k);
    }
}

proof fn lemma_rules_only_add(sheet: Map<Seq<char>, StyleView>, rules: Seq<Seq<char>>)
    ensures
        forall|k: Seq<char>| #[trigger]
            sheet.contains_key(k) ==> with_rules(sheet, rules).contains_key(k),
        sheet_ok(sheet) ==> sheet_ok(with_rules(sheet, rules)),
        !sheet.contains_key(Seq::empty()) ==> !with_rules(sheet, rules).contains_key(Seq::empty()),
    decreases rules.len(),
{
    if rules.len() > 0 {
        lemma_rules_only_add(sheet, rules.drop_last());
        let before = with_rules(sheet, rules.drop_last());
        match find_char(rules.last(), '{') {
            Some(i) => {
                let style = css_style(rules.last().skip(i + 1));
                law_declared_sizes_are_literals(rules.last().skip(i + 1));
                lemma_selectors_only_add(before, split(rules.last().take(i), ','), style);
            },
            None => {},
        }
    }
}

proof fn lemma_selectors_only_add(
    sheet: Map<Seq<char>, StyleView>,
    selectors: Seq<Seq<char>>,
    style: StyleView,
)
    requires
        style.sizes_ok(),
    ensures
        forall|k: Seq<char>| #[trigger]
            sheet.contains_key(k) ==> with_selectors(sheet, selectors, style).contains_key(k),
        sheet_ok(sheet) ==> sheet_ok(with_selectors(sheet, selectors, style)),
        !sheet.contains_key(Seq::empty()) ==> !with_selectors(sheet, selectors, style).contains_key(
            Seq::empty(),
        ),
    decreases selectors.len(),
{
    if selectors.len() > 0 {
        lemma_selectors_only_add(sheet, selectors.drop_last(), style);
    }
}

/// Whether `both` are the rules of `sheet`, each merged with that of `over` for the same selector.
spec fn is_merge_of(
    both: Map<Seq<char>, StyleView>,
    sheet: Map<Seq<char>, StyleView>,
    over: Map<Seq<char>, StyleView>,
) -> bool {
    forall|k: Seq<char>|
        #![trigger both.contains_key(k)]
        both.contains_key(k) == (sheet.contains_key(k) || over.contains_key(k)) && style_for(both, k)
            == style_for(sheet, k).merged(style_for(over, k))
}

/// Reading a style sheet merges into each style what the sheet alone gives to the selector, whatever
/// was read before.
pub proof fn law_sheet_is_a_merge(
    sheet: Map<Seq<char>, StyleView>,
    css: Seq<char>,
    selector: Seq<char>,
)
    ensures
        with_sheet(sheet, css).contains_key(selector) == (sheet.contains_key(selector) || with_sheet(
            Map::empty(),
            css,
        ).contains_key(selector)),
        style_for(with_sheet(sheet, css), selector) == style_for(sheet, selector).merged(
            style_for(with_sheet(Map::empty(), css), selector),
        ),
{
    let rules = split(without_comments(css, false), '}');
    lemma_rules_are_a_merge(sheet, rules);
    let both = with_sheet(sheet, css);
    assert(both.contains_key(selector) || !both.contains_key(selector));
}

proof fn lemma_rules_are_a_merge(sheet: Map<Seq<char>, StyleView>, rules: Seq<Seq<char>>)
    ensures
        is_merge_of(with_rules(sheet, rules), sheet, with_rules(Map::empty(), rules)),
    decreases rules.len(),
{
    if rules.len() == 0 {
        assert forall|k: Seq<char>| #[trigger] sheet.contains_key(k) == (sheet.contains_key(k) || Map::<
            Seq<char>,
            StyleView,
        >::empty().contains_key(k)) && style_for(sheet, k) == style_for(sheet, k).merged(
            style_for(Map::empty(), k),
        ) by {
            law_plain_style_is_neutral(style_for(sheet, k));
        }
    } else {
        lemma_rules_are_a_merge(sheet, rules.drop_last());
        let both = with_rules(sheet, rules.drop_last());
        let over = with_rules(Map::empty(), rules.drop_last());
        match find_char(rules.last(), '{') {
            Some(i) => {
                let style = css_style(rules.last().skip(i + 1));
                lemma_selectors_keep_merge(both, sheet, over, split(rules.last().take(i), ','), style);
            },
            None => {},
        }
    }
}

proof fn lemma_selectors_keep_merge(
    both: Map<Seq<char>, StyleView>,
    sheet: Map<Seq<char>, StyleView>,
    over: Map<Seq<char>, StyleView>,
    selectors: Seq<Seq<char>>,
    style: StyleView,
)
    requires
        is_merge_of(both, sheet, over),
    ensures
        is_merge_of(
            with_selectors(both, selectors, style),
            sheet,
            with_selectors(over, selectors, style),
        ),
    decreases selectors.len(),
{
    if selectors.len() > 0 {
        lemma_selectors_keep_merge(both, sheet, over, selectors.drop_last(), style);
        let both_before = with_selectors(both, selectors.drop_last(), style);
        let over_before = with_selectors(over, selectors.drop_last(), style);
        let both_after = with_selectors(both, selectors, style);
        let over_after = with_selectors(over, selectors, style);
        let sel = lowercase(trim(selectors.last()));
        assert forall|k: Seq<char>| #[trigger] both_after.contains_key(k) == (sheet.contains_key(k)
            || over_after.contains_key(k)) && style_for(both_after, k) == style_for(sheet, k).merged(
            style_for(over_after, k),
        ) by {
            assert(both_before.contains_key(k) || !both_before.contains_key(k));
            if k == sel && sel.len() > 0 {
                law_merge_is_associative(style_for(sheet, k), style_for(over_before, k), style);
            }
        }
    }
}

/// Reading a style sheet twice is reading it once.
pub proof fn law_sheet_counts_once(sheet: Map<Seq<char>, StyleView>, css: Seq<char>)
    ensures
        with_sheet(with_sheet(sheet, css), css) == with_sheet(sheet, css),
{
    let once = with_sheet(sheet, css);
    let twice = with_sheet(once, css);
    let alone = with_sheet(Map::empty(), css);
    assert forall|k: Seq<char>| #[trigger] twice.contains_key(k) == once.contains_key(k) && style_for(
        twice,
        k,
    ) == style_for(once, k) by {
        law_sheet_is_a_merge(sheet, css, k);
        law_sheet_is_a_merge(once, css, k);
        law_merge_is_idempotent(style_for(sheet, k), style_for(alone, k));
    }
    assert forall|k: Seq<char>| #[trigger] twice.contains_key(k) implies twice[k] == once[k] by {
        assert(style_for(twice, k) == style_for(once, k));
    }
    assert(twice =~= once);
}

/// Whether `s` ends inside a comment, where it begins inside one if `in_comment`.
pub open spec fn ends_in_comment(s: Seq<char>, in_comment: bool) -> bool
    decreases s.len(),
{
    if s.len() == 0 {
        in_comment
    } else if s.len() > 1 && s[0] == '/' && s[1] == '*' {
        ends_in_comment(s.skip(2), true)
    } else if s.len() > 1 && s[0] == '*' && s[1] == '/' {
        ends_in_comment(s.skip(2), false)
    } else {
        ends_in_comment(s.skip(1), in_comment)
    }
}

/// Two style sheets in a row are read one after the other, where the first ends, white space aside,
/// with a closing brace that is not part of a comment.
pub proof fn law_sheets_in_a_row(sheet: Map<Seq<char>, StyleView>, first: Seq<char>, second: Seq<char>)
    requires
        trim_end(first).len() > 0,
        trim_end(first).last() == '}',
        !ends_in_comment(first, false),
    ensures
        with_sheet(sheet, first + second) == with_sheet(with_sheet(sheet, first), second),
    decreases first.len(),
{
    if is_white(first.last()) {
        let core = first.drop_last();
        let space = seq![first.last()];
        assert(first =~= core + space);
        assert(first =~= core.push(first.last()));
        assert(first + second =~= core + (space + second));
        lemma_space_keeps_place(core, first.last(), false);
        law_sheets_in_a_row(sheet, core, space + second);
        law_sheets_in_a_row(sheet, core, space);
        law_space_before_sheet(with_sheet(sheet, core), first.last(), second);
        law_space_before_sheet(with_sheet(sheet, core), first.last(), Seq::empty());
        assert(space + Seq::<char>::empty() =~= space);
        lemma_nothing_says_nothing(with_sheet(sheet, core));
    } else {
        lemma_braced_in_a_row(sheet, first, second);
    }
}

/// White space in front of a style sheet says nothing.
pub proof fn law_space_before_sheet(sheet: Map<Seq<char>, StyleView>, c: char, css: Seq<char>)
    requires
        is_white(c),
    ensures
        with_sheet(sheet, seq![c] + css) == with_sheet(sheet, css),
{
    let spaced = seq![c] + css;
    let clean = without_comments(css, false);
    assert(spaced.skip(1) =~= css);
    assert(without_comments(spaced, false) == seq![c] + clean);
    let rules = split(clean, '}');
    lemma_split_front(c, clean, '}');
    let first = seq![seq![c] + rules[0]];
    lemma_rules_in_a_row(sheet, first, rules.skip(1));
    lemma_rules_in_a_row(sheet, seq![rules[0]], rules.skip(1));
    assert(rules =~= seq![rules[0]] + rules.skip(1));
    lemma_space_before_rule(sheet, c, rules[0]);
    lemma_one_rule(sheet, first[0]);
    lemma_one_rule(sheet, rules[0]);
}

/// A sheet without a single rule says nothing.
proof fn lemma_nothing_says_nothing(sheet: Map<Seq<char>, StyleView>)
    ensures
        with_sheet(sheet, Seq::empty()) == sheet,
{
    let nothing = Seq::<char>::empty();
    assert(split(nothing, '}') =~= seq![nothing]);
    lemma_one_rule(sheet, nothing);
    assert(find_char(nothing, '{') is None);
}

proof fn lemma_one_rule(sheet: Map<Seq<char>, StyleView>, rule: Seq<char>)
    ensures
        with_rules(sheet, seq![rule]) == with_rule(sheet, rule),
{
    assert(seq![rule].drop_last() =~= Seq::<Seq<char>>::empty());
    reveal_with_fuel(with_rules, 2);
}

proof fn lemma_space_before_rule(sheet: Map<Seq<char>, StyleView>, c: char, rule: Seq<char>)
    requires
        is_white(c),
    ensures
        with_rule(sheet, seq![c] + rule) == with_rule(sheet, rule),
{
    let spaced = seq![c] + rule;
    lemma_find_char_from_bounds(spaced, '{', 0);
    lemma_find_char_from_bounds(rule, '{', 0);
    assert(forall|k: int| 0 <= k < rule.len() ==> spaced[1 + k] == rule[k]);
    match find_char(rule, '{') {
        Some(i) => {
            assert(spaced[1 + i] == '{');
            let j = find_char(spaced, '{')->0;
            assert(rule[j - 1] == spaced[j]);
            assert(j == 1 + i);
            assert(spaced.take(j) =~= seq![c] + rule.take(i));
            assert(spaced.skip(j + 1) =~= rule.skip(i + 1));
            let style = css_style(rule.skip(i + 1));
            let selectors = split(rule.take(i), ',');
            lemma_split_front(c, rule.take(i), ',');
            let first = seq![c] + selectors[0];
            assert(first.skip(1) =~= selectors[0]);
            assert(trim(first) == trim(selectors[0]));
            lemma_selectors_in_a_row(sheet, seq![first], selectors.skip(1), style);
            lemma_selectors_in_a_row(sheet, seq![selectors[0]], selectors.skip(1), style);
            assert(selectors =~= seq![selectors[0]] + selectors.skip(1));
            assert(seq![first].drop_last() =~= Seq::<Seq<char>>::empty());
            assert(seq![selectors[0]].drop_last() =~= Seq::<Seq<char>>::empty());
            reveal_with_fuel(with_selectors, 2);
            assert(with_selectors(sheet, seq![first], style) == with_selectors(
                sheet,
                seq![selectors[0]],
                style,
            ));
        },
        None => {
            if find_char(spaced, '{') is Some {
                let j = find_char(spaced, '{')->0;
                assert(rule[j - 1] == spaced[j]);
            }
        },
    }
}

proof fn lemma_selectors_in_a_row(
    sheet: Map<Seq<char>, StyleView>,
    first: Seq<Seq<char>>,
    second: Seq<Seq<char>>,
    style: StyleView,
)
    ensures
        with_selectors(sheet, first + second, style) == with_selectors(
            with_selectors(sheet, first, style),
            second,
            style,
        ),
    decreases second.len(),
{
    let both = first + second;
    if second.len() == 0 {
        assert(both =~= first);
    } else {
        assert(both.drop_last() =~= first + second.drop_last());
        assert(both.last() == second.last());
        lemma_selectors_in_a_row(sheet, first, second.drop_last(), style);
    }
}

/// White space at the end neither opens nor closes a comment.
proof fn lemma_space_keeps_place(s: Seq<char>, c: char, in_comment: bool)
    requires
        is_white(c),
    ensures
        ends_in_comment(s.push(c), in_comment) == ends_in_comment(s, in_comment),
    decreases s.len(),
{
    let spaced = s.push(c);
    if s.len() == 0 {
        assert(spaced.skip(1) =~= Seq::<char>::empty());
        reveal_with_fuel(ends_in_comment, 2);
    } else {
        let n: int = if s.len() > 1 && (s[0] == '/' && s[1] == '*' || s[0] == '*' && s[1] == '/') {
            2
        } else {
            1
        };
        let inside = if n == 2 {
            s[0] == '/'
        } else {
            in_comment
        };
        assert(spaced.skip(n) =~= s.skip(n).push(c));
        lemma_space_keeps_place(s.skip(n), c, inside);
        assert(s.len() > 1 ==> spaced[1] == s[1]);
        assert(s.len() == 1 ==> spaced[1] == c);
    }
}

proof fn lemma_braced_in_a_row(
    sheet: Map<Seq<char>, StyleView>,
    first: Seq<char>,
    second: Seq<char>,
)
    requires
        first.len() > 0,
        first.last() == '}',
        !ends_in_comment(first, false),
    ensures
        with_sheet(sheet, first + second) == with_sheet(with_sheet(sheet, first), second),
{
    lemma_comments_in_a_row(first, second, false);
    lemma_brace_stays(first, false);
    let a = without_comments(first, false);
    let b = without_comments(second, false);
    let body = a.drop_last();
    let nothing = Seq::<char>::empty();
    assert(a =~= body + seq!['}'] + nothing);
    assert(a + b =~= body + seq!['}'] + b);
    law_parts_in_a_row(body, '}', b);
    law_parts_in_a_row(body, '}', nothing);
    let rules = split(body, '}');
    lemma_rules_in_a_row(sheet, rules, split(b, '}'));
    lemma_rules_in_a_row(sheet, rules, split(nothing, '}'));
    assert(split(nothing, '}') =~= seq![nothing]);
    lemma_one_rule(with_rules(sheet, rules), nothing);
    assert(find_char(nothing, '{') is None);
}

proof fn lemma_rules_in_a_row(
    sheet: Map<Seq<char>, StyleView>,
    first: Seq<Seq<char>>,
    second: Seq<Seq<char>>,
)
    ensures
        with_rules(sheet, first + second) == with_rules(with_rules(sheet, first), second),
    decreases second.len(),
{
    let both = first + second;
    if second.len() == 0 {
        assert(both =~= first);
    } else {
        assert(both.drop_last() =~= first + second.drop_last());
        assert(both.last() == second.last());
        lemma_rules_in_a_row(sheet, first, second.drop_last());
    }
}

/// A text whose last character can be no part of a mark is freed from its comments on its own.
proof fn lemma_comments_in_a_row(s: Seq<char>, t: Seq<char>, in_comment: bool)
    requires
        s.len() > 0 ==> s.last() != '/' && s.last() != '*',
    ensures
        without_comments(s + t, in_comment) == without_comments(s, in_comment) + without_comments(
            t,
            ends_in_comment(s, in_comment),
        ),
    decreases s.len(),
{
    let both = s + t;
    if s.len() == 0 {
        assert(both =~= t);
        assert(without_comments(s, in_comment) + without_comments(t, in_comment) =~= without_comments(
            t,
            in_comment,
        ));
    } else {
        let n: int = if s.len() > 1 && (s[0] == '/' && s[1] == '*' || s[0] == '*' && s[1] == '/') {
            2
        } else {
            1
        };
        assert(both.skip(n) =~= s.skip(n) + t);
        assert(s.skip(n).len() > 0 ==> s.skip(n).last() == s.last());
        let inside = if n == 2 {
            s[0] == '/'
        } else {
            in_comment
        };
        lemma_comments_in_a_row(s.skip(n), t, inside);
        assert(both[0] == s[0]);
        assert(s.len() > 1 ==> both[1] == s[1]);
        assert(without_comments(both, in_comment) =~= without_comments(s, in_comment)
            + without_comments(t, ends_in_comment(s, in_comment)));
    }
}

/// A closing brace at the end that is not part of a comment stays at the end.
proof fn lemma_brace_stays(s: Seq<char>, in_comment: bool)
    requires
        s.len() > 0,
        s.last() == '}',
        !ends_in_comment(s, in_comment),
    ensures
        without_comments(s, in_comment).len() > 0,
        without_comments(s, in_comment).last() == '}',
    decreases s.len(),
{
    let n: int = if s.len() > 1 && (s[0] == '/' && s[1] == '*' || s[0] == '*' && s[1] == '/') {
        2
    } else {
        1
    };
    let inside = if n == 2 {
        s[0] == '/'
    } else {
        in_comment
    };
    if s.len() > n {
        assert(s.skip(n).last() == s.last());
        lemma_brace_stays(s.skip(n), inside);
    } else {
        assert(s.last() == s[n - 1]);
        assert(!ends_in_comment(s.skip(1), inside));
        assert(without_comments(s.skip(1), inside).len() == 0);
        assert(without_comments(s, in_comment) =~= seq![s[0]]);
    }
}

/// A rule leaves the selectors alone that it does not name.
pub proof fn law_rule_leaves_others(
    sheet: Map<Seq<char>, StyleView>,
    selectors: Seq<Seq<char>>,
    style: StyleView,
    other: Seq<char>,
)
    requires
        forall|i: int| 0 <= i < selectors.len() ==> lowercase(trim(#[trigger] selectors[i])) != other,
    ensures
        with_selectors(sheet, selectors, style).contains_key(other) == sheet.contains_key(other),
        style_for(with_selectors(sheet, selectors, style), other) == style_for(sheet, other),
    decreases selectors.len(),
{
    if selectors.len() > 0 {
        assert(selectors.last() == selectors[selectors.len() - 1]);
        law_rule_leaves_others(sheet, selectors.drop_last(), style, other);
    }
}

/// A rule reaches each selector that it names, and counts once where it names one repeatedly.
pub proof fn law_rule_reaches_selectors(
    sheet: Map<Seq<char>, StyleView>,
    selectors: Seq<Seq<char>>,
    style: StyleView,
    i: int,
)
    requires
        0 <= i < selectors.len(),
        lowercase(trim(selectors[i])).len() > 0,
    ensures
        style_for(with_selectors(sheet, selectors, style), lowercase(trim(selectors[i]))) == style_for(
            sheet,
            lowercase(trim(selectors[i])),
        ).merged(style),
    decreases selectors.len(),
{
    let sel = lowercase(trim(selectors[i]));
    let earlier = selectors.drop_last();
    let before = with_selectors(sheet, earlier, style);
    if i < selectors.len() - 1 {
        assert(earlier[i] == selectors[i]);
        law_rule_reaches_selectors(sheet, earlier, style, i);
    } else if exists|k: int| 0 <= k < earlier.len() && lowercase(trim(#[trigger] earlier[k])) == sel {
        let k = choose|k: int| 0 <= k < earlier.len() && lowercase(trim(#[trigger] earlier[k])) == sel;
        law_rule_reaches_selectors(sheet, earlier, style, k);
    } else {
        law_rule_leaves_others(sheet, earlier, style, sel);
    }
    law_merge_is_idempotent(style_for(sheet, sel), style);
}

/// Text in which no comment opens or closes stays as it is.
pub proof fn law_no_comment_no_change(s: Seq<char>)
    requires
        forall|i: int|
            0 <= i < s.len() - 1 ==> !(#[trigger] s[i] == '/' && s[i + 1] == '*') && !(s[i] == '*' && s[i
                + 1] == '/'),
    ensures
        without_comments(s, false) == s,
    decreases s.len(),
{
    if s.len() > 0 {
        let rest = s.skip(1);
        assert forall|i: int| 0 <= i < rest.len() - 1 implies !(#[trigger] rest[i] == '/' && rest[i + 1]
            == '*') && !(rest[i] == '*' && rest[i + 1] == '/') by {
            assert(rest[i] == s[i + 1] && rest[i + 1] == s[i + 2]);
        }
        law_no_comment_no_change(rest);
        assert(s.len() > 1 ==> !(s[0] == '/' && s[0int + 1] == '*'));
        assert(seq![s[0]] + rest =~= s);
    }
}

/// A comment says nothing: what follows is read as if it stood at the start. The comment must not
/// hold its own end, and its last character must not be a slash, which would open another one
/// together with the asterisk of the end.
pub proof fn law_comment_says_nothing(comment: Seq<char>, rest: Seq<char>, in_comment: bool)
    requires
        forall|i: int|
            0 <= i < comment.len() - 1 ==> !(#[trigger] comment[i] == '*' && comment[i + 1] == '/'),
        comment.len() > 0 ==> comment.last() != '/',
    ensures
        without_comments(seq!['/', '*'] + comment + seq!['*', '/'] + rest, in_comment)
            == without_comments(rest, false),
{
    let s = seq!['/', '*'] + comment + seq!['*', '/'] + rest;
    assert(s.skip(2) =~= comment + seq!['*', '/'] + rest);
    lemma_comment_ends(comment, rest);
}

proof fn lemma_comment_ends(comment: Seq<char>, rest: Seq<char>)
    requires
        forall|i: int|
            0 <= i < comment.len() - 1 ==> !(#[trigger] comment[i] == '*' && comment[i + 1] == '/'),
        comment.len() > 0 ==> comment.last() != '/',
    ensures
        without_comments(comment + seq!['*', '/'] + rest, true) == without_comments(rest, false),
    decreases comment.len(),
{
    let s = comment + seq!['*', '/'] + rest;
    if comment.len() == 0 {
        assert(s.skip(2) =~= rest);
    } else {
        assert(s[0] == comment[0]);
        assert(comment.len() > 1 ==> s[1] == comment[1]);
        assert(comment.len() == 1 ==> s[1] == '*');
        let n: int = if s[0] == '/' && s[1] == '*' {
            2
        } else {
            1
        };
        assert(n <= comment.len());
        let left = comment.skip(n);
        assert forall|i: int| 0 <= i < left.len() - 1 implies !(#[trigger] left[i] == '*' && left[i + 1]
            == '/') by {
            assert(left[i] == comment[i + n] && left[i + 1] == comment[i + n + 1]);
        }
        assert(left.len() > 0 ==> left.last() == comment.last());
        lemma_comment_ends(left, rest);
        assert(s.skip(n) =~= left + seq!['*', '/'] + rest);
        assert(!(s[0] == '*' && s[1] == '/'));
    }
}

/// The style that sets nothing says nothing on any point.
pub proof fn law_plain_sets_nothing(sheet: Map<Seq<char>, StyleView>, selector: Seq<char>)
    ensures
        ({
            let plain = StyleView::plain();
            &&& plain.align is None && plain.bg_color is None && plain.text_color is None
            &&& plain.font_size is None && plain.padding is None && plain.border_color is None
            &&& !plain.is_bold && !plain.is_italic
        }),
        sheet.contains_key(selector) ==> style_for(sheet, selector) == sheet[selector],
        !sheet.contains_key(selector) ==> style_for(sheet, selector) == StyleView::plain(),
{
}

/// On each point a merge takes what the second style sets, and what the first one has where the
/// second sets nothing. It is bold or italic where either is.
pub proof fn law_merge_prefers_second(first: StyleView, second: StyleView)
    ensures
        ({
            let both = first.merged(second);
            &&& second.align is Some ==> both.align == second.align
            &&& second.align is None ==> both.align == first.align
            &&& second.bg_color is Some ==> both.bg_color == second.bg_color
            &&& second.bg_color is None ==> both.bg_color == first.bg_color
            &&& second.text_color is Some ==> both.text_color == second.text_color
            &&& second.text_color is None ==> both.text_color == first.text_color
            &&& second.font_size is Some ==> both.font_size == second.font_size
            &&& second.font_size is None ==> both.font_size == first.font_size
            &&& second.padding is Some ==> both.padding == second.padding
            &&& second.padding is None ==> both.padding == first.padding
            &&& second.border_color is Some ==> both.border_color == second.border_color
            &&& second.border_color is None ==> both.border_color == first.border_color
            &&& both.is_bold <==> first.is_bold || second.is_bold
            &&& both.is_italic <==> first.is_italic || second.is_italic
        }),
{
}

/// A colour goes by its name, white space around it and letter case aside; other names are those of
/// no colour.
pub proof fn law_color_names(name: Seq<char>)
    ensures
        ({
            let n = lowercase(trim(name));
            &&& named_color(name) == Some(Color::Red) <==> n == seq!['r', 'e', 'd']
            &&& named_color(name) == Some(Color::Blue) <==> n == seq!['b', 'l', 'u', 'e']
            &&& named_color(name) == Some(Color::Green) <==> n == seq!['g', 'r', 'e', 'e', 'n']
            &&& named_color(name) == Some(Color::Yellow) <==> n == seq!['y', 'e', 'l', 'l', 'o', 'w']
            &&& named_color(name) == Some(Color::Gray) <==> n == seq!['g', 'r', 'a', 'y'] || n == seq![
                'g',
                'r',
                'e',
                'y',
            ]
            &&& named_color(name) == Some(Color::Black) <==> n == seq!['b', 'l', 'a', 'c', 'k']
            &&& named_color(name) == Some(Color::White) <==> n == seq!['w', 'h', 'i', 't', 'e']
        }),
{
    let n = lowercase(trim(name));
    reveal_strlit("red");
    reveal_strlit("blue");
    reveal_strlit("green");
    reveal_strlit("yellow");
    reveal_strlit("gray");
    reveal_strlit("grey");
    reveal_strlit("black");
    reveal_strlit("white");
    assert("red"@ =~= seq!['r', 'e', 'd']);
    assert("blue"@ =~= seq!['b', 'l', 'u', 'e']);
    assert("green"@ =~= seq!['g', 'r', 'e', 'e', 'n']);
    assert("yellow"@ =~= seq!['y', 'e', 'l', 'l', 'o', 'w']);
    assert("gray"@ =~= seq!['g', 'r', 'a', 'y']);
    assert("grey"@ =~= seq!['g', 'r', 'e', 'y']);
    assert("black"@ =~= seq!['b', 'l', 'a', 'c', 'k']);
    assert("white"@ =~= seq!['w', 'h', 'i', 't', 'e']);
    assert("red"@[0] == 'r' && "blue"@[0] == 'b' && "green"@[0] == 'g' && "yellow"@[0] == 'y');
    assert("gray"@[0] == 'g' && "grey"@[0] == 'g' && "black"@[0] == 'b' && "white"@[0] == 'w');
    assert("blue"@.len() == 4 && "black"@.len() == 5 && "green"@.len() == 5 && "gray"@.len() == 4
        && "grey"@.len() == 4);
}

/// A declaration on top of others gives the value behind its colon to the property before it, and
/// changes nothing else. Neither the white space around the name nor that around the value counts,
/// nor the letter case of the name.
pub proof fn law_declaration_sets_property(
    earlier: Seq<char>,
    name: Seq<char>,
    value: Seq<char>,
)
    requires
        !name.contains(';') && !name.contains(':'),
        !value.contains(';') && !value.contains(':'),
    ensures
        ({
            let base = css_style(earlier);
            let style = css_style(earlier + seq![';'] + (name + seq![':'] + value));
            let key = lowercase(trim(name));
            let v = trim(value);
            &&& key == "text-align"@ ==> style == (StyleView {
                align: Some(
                    if v == "center"@ {
                        Align::Center
                    } else if v == "right"@ {
                        Align::Max
                    } else {
                        Align::Min
                    },
                ),
                ..base
            })
            &&& key == "background-color"@ ==> style == (StyleView { bg_color: named_color(v), ..base })
            &&& key == "color"@ ==> style == (StyleView { text_color: named_color(v), ..base })
            &&& key == "border"@ || key == "border-color"@ ==> style == (StyleView {
                border_color: named_color(v),
                ..base
            })
            &&& key == "font-weight"@ ==> style == (StyleView {
                is_bold: base.is_bold || v == "bold"@,
                ..base
            })
            &&& key == "font-style"@ ==> style == (StyleView {
                is_italic: base.is_italic || v == "italic"@,
                ..base
            })
            &&& key == "font-size"@ ==> {
                let size = trim(remove_all(remove_all(v, seq!['p', 'x']), seq!['p', 't']));
                style == (StyleView {
                    font_size: if is_float_literal(size) {
                        Some(size)
                    } else {
                        base.font_size
                    },
                    ..base
                })
            }
            &&& key == "padding"@ ==> {
                let size = trim(remove_all(v, seq!['p', 'x']));
                style == (StyleView {
                    padding: if is_float_literal(size) {
                        Some(size)
                    } else {
                        base.padding
                    },
                    ..base
                })
            }
            &&& key != "text-align"@ && key != "background-color"@ && key != "color"@ && key != "border"@
                && key != "border-color"@ && key != "font-weight"@ && key != "font-style"@ && key
                != "font-size"@ && key != "padding"@ ==> style == base
        }),
{
    let part = name + seq![':'] + value;
    lemma_no_mark_in(name, ':', value, ';');
    law_declarations_in_a_row(earlier, part);
    law_one_part(part, ';');
    law_two_parts(name, ':', value);
    lemma_one_declaration(css_style(earlier), part);
    assert(seq![name, value][0] == name && seq![name, value][1] == value);
    lemma_property_names_differ();
    reveal_strlit("px");
    reveal_strlit("pt");
    assert("px"@ =~= seq!['p', 'x']);
    assert("pt"@ =~= seq!['p', 't']);
}

/// A mark that is in neither part of a text is not in the text.
proof fn lemma_no_mark_in(a: Seq<char>, between: char, b: Seq<char>, mark: char)
    requires
        !a.contains(mark),
        !b.contains(mark),
        between != mark,
    ensures
        !(a + seq![between] + b).contains(mark),
{
    let s = a + seq![between] + b;
    assert forall|k: int| 0 <= k < s.len() implies s[k] != mark by {
        if k < a.len() {
            assert(s[k] == a[k]);
            assert(a.contains(a[k]));
        } else if k > a.len() {
            assert(s[k] == b[k - a.len() - 1]);
            assert(b.contains(b[k - a.len() - 1]));
        }
    }
}

proof fn lemma_one_declaration(style: StyleView, part: Seq<char>)
    ensures
        declared_onto(style, seq![part]) == with_declaration(style, part),
        declared(seq![part]) == with_declaration(StyleView::plain(), part),
{
    assert(seq![part].drop_last() =~= Seq::<Seq<char>>::empty());
    assert(seq![part].last() == part);
    reveal_with_fuel(declared_onto, 2);
    reveal_with_fuel(declared, 2);
}

proof fn lemma_property_names_differ()
    ensures
        "text-align"@.len() == 10 && "background-color"@.len() == 16 && "color"@.len() == 5,
        "font-size"@.len() == 9 && "padding"@.len() == 7 && "border"@.len() == 6,
        "border-color"@.len() == 12 && "font-weight"@.len() == 11 && "font-style"@.len() == 10,
        "text-align"@[0] == 't' && "font-style"@[0] == 'f',
{
    reveal_strlit("text-align");
    reveal_strlit("background-color");
    reveal_strlit("color");
    reveal_strlit("font-size");
    reveal_strlit("padding");
    reveal_strlit("border");
    reveal_strlit("border-color");
    reveal_strlit("font-weight");
    reveal_strlit("font-style");
}

/// The first declaration of a list is read as one on top of none.
pub proof fn law_first_declaration(part: Seq<char>)
    ensures
        css_style(seq![';'] + part) == css_style(part),
        css_style(Seq::empty()) == StyleView::plain(),
{
    let none = Seq::<char>::empty();
    assert(seq![';'] + part =~= none + seq![';'] + part);
    law_declarations_in_a_row(none, part);
    law_one_part(none, ';');
    law_one_part(none, ':');
    lemma_one_declaration(StyleView::plain(), none);
    lemma_declared_in_a_row(Seq::empty(), split(part, ';'));
    assert(Seq::<Seq<char>>::empty() + split(part, ';') =~= split(part, ';'));
    assert(seq![none].len() == 1);
}

/// What has no colon, or more than one, declares nothing.
pub proof fn law_no_declaration(earlier: Seq<char>, a: Seq<char>, b: Seq<char>, c: Seq<char>)
    requires
        !a.contains(';') && !b.contains(';') && !c.contains(';'),
        !a.contains(':'),
    ensures
        css_style(earlier + seq![';'] + a) == css_style(earlier),
        css_style(earlier + seq![';'] + (a + seq![':'] + b + seq![':'] + c)) == css_style(earlier),
{
    law_declarations_in_a_row(earlier, a);
    law_one_part(a, ';');
    law_one_part(a, ':');
    lemma_one_declaration(css_style(earlier), a);
    let part = a + seq![':'] + b + seq![':'] + c;
    lemma_no_mark_in(a, ':', b, ';');
    lemma_no_mark_in(a + seq![':'] + b, ':', c, ';');
    law_declarations_in_a_row(earlier, part);
    law_one_part(part, ';');
    lemma_one_declaration(css_style(earlier), part);
    law_parts_in_a_row(a + seq![':'] + b, ':', c);
    law_parts_in_a_row(a, ':', b);
    law_parts_hold_no_separator(a, ':', 0);
    law_parts_hold_no_separator(b, ':', 0);
    law_parts_hold_no_separator(c, ':', 0);
}

/// White space before and behind a declaration says nothing, and neither does white space before and
/// behind its colon: a list that is padded with spaces and line ends describes the same style.
pub proof fn law_space_in_declarations(a: Seq<char>, c: char, b: Seq<char>)
    requires
        is_white(c),
    ensures
        css_style(seq![c] + b) == css_style(b),
        css_style(a + seq![c]) == css_style(a),
        css_style(a + seq![';'] + (seq![c] + b)) == css_style(a + seq![';'] + b),
        css_style(a + seq![c] + seq![';'] + b) == css_style(a + seq![';'] + b),
        css_style(a + seq![':'] + (seq![c] + b)) == css_style(a + seq![':'] + b),
        css_style(a + seq![c] + seq![':'] + b) == css_style(a + seq![':'] + b),
{
    let none = Seq::<char>::empty();
    let plain = StyleView::plain();
    let start = css_style(a);
    // in front
    lemma_space_before_list(plain, c, b);
    lemma_space_before_list(start, c, b);
    lemma_declared_in_a_row(Seq::empty(), split(b, ';'));
    lemma_declared_in_a_row(Seq::empty(), split(seq![c] + b, ';'));
    assert(Seq::<Seq<char>>::empty() + split(b, ';') =~= split(b, ';'));
    assert(Seq::<Seq<char>>::empty() + split(seq![c] + b, ';') =~= split(seq![c] + b, ';'));
    // behind
    lemma_space_after_list(c, a);
    law_declarations_in_a_row(a, b);
    law_declarations_in_a_row(a, seq![c] + b);
    law_declarations_in_a_row(a + seq![c], b);
    // around the colon
    lemma_space_at_colon(a, c, b);
}

/// White space in front of a list of declarations says nothing.
proof fn lemma_space_before_list(style: StyleView, c: char, s: Seq<char>)
    requires
        is_white(c),
    ensures
        declared_onto(style, split(seq![c] + s, ';')) == declared_onto(style, split(s, ';')),
{
    lemma_split_front(c, s, ';');
    let parts = split(s, ';');
    let first = seq![c] + parts[0];
    lemma_onto_in_a_row(style, seq![first], parts.skip(1));
    lemma_onto_in_a_row(style, seq![parts[0]], parts.skip(1));
    assert(parts =~= seq![parts[0]] + parts.skip(1));
    lemma_one_declaration(style, first);
    lemma_one_declaration(style, parts[0]);
    lemma_space_in_declaration(style, c, parts[0]);
}

/// White space behind a list of declarations says nothing.
proof fn lemma_space_after_list(c: char, s: Seq<char>)
    requires
        is_white(c),
    ensures
        css_style(s + seq![c]) == css_style(s),
{
    law_split_back(s, c, ';');
    let parts = split(s, ';');
    let last = parts.last() + seq![c];
    let earlier = parts.drop_last();
    assert((earlier + seq![last]).drop_last() =~= earlier);
    lemma_space_in_declaration(declared(earlier), c, parts.last());
}

proof fn lemma_onto_in_a_row(style: StyleView, first: Seq<Seq<char>>, second: Seq<Seq<char>>)
    ensures
        declared_onto(style, first + second) == declared_onto(declared_onto(style, first), second),
    decreases second.len(),
{
    let both = first + second;
    if second.len() == 0 {
        assert(both =~= first);
    } else {
        assert(both.drop_last() =~= first + second.drop_last());
        assert(both.last() == second.last());
        lemma_onto_in_a_row(style, first, second.drop_last());
    }
}

/// White space before and behind one declaration says nothing.
proof fn lemma_space_in_declaration(style: StyleView, c: char, part: Seq<char>)
    requires
        is_white(c),
    ensures
        with_declaration(style, seq![c] + part) == with_declaration(style, part),
        with_declaration(style, part + seq![c]) == with_declaration(style, part),
{
    let kv = split(part, ':');
    lemma_split_front(c, part, ':');
    law_split_back(part, c, ':');
    law_trim_ignores_space(c, kv[0]);
    law_trim_ignores_space(c, kv.last());
    let front = split(seq![c] + part, ':');
    let back = split(part + seq![c], ':');
    assert(front.len() == kv.len() && back.len() == kv.len());
    if kv.len() == 2 {
        assert(front[0] == seq![c] + kv[0] && front[1] == kv[1]);
        assert(back[0] == kv[0] && back[1] == kv[1] + seq![c]);
    }
}

/// White space on either side of a colon says nothing.
proof fn lemma_space_at_colon(a: Seq<char>, c: char, b: Seq<char>)
    requires
        is_white(c),
    ensures
        css_style(a + seq![':'] + (seq![c] + b)) == css_style(a + seq![':'] + b),
        css_style(a + seq![c] + seq![':'] + b) == css_style(a + seq![':'] + b),
{
    let first = split(a, ';');
    let second = split(b, ';');
    let earlier = first.drop_last();
    let later = second.skip(1);
    let x = first.last();
    let y = second[0];
    law_parts_hold_no_separator(a, ';', 0);
    law_parts_hold_no_separator(b, ';', 0);
    lemma_split_joint(a, ':', b, ';');
    lemma_split_joint(a, ':', seq![c] + b, ';');
    lemma_split_joint(a + seq![c], ':', b, ';');
    lemma_split_front(c, b, ';');
    law_split_back(a, c, ';');
    let plain = x + seq![':'] + y;
    let right = x + seq![':'] + (seq![c] + y);
    let left = x + seq![c] + seq![':'] + y;
    let style = declared(earlier);
    // one declaration, with the space and without it
    law_parts_in_a_row(x, ':', y);
    law_parts_in_a_row(x, ':', seq![c] + y);
    law_parts_in_a_row(x + seq![c], ':', y);
    lemma_split_front(c, y, ':');
    law_split_back(x, c, ':');
    law_parts_hold_no_separator(x, ':', 0);
    law_parts_hold_no_separator(y, ':', 0);
    let kx = split(x, ':');
    let ky = split(y, ':');
    law_trim_ignores_space(c, kx.last());
    law_trim_ignores_space(c, ky[0]);
    assert(with_declaration(style, right) == with_declaration(style, plain));
    assert(with_declaration(style, left) == with_declaration(style, plain));
    // and the others around it
    assert(split(a + seq![':'] + (seq![c] + b), ';') =~= earlier + seq![right] + later);
    assert(split(a + seq![c] + seq![':'] + b, ';') =~= earlier + seq![left] + later);
    lemma_declared_in_a_row(earlier + seq![plain], later);
    lemma_declared_in_a_row(earlier + seq![right], later);
    lemma_declared_in_a_row(earlier + seq![left], later);
    lemma_declared_in_a_row(earlier, seq![plain]);
    lemma_declared_in_a_row(earlier, seq![right]);
    lemma_declared_in_a_row(earlier, seq![left]);
    lemma_one_declaration(style, plain);
    lemma_one_declaration(style, right);
    lemma_one_declaration(style, left);
}

/// Where two texts are joined by a character that is no separator, the last part of the one and the
/// first part of the other become one part.
proof fn lemma_split_joint(a: Seq<char>, c: char, b: Seq<char>, sep: char)
    requires
        c != sep,
    ensures
        split(a, sep).len() > 0,
        split(b, sep).len() > 0,
        split(a + seq![c] + b, sep) == split(a, sep).drop_last() + seq![
            split(a, sep).last() + seq![c] + split(b, sep)[0],
        ] + split(b, sep).skip(1),
    decreases b.len(),
{
    law_parts_hold_no_separator(a, sep, 0);
    law_parts_hold_no_separator(b, sep, 0);
    if b.len() == 0 {
        law_split_back(a, c, sep);
        law_one_part(b, sep);
        assert(a + seq![c] + b =~= a + seq![c]);
        assert(split(a, sep).last() + seq![c] + b =~= split(a, sep).last() + seq![c]);
        assert(split(a + seq![c] + b, sep) =~= split(a, sep).drop_last() + seq![
            split(a, sep).last() + seq![c] + split(b, sep)[0],
        ] + split(b, sep).skip(1));
    } else {
        let d = b.last();
        let rest = b.drop_last();
        lemma_split_joint(a, c, rest, sep);
        assert(b =~= rest + seq![d]);
        assert(a + seq![c] + b =~= (a + seq![c] + rest) + seq![d]);
        let ra = split(a, sep);
        let rb = split(rest, sep);
        if d == sep {
            let none = Seq::<char>::empty();
            law_one_part(none, sep);
            law_parts_in_a_row(rest, sep, none);
            law_parts_in_a_row(a + seq![c] + rest, sep, none);
            assert(rest + seq![sep] + none =~= b);
            assert((a + seq![c] + rest) + seq![sep] + none =~= a + seq![c] + b);
            assert(split(b, sep) =~= rb + seq![none]);
        } else {
            law_split_back(rest, d, sep);
            law_split_back(a + seq![c] + rest, d, sep);
            if rb.len() == 1 {
                assert(split(b, sep)[0] =~= rb[0] + seq![d]);
                assert((ra.last() + seq![c] + rb[0]) + seq![d] =~= ra.last() + seq![c] + (rb[0] + seq![d]));
            }
        }
        assert(split(a + seq![c] + b, sep) =~= ra.drop_last() + seq![
            ra.last() + seq![c] + split(b, sep)[0],
        ] + split(b, sep).skip(1));
    }
}

/// The unit behind a size is left out: `px` or `pt` behind that of letters, `px` behind that of a
/// padding. A padding in `pt` keeps its unit, and is no number then.
pub proof fn law_units_are_left_out(size: Seq<char>)
    requires
        !size.contains('p'),
    ensures
        font_size_literal(size + seq!['p', 'x']) == trim(size),
        font_size_literal(size + seq!['p', 't']) == trim(size),
        font_size_literal(size) == trim(size),
        padding_literal(size + seq!['p', 'x']) == trim(size),
        padding_literal(size) == trim(size),
        padding_literal(size + seq!['p', 't']) == trim(size + seq!['p', 't']),
{
    let px = seq!['p', 'x'];
    let pt = seq!['p', 't'];
    let none = Seq::<char>::empty();
    reveal_strlit("px");
    reveal_strlit("pt");
    assert("px"@ =~= px);
    assert("pt"@ =~= pt);
    lemma_unit_is_first(size, px);
    lemma_unit_is_first(size, pt);
    assert(size + px + none =~= size + px);
    assert(size + pt + none =~= size + pt);
    law_remove_all(size, px, none);
    law_remove_all(size, pt, none);
    assert(size + none =~= size);
    let in_pt = size + pt;
    assert forall|k: int| !#[trigger] occurs_at(in_pt, px, k) by {
        if occurs_at(in_pt, px, k) {
            assert(in_pt.subrange(k, k + 2)[0] == in_pt[k] && in_pt.subrange(k, k + 2)[1] == in_pt[k + 1]);
            if k < size.len() {
                assert(in_pt[k] == size[k] && size.contains(size[k]));
            }
        }
    }
    law_remove_nothing(in_pt, px);
}

/// A unit does not stand in a text without its first letter.
proof fn lemma_unit_is_first(size: Seq<char>, unit: Seq<char>)
    requires
        !size.contains('p'),
        unit.len() == 2,
        unit[0] == 'p',
    ensures
        forall|k: int|
            0 <= k < size.len() ==> !#[trigger] occurs_at(size + unit + Seq::<char>::empty(), unit, k),
{
    let s = size + unit + Seq::<char>::empty();
    assert forall|k: int| 0 <= k < size.len() implies !#[trigger] occurs_at(s, unit, k) by {
        if occurs_at(s, unit, k) {
            assert(s.subrange(k, k + 2)[0] == s[k]);
            assert(s[k] == size[k] && size.contains(size[k]));
        }
    }
}

/// A rule gives its declarations to each of its selectors, which are separated by commas, white space
/// around them and letter case aside: they are merged into what the selector has. All other
/// selectors keep what they have.
pub proof fn law_rule_is_read(
    sheet: Map<Seq<char>, StyleView>,
    selectors: Seq<char>,
    declarations: Seq<char>,
    key: Seq<char>,
)
    requires
        !selectors.contains('{') && !selectors.contains('}'),
        !declarations.contains('}'),
        has_no_comment(selectors + seq!['{'] + declarations + seq!['}']),
    ensures
        ({
            let after = with_sheet(sheet, selectors + seq!['{'] + declarations + seq!['}']);
            let names = split(selectors, ',');
            let is_named = key.len() > 0 && exists|i: int|
                0 <= i < names.len() && lowercase(trim(#[trigger] names[i])) == key;
            &&& is_named ==> after.contains_key(key) && after[key] == (if sheet.contains_key(key) {
                sheet[key].merged(css_style(declarations))
            } else {
                css_style(declarations)
            })
            &&& !is_named ==> after.contains_key(key) == sheet.contains_key(key) && (sheet.contains_key(key)
                ==> after[key] == sheet[key])
        }),
{
    let rule = selectors + seq!['{'] + declarations;
    let names = split(selectors, ',');
    let style = css_style(declarations);
    lemma_closed_rule(sheet, rule);
    law_before_mark(selectors, '{', declarations);
    assert(rule.take(selectors.len() as int) =~= selectors);
    assert(rule.skip(selectors.len() as int + 1) =~= declarations);
    let after = with_selectors(sheet, names, style);
    lemma_no_mark_in(selectors, '{', declarations, '}');
    assert(with_sheet(sheet, rule + seq!['}']) == after);
    law_plain_style_is_neutral(style);
    if key.len() == 0 {
        lemma_empty_selector(sheet, names, style, key);
    } else if exists|i: int| 0 <= i < names.len() && lowercase(trim(#[trigger] names[i])) == key {
        let i = choose|i: int| 0 <= i < names.len() && lowercase(trim(#[trigger] names[i])) == key;
        law_rule_reaches_selectors(sheet, names, style, i);
        lemma_selector_is_there(sheet, names, style, i);
    } else {
        law_rule_leaves_others(sheet, names, style, key);
    }
}

/// Whether no comment opens or closes in `s`.
pub open spec fn has_no_comment(s: Seq<char>) -> bool {
    forall|i: int|
        0 <= i < s.len() - 1 ==> !(#[trigger] s[i] == '/' && s[i + 1] == '*') && !(s[i] == '*' && s[i + 1]
            == '/')
}

/// A rule with its closing brace is read as one rule.
proof fn lemma_closed_rule(sheet: Map<Seq<char>, StyleView>, rule: Seq<char>)
    requires
        has_no_comment(rule + seq!['}']),
    ensures
        !rule.contains('}') ==> with_sheet(sheet, rule + seq!['}']) == with_rule(sheet, rule),
{
    let css = rule + seq!['}'];
    let none = Seq::<char>::empty();
    law_no_comment_no_change(css);
    if !rule.contains('}') {
        assert(css =~= rule + seq!['}'] + none);
        law_two_parts(rule, '}', none);
        lemma_rules_in_a_row(sheet, seq![rule], seq![none]);
        assert(seq![rule, none] =~= seq![rule] + seq![none]);
        lemma_one_rule(sheet, rule);
        lemma_one_rule(with_rule(sheet, rule), none);
        assert(find_char(none, '{') is None);
    }
}

/// An empty selector is given nothing.
proof fn lemma_empty_selector(
    sheet: Map<Seq<char>, StyleView>,
    selectors: Seq<Seq<char>>,
    style: StyleView,
    key: Seq<char>,
)
    requires
        key.len() == 0,
    ensures
        with_selectors(sheet, selectors, style).contains_key(key) == sheet.contains_key(key),
        sheet.contains_key(key) ==> with_selectors(sheet, selectors, style)[key] == sheet[key],
    decreases selectors.len(),
{
    if selectors.len() > 0 {
        lemma_empty_selector(sheet, selectors.drop_last(), style, key);
    }
}

/// A selector that a rule names has a style.
proof fn lemma_selector_is_there(
    sheet: Map<Seq<char>, StyleView>,
    selectors: Seq<Seq<char>>,
    style: StyleView,
    i: int,
)
    requires
        0 <= i < selectors.len(),
        lowercase(trim(selectors[i])).len() > 0,
    ensures
        with_selectors(sheet, selectors, style).contains_key(lowercase(trim(selectors[i]))),
    decreases selectors.len(),
{
    if i < selectors.len() - 1 {
        assert(selectors.drop_last()[i] == selectors[i]);
        lemma_selector_is_there(sheet, selectors.drop_last(), style, i);
    }
}

/// A style sheet without an opening brace says nothing.
pub proof fn law_no_brace_no_rule(sheet: Map<Seq<char>, StyleView>, css: Seq<char>)
    requires
        !css.contains('{'),
        has_no_comment(css),
    ensures
        with_sheet(sheet, css) == sheet,
{
    law_no_comment_no_change(css);
    lemma_parts_hold_no_other(css, '}', '{', 0);
    lemma_no_rules(sheet, split(css, '}'));
}

proof fn lemma_parts_hold_no_other(s: Seq<char>, sep: char, mark: char, from: int)
    requires
        0 <= from,
        !s.contains(mark),
    ensures
        forall|k: int|
            0 <= k < split_from(s, sep, from).len() ==> !(#[trigger] split_from(s, sep, from)[k]).contains(
                mark,
            ),
    decreases s.len() - from,
{
    lemma_find_char_from_bounds(s, sep, from);
    let parts = split_from(s, sep, from);
    if from < s.len() {
        let (head, rest) = match find_char_from(s, sep, from) {
            Some(i) => {
                lemma_parts_hold_no_other(s, sep, mark, i + 1);
                (s.subrange(from, i), split_from(s, sep, i + 1))
            },
            None => (s.skip(from), Seq::empty()),
        };
        assert(parts =~= seq![head] + rest);
        assert(!head.contains(mark)) by {
            if head.contains(mark) {
                let k = choose|k: int| 0 <= k < head.len() && head[k] == mark;
                assert(s[from + k] == mark);
                assert(s.contains(s[from + k]));
            }
        }
        assert forall|k: int| 0 <= k < parts.len() implies !(#[trigger] parts[k]).contains(mark) by {
            if k > 0 {
                assert(parts[k] == rest[k - 1]);
            }
        }
    }
}

proof fn lemma_no_rules(sheet: Map<Seq<char>, StyleView>, rules: Seq<Seq<char>>)
    requires
        forall|k: int| 0 <= k < rules.len() ==> !(#[trigger] rules[k]).contains('{'),
    ensures
        with_rules(sheet, rules) == sheet,
    decreases rules.len(),
{
    if rules.len() > 0 {
        let earlier = rules.drop_last();
        assert forall|k: int| 0 <= k < earlier.len() implies !(#[trigger] earlier[k]).contains('{') by {
            assert(earlier[k] == rules[k]);
        }
        assert(!rules[rules.len() - 1].contains('{'));
        lemma_no_rules(sheet, earlier);
        law_before_mark(rules.last(), '{', Seq::empty());
    }
}

/// A comment in the midst of a text is left out, and so is a comment that is never closed, and a mark
/// that closes none. What stands before it stays; what stands behind it is treated in the same way.
pub proof fn law_comment_is_left_out(head: Seq<char>, comment: Seq<char>, rest: Seq<char>)
    requires
        has_no_comment(head),
        has_no_comment(comment),
        head.len() > 0 ==> head.last() != '*' && head.last() != '/',
        comment.len() > 0 ==> comment.last() != '/',
    ensures
        without_comments(head + (seq!['/', '*'] + comment + seq!['*', '/'] + rest), false) == head
            + without_comments(rest, false),
        without_comments(head + (seq!['*', '/'] + rest), false) == head + without_comments(rest, false),
        without_comments(head + (seq!['/', '*'] + comment), false) == head,
{
    let opened = seq!['/', '*'] + comment;
    let whole = seq!['/', '*'] + comment + seq!['*', '/'] + rest;
    let closed = seq!['*', '/'] + rest;
    law_comment_says_nothing(comment, rest, false);
    lemma_head_stays(head, whole);
    lemma_head_stays(head, closed);
    lemma_head_stays(head, opened);
    assert(closed.skip(2) =~= rest);
    assert(opened.skip(2) =~= comment);
    lemma_all_comment(comment);
    assert(head + without_comments(opened, false) =~= head);
}

proof fn lemma_head_stays(head: Seq<char>, rest: Seq<char>)
    requires
        has_no_comment(head),
        head.len() > 0 ==> head.last() != '*' && head.last() != '/',
    ensures
        without_comments(head + rest, false) == head + without_comments(rest, false),
    decreases head.len(),
{
    let s = head + rest;
    if head.len() == 0 {
        assert(s =~= rest);
        assert(head + without_comments(rest, false) =~= without_comments(rest, false));
    } else {
        let left = head.skip(1);
        assert(s.skip(1) =~= left + rest);
        assert forall|i: int| 0 <= i < left.len() - 1 implies !(#[trigger] left[i] == '/' && left[i + 1]
            == '*') && !(left[i] == '*' && left[i + 1] == '/') by {
            assert(left[i] == head[i + 1] && left[i + 1] == head[i + 2]);
        }
        assert(left.len() > 0 ==> left.last() == head.last());
        lemma_head_stays(left, rest);
        assert(s[0] == head[0]);
        if head.len() > 1 {
            assert(s[1] == head[0int + 1]);
        }
        assert(without_comments(s, false) == seq![head[0]] + without_comments(left + rest, false));
        assert(seq![head[0]] + (left + without_comments(rest, false)) =~= head + without_comments(
            rest,
            false,
        ));
    }
}

proof fn lemma_all_comment(comment: Seq<char>)
    requires
        has_no_comment(comment),
    ensures
        without_comments(comment, true) == Seq::<char>::empty(),
    decreases comment.len(),
{
    if comment.len() == 0 {
        assert(comment =~= Seq::empty());
    } else {
        let left = comment.skip(1);
        assert forall|i: int| 0 <= i < left.len() - 1 implies !(#[trigger] left[i] == '/' && left[i + 1]
            == '*') && !(left[i] == '*' && left[i + 1] == '/') by {
            assert(left[i] == comment[i + 1] && left[i + 1] == comment[i + 2]);
        }
        lemma_all_comment(left);
        if comment.len() > 1 {
            assert(!(comment[0] == '*' && comment[0int + 1] == '/'));
        }
    }
}

} // verus!
