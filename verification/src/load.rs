//! Loading a page with all that belongs to it: which address to ask for next, and what the answer
//! means.
use vstd::prelude::*;
use crate::css::{opt_text, parse_css_sheet, with_sheet, StyleSheet, StyleView};
use crate::formats::decoder_comes_back;
use crate::http::{build_request, request_for, Request};
use crate::letters::{decode_text, is_ascii, lemma_ascii_part, lower, lowercase, text_of};
use crate::markup::{
    attr_reads, attr_value, has_text, law_ascii_attr_reads, law_ascii_page_has_pieces, page_pieces, scan_html,
    try_extract_attr, OffBoundary,
};
use crate::page::{
    blocks_view, is_worth_showing, law_blocks_are_worth_showing, law_sheets_change_only_styles, page_of,
    render_html_to_blocks, same_but_style, strings_view, BlockType, BlockTypeView, BlockView, FetchResult,
    PageView, RenderBlock,
};
use crate::picture::{is_picture_in, load_picture, opt_image, ColorImage, ImageView};
use crate::text::{
    contains, find_char_from, find_from, find_mark, find_text, from_chars, law_find_is_first,
    law_occurs_between, lemma_find_char_from_bounds, lemma_find_from_bounds, occurs_at, slice_of, texts,
    to_chars,
};
use crate::url::{
    law_link_leads, leads_to, parse_url, resolve_url, resolved_url, url_host, url_is_secure,
};

verus! {

// ---------------------------------------------------------------------------------------------
// What a page refers to
// ---------------------------------------------------------------------------------------------

/// The style sheets that stand in `html` itself, from position `from` on. An element that is never
/// closed is none.
pub open spec fn inline_sheets(html: Seq<char>, from: int) -> Seq<Seq<char>>
    decreases html.len() - from,
{
    if from < 0 {
        Seq::empty()
    } else {
        proof {
            lemma_find_from_bounds(html, "<style>"@, from);
            if find_from(html, "<style>"@, from) is Some {
                lemma_find_from_bounds(
                    html,
                    "</style>"@,
                    find_from(html, "<style>"@, from)->0 + "<style>"@.len(),
                );
                lemma_style_tags();
            }
        }
        match find_from(html, "<style>"@, from) {
            Some(open) => match find_from(html, "</style>"@, open + "<style>"@.len()) {
                Some(end) => seq![html.subrange(open + "<style>"@.len(), end)] + inline_sheets(
                    html,
                    end + "</style>"@.len(),
                ),
                None => Seq::empty(),
            },
            None => Seq::empty(),
        }
    }
}

pub proof fn lemma_style_tags()
    ensures
        "<style>"@.len() == 7,
        "</style>"@.len() == 8,
{
    reveal_strlit("<style>");
    reveal_strlit("</style>");
}

/// The link tags of `html`, from position `from` on.
pub open spec fn link_tags(html: Seq<char>, from: int) -> Seq<Seq<char>>
    decreases html.len() - from,
{
    if from < 0 {
        Seq::empty()
    } else {
        proof {
            lemma_find_from_bounds(html, "<link "@, from);
            if find_from(html, "<link "@, from) is Some {
                lemma_find_char_from_bounds(html, '>', find_from(html, "<link "@, from)->0);
            }
        }
        match find_from(html, "<link "@, from) {
            Some(open) => match find_char_from(html, '>', open) {
                Some(end) => seq![html.subrange(open, end + 1)] + link_tags(html, end + 1),
                None => Seq::empty(),
            },
            None => Seq::empty(),
        }
    }
}

/// Whether the link tag `tag` speaks of `word`.
pub open spec fn link_is(tag: Seq<char>, word: Seq<char>) -> bool {
    contains(lowercase(tag), word)
}

/// Whether the address in the link tag `tag` is where it can be read.
pub open spec fn link_reads(tag: Seq<char>) -> bool {
    attr_reads(tag, lowercase(tag), "href"@)
}

/// The address in the link tag `tag`.
pub open spec fn link_href(tag: Seq<char>) -> Option<Seq<char>> {
    attr_value(tag, lowercase(tag), "href"@)
}

/// Whether the addresses of style sheets and icons in `tags` are where they can be read.
pub open spec fn links_read(tags: Seq<Seq<char>>) -> bool {
    forall|i: int|
        0 <= i < tags.len() && (link_is(#[trigger] tags[i], "stylesheet"@) || link_is(
            tags[i],
            "icon"@,
        )) ==> link_reads(tags[i])
}

/// The addresses of the style sheets that `tags` on the page `url` refer to, in their order.
pub open spec fn sheet_urls(url: Seq<char>, tags: Seq<Seq<char>>) -> Seq<Seq<char>>
    decreases tags.len(),
{
    if tags.len() == 0 {
        Seq::empty()
    } else {
        let earlier = sheet_urls(url, tags.drop_last());
        if link_is(tags.last(), "stylesheet"@) {
            match link_href(tags.last()) {
                Some(href) => earlier.push(resolved_url(url, href)),
                None => earlier,
            }
        } else {
            earlier
        }
    }
}

/// What the last of `tags` that speaks of an icon refers to.
pub open spec fn icon_href(tags: Seq<Seq<char>>) -> Option<Seq<char>>
    decreases tags.len(),
{
    if tags.len() == 0 {
        None
    } else if link_is(tags.last(), "icon"@) {
        link_href(tags.last())
    } else {
        icon_href(tags.drop_last())
    }
}

/// The address of the icon of the page `url`.
pub open spec fn icon_url(url: Seq<char>, tags: Seq<Seq<char>>) -> Seq<char> {
    match icon_href(tags) {
        Some(href) => resolved_url(url, href),
        None => "http://"@ + url_host(url) + "/favicon.ico"@,
    }
}

/// `sheet` after the style sheets `sheets`.
pub open spec fn with_sheets(sheet: Map<Seq<char>, StyleView>, sheets: Seq<Seq<char>>) -> Map<
    Seq<char>,
    StyleView,
>
    decreases sheets.len(),
{
    if sheets.len() == 0 {
        sheet
    } else {
        with_sheet(with_sheets(sheet, sheets.drop_last()), sheets.last())
    }
}

/// Whether the page `html` can be read: the places of its attributes and cookies, which are counted
/// in lower case text, fall between two characters.
pub open spec fn page_reads(html: Seq<char>) -> bool {
    page_pieces(html) is Some && links_read(link_tags(html, 0))
}

/// The page that is shown where nothing could be fetched from `url`.
pub open spec fn error_page(url: Seq<char>) -> PageView {
    PageView {
        url,
        title: Some("Error!"@),
        favicon_raw: None,
        blocks: Seq::empty(),
        alerts: Seq::empty(),
        new_cookie: None,
        auto_redirect: None,
        is_secure: url_is_secure(url),
    }
}

// ---------------------------------------------------------------------------------------------
// The steps
// ---------------------------------------------------------------------------------------------

/// How far the loading of a page has come.
pub enum LoadView {
    /// The page itself is awaited.
    Page,
    /// The first of the style sheets `urls` is awaited.
    Sheets { html: Seq<char>, urls: Seq<Seq<char>>, sheet: Map<Seq<char>, StyleView> },
    /// The picture of the block `at` is awaited.
    Picture { page: PageView, at: int, icon: Seq<char> },
    /// The icon is awaited.
    Icon { page: PageView, icon: Seq<char> },
    /// The page is complete.
    Done { page: PageView },
    /// The page cannot be read.
    Unreadable,
}

/// The position of the first picture among `blocks` from `from` on.
pub open spec fn next_picture(blocks: Seq<BlockView>, from: int) -> Option<int>
    decreases blocks.len() - from,
{
    if from < 0 || from >= blocks.len() {
        None
    } else if blocks[from].block_type is Image {
        Some(from)
    } else {
        next_picture(blocks, from + 1)
    }
}

/// The step after the pictures before the block `from`.
pub open spec fn pictures_from(page: PageView, from: int, icon: Seq<char>) -> LoadView {
    match next_picture(page.blocks, from) {
        Some(at) => LoadView::Picture { page, at, icon },
        None => LoadView::Icon { page, icon },
    }
}

/// The step in which the style sheets `urls` are still to come.
pub open spec fn sheets_from(
    url: Seq<char>,
    html: Seq<char>,
    urls: Seq<Seq<char>>,
    sheet: Map<Seq<char>, StyleView>,
) -> LoadView {
    if urls.len() > 0 {
        LoadView::Sheets { html, urls, sheet }
    } else {
        pictures_from(
            page_of(page_pieces(html)->0, url, sheet),
            0,
            icon_url(url, link_tags(html, 0)),
        )
    }
}

/// `page` with `picture` in the block `at`.
pub open spec fn with_picture(page: PageView, at: int, picture: Option<ImageView>) -> PageView {
    let block = page.blocks[at];
    let block_type = match block.block_type {
        BlockTypeView::Image { src, alt, raw_image } => BlockTypeView::Image {
            src,
            alt,
            raw_image: picture,
        },
        other => other,
    };
    PageView { blocks: page.blocks.update(at, BlockView { block_type, ..block }), ..page }
}

/// The step after the answer `reply` to the request of the step `load`, out of which `picture` was
/// read. A style sheet or a picture that did not come is left out.
pub open spec fn delivered(
    url: Seq<char>,
    load: LoadView,
    reply: Option<Seq<u8>>,
    picture: Option<ImageView>,
) -> LoadView {
    match load {
        LoadView::Page => match reply {
            Some(body) => {
                let html = text_of(body);
                if page_reads(html) {
                    sheets_from(
                        url,
                        html,
                        sheet_urls(url, link_tags(html, 0)),
                        with_sheets(Map::empty(), inline_sheets(html, 0)),
                    )
                } else {
                    LoadView::Unreadable
                }
            },
            None => LoadView::Done { page: error_page(url) },
        },
        LoadView::Sheets { html, urls, sheet } => sheets_from(
            url,
            html,
            urls.skip(1),
            match reply {
                Some(css) => with_sheet(sheet, text_of(css)),
                None => sheet,
            },
        ),
        LoadView::Picture { page, at, icon } => pictures_from(
            with_picture(page, at, picture),
            at + 1,
            icon,
        ),
        LoadView::Icon { page, icon } => LoadView::Done {
            page: PageView { favicon_raw: picture, ..page },
        },
        LoadView::Done { page } => load,
        LoadView::Unreadable => load,
    }
}

/// The address that is asked for in the step `load`.
pub open spec fn awaited_url(url: Seq<char>, load: LoadView) -> Option<Seq<char>> {
    match load {
        LoadView::Page => Some(url),
        LoadView::Sheets { html, urls, sheet } => Some(urls[0]),
        LoadView::Picture { page, at, icon } => match page.blocks[at].block_type {
            BlockTypeView::Image { src, alt, raw_image } => Some(resolved_url(url, src)),
            _ => None,
        },
        LoadView::Icon { page, icon } => Some(icon),
        LoadView::Done { page } => None,
        LoadView::Unreadable => None,
    }
}

/// Whether `picture` can be what is read out of the answer `reply`.
pub open spec fn is_picture_of(reply: Option<Seq<u8>>, picture: Option<ImageView>) -> bool {
    match reply {
        Some(bytes) => is_picture_in(bytes, picture),
        None => picture is None,
    }
}

/// Whether a picture is awaited in the step `load`, and the decoders may panic on the answer `reply`.
pub open spec fn is_undecoded(load: LoadView, reply: Option<Seq<u8>>) -> bool {
    &&& load is Picture || load is Icon
    &&& reply matches Some(bytes)
    &&& !decoder_comes_back(bytes)
}

/// Whether the step `load` is one that can be reached.
pub open spec fn load_wf(load: LoadView) -> bool {
    match load {
        LoadView::Sheets { html, urls, sheet } => urls.len() > 0 && page_reads(html),
        LoadView::Picture { page, at, icon } => 0 <= at < page.blocks.len() && page.blocks[at].block_type
            is Image,
        _ => true,
    }
}

// ---------------------------------------------------------------------------------------------
// Taking them
// ---------------------------------------------------------------------------------------------

/// Reads the style sheets that stand in `html` itself.
fn read_inline_sheets(html: &Vec<char>) -> (r: StyleSheet)
    ensures
        r@ == with_sheets(Map::empty(), inline_sheets(html@, 0)),
{
    let mut sheet = StyleSheet::new();
    let open_tag = to_chars("<style>");
    let close_tag = to_chars("</style>");
    let ghost mut seen: Seq<Seq<char>> = Seq::empty();
    let mut from: usize = 0;
    proof {
        lemma_style_tags();
        assert(seen + inline_sheets(html@, 0) =~= inline_sheets(html@, 0));
    }
    loop
        invariant
            from <= html.len(),
            open_tag@ == "<style>"@,
            close_tag@ == "</style>"@,
            "<style>"@.len() == 7,
            "</style>"@.len() == 8,
            sheet@ == with_sheets(Map::empty(), seen),
            inline_sheets(html@, 0) == seen + inline_sheets(html@, from as int),
        decreases html.len() - from,
    {
        proof {
            lemma_find_from_bounds(html@, "<style>"@, from as int);
        }
        let start = match find_text(html, &open_tag, from) {
            Some(i) => i + open_tag.len(),
            None => {
                assert(seen + Seq::<Seq<char>>::empty() =~= seen);
                return sheet;
            },
        };
        proof {
            lemma_find_from_bounds(html@, "</style>"@, start as int);
        }
        let end = match find_text(html, &close_tag, start) {
            Some(i) => i,
            None => {
                assert(seen + Seq::<Seq<char>>::empty() =~= seen);
                return sheet;
            },
        };
        let css = slice_of(html, start, end);
        parse_css_sheet(from_chars(&css).as_str(), &mut sheet);
        let next = end + close_tag.len();
        proof {
            let rest = inline_sheets(html@, next as int);
            assert(seen.push(css@) + rest =~= seen + (seq![css@] + rest));
            assert(seen.push(css@).drop_last() =~= seen);
            assert(seen.push(css@).last() == css@);
            seen = seen.push(css@);
        }
        from = next;
    }
}

/// The link tags of `html`.
fn find_link_tags(html: &Vec<char>) -> (r: Vec<Vec<char>>)
    ensures
        texts(r@) == link_tags(html@, 0),
{
    let mut tags: Vec<Vec<char>> = Vec::new();
    let open_tag = to_chars("<link ");
    let mut from: usize = 0;
    proof {
        assert(texts(tags@) + link_tags(html@, 0) =~= link_tags(html@, 0));
    }
    loop
        invariant
            from <= html.len(),
            open_tag@ == "<link "@,
            link_tags(html@, 0) == texts(tags@) + link_tags(html@, from as int),
        decreases html.len() - from,
    {
        let ghost seen = texts(tags@);
        proof {
            lemma_find_from_bounds(html@, "<link "@, from as int);
        }
        let start = match find_text(html, &open_tag, from) {
            Some(i) => i,
            None => {
                assert(seen + Seq::<Seq<char>>::empty() =~= seen);
                return tags;
            },
        };
        let end = match find_mark(html, '>', start) {
            Some(i) => i,
            None => {
                assert(seen + Seq::<Seq<char>>::empty() =~= seen);
                return tags;
            },
        };
        let tag = slice_of(html, start, end + 1);
        tags.push(tag);
        proof {
            let rest = link_tags(html@, end + 1);
            assert(texts(tags@) =~= seen.push(tag@));
            assert(seen.push(tag@) + rest =~= seen + (seq![tag@] + rest));
        }
        from = end + 1;
    }
}

/// What the link tags of a page refer to: the addresses of its style sheets and of its icon.
fn read_links(url: &str, tags: &Vec<Vec<char>>) -> (r: Result<(Vec<String>, String), OffBoundary>)
    ensures
        r is Ok <==> links_read(texts(tags@)),
        r matches Ok((sheets, icon)) ==> strings_view(sheets@) == sheet_urls(url@, texts(tags@))
            && icon@ == icon_url(url@, texts(tags@)),
{
    let mut sheets: Vec<String> = Vec::new();
    let mut icon_path: Option<String> = None;
    let ghost all = texts(tags@);
    let mut i: usize = 0;
    proof {
        assert(all.take(0) =~= Seq::<Seq<char>>::empty());
        assert(strings_view(sheets@) =~= Seq::<Seq<char>>::empty());
    }
    while i < tags.len()
        invariant
            i <= tags.len(),
            all == texts(tags@),
            links_read(all.take(i as int)),
            strings_view(sheets@) == sheet_urls(url@, all.take(i as int)),
            opt_text(icon_path) == icon_href(all.take(i as int)),
        decreases tags.len() - i,
    {
        let ghost seen = strings_view(sheets@);
        let ghost here = tags@[i as int]@;
        proof {
            assert(all[i as int] == here);
            assert(all.take(i + 1).drop_last() =~= all.take(i as int));
            assert(all.take(i + 1).last() == here);
        }
        let low = lower(&tags[i]);
        let is_sheet = has_text(&low, "stylesheet");
        let is_icon = has_text(&low, "icon");
        if is_sheet || is_icon {
            let tag = from_chars(&tags[i]);
            match try_extract_attr(tag.as_str(), "href") {
                Ok(href) => {
                    if is_sheet {
                        match &href {
                            Some(path) => {
                                let css_url = resolve_url(url, path.as_str());
                                sheets.push(css_url);
                                assert(strings_view(sheets@) =~= seen.push(css_url@));
                            },
                            None => {},
                        }
                    }
                    if is_icon {
                        icon_path = href;
                    }
                },
                Err(e) => {
                    assert(!link_reads(all[i as int]));
                    return Err(e);
                },
            }
        }
        proof {
            assert forall|k: int|
                0 <= k < i + 1 && (link_is(#[trigger] all.take(i + 1)[k], "stylesheet"@) || link_is(
                    all.take(i + 1)[k],
                    "icon"@,
                )) implies link_reads(all.take(i + 1)[k]) by {
                if k < i {
                    assert(all.take(i as int)[k] == all[k]);
                }
            }
        }
        i = i + 1;
    }
    assert(all.take(i as int) =~= all);
    let icon = match &icon_path {
        Some(path) => resolve_url(url, path.as_str()),
        None => {
            let mut address = "http://".to_string();
            address.append(parse_url(url).0.as_str());
            address.append("/favicon.ico");
            address
        },
    };
    Ok((sheets, icon))
}

/// The page that is shown where nothing could be fetched from `url`.
fn make_error_page(url: &str) -> (r: FetchResult)
    ensures
        r@ == error_page(url@),
{
    let r = FetchResult {
        url: url.to_string(),
        title: Some("Error!".to_string()),
        favicon_raw: None,
        blocks: Vec::new(),
        alerts: Vec::new(),
        new_cookie: None,
        auto_redirect: None,
        is_secure: parse_url(url).2,
    };
    proof {
        assert(blocks_view(r.blocks@) =~= Seq::<BlockView>::empty());
        assert(strings_view(r.alerts@) =~= Seq::<Seq<char>>::empty());
    }
    r
}

enum Phase {
    Page,
    Sheets { html: String, urls: Vec<String>, next: usize, icon: String, sheet: StyleSheet },
    Picture { page: FetchResult, at: usize, icon: String },
    Icon { page: FetchResult, icon: String },
    Done { page: FetchResult },
    Unreadable,
}

spec fn phase_view(phase: Phase) -> LoadView {
    match phase {
        Phase::Page => LoadView::Page,
        Phase::Sheets { html, urls, next, icon, sheet } => LoadView::Sheets {
            html: html@,
            urls: strings_view(urls@).skip(next as int),
            sheet: sheet@,
        },
        Phase::Picture { page, at, icon } => LoadView::Picture { page: page@, at: at as int, icon: icon@ },
        Phase::Icon { page, icon } => LoadView::Icon { page: page@, icon: icon@ },
        Phase::Done { page } => LoadView::Done { page: page@ },
        Phase::Unreadable => LoadView::Unreadable,
    }
}

/// The loading of a page. It says which address to ask for; the answer is handed back to it, and
/// so on until the page is complete.
pub struct PageLoad {
    url: String,
    cookie: Option<String>,
    phase: Phase,
}

/// An answer on which the decoders may panic, and the loading that awaits the picture in it.
pub struct Undecoded {
    pub load: PageLoad,
    pub bytes: Vec<u8>,
}

impl View for PageLoad {
    type V = LoadView;

    closed spec fn view(&self) -> LoadView {
        phase_view(self.phase)
    }
}

impl PageLoad {
    /// The address of the page.
    pub closed spec fn url(&self) -> Seq<char> {
        self.url@
    }

    /// The cookie that goes with every request.
    pub closed spec fn cookie(&self) -> Option<Seq<char>> {
        opt_text(self.cookie)
    }

    #[verifier::type_invariant]
    closed spec fn inv(self) -> bool {
        &&& load_wf(phase_view(self.phase))
        &&& self.phase matches Phase::Sheets { html, urls, next, icon, sheet } ==> next < urls@.len()
            && icon@ == icon_url(self.url@, link_tags(html@, 0))
    }
}

/// The position of the first picture among `blocks` from `from` on.
fn find_picture(blocks: &Vec<RenderBlock>, from: usize) -> (r: Option<usize>)
    ensures
        (r matches Some(i) ==> next_picture(blocks_view(blocks@), from as int) == Some(i as int)
            && i < blocks.len() && blocks@[i as int]@.block_type is Image),
        (r is None ==> next_picture(blocks_view(blocks@), from as int) is None),
{
    let mut i: usize = from;
    while i < blocks.len()
        invariant
            next_picture(blocks_view(blocks@), from as int) == next_picture(
                blocks_view(blocks@),
                i as int,
            ),
        decreases blocks.len() - i,
    {
        assert(blocks_view(blocks@)[i as int] == blocks@[i as int]@);
        match &blocks[i].block_type {
            BlockType::Image { src, alt, raw_image } => {
                return Some(i);
            },
            _ => {},
        }
        i = i + 1;
    }
    None
}

/// The step after the pictures before the block `from`.
fn await_picture(page: FetchResult, from: usize, icon: String) -> (r: Phase)
    ensures
        phase_view(r) == pictures_from(page@, from as int, icon@),
        load_wf(phase_view(r)),
        !(r is Sheets),
{
    match find_picture(&page.blocks, from) {
        Some(at) => {
            assert(page@.blocks[at as int] == page.blocks@[at as int]@);
            Phase::Picture { page, at, icon }
        },
        None => Phase::Icon { page, icon },
    }
}

/// The step in which the style sheets from `next` on are still to come.
fn await_sheet(
    url: &str,
    html: String,
    urls: Vec<String>,
    next: usize,
    icon: String,
    sheet: StyleSheet,
) -> (r: Phase)
    requires
        next <= urls@.len(),
        page_reads(html@),
        icon@ == icon_url(url@, link_tags(html@, 0)),
    ensures
        phase_view(r) == sheets_from(url@, html@, strings_view(urls@).skip(next as int), sheet@),
        load_wf(phase_view(r)),
        r matches Phase::Sheets { html, urls, next, icon, sheet } ==> next < urls@.len() && icon@
            == icon_url(url@, link_tags(html@, 0)),
{
    if next < urls.len() {
        Phase::Sheets { html, urls, next, icon, sheet }
    } else {
        let page = render_html_to_blocks(html.as_str(), url, &sheet);
        await_picture(page, 0, icon)
    }
}

/// The step after the page with the text `html` has come.
fn open_page(url: &str, html: String) -> (r: Phase)
    ensures
        phase_view(r) == (if page_reads(html@) {
            sheets_from(
                url@,
                html@,
                sheet_urls(url@, link_tags(html@, 0)),
                with_sheets(Map::empty(), inline_sheets(html@, 0)),
            )
        } else {
            LoadView::Unreadable
        }),
        load_wf(phase_view(r)),
        r matches Phase::Sheets { html, urls, next, icon, sheet } ==> next < urls@.len() && icon@
            == icon_url(url@, link_tags(html@, 0)),
{
    if scan_html(html.as_str()).is_err() {
        return Phase::Unreadable;
    }
    let chars = to_chars(html.as_str());
    match read_links(url, &find_link_tags(&chars)) {
        Ok((urls, icon)) => {
            let sheet = read_inline_sheets(&chars);
            assert(strings_view(urls@).skip(0) =~= strings_view(urls@));
            await_sheet(url, html, urls, 0, icon, sheet)
        },
        Err(_) => Phase::Unreadable,
    }
}

/// Puts `picture` into the block `at` of `page`.
fn place_picture(page: FetchResult, at: usize, picture: Option<ColorImage>) -> (r: FetchResult)
    requires
        at < page.blocks@.len(),
    ensures
        r@ == with_picture(page@, at as int, opt_image(picture)),
{
    let mut blocks = page.blocks;
    let ghost before = blocks_view(blocks@);
    let mut block = blocks[at].clone();
    let ghost old_block = block@;
    block.block_type = match block.block_type {
        BlockType::Image { src, alt, raw_image } => BlockType::Image { src, alt, raw_image: picture },
        other => other,
    };
    blocks[at] = block;
    let r = FetchResult { blocks, ..page };
    assert(blocks_view(blocks@) =~= before.update(at as int, block@));
    r
}

impl PageLoad {
    /// Begins to load the page `url`. The cookie goes with every request.
    pub fn start(url: String, cookie: Option<String>) -> (r: PageLoad)
        ensures
            r@ == LoadView::Page,
            r.url() == url@,
            r.cookie() == opt_text(cookie),
    {
        PageLoad { url, cookie, phase: Phase::Page }
    }

    /// The request to make next; `None` where there is none any more.
    pub fn next_request(&self) -> (r: Option<Request>)
        ensures
            r is Some <==> awaited_url(self.url(), self@) is Some,
            r matches Some(request) ==> request@ == request_for(
                awaited_url(self.url(), self@)->0,
                self.cookie(),
            ),
    {
        proof {
            use_type_invariant(self);
        }
        match &self.phase {
            Phase::Page => Some(build_request(self.url.as_str(), &self.cookie)),
            Phase::Sheets { html, urls, next, icon, sheet } => {
                assert(strings_view(urls@).skip(*next as int)[0] == urls@[*next as int]@);
                Some(build_request(urls[*next].as_str(), &self.cookie))
            },
            Phase::Picture { page, at, icon } => {
                assert(page@.blocks[*at as int] == page.blocks@[*at as int]@);
                match &page.blocks[*at].block_type {
                    BlockType::Image { src, alt, raw_image } => {
                        let address = resolve_url(self.url.as_str(), src.as_str());
                        Some(build_request(address.as_str(), &self.cookie))
                    },
                    _ => None,
                }
            },
            Phase::Icon { page, icon } => Some(build_request(icon.as_str(), &self.cookie)),
            Phase::Done { page } => None,
            Phase::Unreadable => None,
        }
    }

    /// Takes the body of the answer to the request, or `None` where no answer came. Where a picture
    /// is awaited, it is read out of the answer. An answer on which the decoders may panic is handed
    /// back, for [`PageLoad::deliver_read`].
    pub fn deliver(self, reply: Option<Vec<u8>>) -> (r: Result<PageLoad, Undecoded>)
        ensures
            r is Err <==> is_undecoded(self@, reply_bytes(reply)),
            r matches Ok(next) ==> next.url() == self.url() && next.cookie() == self.cookie(),
            r matches Ok(next) ==> exists|picture: Option<ImageView>|
                (self@ is Picture || self@ is Icon ==> is_picture_of(reply_bytes(reply), picture))
                    && next@ == #[trigger] delivered(self.url(), self@, reply_bytes(reply), picture),
            r matches Err(undecoded) ==> undecoded.load == self && reply_bytes(reply) == Some(
                undecoded.bytes@,
            ),
    {
        let awaits_picture = match &self.phase {
            Phase::Picture { .. } => true,
            Phase::Icon { .. } => true,
            _ => false,
        };
        match reply {
            Some(bytes) => if awaits_picture {
                match load_picture(&bytes) {
                    Ok(picture) => Ok(self.deliver_read(Some(bytes), picture)),
                    Err(_) => Err(Undecoded { load: self, bytes }),
                }
            } else {
                Ok(self.deliver_read(Some(bytes), None))
            },
            None => Ok(self.deliver_read(None, None)),
        }
    }

    /// As [`PageLoad::deliver`], with the picture that was read out of the answer.
    pub fn deliver_read(self, reply: Option<Vec<u8>>, picture: Option<ColorImage>) -> (r: PageLoad)
        ensures
            r.url() == self.url(),
            r.cookie() == self.cookie(),
            r@ == delivered(self.url(), self@, reply_bytes(reply), opt_image(picture)),
    {
        proof {
            use_type_invariant(&self);
        }
        let url = self.url;
        let phase = match self.phase {
            Phase::Page => match reply {
                Some(body) => open_page(url.as_str(), decode_text(&body)),
                None => Phase::Done { page: make_error_page(url.as_str()) },
            },
            Phase::Sheets { html, urls, next, icon, sheet } => {
                let mut sheet = sheet;
                match reply {
                    Some(css) => parse_css_sheet(decode_text(&css).as_str(), &mut sheet),
                    None => {},
                }
                assert(strings_view(urls@).skip(next as int).skip(1) =~= strings_view(urls@).skip(
                    next + 1,
                ));
                assert(next < urls.len());
                await_sheet(url.as_str(), html, urls, next + 1, icon, sheet)
            },
            Phase::Picture { page, at, icon } => {
                assert(at < page.blocks.len());
                let page = place_picture(page, at, picture);
                await_picture(page, at + 1, icon)
            },
            Phase::Icon { page, icon } => Phase::Done {
                page: FetchResult { favicon_raw: picture, ..page },
            },
            Phase::Done { page } => Phase::Done { page },
            Phase::Unreadable => Phase::Unreadable,
        };
        PageLoad { url, cookie: self.cookie, phase }
    }

    /// The page, where it is complete.
    pub fn into_page(self) -> (r: Option<FetchResult>)
        ensures
            r is Some <==> self@ is Done,
            r matches Some(page) ==> self@ == (LoadView::Done { page: page@ }),
    {
        match self.phase {
            Phase::Done { page } => Some(page),
            _ => None,
        }
    }
}

/// The bytes of an answer.
pub open spec fn reply_bytes(reply: Option<Vec<u8>>) -> Option<Seq<u8>> {
    match reply {
        Some(bytes) => Some(bytes@),
        None => None,
    }
}

// ---------------------------------------------------------------------------------------------
// Laws
// ---------------------------------------------------------------------------------------------

/// An ASCII page can be read.
pub proof fn law_ascii_page_reads(html: Seq<char>)
    requires
        is_ascii(html),
    ensures
        page_reads(html),
{
    law_ascii_page_has_pieces(html);
    lemma_ascii_links(html, 0);
    let tags = link_tags(html, 0);
    assert forall|i: int|
        0 <= i < tags.len() && (link_is(#[trigger] tags[i], "stylesheet"@) || link_is(
            tags[i],
            "icon"@,
        )) implies link_reads(tags[i]) by {
        law_ascii_attr_reads(tags[i], "href"@);
    }
}

proof fn lemma_ascii_links(html: Seq<char>, from: int)
    requires
        is_ascii(html),
        0 <= from,
    ensures
        forall|i: int| 0 <= i < link_tags(html, from).len() ==> is_ascii(#[trigger] link_tags(html, from)[i]),
    decreases html.len() - from,
{
    lemma_find_from_bounds(html, "<link "@, from);
    if find_from(html, "<link "@, from) is Some {
        let open = find_from(html, "<link "@, from)->0;
        lemma_find_char_from_bounds(html, '>', open);
        if find_char_from(html, '>', open) is Some {
            let end = find_char_from(html, '>', open)->0;
            lemma_ascii_part(html, open, end + 1);
            lemma_ascii_links(html, end + 1);
            let tags = link_tags(html, from);
            let rest = link_tags(html, end + 1);
            assert forall|i: int| 0 <= i < tags.len() implies is_ascii(#[trigger] tags[i]) by {
                if i > 0 {
                    assert(tags[i] == rest[i - 1]);
                }
            }
        }
    }
}

/// A page whose text is ASCII is loaded, whatever becomes of the rest.
pub proof fn law_ascii_page_is_loaded(url: Seq<char>, body: Seq<u8>, picture: Option<ImageView>)
    requires
        is_ascii(text_of(body)),
    ensures
        !(delivered(url, LoadView::Page, Some(body), picture) is Unreadable),
{
    law_ascii_page_reads(text_of(body));
}

/// The number of pictures among `blocks` from `from` on.
pub open spec fn pictures_left(blocks: Seq<BlockView>, from: int) -> int
    decreases blocks.len() - from,
{
    if from < 0 || from >= blocks.len() {
        0
    } else {
        pictures_left(blocks, from + 1) + (if blocks[from].block_type is Image {
            1int
        } else {
            0int
        })
    }
}

/// The number of requests that are still to be made once the page itself has come: one for each
/// style sheet, one for each picture, and one for the icon.
pub open spec fn requests_left(url: Seq<char>, load: LoadView) -> int {
    match load {
        LoadView::Page => 0,
        LoadView::Sheets { html, urls, sheet } => urls.len() + pictures_left(
            page_of(page_pieces(html)->0, url, sheet).blocks,
            0,
        ) + 1,
        LoadView::Picture { page, at, icon } => pictures_left(page.blocks, at) + 1,
        LoadView::Icon { page, icon } => 1,
        LoadView::Done { page } => 0,
        LoadView::Unreadable => 0,
    }
}

/// The steps that can be reached lead to others that can.
pub proof fn law_steps_stay_reachable(
    url: Seq<char>,
    load: LoadView,
    reply: Option<Seq<u8>>,
    picture: Option<ImageView>,
)
    requires
        load_wf(load),
    ensures
        load_wf(delivered(url, load, reply, picture)),
{
    match load {
        LoadView::Page => match reply {
            Some(body) => {
                let html = text_of(body);
                let sheet = with_sheets(Map::empty(), inline_sheets(html, 0));
                lemma_next_picture(page_of(page_pieces(html)->0, url, sheet).blocks, 0);
            },
            None => {},
        },
        LoadView::Sheets { html, urls, sheet } => {
            let after = match reply {
                Some(css) => with_sheet(sheet, text_of(css)),
                None => sheet,
            };
            lemma_next_picture(page_of(page_pieces(html)->0, url, after).blocks, 0);
        },
        LoadView::Picture { page, at, icon } => {
            lemma_next_picture(with_picture(page, at, picture).blocks, at + 1);
        },
        _ => {},
    }
}

/// What is found is the first picture, and those that are left are counted from it on.
proof fn lemma_next_picture(blocks: Seq<BlockView>, from: int)
    requires
        0 <= from,
    ensures
        pictures_left(blocks, from) >= 0,
        match next_picture(blocks, from) {
            Some(at) => from <= at < blocks.len() && blocks[at].block_type is Image && pictures_left(
                blocks,
                from,
            ) == pictures_left(blocks, at),
            None => pictures_left(blocks, from) == 0,
        },
    decreases blocks.len() - from,
{
    if from < blocks.len() {
        lemma_next_picture(blocks, from + 1);
    }
}

/// Lists of blocks that agree on where the pictures are have as many.
proof fn lemma_same_pictures(a: Seq<BlockView>, b: Seq<BlockView>, from: int)
    requires
        0 <= from,
        a.len() == b.len(),
        forall|i: int| from <= i < a.len() ==> (#[trigger] a[i]).block_type is Image == b[i].block_type is Image,
    ensures
        pictures_left(a, from) == pictures_left(b, from),
    decreases a.len() - from,
{
    if from < a.len() {
        assert(a[from].block_type is Image == b[from].block_type is Image);
        lemma_same_pictures(a, b, from + 1);
    }
}

/// Once the page itself has come, each answer leaves one request less, so that loading comes to an
/// end; and as long as there are requests left, there is one to make.
pub proof fn law_each_answer_counts(
    url: Seq<char>,
    load: LoadView,
    reply: Option<Seq<u8>>,
    picture: Option<ImageView>,
)
    requires
        load_wf(load),
        !(load is Page),
    ensures
        requests_left(url, load) >= 0,
        requests_left(url, load) > 0 <==> awaited_url(url, load) is Some,
        requests_left(url, load) > 0 ==> requests_left(url, delivered(url, load, reply, picture))
            == requests_left(url, load) - 1,
{
    match load {
        LoadView::Sheets { html, urls, sheet } => {
            let after = match reply {
                Some(css) => with_sheet(sheet, text_of(css)),
                None => sheet,
            };
            let pieces = page_pieces(html)->0;
            let a = page_of(pieces, url, sheet).blocks;
            let b = page_of(pieces, url, after).blocks;
            law_sheets_change_only_styles(pieces, url, sheet, after);
            assert forall|i: int| 0 <= i < a.len() implies (#[trigger] a[i]).block_type is Image
                == b[i].block_type is Image by {
                assert(same_but_style(a[i], b[i]));
            }
            lemma_same_pictures(a, b, 0);
            lemma_next_picture(a, 0);
            lemma_next_picture(b, 0);
        },
        LoadView::Picture { page, at, icon } => {
            let next = with_picture(page, at, picture).blocks;
            assert forall|i: int| at + 1 <= i < next.len() implies (#[trigger] next[i]).block_type is Image
                == page.blocks[i].block_type is Image by {}
            lemma_same_pictures(next, page.blocks, at + 1);
            lemma_next_picture(next, at + 1);
            lemma_next_picture(page.blocks, at + 1);
        },
        _ => {},
    }
}

/// `block` without its picture.
pub open spec fn without_picture(block: BlockView) -> BlockView {
    match block.block_type {
        BlockTypeView::Image { src, alt, raw_image } => BlockView {
            block_type: BlockTypeView::Image { src, alt, raw_image: None },
            ..block
        },
        _ => block,
    }
}

/// `page` without its pictures and its icon.
pub open spec fn without_pictures(page: PageView) -> PageView {
    PageView {
        blocks: page.blocks.map_values(|b: BlockView| without_picture(b)),
        favicon_raw: None,
        ..page
    }
}

/// The page in the step `load`, without its pictures and its icon.
pub open spec fn page_so_far(load: LoadView) -> Option<PageView> {
    match load {
        LoadView::Picture { page, at, icon } => Some(without_pictures(page)),
        LoadView::Icon { page, icon } => Some(without_pictures(page)),
        LoadView::Done { page } => Some(without_pictures(page)),
        _ => None,
    }
}

/// A picture goes into the block that it was asked for, and changes nothing else of the page.
pub proof fn law_picture_goes_into_its_block(page: PageView, at: int, picture: Option<ImageView>)
    requires
        0 <= at < page.blocks.len(),
        page.blocks[at].block_type is Image,
    ensures
        with_picture(page, at, picture).blocks[at].block_type->raw_image == picture,
        forall|i: int|
            0 <= i < page.blocks.len() && i != at ==> #[trigger] with_picture(page, at, picture).blocks[i]
                == page.blocks[i],
        without_pictures(with_picture(page, at, picture)) == without_pictures(page),
{
    assert(without_pictures(with_picture(page, at, picture)).blocks =~= without_pictures(page).blocks);
}

/// The step to which the answers `replies` lead from the step `load`. Each is given by its bytes and
/// the picture that was read out of them.
pub open spec fn run(
    url: Seq<char>,
    load: LoadView,
    replies: Seq<(Option<Seq<u8>>, Option<ImageView>)>,
) -> LoadView
    decreases replies.len(),
{
    if replies.len() == 0 {
        load
    } else {
        run(url, delivered(url, load, replies[0].0, replies[0].1), replies.skip(1))
    }
}

/// `sheet` after the style sheets in the first `n` of `replies`; those that did not come are left
/// out.
pub open spec fn with_replies(
    sheet: Map<Seq<char>, StyleView>,
    replies: Seq<(Option<Seq<u8>>, Option<ImageView>)>,
    n: int,
) -> Map<Seq<char>, StyleView>
    decreases n,
{
    if n <= 0 {
        sheet
    } else {
        let earlier = with_replies(sheet, replies, n - 1);
        match replies[n - 1].0 {
            Some(css) => with_sheet(earlier, text_of(css)),
            None => earlier,
        }
    }
}

/// As many answers as there are requests complete a page that is laid out, and change only its
/// pictures and its icon.
pub proof fn law_pictures_complete_the_page(
    url: Seq<char>,
    load: LoadView,
    replies: Seq<(Option<Seq<u8>>, Option<ImageView>)>,
)
    requires
        load_wf(load),
        page_so_far(load) is Some,
        replies.len() == requests_left(url, load),
    ensures
        run(url, load, replies) is Done,
        page_so_far(run(url, load, replies)) == page_so_far(load),
    decreases replies.len(),
{
    law_each_answer_counts(url, load, None, None);
    if replies.len() > 0 {
        let next = delivered(url, load, replies[0].0, replies[0].1);
        law_steps_stay_reachable(url, load, replies[0].0, replies[0].1);
        law_each_answer_counts(url, load, replies[0].0, replies[0].1);
        match load {
            LoadView::Picture { page, at, icon } => {
                law_picture_goes_into_its_block(page, at, replies[0].1);
            },
            _ => {},
        }
        law_pictures_complete_the_page(url, next, replies.skip(1));
    }
}

/// When all requests for pictures have been answered, each picture is in the block that it was asked
/// for, in the order of the page, and the last one is the icon.
pub proof fn law_pictures_are_in_place(
    url: Seq<char>,
    page: PageView,
    at: int,
    icon: Seq<char>,
    replies: Seq<(Option<Seq<u8>>, Option<ImageView>)>,
)
    requires
        load_wf(LoadView::Picture { page, at, icon }),
        replies.len() == pictures_left(page.blocks, at) + 1,
    ensures
        run(url, LoadView::Picture { page, at, icon }, replies) matches LoadView::Done { page: end }
            && end.favicon_raw == replies.last().1 && end.blocks.len() == page.blocks.len() && (forall|
            i: int,
        |
            0 <= i < at ==> #[trigger] end.blocks[i] == page.blocks[i]) && (forall|i: int|
            at <= i < page.blocks.len() && page.blocks[i].block_type is Image ==> (
            #[trigger] end.blocks[i]).block_type is Image && end.blocks[i].block_type->raw_image
                == replies[pictures_left(page.blocks, at) - pictures_left(page.blocks, i)].1),
    decreases page.blocks.len() - at,
{
    let load = LoadView::Picture { page, at, icon };
    let filled = with_picture(page, at, replies[0].1);
    let rest = replies.skip(1);
    lemma_next_picture(page.blocks, at + 1);
    lemma_next_picture(filled.blocks, at + 1);
    lemma_same_pictures(filled.blocks, page.blocks, at + 1);
    law_picture_goes_into_its_block(page, at, replies[0].1);
    assert(delivered(url, load, replies[0].0, replies[0].1) == pictures_from(filled, at + 1, icon));
    assert(rest.last() == replies.last());
    match next_picture(filled.blocks, at + 1) {
        Some(next) => {
            law_pictures_are_in_place(url, filled, next, icon, rest);
            let end = run(url, load, replies)->Done_page;
            assert forall|i: int|
                at <= i < page.blocks.len() && page.blocks[i].block_type is Image implies (
            #[trigger] end.blocks[i]).block_type is Image && end.blocks[i].block_type->raw_image
                == replies[pictures_left(page.blocks, at) - pictures_left(page.blocks, i)].1 by {
                if i > at {
                    lemma_no_picture_between(filled.blocks, at + 1, next, i);
                    lemma_same_pictures(filled.blocks, page.blocks, i);
                    lemma_next_picture(filled.blocks, i);
                    assert(filled.blocks[i] == page.blocks[i]);
                    let k = pictures_left(filled.blocks, next) - pictures_left(filled.blocks, i);
                    assert(rest[k] == replies[k + 1]);
                } else {
                    assert(end.blocks[at] == filled.blocks[at]);
                }
            }
        },
        None => {
            reveal_with_fuel(run, 3);
            let end = PageView { favicon_raw: rest[0].1, ..filled };
            assert(rest.skip(1) =~= Seq::empty());
            assert(run(url, load, replies) == (LoadView::Done { page: end }));
            assert forall|i: int|
                at < i < page.blocks.len() implies !(page.blocks[i].block_type is Image) by {
                lemma_no_picture_left(page.blocks, at + 1, i);
            }
        },
    }
}

/// Between where the search starts and the first picture there is none.
proof fn lemma_no_picture_between(blocks: Seq<BlockView>, from: int, next: int, i: int)
    requires
        0 <= from <= i < blocks.len(),
        next_picture(blocks, from) == Some(next),
        blocks[i].block_type is Image,
    ensures
        next <= i,
        pictures_left(blocks, i) <= pictures_left(blocks, next),
    decreases blocks.len() - from,
{
    lemma_next_picture(blocks, from);
    if from < next {
        if from < i {
            lemma_no_picture_between(blocks, from + 1, next, i);
        }
    } else {
        lemma_fewer_pictures(blocks, from, i);
    }
}

/// The further on one starts, the fewer pictures are left.
proof fn lemma_fewer_pictures(blocks: Seq<BlockView>, from: int, to: int)
    requires
        0 <= from <= to,
    ensures
        pictures_left(blocks, to) <= pictures_left(blocks, from),
    decreases to - from,
{
    if from < to {
        lemma_fewer_pictures(blocks, from + 1, to);
    }
}

/// Where no picture is left, no block is one.
proof fn lemma_no_picture_left(blocks: Seq<BlockView>, from: int, i: int)
    requires
        0 <= from <= i < blocks.len(),
        pictures_left(blocks, from) == 0,
    ensures
        !(blocks[i].block_type is Image),
    decreases i - from,
{
    lemma_next_picture(blocks, from + 1);
    if from < i {
        lemma_no_picture_left(blocks, from + 1, i);
    }
}

/// A page that can be read comes out as its pieces laid out with its own style sheets and those
/// that came, in the order of the page, whatever pictures came: as soon as every request has been
/// answered.
pub proof fn law_fetched_page(
    url: Seq<char>,
    body: Seq<u8>,
    replies: Seq<(Option<Seq<u8>>, Option<ImageView>)>,
)
    requires
        page_reads(text_of(body)),
        replies.len() == requests_left(url, delivered(url, LoadView::Page, Some(body), None)),
    ensures
        run(url, delivered(url, LoadView::Page, Some(body), None), replies) matches LoadView::Done {
            page,
        } && without_pictures(page) == page_of(
            page_pieces(text_of(body))->0,
            url,
            with_replies(
                with_sheets(Map::empty(), inline_sheets(text_of(body), 0)),
                replies,
                sheet_urls(url, link_tags(text_of(body), 0)).len() as int,
            ),
        ),
{
    let html = text_of(body);
    let urls = sheet_urls(url, link_tags(html, 0));
    let sheet = with_sheets(Map::empty(), inline_sheets(html, 0));
    law_steps_stay_reachable(url, LoadView::Page, Some(body), None);
    lemma_sheets_run(url, html, urls, sheet, replies);
}

/// The style sheets come one after the other, and then the page is laid out.
proof fn lemma_sheets_run(
    url: Seq<char>,
    html: Seq<char>,
    urls: Seq<Seq<char>>,
    sheet: Map<Seq<char>, StyleView>,
    replies: Seq<(Option<Seq<u8>>, Option<ImageView>)>,
)
    requires
        page_reads(html),
        replies.len() == requests_left(url, sheets_from(url, html, urls, sheet)),
        load_wf(sheets_from(url, html, urls, sheet)),
    ensures
        run(url, sheets_from(url, html, urls, sheet), replies) matches LoadView::Done { page }
            && without_pictures(page) == page_of(
            page_pieces(html)->0,
            url,
            with_replies(sheet, replies, urls.len() as int),
        ),
    decreases urls.len(),
{
    let load = sheets_from(url, html, urls, sheet);
    if urls.len() == 0 {
        let page = page_of(page_pieces(html)->0, url, sheet);
        law_pictures_complete_the_page(url, load, replies);
        law_blocks_are_worth_showing(html, url, sheet);
        assert(without_pictures(page).blocks =~= page.blocks) by {
            assert forall|i: int| 0 <= i < page.blocks.len() implies without_picture(
                #[trigger] page.blocks[i],
            ) == page.blocks[i] by {
                assert(is_worth_showing(page.blocks[i]));
            }
        }
    } else {
        law_each_answer_counts(url, load, replies[0].0, replies[0].1);
        law_steps_stay_reachable(url, load, replies[0].0, replies[0].1);
        let after = match replies[0].0 {
            Some(css) => with_sheet(sheet, text_of(css)),
            None => sheet,
        };
        lemma_next_picture(page_of(page_pieces(html)->0, url, sheet).blocks, 0);
        lemma_sheets_run(url, html, urls.skip(1), after, replies.skip(1));
        lemma_replies_from_second(sheet, replies, urls.len() as int);
    }
}

/// The first answer may be read before the others.
proof fn lemma_replies_from_second(
    sheet: Map<Seq<char>, StyleView>,
    replies: Seq<(Option<Seq<u8>>, Option<ImageView>)>,
    n: int,
)
    requires
        1 <= n <= replies.len(),
    ensures
        with_replies(
            match replies[0].0 {
                Some(css) => with_sheet(sheet, text_of(css)),
                None => sheet,
            },
            replies.skip(1),
            n - 1,
        ) == with_replies(sheet, replies, n),
    decreases n,
{
    reveal_with_fuel(with_replies, 2);
    if n > 1 {
        lemma_replies_from_second(sheet, replies, n - 1);
        assert(replies.skip(1)[n - 2] == replies[n - 1]);
    }
}

/// The address that is asked for in each step: that of the page, the next style sheet, where the link
/// of the picture leads to, or the icon; in the end there is none.
pub proof fn law_awaited_address(url: Seq<char>, load: LoadView)
    requires
        load_wf(load),
    ensures
        match load {
            LoadView::Page => awaited_url(url, load) == Some(url),
            LoadView::Sheets { html, urls, sheet } => awaited_url(url, load) == Some(urls[0]),
            LoadView::Picture { page, at, icon } => awaited_url(url, load) matches Some(address)
                && leads_to(url, page.blocks[at].block_type->src, address),
            LoadView::Icon { page, icon } => awaited_url(url, load) == Some(icon),
            LoadView::Done { page } => awaited_url(url, load) is None,
            LoadView::Unreadable => awaited_url(url, load) is None,
        },
{
    match load {
        LoadView::Picture { page, at, icon } => {
            law_link_leads(url, page.blocks[at].block_type->src);
        },
        _ => {},
    }
}

/// Answers can be taken in two parts.
proof fn lemma_run_in_parts(
    url: Seq<char>,
    load: LoadView,
    first: Seq<(Option<Seq<u8>>, Option<ImageView>)>,
    second: Seq<(Option<Seq<u8>>, Option<ImageView>)>,
)
    ensures
        run(url, load, first + second) == run(url, run(url, load, first), second),
    decreases first.len(),
{
    let both = first + second;
    if first.len() == 0 {
        assert(both =~= second);
    } else {
        assert(both[0] == first[0]);
        assert(both.skip(1) =~= first.skip(1) + second);
        lemma_run_in_parts(
            url,
            delivered(url, load, first[0].0, first[0].1),
            first.skip(1),
            second,
        );
    }
}

/// After as many answers as there are pictures before it, the picture of the block `i` is awaited; and
/// the icon after an answer for each picture.
proof fn lemma_pictures_in_order(
    url: Seq<char>,
    page: PageView,
    at: int,
    icon: Seq<char>,
    replies: Seq<(Option<Seq<u8>>, Option<ImageView>)>,
    i: int,
)
    requires
        load_wf(LoadView::Picture { page, at, icon }),
        replies.len() >= pictures_left(page.blocks, at),
        at <= i <= page.blocks.len(),
        i < page.blocks.len() ==> page.blocks[i].block_type is Image,
    ensures
        ({
            let k = pictures_left(page.blocks, at) - pictures_left(page.blocks, i);
            let step = run(url, LoadView::Picture { page, at, icon }, replies.take(k));
            &&& 0 <= k <= replies.len()
            &&& i < page.blocks.len() ==> (step matches LoadView::Picture { page: now, at: place, icon: same }
                && place == i && now.blocks.len() == page.blocks.len() && now.blocks[i] == page.blocks[i])
            &&& i == page.blocks.len() ==> (step matches LoadView::Icon { page: now, icon: same } && same
                == icon)
        }),
    decreases page.blocks.len() - at,
{
    let load = LoadView::Picture { page, at, icon };
    let k = pictures_left(page.blocks, at) - pictures_left(page.blocks, i);
    lemma_next_picture(page.blocks, at + 1);
    lemma_next_picture(page.blocks, i);
    lemma_fewer_pictures(page.blocks, at, i);
    if i == at {
        assert(replies.take(0).len() == 0);
    } else {
        lemma_fewer_pictures(page.blocks, at + 1, i);
        let filled = with_picture(page, at, replies[0].1);
        let rest = replies.skip(1);
        lemma_next_picture(filled.blocks, at + 1);
        lemma_same_pictures(filled.blocks, page.blocks, at + 1);
        lemma_same_pictures(filled.blocks, page.blocks, i);
        law_picture_goes_into_its_block(page, at, replies[0].1);
        let next = delivered(url, load, replies[0].0, replies[0].1);
        assert(next == pictures_from(filled, at + 1, icon));
        assert(replies.take(k)[0] == replies[0]);
        assert(replies.take(k).skip(1) =~= rest.take(k - 1));
        assert(run(url, load, replies.take(k)) == run(url, next, rest.take(k - 1)));
        match next_picture(filled.blocks, at + 1) {
            Some(m) => {
                if i < page.blocks.len() {
                    assert(filled.blocks[i] == page.blocks[i]);
                    lemma_no_picture_between(filled.blocks, at + 1, m, i);
                }
                lemma_pictures_in_order(url, filled, m, icon, rest, i);
            },
            None => {
                if i < page.blocks.len() {
                    lemma_no_picture_left(page.blocks, at + 1, i);
                }
                assert(rest.take(k - 1).len() == 0);
            },
        }
    }
}

/// The pictures of a page are asked for in the order of the page, each once, at the address where its
/// link leads to, whatever the answers before were; and then the icon.
pub proof fn law_pictures_are_asked_for(
    url: Seq<char>,
    page: PageView,
    icon: Seq<char>,
    replies: Seq<(Option<Seq<u8>>, Option<ImageView>)>,
    i: int,
)
    requires
        replies.len() >= pictures_left(page.blocks, 0),
        0 <= i <= page.blocks.len(),
        i < page.blocks.len() ==> page.blocks[i].block_type is Image,
    ensures
        ({
            let k = pictures_left(page.blocks, 0) - pictures_left(page.blocks, i);
            let address = awaited_url(url, run(url, pictures_from(page, 0, icon), replies.take(k)));
            &&& 0 <= k <= replies.len()
            &&& i < page.blocks.len() ==> address is Some && leads_to(
                url,
                page.blocks[i].block_type->src,
                address->0,
            )
            &&& i == page.blocks.len() ==> address == Some(icon)
        }),
{
    let k = pictures_left(page.blocks, 0) - pictures_left(page.blocks, i);
    lemma_next_picture(page.blocks, 0);
    lemma_next_picture(page.blocks, i);
    lemma_fewer_pictures(page.blocks, 0, i);
    match next_picture(page.blocks, 0) {
        Some(at) => {
            if i < page.blocks.len() {
                lemma_no_picture_between(page.blocks, 0, at, i);
                law_link_leads(url, page.blocks[i].block_type->src);
            }
            lemma_pictures_in_order(url, page, at, icon, replies, i);
        },
        None => {
            if i < page.blocks.len() {
                lemma_no_picture_left(page.blocks, 0, i);
            }
            assert(replies.take(k).len() == 0);
        },
    }
}

/// After `n` answers, `n` style sheets have come or been left out.
proof fn lemma_after_sheets(
    url: Seq<char>,
    html: Seq<char>,
    urls: Seq<Seq<char>>,
    sheet: Map<Seq<char>, StyleView>,
    replies: Seq<(Option<Seq<u8>>, Option<ImageView>)>,
    n: int,
)
    requires
        0 <= n <= urls.len(),
        n <= replies.len(),
    ensures
        run(url, sheets_from(url, html, urls, sheet), replies.take(n)) == sheets_from(
            url,
            html,
            urls.skip(n),
            with_replies(sheet, replies, n),
        ),
    decreases n,
{
    if n == 0 {
        assert(urls.skip(0) =~= urls);
        assert(replies.take(0).len() == 0);
    } else {
        let load = sheets_from(url, html, urls, sheet);
        let after = match replies[0].0 {
            Some(css) => with_sheet(sheet, text_of(css)),
            None => sheet,
        };
        let rest = replies.skip(1);
        lemma_after_sheets(url, html, urls.skip(1), after, rest, n - 1);
        lemma_replies_from_second(sheet, replies, n);
        assert(urls.skip(1).skip(n - 1) =~= urls.skip(n));
        assert(replies.take(n)[0] == replies[0]);
        assert(replies.take(n).skip(1) =~= rest.take(n - 1));
    }
}

/// What is asked for when a page has come, whatever the answers are: first its style sheets, in the
/// order of their links; then its pictures, in the order of the page and each at the address where
/// its link leads to; and last its icon.
pub proof fn law_requests_in_order(
    url: Seq<char>,
    body: Seq<u8>,
    replies: Seq<(Option<Seq<u8>>, Option<ImageView>)>,
    i: int,
)
    requires
        page_reads(text_of(body)),
    ensures
        ({
            let html = text_of(body);
            let urls = sheet_urls(url, link_tags(html, 0));
            let n = urls.len() as int;
            let start = delivered(url, LoadView::Page, Some(body), None);
            let blocks = page_of(
                page_pieces(html)->0,
                url,
                with_replies(with_sheets(Map::empty(), inline_sheets(html, 0)), replies, n),
            ).blocks;
            let k = n + pictures_left(blocks, 0) - pictures_left(blocks, i);
            &&& 0 <= i < n && i <= replies.len() ==> awaited_url(url, run(url, start, replies.take(i)))
                == Some(urls[i])
            &&& replies.len() >= n + pictures_left(blocks, 0) && 0 <= i < blocks.len()
                && blocks[i].block_type is Image ==> awaited_url(url, run(url, start, replies.take(k)))
                is Some && leads_to(
                url,
                blocks[i].block_type->src,
                awaited_url(url, run(url, start, replies.take(k)))->0,
            )
            &&& replies.len() >= n + pictures_left(blocks, 0) && i == blocks.len() ==> awaited_url(
                url,
                run(url, start, replies.take(k)),
            ) == Some(icon_url(url, link_tags(html, 0)))
        }),
{
    let html = text_of(body);
    let urls = sheet_urls(url, link_tags(html, 0));
    let sheet = with_sheets(Map::empty(), inline_sheets(html, 0));
    assert(delivered(url, LoadView::Page, Some(body), None) == sheets_from(url, html, urls, sheet));
    if 0 <= i < urls.len() && i <= replies.len() {
        lemma_sheet_is_awaited(url, html, urls, sheet, replies, i);
    }
    lemma_picture_is_awaited(url, html, urls, sheet, replies, i);
}

/// The style sheet `i` is awaited after `i` answers.
proof fn lemma_sheet_is_awaited(
    url: Seq<char>,
    html: Seq<char>,
    urls: Seq<Seq<char>>,
    sheet: Map<Seq<char>, StyleView>,
    replies: Seq<(Option<Seq<u8>>, Option<ImageView>)>,
    i: int,
)
    requires
        0 <= i < urls.len(),
        i <= replies.len(),
    ensures
        awaited_url(url, run(url, sheets_from(url, html, urls, sheet), replies.take(i))) == Some(urls[i]),
{
    lemma_after_sheets(url, html, urls, sheet, replies, i);
    assert(urls.skip(i).len() > 0);
    assert(urls.skip(i)[0] == urls[i]);
}

/// The picture of the block `i` is awaited after the style sheets and the pictures before it, and the
/// icon after them all.
proof fn lemma_picture_is_awaited(
    url: Seq<char>,
    html: Seq<char>,
    urls: Seq<Seq<char>>,
    sheet: Map<Seq<char>, StyleView>,
    replies: Seq<(Option<Seq<u8>>, Option<ImageView>)>,
    i: int,
)
    ensures
        ({
            let n = urls.len() as int;
            let blocks = page_of(page_pieces(html)->0, url, with_replies(sheet, replies, n)).blocks;
            let k = n + pictures_left(blocks, 0) - pictures_left(blocks, i);
            let address = awaited_url(
                url,
                run(url, sheets_from(url, html, urls, sheet), replies.take(k)),
            );
            replies.len() >= n + pictures_left(blocks, 0) ==> {
                &&& 0 <= i < blocks.len() && blocks[i].block_type is Image ==> address is Some && leads_to(
                    url,
                    blocks[i].block_type->src,
                    address->0,
                )
                &&& i == blocks.len() ==> address == Some(icon_url(url, link_tags(html, 0)))
            }
        }),
{
    let n = urls.len() as int;
    let icon = icon_url(url, link_tags(html, 0));
    let page = page_of(page_pieces(html)->0, url, with_replies(sheet, replies, n));
    let blocks = page.blocks;
    let k = n + pictures_left(blocks, 0) - pictures_left(blocks, i);
    lemma_next_picture(blocks, 0);
    if replies.len() >= n + pictures_left(blocks, 0) && 0 <= i <= blocks.len() && (i < blocks.len()
        ==> blocks[i].block_type is Image) {
        let start = sheets_from(url, html, urls, sheet);
        let rest = replies.skip(n);
        lemma_after_sheets(url, html, urls, sheet, replies, n);
        assert(urls.skip(n).len() == 0);
        assert(run(url, start, replies.take(n)) == pictures_from(page, 0, icon));
        law_pictures_are_asked_for(url, page, icon, rest, i);
        assert(replies.take(k) =~= replies.take(n) + rest.take(k - n));
        lemma_run_in_parts(url, start, replies.take(n), rest.take(k - n));
    }
}

/// The address of a style sheet is where the link of its tag leads to. Only tags that speak of a style
/// sheet and have a link count, in their order.
pub proof fn law_sheet_addresses(url: Seq<char>, tags: Seq<Seq<char>>, tag: Seq<char>)
    ensures
        sheet_urls(url, Seq::empty()).len() == 0,
        ({
            let before = sheet_urls(url, tags);
            let after = sheet_urls(url, tags.push(tag));
            let href = attr_value(tag, lowercase(tag), "href"@);
            let counts = href is Some && exists|k: int| #[trigger]
                occurs_at(lowercase(tag), "stylesheet"@, k);
            &&& counts ==> after.len() == before.len() + 1 && after.drop_last() == before && leads_to(
                url,
                href->0,
                after.last(),
            )
            &&& !counts ==> after == before
        }),
{
    assert(tags.push(tag).drop_last() =~= tags);
    assert(tags.push(tag).last() == tag);
    law_occurs_between(Seq::empty(), "stylesheet"@, Seq::empty(), lowercase(tag), 0);
    match link_href(tag) {
        Some(href) => {
            law_link_leads(url, href);
            assert(sheet_urls(url, tags).push(resolved_url(url, href)).drop_last() =~= sheet_urls(url, tags));
        },
        None => {},
    }
}

/// The icon of a page is where the link of the last tag leads to that speaks of an icon. Where there is
/// no such tag, or it has no link, it is the file `favicon.ico` of the host of the page.
pub proof fn law_icon_address(url: Seq<char>, tags: Seq<Seq<char>>, tag: Seq<char>)
    ensures
        icon_url(url, Seq::empty()) == "http://"@ + url_host(url) + "/favicon.ico"@,
        ({
            let href = attr_value(tag, lowercase(tag), "href"@);
            let speaks = exists|k: int| #[trigger] occurs_at(lowercase(tag), "icon"@, k);
            &&& speaks && href is Some ==> leads_to(url, href->0, icon_url(url, tags.push(tag)))
            &&& speaks && href is None ==> icon_url(url, tags.push(tag)) == "http://"@ + url_host(url)
                + "/favicon.ico"@
            &&& !speaks ==> icon_url(url, tags.push(tag)) == icon_url(url, tags)
        }),
{
    assert(tags.push(tag).drop_last() =~= tags);
    assert(tags.push(tag).last() == tag);
    law_occurs_between(Seq::empty(), "icon"@, Seq::empty(), lowercase(tag), 0);
    match link_href(tag) {
        Some(href) => {
            law_link_leads(url, href);
        },
        None => {},
    }
}

/// The link tags of a page stand between `<link ` and the next closing bracket, both included. Each
/// begins behind the one before it; one that is never closed is none.
pub proof fn law_link_tags(front: Seq<char>, inside: Seq<char>, rest: Seq<char>)
    requires
        forall|k: int|
            0 <= k < front.len() ==> !#[trigger] occurs_at(
                front + ("<link "@ + inside + seq!['>']) + rest,
                "<link "@,
                k,
            ),
        !inside.contains('>'),
    ensures
        link_tags(front + ("<link "@ + inside + seq!['>']) + rest, 0) == seq![
            "<link "@ + inside + seq!['>'],
        ] + link_tags(rest, 0),
        (forall|k: int| !#[trigger] occurs_at(rest, "<link "@, k)) ==> link_tags(rest, 0)
            == Seq::<Seq<char>>::empty(),
        link_tags("<link "@ + inside, 0) == Seq::<Seq<char>>::empty(),
{
    lemma_first_link(front, inside, rest);
    lemma_cut_link(inside);
    if forall|k: int| !#[trigger] occurs_at(rest, "<link "@, k) {
        law_find_is_first(rest, "<link "@, 0);
        assert(find_from(rest, "<link "@, 0) is None);
    }
}

/// The first link tag of a page, and those behind it.
proof fn lemma_first_link(front: Seq<char>, inside: Seq<char>, rest: Seq<char>)
    requires
        forall|k: int|
            0 <= k < front.len() ==> !#[trigger] occurs_at(
                front + ("<link "@ + inside + seq!['>']) + rest,
                "<link "@,
                k,
            ),
        !inside.contains('>'),
    ensures
        link_tags(front + ("<link "@ + inside + seq!['>']) + rest, 0) == seq![
            "<link "@ + inside + seq!['>'],
        ] + link_tags(rest, 0),
{
    let open = "<link "@;
    let tag = open + inside + seq!['>'];
    let html = front + tag + rest;
    let a = front.len() as int;
    let b = a + tag.len();
    assert(find_from(html, open, 0) == Some(a)) by {
        assert(html.subrange(a, a + open.len()) =~= open);
        assert(occurs_at(html, open, a));
        law_find_is_first(html, open, 0);
    }
    lemma_no_bracket(inside);
    assert(find_char_from(html, '>', a) == Some(b - 1)) by {
        lemma_find_char_from_bounds(html, '>', a);
        assert(html[b - 1] == '>');
        assert forall|k: int| a <= k < b - 1 implies html[k] != '>' by {
            assert(html[k] == (open + inside)[k - a]);
            assert((open + inside).contains((open + inside)[k - a]));
        }
    }
    assert(html.subrange(a, b) =~= tag);
    assert(html.skip(b) =~= rest);
    lemma_link_tags_shift(html, b, 0);
    assert(link_tags(html, 0) == seq![tag] + link_tags(html, b));
}

/// The start of a link tag holds no closing bracket.
proof fn lemma_no_bracket(inside: Seq<char>)
    requires
        !inside.contains('>'),
    ensures
        !("<link "@ + inside).contains('>'),
{
    let cut = "<link "@ + inside;
    reveal_strlit("<link ");
    assert forall|k: int| 0 <= k < cut.len() implies cut[k] != '>' by {
        if k >= "<link "@.len() {
            assert(cut[k] == inside[k - "<link "@.len()]);
            assert(inside.contains(inside[k - "<link "@.len()]));
        }
    }
}

/// A link tag that is never closed is none.
proof fn lemma_cut_link(inside: Seq<char>)
    requires
        !inside.contains('>'),
    ensures
        link_tags("<link "@ + inside, 0) == Seq::<Seq<char>>::empty(),
{
    let open = "<link "@;
    let cut = open + inside;
    lemma_no_bracket(inside);
    assert(cut.subrange(0, open.len() as int) =~= open);
    assert(occurs_at(cut, open, 0));
    assert(find_from(cut, open, 0) == Some(0int));
    lemma_find_char_from_bounds(cut, '>', 0);
    if find_char_from(cut, '>', 0) is Some {
        assert(cut.contains(cut[find_char_from(cut, '>', 0)->0]));
    }
}

proof fn lemma_text_shift(s: Seq<char>, d: int, p: Seq<char>, from: int)
    requires
        0 <= d,
        0 <= from,
        d + from <= s.len(),
    ensures
        find_from(s, p, d + from) == (match find_from(s.skip(d), p, from) {
            Some(i) => Some(d + i),
            None => None::<int>,
        }),
    decreases s.len() - d - from,
{
    let t = s.skip(d);
    if from + p.len() <= t.len() {
        assert(t.subrange(from, from + p.len()) =~= s.subrange(d + from, d + from + p.len()));
        if !occurs_at(t, p, from) && d + from < s.len() {
            lemma_text_shift(s, d, p, from + 1);
        }
    }
}

proof fn lemma_char_shift(s: Seq<char>, d: int, c: char, from: int)
    requires
        0 <= d,
        0 <= from,
        d + from <= s.len(),
    ensures
        find_char_from(s, c, d + from) == (match find_char_from(s.skip(d), c, from) {
            Some(i) => Some(d + i),
            None => None::<int>,
        }),
    decreases s.len() - d - from,
{
    if d + from < s.len() {
        assert(s.skip(d)[from] == s[d + from]);
        lemma_char_shift(s, d, c, from + 1);
    }
}

proof fn lemma_link_tags_shift(html: Seq<char>, d: int, from: int)
    requires
        0 <= d,
        0 <= from,
        d + from <= html.len(),
    ensures
        link_tags(html, d + from) == link_tags(html.skip(d), from),
    decreases html.len() - d - from,
{
    let t = html.skip(d);
    let open = "<link "@;
    lemma_text_shift(html, d, open, from);
    lemma_find_from_bounds(t, open, from);
    if find_from(t, open, from) is Some {
        let i = find_from(t, open, from)->0;
        lemma_char_shift(html, d, '>', i);
        lemma_find_char_from_bounds(t, '>', i);
        if find_char_from(t, '>', i) is Some {
            let j = find_char_from(t, '>', i)->0;
            assert(t.subrange(i, j + 1) =~= html.subrange(d + i, d + j + 1));
            lemma_link_tags_shift(html, d, j + 1);
        }
    }
}

/// The style sheets of a page stand between `<style>` and the next `</style>`. Each begins behind the
/// one before it; one that is never closed is none.
pub proof fn law_inline_sheets(front: Seq<char>, css: Seq<char>, rest: Seq<char>)
    requires
        forall|k: int|
            0 <= k < front.len() ==> !#[trigger] occurs_at(
                front + ("<style>"@ + css + "</style>"@) + rest,
                "<style>"@,
                k,
            ),
        forall|k: int| 0 <= k < css.len() ==> !#[trigger] occurs_at(css + "</style>"@, "</style>"@, k),
    ensures
        inline_sheets(front + ("<style>"@ + css + "</style>"@) + rest, 0) == seq![css] + inline_sheets(
            rest,
            0,
        ),
        (forall|k: int| !#[trigger] occurs_at(rest, "<style>"@, k)) ==> inline_sheets(rest, 0)
            == Seq::<Seq<char>>::empty(),
        (forall|k: int| !#[trigger] occurs_at(rest, "</style>"@, k)) ==> inline_sheets(rest, 0)
            == Seq::<Seq<char>>::empty(),
{
    let open = "<style>"@;
    let close = "</style>"@;
    let html = front + (open + css + close) + rest;
    let a = front.len() as int;
    let b = a + open.len();
    let c = b + css.len();
    let d = c + close.len();
    lemma_style_tags();
    assert(html.subrange(a, a + open.len()) =~= open);
    assert(occurs_at(html, open, a));
    law_find_is_first(html, open, 0);
    assert(find_from(html, open, 0) == Some(a));
    assert(html.subrange(c, c + close.len()) =~= close);
    assert(occurs_at(html, close, c));
    law_find_is_first(html, close, b);
    assert forall|k: int| b <= k < c implies !occurs_at(html, close, k) by {
        assert(!occurs_at(css + close, close, k - b));
        if occurs_at(html, close, k) {
            assert((css + close).subrange(k - b, k - b + close.len()) =~= html.subrange(k, k + close.len()));
        }
    }
    assert(find_from(html, close, b) == Some(c));
    assert(html.subrange(b, c) =~= css);
    lemma_inline_sheets_shift(html, d, 0);
    assert(html.skip(d) =~= rest);
    law_find_is_first(rest, open, 0);
    lemma_find_from_bounds(rest, open, 0);
    if find_from(rest, open, 0) is Some {
        law_find_is_first(rest, close, find_from(rest, open, 0)->0 + open.len());
    }
}

proof fn lemma_inline_sheets_shift(html: Seq<char>, d: int, from: int)
    requires
        0 <= d,
        0 <= from,
        d + from <= html.len(),
    ensures
        inline_sheets(html, d + from) == inline_sheets(html.skip(d), from),
    decreases html.len() - d - from,
{
    let t = html.skip(d);
    let open = "<style>"@;
    let close = "</style>"@;
    lemma_style_tags();
    lemma_text_shift(html, d, open, from);
    lemma_find_from_bounds(t, open, from);
    if find_from(t, open, from) is Some {
        let i = find_from(t, open, from)->0 + open.len();
        lemma_text_shift(html, d, close, i);
        lemma_find_from_bounds(t, close, i);
        if find_from(t, close, i) is Some {
            let j = find_from(t, close, i)->0;
            assert(t.subrange(i, j) =~= html.subrange(d + i, d + j));
            lemma_inline_sheets_shift(html, d, j + close.len());
        }
    }
}

/// Several style sheets are read one after the other.
pub proof fn law_sheets_are_read_in_order(
    sheet: Map<Seq<char>, StyleView>,
    sheets: Seq<Seq<char>>,
    last: Seq<char>,
)
    ensures
        with_sheets(sheet, Seq::empty()) == sheet,
        with_sheets(sheet, sheets.push(last)) == with_sheet(with_sheets(sheet, sheets), last),
{
    assert(sheets.push(last).drop_last() =~= sheets);
    assert(sheets.push(last).last() == last);
}

/// A page that could not be fetched is complete at once: it is empty and says that there was an error,
/// under its own address.
pub proof fn law_error_page(url: Seq<char>, picture: Option<ImageView>)
    ensures
        delivered(url, LoadView::Page, None, picture) matches LoadView::Done { page } && {
            &&& page.url == url
            &&& page.title == Some(seq!['E', 'r', 'r', 'o', 'r', '!'])
            &&& page.favicon_raw is None
            &&& page.blocks.len() == 0
            &&& page.alerts.len() == 0
            &&& page.new_cookie is None
            &&& page.auto_redirect is None
            &&& page.is_secure == url_is_secure(url)
        },
{
    reveal_strlit("Error!");
    assert("Error!"@ =~= seq!['E', 'r', 'r', 'o', 'r', '!']);
}

/// A page that came cannot be read exactly where it cannot be cut into pieces, or where the link of a
/// tag for a style sheet or an icon cannot be read.
pub proof fn law_unreadable_page(url: Seq<char>, body: Seq<u8>, picture: Option<ImageView>)
    ensures
        delivered(url, LoadView::Page, Some(body), picture) is Unreadable <==> {
            let html = text_of(body);
            let tags = link_tags(html, 0);
            page_pieces(html) is None || exists|i: int|
                0 <= i < tags.len() && !#[trigger] attr_reads(tags[i], lowercase(tags[i]), "href"@) && (
                contains(lowercase(tags[i]), "stylesheet"@) || contains(lowercase(tags[i]), "icon"@))
        },
{
    let html = text_of(body);
    let tags = link_tags(html, 0);
    let bad = exists|i: int|
        0 <= i < tags.len() && !#[trigger] attr_reads(tags[i], lowercase(tags[i]), "href"@) && (contains(
            lowercase(tags[i]),
            "stylesheet"@,
        ) || contains(lowercase(tags[i]), "icon"@));
    if bad {
        let i = choose|i: int|
            0 <= i < tags.len() && !#[trigger] attr_reads(tags[i], lowercase(tags[i]), "href"@) && (
            contains(lowercase(tags[i]), "stylesheet"@) || contains(lowercase(tags[i]), "icon"@));
        assert(link_is(tags[i], "stylesheet"@) || link_is(tags[i], "icon"@));
        assert(!link_reads(tags[i]));
    } else {
        assert forall|i: int|
            0 <= i < tags.len() && (link_is(#[trigger] tags[i], "stylesheet"@) || link_is(
                tags[i],
                "icon"@,
            )) implies link_reads(tags[i]) by {
            assert(attr_reads(tags[i], lowercase(tags[i]), "href"@));
        }
    }
}

} // verus!
