//! Pages: the blocks that the pieces of a page are shown as.
use vstd::prelude::*;
use crate::css::{
    copy_text, css_style, law_merge_is_associative, law_plain_style_is_neutral, opt_text, parse_css_style,
    style_for, CssStyle, StyleSheet, StyleView,
};
use crate::letters::{is_ascii, lowercase, std_lowercase};
use crate::markup::{
    attr_value, holds_no_tag, kind_view, law_closing_tag_comes_first, law_opening_tag_comes_first,
    law_pieces_hold_no_tag, law_tag_contents, law_text_comes_first, law_text_is_one_piece, open_tag, opens_element, page_pieces,
    pieces_view, scan_html, tag_reads, OffBoundary, OpenTag, Piece, PieceView, TagKind, TagView,
};
use crate::picture::{opt_image, ColorImage, ImageView};
use crate::text::{
    first_word, from_chars, is_blank, is_white, law_trim_blank, law_words, starts_with, texts, to_chars, trim, trimmed, word_list,
    words,
};
use crate::url::{parse_url, url_is_secure};

verus! {

/// What a block is.
#[derive(Debug)]
pub enum BlockType {
    Paragraph,
    Div,
    Heading(u8),
    Link(String),
    Image { src: String, alt: String, raw_image: Option<ColorImage> },
    Input { name: String, value: String },
    Button { text: String, action_url: Option<String> },
}

/// The contents of a [`BlockType`].
pub enum BlockTypeView {
    Paragraph,
    Div,
    Heading(u8),
    Link(Seq<char>),
    Image { src: Seq<char>, alt: Seq<char>, raw_image: Option<ImageView> },
    Input { name: Seq<char>, value: Seq<char> },
    Button { text: Seq<char>, action_url: Option<Seq<char>> },
}

impl View for BlockType {
    type V = BlockTypeView;

    open spec fn view(&self) -> BlockTypeView {
        match *self {
            BlockType::Paragraph => BlockTypeView::Paragraph,
            BlockType::Div => BlockTypeView::Div,
            BlockType::Heading(level) => BlockTypeView::Heading(level),
            BlockType::Link(href) => BlockTypeView::Link(href@),
            BlockType::Image { src, alt, raw_image } => BlockTypeView::Image {
                src: src@,
                alt: alt@,
                raw_image: opt_image(raw_image),
            },
            BlockType::Input { name, value } => BlockTypeView::Input { name: name@, value: value@ },
            BlockType::Button { text, action_url } => BlockTypeView::Button {
                text: text@,
                action_url: opt_text(action_url),
            },
        }
    }
}

impl Clone for BlockType {
    fn clone(&self) -> (r: BlockType)
        ensures
            r@ == self@,
    {
        match self {
            BlockType::Paragraph => BlockType::Paragraph,
            BlockType::Div => BlockType::Div,
            BlockType::Heading(level) => BlockType::Heading(*level),
            BlockType::Link(href) => BlockType::Link(href.clone()),
            BlockType::Image { src, alt, raw_image } => BlockType::Image {
                src: src.clone(),
                alt: alt.clone(),
                raw_image: match raw_image {
                    Some(image) => Some(image.clone()),
                    None => None,
                },
            },
            BlockType::Input { name, value } => BlockType::Input {
                name: name.clone(),
                value: value.clone(),
            },
            BlockType::Button { text, action_url } => BlockType::Button {
                text: text.clone(),
                action_url: copy_text(action_url),
            },
        }
    }
}

/// A block of a page.
#[derive(Debug)]
pub struct RenderBlock {
    pub text: String,
    pub block_type: BlockType,
    pub style: CssStyle,
}

/// The contents of a [`RenderBlock`].
pub struct BlockView {
    pub text: Seq<char>,
    pub block_type: BlockTypeView,
    pub style: StyleView,
}

impl View for RenderBlock {
    type V = BlockView;

    open spec fn view(&self) -> BlockView {
        BlockView { text: self.text@, block_type: self.block_type@, style: self.style@ }
    }
}

impl Clone for RenderBlock {
    fn clone(&self) -> (r: RenderBlock)
        ensures
            r@ == self@,
    {
        RenderBlock {
            text: self.text.clone(),
            block_type: self.block_type.clone(),
            style: self.style.clone(),
        }
    }
}

/// The contents of a list of blocks.
pub open spec fn blocks_view(blocks: Seq<RenderBlock>) -> Seq<BlockView> {
    blocks.map_values(|b: RenderBlock| b@)
}

/// The contents of a list of strings.
pub open spec fn strings_view(strings: Seq<String>) -> Seq<Seq<char>> {
    strings.map_values(|s: String| s@)
}

/// A page as it was fetched.
#[derive(Debug)]
pub struct FetchResult {
    pub url: String,
    pub title: Option<String>,
    pub favicon_raw: Option<ColorImage>,
    pub blocks: Vec<RenderBlock>,
    pub alerts: Vec<String>,
    pub new_cookie: Option<String>,
    pub auto_redirect: Option<String>,
    pub is_secure: bool,
}

/// The contents of a [`FetchResult`].
pub struct PageView {
    pub url: Seq<char>,
    pub title: Option<Seq<char>>,
    pub favicon_raw: Option<ImageView>,
    pub blocks: Seq<BlockView>,
    pub alerts: Seq<Seq<char>>,
    pub new_cookie: Option<Seq<char>>,
    pub auto_redirect: Option<Seq<char>>,
    pub is_secure: bool,
}

impl View for FetchResult {
    type V = PageView;

    open spec fn view(&self) -> PageView {
        PageView {
            url: self.url@,
            title: opt_text(self.title),
            favicon_raw: opt_image(self.favicon_raw),
            blocks: blocks_view(self.blocks@),
            alerts: strings_view(self.alerts@),
            new_cookie: opt_text(self.new_cookie),
            auto_redirect: opt_text(self.auto_redirect),
            is_secure: self.is_secure,
        }
    }
}

// ---------------------------------------------------------------------------------------------
// What a page looks like
// ---------------------------------------------------------------------------------------------

/// `style` with the rules of `sheet` for `selector` merged into it.
pub open spec fn with_rules_for(
    style: StyleView,
    sheet: Map<Seq<char>, StyleView>,
    selector: Seq<char>,
) -> StyleView {
    style.merged(style_for(sheet, selector))
}

/// The selector of the class `class`.
pub open spec fn class_selector(class: Seq<char>) -> Seq<char> {
    "."@ + lowercase(class)
}

/// The selector of the element with the id `id`.
pub open spec fn id_selector(id: Seq<char>) -> Seq<char> {
    "#"@ + lowercase(id)
}

/// `style` with the rules of `sheet` for each of `classes` merged into it.
pub open spec fn with_classes(
    style: StyleView,
    sheet: Map<Seq<char>, StyleView>,
    classes: Seq<Seq<char>>,
) -> StyleView
    decreases classes.len(),
{
    if classes.len() == 0 {
        style
    } else {
        with_rules_for(
            with_classes(style, sheet, classes.drop_last()),
            sheet,
            class_selector(classes.last()),
        )
    }
}

/// The style of `tag` on a page with the rules `sheet`: those of the tag's name, then those of its
/// classes, then those of its id, then its own declarations. The later ones win.
pub open spec fn cascaded(tag: TagView, sheet: Map<Seq<char>, StyleView>) -> StyleView {
    let by_name = with_rules_for(StyleView::plain(), sheet, tag.name);
    let by_class = match tag.class {
        Some(class) => with_classes(by_name, sheet, words(class)),
        None => by_name,
    };
    let by_id = match tag.id {
        Some(id) => with_rules_for(by_class, sheet, id_selector(id)),
        None => by_class,
    };
    match tag.style {
        Some(style) => by_id.merged(css_style(style)),
        None => by_id,
    }
}

/// A page on which some pieces have been laid out: what is known of it, and the text, style and
/// kind of the block that is being put together.
pub struct Layout {
    pub blocks: Seq<BlockView>,
    pub title: Option<Seq<char>>,
    pub new_cookie: Option<Seq<char>>,
    pub auto_redirect: Option<Seq<char>>,
    pub text: Seq<char>,
    pub style: StyleView,
    pub block_type: BlockTypeView,
    pub form_action: Option<Seq<char>>,
}

/// The layout before the first piece.
pub open spec fn empty_layout() -> Layout {
    Layout {
        blocks: Seq::empty(),
        title: None,
        new_cookie: None,
        auto_redirect: None,
        text: Seq::empty(),
        style: StyleView::plain(),
        block_type: BlockTypeView::Paragraph,
        form_action: None,
    }
}

impl Layout {
    /// The layout after the current text has become a block. White space alone makes none, and is
    /// kept for the text that follows.
    pub open spec fn flushed(self) -> Layout {
        if trim(self.text).len() == 0 {
            self
        } else {
            let block = BlockView { text: self.text, block_type: self.block_type, style: self.style };
            Layout { blocks: self.blocks.push(block), text: Seq::empty(), ..self }
        }
    }

    /// The layout after a block without text from the page.
    pub open spec fn with_block(self, text: Seq<char>, block_type: BlockTypeView) -> Layout {
        let block = BlockView { text, block_type, style: self.style };
        Layout { blocks: self.blocks.push(block), block_type: BlockTypeView::Paragraph, ..self }
    }

    /// The layout after an opening tag of the kind `kind`, whose style is the current one.
    pub open spec fn with_tag(self, kind: TagKind<Seq<char>>) -> Layout {
        match kind {
            TagKind::Div => Layout { block_type: BlockTypeView::Div, ..self },
            TagKind::Heading(level) => Layout { block_type: BlockTypeView::Heading(level), ..self },
            TagKind::Link(href) => Layout { block_type: BlockTypeView::Link(href), ..self },
            TagKind::Form(action) => Layout {
                block_type: BlockTypeView::Div,
                form_action: action,
                ..self
            },
            TagKind::Input(name) => self.with_block(
                Seq::empty(),
                BlockTypeView::Input { name, value: Seq::empty() },
            ),
            TagKind::Button(text) => self.with_block(
                text,
                BlockTypeView::Button { text, action_url: self.form_action },
            ),
            TagKind::Image { src, alt } => self.with_block(
                Seq::empty(),
                BlockTypeView::Image { src, alt, raw_image: None },
            ),
            TagKind::Bold => Layout {
                block_type: BlockTypeView::Paragraph,
                style: StyleView { is_bold: true, ..self.style },
                ..self
            },
            TagKind::Italic => Layout {
                block_type: BlockTypeView::Paragraph,
                style: StyleView { is_italic: true, ..self.style },
                ..self
            },
            TagKind::Other => Layout { block_type: BlockTypeView::Paragraph, ..self },
        }
    }

    /// The layout after `piece`, on the page `url` with the rules `sheet`.
    pub open spec fn with_piece(
        self,
        piece: PieceView,
        url: Seq<char>,
        sheet: Map<Seq<char>, StyleView>,
    ) -> Layout {
        match piece {
            PieceView::Text(text) => Layout { text: self.text + text, ..self },
            PieceView::Title(Some(title)) => Layout { title: Some(title), ..self.flushed() },
            PieceView::Title(None) => self.flushed(),
            PieceView::Script { cookie: Some(cookie), reload } => Layout {
                new_cookie: Some(cookie),
                auto_redirect: if reload {
                    Some(url)
                } else {
                    self.auto_redirect
                },
                ..self.flushed()
            },
            PieceView::Script { cookie: None, reload } => self.flushed(),
            PieceView::Hidden => self.flushed(),
            PieceView::Close { form } => Layout {
                style: StyleView::plain(),
                block_type: BlockTypeView::Paragraph,
                form_action: if form {
                    None
                } else {
                    self.form_action
                },
                ..self.flushed()
            },
            PieceView::Open(tag) => (Layout {
                style: cascaded(tag, sheet),
                ..self.flushed()
            }).with_tag(tag.kind),
        }
    }
}

/// The layout after `pieces`, on the page `url` with the rules `sheet`.
pub open spec fn laid_out(
    pieces: Seq<PieceView>,
    url: Seq<char>,
    sheet: Map<Seq<char>, StyleView>,
) -> Layout
    decreases pieces.len(),
{
    if pieces.len() == 0 {
        empty_layout()
    } else {
        laid_out(pieces.drop_last(), url, sheet).with_piece(pieces.last(), url, sheet)
    }
}

/// The page `url` that consists of `pieces`, with the rules `sheet` and before any picture has come.
pub open spec fn page_of(
    pieces: Seq<PieceView>,
    url: Seq<char>,
    sheet: Map<Seq<char>, StyleView>,
) -> PageView {
    let layout = laid_out(pieces, url, sheet).flushed();
    PageView {
        url,
        title: layout.title,
        favicon_raw: None,
        blocks: layout.blocks,
        alerts: Seq::empty(),
        new_cookie: layout.new_cookie,
        auto_redirect: layout.auto_redirect,
        is_secure: url_is_secure(url),
    }
}

// ---------------------------------------------------------------------------------------------
// Laying it out
// ---------------------------------------------------------------------------------------------

/// A page that is being laid out.
struct PageBuilder {
    blocks: Vec<RenderBlock>,
    title: Option<String>,
    new_cookie: Option<String>,
    auto_redirect: Option<String>,
    text: String,
    style: CssStyle,
    block_type: BlockType,
    form_action: Option<String>,
}

impl View for PageBuilder {
    type V = Layout;

    closed spec fn view(&self) -> Layout {
        Layout {
            blocks: blocks_view(self.blocks@),
            title: opt_text(self.title),
            new_cookie: opt_text(self.new_cookie),
            auto_redirect: opt_text(self.auto_redirect),
            text: self.text@,
            style: self.style@,
            block_type: self.block_type@,
            form_action: opt_text(self.form_action),
        }
    }
}

/// Merges the rules of `sheet` for `selector` into `style`.
fn apply_rules_for(style: &mut CssStyle, sheet: &StyleSheet, selector: &str)
    ensures
        final(style)@ == with_rules_for(old(style)@, sheet@, selector@),
{
    match sheet.get(selector) {
        Some(rules) => style.merge(rules),
        None => {},
    }
}

/// The selector that is `mark` before the lower case of `name`.
fn marked_selector(mark: &str, name: &str) -> (r: String)
    ensures
        r@ == mark@ + lowercase(name@),
{
    let mut selector = mark.to_string();
    selector.append(std_lowercase(name).as_str());
    selector
}

/// The style of `tag` on a page with the rules `sheet`.
fn cascade(tag: &OpenTag, sheet: &StyleSheet) -> (r: CssStyle)
    ensures
        r@ == cascaded(tag@, sheet@),
{
    let mut style = CssStyle::default();
    apply_rules_for(&mut style, sheet, tag.name.as_str());
    match &tag.class {
        Some(class_attr) => {
            let ghost by_name = style@;
            let classes = word_list(&to_chars(class_attr.as_str()));
            let ghost names = texts(classes@);
            let mut i: usize = 0;
            assert(names.take(0) =~= Seq::<Seq<char>>::empty());
            while i < classes.len()
                invariant
                    i <= classes.len(),
                    names == texts(classes@),
                    style@ == with_classes(by_name, sheet@, names.take(i as int)),
                decreases classes.len() - i,
            {
                proof {
                    assert(names.take(i + 1).drop_last() =~= names.take(i as int));
                    assert(names.take(i + 1).last() == classes@[i as int]@);
                }
                let class_name = from_chars(&classes[i]);
                let selector = marked_selector(".", class_name.as_str());
                apply_rules_for(&mut style, sheet, selector.as_str());
                i = i + 1;
            }
            assert(names.take(i as int) =~= names);
        },
        None => {},
    }
    match &tag.id {
        Some(id_attr) => {
            let selector = marked_selector("#", id_attr.as_str());
            apply_rules_for(&mut style, sheet, selector.as_str());
        },
        None => {},
    }
    match &tag.style {
        Some(inline_style) => {
            style.merge(&parse_css_style(inline_style.as_str()));
        },
        None => {},
    }
    style
}

impl PageBuilder {
    fn new() -> (r: PageBuilder)
        ensures
            r@ == empty_layout(),
    {
        let r = PageBuilder {
            blocks: Vec::new(),
            title: None,
            new_cookie: None,
            auto_redirect: None,
            text: String::new(),
            style: CssStyle::default(),
            block_type: BlockType::Paragraph,
            form_action: None,
        };
        assert(blocks_view(r.blocks@) =~= Seq::<BlockView>::empty());
        r
    }

    /// Makes a block of the current text.
    fn flush(&mut self)
        ensures
            final(self)@ == old(self)@.flushed(),
    {
        if trimmed(&to_chars(self.text.as_str())).len() > 0 {
            let block = RenderBlock {
                text: self.text.clone(),
                block_type: self.block_type.clone(),
                style: self.style.clone(),
            };
            self.blocks.push(block);
            self.text = String::new();
            proof {
                assert(blocks_view(self.blocks@) =~= blocks_view(old(self).blocks@).push(block@));
            }
        }
    }

    /// Adds a block without text from the page.
    fn add_block(&mut self, text: String, block_type: BlockType)
        ensures
            final(self)@ == old(self)@.with_block(text@, block_type@),
    {
        let block = RenderBlock { text, block_type, style: self.style.clone() };
        self.blocks.push(block);
        self.block_type = BlockType::Paragraph;
        proof {
            assert(blocks_view(self.blocks@) =~= blocks_view(old(self).blocks@).push(block@));
        }
    }

    /// Carries out an opening tag whose style is the current one.
    fn open(&mut self, kind: &TagKind<String>)
        ensures
            final(self)@ == old(self)@.with_tag(kind_view(*kind)),
    {
        match kind {
            TagKind::Div => {
                self.block_type = BlockType::Div;
            },
            TagKind::Heading(level) => {
                self.block_type = BlockType::Heading(*level);
            },
            TagKind::Link(href) => {
                self.block_type = BlockType::Link(href.clone());
            },
            TagKind::Form(action) => {
                self.form_action = copy_text(action);
                self.block_type = BlockType::Div;
            },
            TagKind::Input(name) => {
                let block_type = BlockType::Input { name: name.clone(), value: String::new() };
                self.add_block(String::new(), block_type);
            },
            TagKind::Button(text) => {
                let block_type = BlockType::Button {
                    text: text.clone(),
                    action_url: copy_text(&self.form_action),
                };
                self.add_block(text.clone(), block_type);
            },
            TagKind::Image { src, alt } => {
                let block_type = BlockType::Image {
                    src: src.clone(),
                    alt: alt.clone(),
                    raw_image: None,
                };
                self.add_block(String::new(), block_type);
            },
            TagKind::Bold => {
                self.style.is_bold = true;
                self.block_type = BlockType::Paragraph;
            },
            TagKind::Italic => {
                self.style.is_italic = true;
                self.block_type = BlockType::Paragraph;
            },
            TagKind::Other => {
                self.block_type = BlockType::Paragraph;
            },
        }
    }

    /// Lays out the next piece.
    fn add_piece(&mut self, piece: &Piece, url: &str, sheet: &StyleSheet)
        ensures
            final(self)@ == old(self)@.with_piece(piece@, url@, sheet@),
    {
        match piece {
            Piece::Text(text) => {
                self.text.append(text.as_str());
            },
            Piece::Title(title) => {
                self.flush();
                if title.is_some() {
                    self.title = copy_text(title);
                }
            },
            Piece::Script { cookie, reload } => {
                self.flush();
                if cookie.is_some() {
                    self.new_cookie = copy_text(cookie);
                    if *reload {
                        self.auto_redirect = Some(url.to_string());
                    }
                }
            },
            Piece::Hidden => {
                self.flush();
            },
            Piece::Close { form } => {
                self.flush();
                self.style = CssStyle::default();
                self.block_type = BlockType::Paragraph;
                if *form {
                    self.form_action = None;
                }
            },
            Piece::Open(tag) => {
                self.flush();
                self.style = cascade(tag, sheet);
                self.open(&tag.kind);
            },
        }
    }
}

/// The page `url` that consists of `pieces`, with the rules `global_styles`.
pub fn render_pieces(pieces: &Vec<Piece>, url: &str, global_styles: &StyleSheet) -> (r: FetchResult)
    ensures
        r@ == page_of(pieces_view(pieces@), url@, global_styles@),
{
    let mut builder = PageBuilder::new();
    let ghost all = pieces_view(pieces@);
    let mut i: usize = 0;
    assert(all.take(0) =~= Seq::<PieceView>::empty());
    while i < pieces.len()
        invariant
            i <= pieces.len(),
            all == pieces_view(pieces@),
            builder@ == laid_out(all.take(i as int), url@, global_styles@),
        decreases pieces.len() - i,
    {
        proof {
            assert(all.take(i + 1).drop_last() =~= all.take(i as int));
            assert(all.take(i + 1).last() == pieces@[i as int]@);
        }
        builder.add_piece(&pieces[i], url, global_styles);
        i = i + 1;
    }
    assert(all.take(i as int) =~= all);
    builder.flush();
    let is_secure = parse_url(url).2;
    let r = FetchResult {
        url: url.to_string(),
        title: builder.title,
        favicon_raw: None,
        blocks: builder.blocks,
        alerts: Vec::new(),
        new_cookie: builder.new_cookie,
        auto_redirect: builder.auto_redirect,
        is_secure,
    };
    assert(strings_view(r.alerts@) =~= Seq::<Seq<char>>::empty());
    r
}

/// The page `url` with the text `raw_html` and the rules `global_styles`. The places of attributes
/// and cookies are counted in the lower case of the text, and must fall between two characters of
/// it.
pub fn render_html_to_blocks(raw_html: &str, url: &str, global_styles: &StyleSheet) -> (r: FetchResult)
    requires
        page_pieces(raw_html@) is Some,
    ensures
        r@ == page_of(page_pieces(raw_html@)->0, url@, global_styles@),
{
    let pieces = scan_html(raw_html).unwrap();
    render_pieces(&pieces, url, global_styles)
}

/// As [`render_html_to_blocks`], for any text: an error where a place does not fall between two
/// characters.
pub fn try_render_html_to_blocks(
    raw_html: &str,
    url: &str,
    global_styles: &StyleSheet,
) -> (r: Result<FetchResult, OffBoundary>)
    ensures
        r is Ok <==> page_pieces(raw_html@) is Some,
        r matches Ok(page) ==> page@ == page_of(page_pieces(raw_html@)->0, url@, global_styles@),
{
    match scan_html(raw_html) {
        Ok(_) => Ok(render_html_to_blocks(raw_html, url, global_styles)),
        Err(e) => Err(e),
    }
}

// ---------------------------------------------------------------------------------------------
// Laws
// ---------------------------------------------------------------------------------------------

/// Whether `block` is shown by what it is and not by text from the page.
pub open spec fn is_widget(block: BlockView) -> bool {
    block.block_type is Input || block.block_type is Button || block.block_type is Image
}

/// Whether `block` is an empty field, a button, a picture that has not come yet, or has a text that
/// is more than white space. Fields and pictures have no text, a button has the text that it was
/// given, headings are of the first or second level, and no text from the page holds a tag.
pub open spec fn is_worth_showing(block: BlockView) -> bool {
    &&& is_widget(block) || trim(block.text).len() > 0
    &&& block.block_type matches BlockTypeView::Image { src, alt, raw_image } ==> raw_image is None
        && block.text.len() == 0
    &&& block.block_type matches BlockTypeView::Input { name, value } ==> value.len() == 0
        && block.text.len() == 0
    &&& block.block_type matches BlockTypeView::Button { text, action_url } ==> block.text == text
    &&& block.block_type matches BlockTypeView::Heading(level) ==> level == 1 || level == 2
    &&& !(block.block_type is Button) ==> !block.text.contains('<')
}

/// Every block of a page that has just been laid out is worth showing.
pub proof fn law_blocks_are_worth_showing(
    html: Seq<char>,
    url: Seq<char>,
    sheet: Map<Seq<char>, StyleView>,
)
    requires
        page_pieces(html) is Some,
    ensures
        forall|i: int|
            0 <= i < page_of(page_pieces(html)->0, url, sheet).blocks.len() ==> is_worth_showing(
                #[trigger] page_of(page_pieces(html)->0, url, sheet).blocks[i],
            ),
{
    law_pieces_hold_no_tag(html);
    lemma_layout_is_worth_showing(page_pieces(html)->0, url, sheet);
}

/// Whether all blocks of `layout` are worth showing, and the one that is being put together will be.
spec fn layout_ok(layout: Layout) -> bool {
    &&& forall|i: int| 0 <= i < layout.blocks.len() ==> is_worth_showing(#[trigger] layout.blocks[i])
    &&& !(layout.block_type is Input || layout.block_type is Button || layout.block_type is Image)
    &&& layout.block_type matches BlockTypeView::Heading(level) ==> level == 1 || level == 2
    &&& !layout.text.contains('<')
}

proof fn lemma_layout_is_worth_showing(
    pieces: Seq<PieceView>,
    url: Seq<char>,
    sheet: Map<Seq<char>, StyleView>,
)
    requires
        forall|k: int| 0 <= k < pieces.len() ==> holds_no_tag(#[trigger] pieces[k]),
    ensures
        layout_ok(laid_out(pieces, url, sheet)),
        layout_ok(laid_out(pieces, url, sheet).flushed()),
    decreases pieces.len(),
{
    if pieces.len() > 0 {
        let earlier = pieces.drop_last();
        assert forall|k: int| 0 <= k < earlier.len() implies holds_no_tag(#[trigger] earlier[k]) by {
            assert(earlier[k] == pieces[k]);
        }
        lemma_layout_is_worth_showing(earlier, url, sheet);
        assert(holds_no_tag(pieces[pieces.len() - 1]));
        let before = laid_out(earlier, url, sheet);
        match pieces.last() {
            PieceView::Text(text) => {
                let all = before.text + text;
                assert(!all.contains('<')) by {
                    if all.contains('<') {
                        let k = choose|k: int| 0 <= k < all.len() && all[k] == '<';
                        if k < before.text.len() {
                            assert(before.text[k] == '<');
                        } else {
                            assert(text[k - before.text.len()] == '<');
                        }
                    }
                }
            },
            _ => {},
        }
        assert(layout_ok(laid_out(pieces, url, sheet)));
    }
}

/// A page asks to be loaded again only together with a cookie, and then under its own address.
pub proof fn law_redirect_needs_cookie(
    pieces: Seq<PieceView>,
    url: Seq<char>,
    sheet: Map<Seq<char>, StyleView>,
)
    ensures
        page_of(pieces, url, sheet).auto_redirect matches Some(target) ==> target == url && page_of(
            pieces,
            url,
            sheet,
        ).new_cookie is Some,
{
    lemma_redirect_needs_cookie(pieces, url, sheet);
}

proof fn lemma_redirect_needs_cookie(
    pieces: Seq<PieceView>,
    url: Seq<char>,
    sheet: Map<Seq<char>, StyleView>,
)
    ensures
        laid_out(pieces, url, sheet).auto_redirect matches Some(target) ==> target == url && laid_out(
            pieces,
            url,
            sheet,
        ).new_cookie is Some,
    decreases pieces.len(),
{
    if pieces.len() > 0 {
        lemma_redirect_needs_cookie(pieces.drop_last(), url, sheet);
    }
}

/// A page without tags is one paragraph, in no particular style; white space alone is an empty page.
pub proof fn law_text_is_one_paragraph(
    html: Seq<char>,
    url: Seq<char>,
    sheet: Map<Seq<char>, StyleView>,
)
    requires
        !html.contains('<'),
    ensures
        page_pieces(html) is Some,
        page_of(page_pieces(html)->0, url, sheet).blocks == (if is_blank(html) {
            Seq::empty()
        } else {
            seq![
                BlockView {
                    text: html,
                    block_type: BlockTypeView::Paragraph,
                    style: StyleView::plain(),
                },
            ]
        }),
{
    law_trim_blank(html);
    if html.len() > 0 {
        law_text_is_one_piece(html);
        let pieces = seq![PieceView::Text(html)];
        assert(pieces.drop_last() =~= Seq::<PieceView>::empty());
        reveal_with_fuel(laid_out, 2);
        assert(Seq::<char>::empty() + html =~= html);
        assert(laid_out(pieces, url, sheet).text == html);
        assert(page_of(pieces, url, sheet).blocks =~= (if is_blank(html) {
            Seq::empty()
        } else {
            seq![
                BlockView {
                    text: html,
                    block_type: BlockTypeView::Paragraph,
                    style: StyleView::plain(),
                },
            ]
        }));
    } else {
        assert(page_pieces(html) == Some(Seq::<PieceView>::empty()));
    }
}

/// An element with text in it is a block with that text, of the kind and in the style that the
/// opening tag asks for. It follows the field, button or picture that the tag itself may be.
pub proof fn law_element_is_one_block(
    tag: Seq<char>,
    text: Seq<char>,
    close: Seq<char>,
    url: Seq<char>,
    sheet: Map<Seq<char>, StyleView>,
)
    requires
        !tag.contains('>'),
        opens_element(first_word(lowercase(tag))),
        tag_reads(tag, lowercase(tag), first_word(lowercase(tag))),
        !text.contains('<'),
        !is_blank(text),
        !close.contains('>'),
        is_ascii(close) || starts_with(first_word(lowercase(seq!['/'] + close)), "/"@),
    ensures
        ({
            let html = seq!['<'] + tag + seq!['>'] + (text + (seq!['<', '/'] + close + seq!['>']));
            let opening = open_tag(tag, lowercase(tag), first_word(lowercase(tag)));
            let opened = opened_layout(opening, sheet);
            &&& page_pieces(html) is Some
            &&& page_of(page_pieces(html)->0, url, sheet).blocks == opened.blocks.push(
                BlockView { text, block_type: opened.block_type, style: opened.style },
            )
        }),
{
    let none = Seq::<char>::empty();
    let end = seq!['<', '/'] + close + seq!['>'];
    let opening = open_tag(tag, lowercase(tag), first_word(lowercase(tag)));
    let form = first_word(lowercase(seq!['/'] + close)) == "/form"@;
    law_opening_tag_comes_first(tag, text + end);
    law_text_comes_first(text, end);
    law_closing_tag_comes_first(close, none);
    assert(end + none =~= end);
    assert(page_pieces(none) == Some(Seq::<PieceView>::empty()));
    let pieces = seq![PieceView::Open(opening)] + (seq![PieceView::Text(text)] + (seq![
        PieceView::Close { form },
    ] + Seq::<PieceView>::empty()));
    assert(page_pieces(seq!['<'] + tag + seq!['>'] + (text + end)) == Some(pieces));
    law_trim_blank(text);
    lemma_element_layout(opening, text, form, url, sheet);
    assert(pieces =~= seq![PieceView::Open(opening), PieceView::Text(text), PieceView::Close { form }]);
}

/// The layout after the opening tag `tag` alone.
pub open spec fn opened_layout(tag: TagView, sheet: Map<Seq<char>, StyleView>) -> Layout {
    (Layout { style: cascaded(tag, sheet), ..empty_layout() }).with_tag(tag.kind)
}

proof fn lemma_element_layout(
    tag: TagView,
    text: Seq<char>,
    form: bool,
    url: Seq<char>,
    sheet: Map<Seq<char>, StyleView>,
)
    requires
        trim(text).len() > 0,
    ensures
        page_of(
            seq![PieceView::Open(tag), PieceView::Text(text), PieceView::Close { form }],
            url,
            sheet,
        ).blocks == opened_layout(tag, sheet).blocks.push(
            BlockView {
                text,
                block_type: opened_layout(tag, sheet).block_type,
                style: opened_layout(tag, sheet).style,
            },
        ),
{
    let pieces = seq![PieceView::Open(tag), PieceView::Text(text), PieceView::Close { form }];
    let opened = opened_layout(tag, sheet);
    let one = seq![PieceView::Open(tag)];
    let two = seq![PieceView::Open(tag), PieceView::Text(text)];
    assert(one.drop_last() =~= Seq::<PieceView>::empty());
    assert(two.drop_last() =~= one);
    assert(pieces.drop_last() =~= two);
    assert(laid_out(one.drop_last(), url, sheet) == empty_layout());
    assert(empty_layout().flushed() == empty_layout());
    assert(laid_out(one, url, sheet) == opened);
    assert(opened.text =~= Seq::<char>::empty());
    assert(opened.text + text =~= text);
    assert(laid_out(two, url, sheet) == (Layout { text, ..opened }));
    let closed = laid_out(pieces, url, sheet);
    assert(closed == laid_out(two, url, sheet).with_piece(PieceView::Close { form }, url, sheet));
    assert(closed.text.len() == 0);
    assert(closed.flushed() == closed);
}

/// Whether two blocks differ in their style at most.
pub open spec fn same_but_style(a: BlockView, b: BlockView) -> bool {
    a.text == b.text && a.block_type == b.block_type
}

/// Whether two lists of blocks differ in their styles at most.
pub open spec fn same_but_styles(a: Seq<BlockView>, b: Seq<BlockView>) -> bool {
    a.len() == b.len() && forall|i: int|
        #![trigger a[i]]
        #![trigger b[i]]
        0 <= i < a.len() ==> same_but_style(a[i], b[i])
}

/// The style sheets change nothing of a page but the styles of its blocks.
pub proof fn law_sheets_change_only_styles(
    pieces: Seq<PieceView>,
    url: Seq<char>,
    sheet: Map<Seq<char>, StyleView>,
    other: Map<Seq<char>, StyleView>,
)
    ensures
        same_but_styles(page_of(pieces, url, sheet).blocks, page_of(pieces, url, other).blocks),
        page_of(pieces, url, sheet) == (PageView {
            blocks: page_of(pieces, url, sheet).blocks,
            ..page_of(pieces, url, other)
        }),
{
    lemma_sheets_change_only_styles(pieces, url, sheet, other);
    lemma_flush_keeps_match(laid_out(pieces, url, sheet), laid_out(pieces, url, other));
}

/// Whether two layouts differ in their styles at most.
spec fn layouts_match(a: Layout, b: Layout) -> bool {
    same_but_styles(a.blocks, b.blocks) && a == (Layout { blocks: a.blocks, style: a.style, ..b })
}

proof fn lemma_flush_keeps_match(a: Layout, b: Layout)
    requires
        layouts_match(a, b),
    ensures
        layouts_match(a.flushed(), b.flushed()),
{
}

proof fn lemma_sheets_change_only_styles(
    pieces: Seq<PieceView>,
    url: Seq<char>,
    sheet: Map<Seq<char>, StyleView>,
    other: Map<Seq<char>, StyleView>,
)
    ensures
        layouts_match(laid_out(pieces, url, sheet), laid_out(pieces, url, other)),
    decreases pieces.len(),
{
    if pieces.len() > 0 {
        let a = laid_out(pieces.drop_last(), url, sheet);
        let b = laid_out(pieces.drop_last(), url, other);
        lemma_sheets_change_only_styles(pieces.drop_last(), url, sheet, other);
        lemma_flush_keeps_match(a, b);
        match pieces.last() {
            PieceView::Open(tag) => {
                lemma_tag_keeps_match(
                    Layout { style: cascaded(tag, sheet), ..a.flushed() },
                    Layout { style: cascaded(tag, other), ..b.flushed() },
                    tag.kind,
                );
            },
            _ => {},
        }
    }
}

proof fn lemma_tag_keeps_match(a: Layout, b: Layout, kind: TagKind<Seq<char>>)
    requires
        layouts_match(a, b),
    ensures
        layouts_match(a.with_tag(kind), b.with_tag(kind)),
{
}

/// What the classes of `tag` contribute to its style.
pub open spec fn class_style(tag: TagView, sheet: Map<Seq<char>, StyleView>) -> StyleView {
    match tag.class {
        Some(class) => with_classes(StyleView::plain(), sheet, words(class)),
        None => StyleView::plain(),
    }
}

/// What the id of `tag` contributes to its style.
pub open spec fn id_style(tag: TagView, sheet: Map<Seq<char>, StyleView>) -> StyleView {
    match tag.id {
        Some(id) => style_for(sheet, id_selector(id)),
        None => StyleView::plain(),
    }
}

/// What `tag` declares itself.
pub open spec fn own_style(tag: TagView) -> StyleView {
    match tag.style {
        Some(style) => css_style(style),
        None => StyleView::plain(),
    }
}

/// The style of a tag is the merge of four: that of its name, that of its classes, that of its id,
/// and its own declarations.
pub proof fn law_cascade_is_a_merge(tag: TagView, sheet: Map<Seq<char>, StyleView>)
    ensures
        cascaded(tag, sheet) == style_for(sheet, tag.name).merged(class_style(tag, sheet)).merged(
            id_style(tag, sheet),
        ).merged(own_style(tag)),
{
    let by_name = style_for(sheet, tag.name);
    law_plain_style_is_neutral(by_name);
    assert(with_rules_for(StyleView::plain(), sheet, tag.name) == by_name);
    let by_class = by_name.merged(class_style(tag, sheet));
    match tag.class {
        Some(class) => {
            lemma_classes_are_a_merge(by_name, sheet, words(class));
        },
        None => {},
    }
    law_plain_style_is_neutral(by_class);
    let by_id = by_class.merged(id_style(tag, sheet));
    law_plain_style_is_neutral(by_id);
}

proof fn lemma_classes_are_a_merge(
    style: StyleView,
    sheet: Map<Seq<char>, StyleView>,
    classes: Seq<Seq<char>>,
)
    ensures
        with_classes(style, sheet, classes) == style.merged(
            with_classes(StyleView::plain(), sheet, classes),
        ),
    decreases classes.len(),
{
    law_plain_style_is_neutral(style);
    if classes.len() > 0 {
        lemma_classes_are_a_merge(style, sheet, classes.drop_last());
        law_merge_is_associative(
            style,
            with_classes(StyleView::plain(), sheet, classes.drop_last()),
            style_for(sheet, class_selector(classes.last())),
        );
    }
}

/// What a tag declares itself is not overruled by any style sheet.
pub proof fn law_own_declarations_win(
    tag: TagView,
    declarations: Seq<char>,
    sheet: Map<Seq<char>, StyleView>,
)
    requires
        tag.style == Some(declarations),
    ensures
        cascaded(tag, sheet).merged(css_style(declarations)) == cascaded(tag, sheet),
        css_style(declarations).align is Some ==> cascaded(tag, sheet).align == css_style(
            declarations,
        ).align,
        css_style(declarations).bg_color is Some ==> cascaded(tag, sheet).bg_color == css_style(
            declarations,
        ).bg_color,
        css_style(declarations).text_color is Some ==> cascaded(tag, sheet).text_color == css_style(
            declarations,
        ).text_color,
        css_style(declarations).font_size is Some ==> cascaded(tag, sheet).font_size == css_style(
            declarations,
        ).font_size,
        css_style(declarations).padding is Some ==> cascaded(tag, sheet).padding == css_style(
            declarations,
        ).padding,
        css_style(declarations).border_color is Some ==> cascaded(tag, sheet).border_color == css_style(
            declarations,
        ).border_color,
        css_style(declarations).is_bold ==> cascaded(tag, sheet).is_bold,
        css_style(declarations).is_italic ==> cascaded(tag, sheet).is_italic,
{
}

/// What an element looks like on a page, by the name of its tag: the block with its text has the style
/// that the rules of its name, its classes, its id and its own declarations make together. It is bold
/// besides in `b` and `strong`, and italic besides in `i` and `em`; nothing else is added. A field, a
/// button or a picture is a block of its own before the text, which is a paragraph then.
pub proof fn law_element_is_shown(
    tag: Seq<char>,
    text: Seq<char>,
    close: Seq<char>,
    url: Seq<char>,
    sheet: Map<Seq<char>, StyleView>,
)
    requires
        !tag.contains('>'),
        ({
            let name = first_word(lowercase(tag));
            &&& name != "title"@ && name != "script"@ && name != "style"@ && name != "head"@
            &&& !starts_with(name, "/"@)
        }),
        tag_reads(tag, lowercase(tag), first_word(lowercase(tag))),
        !text.contains('<'),
        !is_blank(text),
        !close.contains('>'),
        is_ascii(close) || starts_with(first_word(lowercase(seq!['/'] + close)), "/"@),
    ensures
        ({
            let html = seq!['<'] + tag + seq!['>'] + (text + (seq!['<', '/'] + close + seq!['>']));
            let low = lowercase(tag);
            let name = first_word(low);
            let style = cascaded(
                TagView {
                    name,
                    class: attr_value(tag, low, "class"@),
                    id: attr_value(tag, low, "id"@),
                    style: attr_value(tag, low, "style"@),
                    kind: TagKind::Other,
                },
                sheet,
            );
            let blocks = page_of(page_pieces(html)->0, url, sheet).blocks;
            let plain = BlockView { text, block_type: BlockTypeView::Paragraph, style };
            &&& name == "b"@ || name == "strong"@ ==> blocks == seq![
                BlockView { style: StyleView { is_bold: true, ..style }, ..plain },
            ]
            &&& name == "i"@ || name == "em"@ ==> blocks == seq![
                BlockView { style: StyleView { is_italic: true, ..style }, ..plain },
            ]
            &&& name == "div"@ || name == "form"@ ==> blocks == seq![
                BlockView { block_type: BlockTypeView::Div, ..plain },
            ]
            &&& name == "h1"@ ==> blocks == seq![
                BlockView { block_type: BlockTypeView::Heading(1), ..plain },
            ]
            &&& name == "h2"@ ==> blocks == seq![
                BlockView { block_type: BlockTypeView::Heading(2), ..plain },
            ]
            &&& name == "a"@ ==> blocks == seq![
                BlockView {
                    block_type: BlockTypeView::Link(
                        given(attr_value(tag, low, "href"@), Seq::empty()),
                    ),
                    ..plain
                },
            ]
            &&& name == "input"@ ==> blocks == seq![
                BlockView {
                    text: Seq::empty(),
                    block_type: BlockTypeView::Input {
                        name: given(attr_value(tag, low, "name"@), seq!['i', 'n', 'p', 'u', 't']),
                        value: Seq::empty(),
                    },
                    style,
                },
                plain,
            ]
            &&& name == "button"@ ==> {
                let label = given(
                    attr_value(tag, low, "value"@),
                    seq!['S', 'u', 'b', 'm', 'i', 't'],
                );
                blocks == seq![
                    BlockView {
                        text: label,
                        block_type: BlockTypeView::Button { text: label, action_url: None },
                        style,
                    },
                    plain,
                ]
            }
            &&& name == "img"@ ==> blocks == seq![
                BlockView {
                    text: Seq::empty(),
                    block_type: BlockTypeView::Image {
                        src: given(attr_value(tag, low, "src"@), Seq::empty()),
                        alt: given(attr_value(tag, low, "alt"@), seq!['I', 'M', 'G']),
                        raw_image: None,
                    },
                    style,
                },
                plain,
            ]
            &&& name != "b"@ && name != "strong"@ && name != "i"@ && name != "em"@ && name != "div"@
                && name != "form"@ && name != "h1"@ && name != "h2"@ && name != "a"@ && name != "input"@
                && name != "button"@ && name != "img"@ ==> blocks == seq![plain]
        }),
{
    let low = lowercase(tag);
    let name = first_word(low);
    let opening = open_tag(tag, low, name);
    let opened = opened_layout(opening, sheet);
    law_element_is_one_block(tag, text, close, url, sheet);
    lemma_tag_names();
    let style = cascaded(TagView { kind: TagKind::Other, ..opening }, sheet);
    assert(cascaded(opening, sheet) == style);
    let last = BlockView { text, block_type: opened.block_type, style: opened.style };
    if is_widget_tag(opening.kind) {
        assert(opened.blocks.len() == 1);
        assert(opened.blocks.push(last) =~= seq![opened.blocks[0], last]);
    } else {
        assert(opened.blocks.len() == 0);
        assert(opened.blocks.push(last) =~= seq![last]);
    }
}

/// `value` where it is there, else `default`.
pub open spec fn given(value: Option<Seq<char>>, default: Seq<char>) -> Seq<char> {
    if value is Some {
        value->0
    } else {
        default
    }
}

/// Whether a tag of the kind `kind` is a block of its own.
pub open spec fn is_widget_tag(kind: TagKind<Seq<char>>) -> bool {
    kind is Input || kind is Button || kind is Image
}

/// What the names of the tags that are known look like.
proof fn lemma_tag_names()
    ensures
        "div"@.len() == 3 && "h1"@.len() == 2 && "h2"@.len() == 2 && "a"@.len() == 1 && "form"@.len() == 4,
        "input"@.len() == 5 && "button"@.len() == 6 && "img"@.len() == 3 && "b"@.len() == 1,
        "strong"@.len() == 6 && "i"@.len() == 1 && "em"@.len() == 2,
        "div"@[0] == 'd' && "img"@[0] == 'i' && "h1"@[0] == 'h' && "h2"@[0] == 'h' && "em"@[0] == 'e',
        "h1"@[1] == '1' && "h2"@[1] == '2' && "a"@[0] == 'a' && "b"@[0] == 'b' && "i"@[0] == 'i',
        "strong"@[0] == 's' && "button"@[0] == 'b',
        "input"@ == seq!['i', 'n', 'p', 'u', 't'],
        "Submit"@ == seq!['S', 'u', 'b', 'm', 'i', 't'],
        "IMG"@ == seq!['I', 'M', 'G'],
{
    reveal_strlit("div");
    reveal_strlit("h1");
    reveal_strlit("h2");
    reveal_strlit("a");
    reveal_strlit("form");
    reveal_strlit("input");
    reveal_strlit("button");
    reveal_strlit("img");
    reveal_strlit("b");
    reveal_strlit("strong");
    reveal_strlit("i");
    reveal_strlit("em");
    reveal_strlit("Submit");
    reveal_strlit("IMG");
    assert("input"@ =~= seq!['i', 'n', 'p', 'u', 't']);
    assert("Submit"@ =~= seq!['S', 'u', 'b', 'm', 'i', 't']);
    assert("IMG"@ =~= seq!['I', 'M', 'G']);
}

/// The classes of a tag are the words of its attribute, and each has the rules of its selector, a
/// point before the class in lower case letters. The later ones win.
pub proof fn law_classes_are_merged(
    tag: TagView,
    sheet: Map<Seq<char>, StyleView>,
    space: Seq<char>,
    word: Seq<char>,
    rest: Seq<char>,
)
    requires
        forall|i: int| 0 <= i < space.len() ==> is_white(#[trigger] space[i]),
        forall|i: int| 0 <= i < word.len() ==> !is_white(#[trigger] word[i]),
        word.len() > 0,
        rest.len() > 0 ==> is_white(rest[0]),
    ensures
        class_style(TagView { class: Some(space + word + rest), ..tag }, sheet) == style_for(
            sheet,
            seq!['.'] + lowercase(word),
        ).merged(class_style(TagView { class: Some(rest), ..tag }, sheet)),
        class_style(TagView { class: Some(space), ..tag }, sheet) == StyleView::plain(),
        class_style(TagView { class: None, ..tag }, sheet) == StyleView::plain(),
{
    law_words(space, word, rest);
    reveal_strlit(".");
    assert("."@ =~= seq!['.']);
    let plain = StyleView::plain();
    let own = style_for(sheet, class_selector(word));
    lemma_classes_in_a_row(plain, sheet, seq![word], words(rest));
    assert(seq![word].drop_last() =~= Seq::<Seq<char>>::empty());
    assert(seq![word].last() == word);
    reveal_with_fuel(with_classes, 2);
    law_plain_style_is_neutral(own);
    assert(with_classes(plain, sheet, seq![word]) == own);
    lemma_classes_are_a_merge(own, sheet, words(rest));
}

proof fn lemma_classes_in_a_row(
    style: StyleView,
    sheet: Map<Seq<char>, StyleView>,
    first: Seq<Seq<char>>,
    second: Seq<Seq<char>>,
)
    ensures
        with_classes(style, sheet, first + second) == with_classes(
            with_classes(style, sheet, first),
            sheet,
            second,
        ),
    decreases second.len(),
{
    let both = first + second;
    if second.len() == 0 {
        assert(both =~= first);
    } else {
        assert(both.drop_last() =~= first + second.drop_last());
        assert(both.last() == second.last());
        lemma_classes_in_a_row(style, sheet, first, second.drop_last());
    }
}

/// The id of a tag has the rules of its selector, a number sign before the id in lower case letters;
/// its own declarations are read as a list of declarations.
pub proof fn law_id_and_own_style(
    tag: TagView,
    sheet: Map<Seq<char>, StyleView>,
    value: Seq<char>,
)
    ensures
        id_style(TagView { id: Some(value), ..tag }, sheet) == style_for(
            sheet,
            seq!['#'] + lowercase(value),
        ),
        id_style(TagView { id: None, ..tag }, sheet) == StyleView::plain(),
        own_style(TagView { style: Some(value), ..tag }) == css_style(value),
        own_style(TagView { style: None, ..tag }) == StyleView::plain(),
{
    reveal_strlit("#");
    assert("#"@ =~= seq!['#']);
}

/// A page has the address that it was laid out for and asks for encryption as that does; no icon and no
/// alert has come yet.
pub proof fn law_page_has_its_address(
    pieces: Seq<PieceView>,
    url: Seq<char>,
    sheet: Map<Seq<char>, StyleView>,
)
    ensures
        page_of(pieces, url, sheet).url == url,
        page_of(pieces, url, sheet).is_secure == url_is_secure(url),
        page_of(pieces, url, sheet).favicon_raw is None,
        page_of(pieces, url, sheet).alerts.len() == 0,
{
}

/// The last title that is closed counts, and so does the last cookie; the page asks to be loaded again,
/// under its own address, from the first script on that sets a cookie and says so. No other piece
/// changes these.
pub proof fn law_last_title_and_cookie_count(
    pieces: Seq<PieceView>,
    piece: PieceView,
    url: Seq<char>,
    sheet: Map<Seq<char>, StyleView>,
)
    ensures
        page_of(Seq::empty(), url, sheet).title is None,
        page_of(Seq::empty(), url, sheet).new_cookie is None,
        page_of(Seq::empty(), url, sheet).auto_redirect is None,
        page_of(Seq::empty(), url, sheet).blocks.len() == 0,
        ({
            let before = page_of(pieces, url, sheet);
            let after = page_of(pieces.push(piece), url, sheet);
            &&& piece matches PieceView::Title(Some(title)) ==> after.title == Some(title)
            &&& !(piece matches PieceView::Title(Some(_))) ==> after.title == before.title
            &&& piece matches PieceView::Script { cookie: Some(cookie), reload } ==> after.new_cookie == Some(
                cookie,
            ) && after.auto_redirect == (if reload {
                Some(url)
            } else {
                before.auto_redirect
            })
            &&& !(piece matches PieceView::Script { cookie: Some(_), reload: _ }) ==> after.new_cookie
                == before.new_cookie && after.auto_redirect == before.auto_redirect
        }),
{
    lemma_push_piece(pieces, piece, url, sheet);
    match piece {
        PieceView::Open(tag) => {
            match tag.kind {
                _ => {},
            }
        },
        _ => {},
    }
}

proof fn lemma_push_piece(
    pieces: Seq<PieceView>,
    piece: PieceView,
    url: Seq<char>,
    sheet: Map<Seq<char>, StyleView>,
)
    ensures
        laid_out(pieces.push(piece), url, sheet) == laid_out(pieces, url, sheet).with_piece(
            piece,
            url,
            sheet,
        ),
{
    assert(pieces.push(piece).drop_last() =~= pieces);
    assert(pieces.push(piece).last() == piece);
}

/// A text that is cut in two is shown as one.
pub proof fn law_text_is_joined(
    pieces: Seq<PieceView>,
    first: Seq<char>,
    second: Seq<char>,
    url: Seq<char>,
    sheet: Map<Seq<char>, StyleView>,
)
    ensures
        page_of(pieces.push(PieceView::Text(first)).push(PieceView::Text(second)), url, sheet) == page_of(
            pieces.push(PieceView::Text(first + second)),
            url,
            sheet,
        ),
{
    let cut = pieces.push(PieceView::Text(first));
    lemma_push_piece(pieces, PieceView::Text(first), url, sheet);
    lemma_push_piece(cut, PieceView::Text(second), url, sheet);
    lemma_push_piece(pieces, PieceView::Text(first + second), url, sheet);
    let text = laid_out(pieces, url, sheet).text;
    assert(text + first + second =~= text + (first + second));
}

/// A title, a script and an element that is not shown end the text before them, and the text behind
/// them goes on in the same style and is a block of the same kind.
pub proof fn law_hidden_pieces_keep_style(
    pieces: Seq<PieceView>,
    first: Seq<char>,
    hidden: PieceView,
    second: Seq<char>,
    url: Seq<char>,
    sheet: Map<Seq<char>, StyleView>,
)
    requires
        hidden is Title || hidden is Script || hidden is Hidden,
        !is_blank(first),
        !is_blank(second),
    ensures
        ({
            let before = page_of(pieces.push(PieceView::Text(first)), url, sheet).blocks;
            let after = page_of(
                pieces.push(PieceView::Text(first)).push(hidden).push(PieceView::Text(second)),
                url,
                sheet,
            ).blocks;
            &&& before.len() > 0
            &&& after == before.push(BlockView { text: second, ..before.last() })
        }),
{
    let one = pieces.push(PieceView::Text(first));
    let two = one.push(hidden);
    lemma_push_piece(pieces, PieceView::Text(first), url, sheet);
    lemma_push_piece(one, hidden, url, sheet);
    lemma_push_piece(two, PieceView::Text(second), url, sheet);
    let text = laid_out(pieces, url, sheet).text;
    lemma_not_blank(text, first);
    law_trim_blank(text + first);
    law_trim_blank(second);
    assert(Seq::<char>::empty() + second =~= second);
    assert(laid_out(two, url, sheet).text == Seq::<char>::empty());
}

/// More text before a text that is not blank makes none that is.
proof fn lemma_not_blank(front: Seq<char>, text: Seq<char>)
    requires
        !is_blank(text),
    ensures
        !is_blank(front + text),
{
    let k = choose|k: int| 0 <= k < text.len() && !is_white(#[trigger] text[k]);
    assert((front + text)[front.len() + k] == text[k]);
}

/// A closing tag ends the text before it, and with it all that the opening tag asked for: text behind
/// it is a paragraph in no particular style.
pub proof fn law_closing_tag_ends_style(
    pieces: Seq<PieceView>,
    first: Seq<char>,
    form: bool,
    second: Seq<char>,
    url: Seq<char>,
    sheet: Map<Seq<char>, StyleView>,
)
    requires
        !is_blank(first),
        !is_blank(second),
    ensures
        page_of(
            pieces.push(PieceView::Text(first)).push(PieceView::Close { form }).push(
                PieceView::Text(second),
            ),
            url,
            sheet,
        ).blocks == page_of(pieces.push(PieceView::Text(first)), url, sheet).blocks.push(
            BlockView {
                text: second,
                block_type: BlockTypeView::Paragraph,
                style: StyleView::plain(),
            },
        ),
{
    let one = pieces.push(PieceView::Text(first));
    let two = one.push(PieceView::Close { form });
    lemma_push_piece(pieces, PieceView::Text(first), url, sheet);
    lemma_push_piece(one, PieceView::Close { form }, url, sheet);
    lemma_push_piece(two, PieceView::Text(second), url, sheet);
    let text = laid_out(pieces, url, sheet).text;
    lemma_not_blank(text, first);
    law_trim_blank(text + first);
    law_trim_blank(second);
    assert(Seq::<char>::empty() + second =~= second);
    assert(laid_out(two, url, sheet).text == Seq::<char>::empty());
}

/// An opening tag ends the text before it. What it makes of the text behind it does not depend on what
/// came before, but for the address that a button is given by the form around it.
pub proof fn law_opening_tag_starts_afresh(
    pieces: Seq<PieceView>,
    first: Seq<char>,
    tag: TagView,
    second: Seq<char>,
    url: Seq<char>,
    sheet: Map<Seq<char>, StyleView>,
)
    requires
        !is_blank(first),
        !(tag.kind is Button),
    ensures
        page_of(
            pieces.push(PieceView::Text(first)).push(PieceView::Open(tag)).push(PieceView::Text(second)),
            url,
            sheet,
        ).blocks == page_of(pieces.push(PieceView::Text(first)), url, sheet).blocks + page_of(
            seq![PieceView::Open(tag), PieceView::Text(second)],
            url,
            sheet,
        ).blocks,
{
    let none = Seq::<PieceView>::empty();
    let one = pieces.push(PieceView::Text(first));
    let two = one.push(PieceView::Open(tag));
    lemma_push_piece(pieces, PieceView::Text(first), url, sheet);
    lemma_push_piece(one, PieceView::Open(tag), url, sheet);
    lemma_push_piece(two, PieceView::Text(second), url, sheet);
    let alone = none.push(PieceView::Open(tag));
    lemma_push_piece(none, PieceView::Open(tag), url, sheet);
    lemma_push_piece(alone, PieceView::Text(second), url, sheet);
    assert(alone.push(PieceView::Text(second)) =~= seq![PieceView::Open(tag), PieceView::Text(second)]);
    let text = laid_out(pieces, url, sheet).text;
    lemma_not_blank(text, first);
    law_trim_blank(text + first);
    let before = laid_out(one, url, sheet).flushed().blocks;
    assert(before == page_of(one, url, sheet).blocks);
    let l = laid_out(two, url, sheet);
    let m = laid_out(alone, url, sheet);
    assert(l.text == m.text && l.style == m.style && l.block_type == m.block_type);
    assert(l.blocks =~= before + m.blocks);
    let l2 = laid_out(two.push(PieceView::Text(second)), url, sheet);
    let m2 = laid_out(alone.push(PieceView::Text(second)), url, sheet);
    assert(l2.flushed().blocks =~= before + m2.flushed().blocks);
}

/// Text that is only white space makes no block; it stands before the text behind the next tag.
pub proof fn law_space_waits_for_text(
    space: Seq<char>,
    piece: PieceView,
    text: Seq<char>,
    url: Seq<char>,
    sheet: Map<Seq<char>, StyleView>,
)
    requires
        is_blank(space),
        !(piece is Text),
    ensures
        page_of(seq![PieceView::Text(space), piece, PieceView::Text(text)], url, sheet) == page_of(
            seq![piece, PieceView::Text(space + text)],
            url,
            sheet,
        ),
        page_of(seq![PieceView::Text(space)], url, sheet).blocks.len() == 0,
{
    let none = Seq::<PieceView>::empty();
    law_trim_blank(space);
    let a = none.push(PieceView::Text(space));
    let b = a.push(piece);
    let c = b.push(PieceView::Text(text));
    lemma_push_piece(none, PieceView::Text(space), url, sheet);
    lemma_push_piece(a, piece, url, sheet);
    lemma_push_piece(b, PieceView::Text(text), url, sheet);
    let x = none.push(piece);
    let y = x.push(PieceView::Text(space + text));
    lemma_push_piece(none, piece, url, sheet);
    lemma_push_piece(x, PieceView::Text(space + text), url, sheet);
    assert(a =~= seq![PieceView::Text(space)]);
    assert(c =~= seq![PieceView::Text(space), piece, PieceView::Text(text)]);
    assert(y =~= seq![piece, PieceView::Text(space + text)]);
    assert(Seq::<char>::empty() + space =~= space);
    let waiting = laid_out(a, url, sheet);
    assert(waiting == (Layout { text: space, ..empty_layout() }));
    assert(waiting.flushed() == waiting);
    assert(empty_layout().flushed() == empty_layout());
    let l = laid_out(b, url, sheet);
    let m = laid_out(x, url, sheet);
    match piece {
        PieceView::Open(tag) => {
            match tag.kind {
                _ => {},
            }
        },
        _ => {},
    }
    assert(l == (Layout { text: space, ..m }));
    assert(m.text =~= Seq::<char>::empty());
    assert(m.text + (space + text) =~= l.text + text);
}

/// A field or a picture is one more block, wherever its tag stands, in the style of its own tag.
pub proof fn law_widget_is_added(
    pieces: Seq<PieceView>,
    tag: TagView,
    url: Seq<char>,
    sheet: Map<Seq<char>, StyleView>,
)
    ensures
        tag.kind matches TagKind::Input(name) ==> page_of(
            pieces.push(PieceView::Open(tag)),
            url,
            sheet,
        ).blocks == page_of(pieces, url, sheet).blocks.push(
            BlockView {
                text: Seq::empty(),
                block_type: BlockTypeView::Input { name, value: Seq::empty() },
                style: cascaded(tag, sheet),
            },
        ),
        tag.kind matches TagKind::Image { src, alt } ==> page_of(
            pieces.push(PieceView::Open(tag)),
            url,
            sheet,
        ).blocks == page_of(pieces, url, sheet).blocks.push(
            BlockView {
                text: Seq::empty(),
                block_type: BlockTypeView::Image { src, alt, raw_image: None },
                style: cascaded(tag, sheet),
            },
        ),
        !is_widget_tag(tag.kind) ==> page_of(pieces.push(PieceView::Open(tag)), url, sheet).blocks
            == page_of(pieces, url, sheet).blocks,
{
    lemma_push_piece(pieces, PieceView::Open(tag), url, sheet);
    let last = laid_out(pieces.push(PieceView::Open(tag)), url, sheet);
    law_trim_blank(Seq::<char>::empty());
    assert(last.flushed() == last);
}

/// A button is sent to the address of the form that was opened last, unless that has been closed since;
/// pieces in between, other tags and their closing tags among them, do not change this. The
/// button has its style from its own tag, and its text is its label.
pub proof fn law_button_belongs_to_its_form(
    pieces: Seq<PieceView>,
    form: PieceView,
    between: Seq<PieceView>,
    button: TagView,
    url: Seq<char>,
    sheet: Map<Seq<char>, StyleView>,
)
    requires
        form matches PieceView::Open(tag) && tag.kind is Form || form == (PieceView::Close {
            form: true,
        }),
        forall|i: int| 0 <= i < between.len() ==> leaves_form(#[trigger] between[i]),
        button.kind is Button,
    ensures
        ({
            let blocks = page_of(
                (pieces.push(form) + between).push(PieceView::Open(button)),
                url,
                sheet,
            ).blocks;
            let earlier = page_of(pieces.push(form) + between, url, sheet).blocks;
            let label = button.kind->Button_0;
            blocks == earlier.push(
                BlockView {
                    text: label,
                    block_type: BlockTypeView::Button {
                        text: label,
                        action_url: match form {
                            PieceView::Open(tag) => tag.kind->Form_0,
                            _ => None,
                        },
                    },
                    style: cascaded(button, sheet),
                },
            )
        }),
{
    let opened = pieces.push(form);
    lemma_push_piece(pieces, form, url, sheet);
    lemma_form_stays(opened, between, url, sheet);
    lemma_push_piece(opened + between, PieceView::Open(button), url, sheet);
    let last = laid_out((opened + between).push(PieceView::Open(button)), url, sheet);
    let before = laid_out(opened + between, url, sheet).flushed();
    assert(trim(before.text).len() == 0) by {
        law_trim_blank(Seq::<char>::empty());
    }
    assert(last.flushed() == last);
}

/// Whether `piece` neither opens a form nor closes one.
pub open spec fn leaves_form(piece: PieceView) -> bool {
    match piece {
        PieceView::Open(tag) => !(tag.kind is Form),
        PieceView::Close { form } => !form,
        _ => true,
    }
}

proof fn lemma_form_stays(
    pieces: Seq<PieceView>,
    between: Seq<PieceView>,
    url: Seq<char>,
    sheet: Map<Seq<char>, StyleView>,
)
    requires
        forall|i: int| 0 <= i < between.len() ==> leaves_form(#[trigger] between[i]),
    ensures
        laid_out(pieces + between, url, sheet).form_action == laid_out(pieces, url, sheet).form_action,
    decreases between.len(),
{
    let all = pieces + between;
    if between.len() == 0 {
        assert(all =~= pieces);
    } else {
        let fewer = between.drop_last();
        assert forall|i: int| 0 <= i < fewer.len() implies leaves_form(#[trigger] fewer[i]) by {
            assert(fewer[i] == between[i]);
        }
        assert(leaves_form(between[between.len() - 1]));
        lemma_form_stays(pieces, fewer, url, sheet);
        assert(all.drop_last() =~= pieces + fewer);
        assert(all.last() == between.last());
        match between.last() {
            PieceView::Open(tag) => {
                match tag.kind {
                    _ => {},
                }
            },
            _ => {},
        }
    }
}

/// A button outside of any form is sent nowhere.
pub proof fn law_button_without_form(
    pieces: Seq<PieceView>,
    button: TagView,
    url: Seq<char>,
    sheet: Map<Seq<char>, StyleView>,
)
    requires
        forall|i: int| 0 <= i < pieces.len() ==> leaves_form(#[trigger] pieces[i]),
        button.kind is Button,
    ensures
        page_of(pieces.push(PieceView::Open(button)), url, sheet).blocks.last().block_type == (
        BlockTypeView::Button { text: button.kind->Button_0, action_url: None }),
{
    let none = Seq::<PieceView>::empty();
    lemma_form_stays(none, pieces, url, sheet);
    assert(none + pieces =~= pieces);
    lemma_push_piece(pieces, PieceView::Open(button), url, sheet);
    let last = laid_out(pieces.push(PieceView::Open(button)), url, sheet);
    law_trim_blank(Seq::<char>::empty());
    assert(last.flushed() == last);
}

/// A closing tag of a form behind text that is more than white space parts a page in two: its blocks
/// are those of the one part and those of the other, as if each stood alone.
pub proof fn law_form_end_parts_page(
    pieces: Seq<PieceView>,
    text: Seq<char>,
    rest: Seq<PieceView>,
    url: Seq<char>,
    sheet: Map<Seq<char>, StyleView>,
)
    requires
        !is_blank(text),
    ensures
        page_of(
            pieces.push(PieceView::Text(text)).push(PieceView::Close { form: true }) + rest,
            url,
            sheet,
        ).blocks == page_of(pieces.push(PieceView::Text(text)), url, sheet).blocks + page_of(
            rest,
            url,
            sheet,
        ).blocks,
{
    let one = pieces.push(PieceView::Text(text));
    let two = one.push(PieceView::Close { form: true });
    lemma_push_piece(pieces, PieceView::Text(text), url, sheet);
    lemma_push_piece(one, PieceView::Close { form: true }, url, sheet);
    let earlier = laid_out(pieces, url, sheet).text;
    lemma_not_blank(earlier, text);
    law_trim_blank(earlier + text);
    lemma_parted(two, rest, url, sheet);
    let all = laid_out(two + rest, url, sheet);
    let alone = laid_out(rest, url, sheet);
    let before = laid_out(two, url, sheet).blocks;
    assert(before == page_of(one, url, sheet).blocks);
    assert(all.flushed().blocks =~= before + alone.flushed().blocks);
}

/// Whether what is being put together is the same in both layouts, and the blocks of `whole` are
/// `before` and those of `alone`.
spec fn continues(whole: Layout, before: Seq<BlockView>, alone: Layout) -> bool {
    &&& whole.blocks == before + alone.blocks
    &&& whole.text == alone.text
    &&& whole.style == alone.style
    &&& whole.block_type == alone.block_type
    &&& whole.form_action == alone.form_action
}

proof fn lemma_parted(
    start: Seq<PieceView>,
    rest: Seq<PieceView>,
    url: Seq<char>,
    sheet: Map<Seq<char>, StyleView>,
)
    requires
        laid_out(start, url, sheet).text.len() == 0,
        laid_out(start, url, sheet).style == StyleView::plain(),
        laid_out(start, url, sheet).block_type is Paragraph,
        laid_out(start, url, sheet).form_action is None,
    ensures
        continues(
            laid_out(start + rest, url, sheet),
            laid_out(start, url, sheet).blocks,
            laid_out(rest, url, sheet),
        ),
    decreases rest.len(),
{
    let before = laid_out(start, url, sheet).blocks;
    if rest.len() == 0 {
        assert(start + rest =~= start);
        assert(before + Seq::<BlockView>::empty() =~= before);
        assert(laid_out(start, url, sheet).text =~= Seq::<char>::empty());
    } else {
        let fewer = rest.drop_last();
        lemma_parted(start, fewer, url, sheet);
        assert((start + rest).drop_last() =~= start + fewer);
        assert((start + rest).last() == rest.last());
        let whole = laid_out(start + fewer, url, sheet);
        let alone = laid_out(fewer, url, sheet);
        lemma_continues_flushed(whole, before, alone);
        match rest.last() {
            PieceView::Open(tag) => {
                let style = cascaded(tag, sheet);
                lemma_continues_tag(
                    Layout { style, ..whole.flushed() },
                    before,
                    Layout { style, ..alone.flushed() },
                    tag.kind,
                );
            },
            _ => {},
        }
    }
}

proof fn lemma_continues_flushed(whole: Layout, before: Seq<BlockView>, alone: Layout)
    requires
        continues(whole, before, alone),
    ensures
        continues(whole.flushed(), before, alone.flushed()),
{
    assert(whole.flushed().blocks =~= before + alone.flushed().blocks);
}

proof fn lemma_continues_tag(
    whole: Layout,
    before: Seq<BlockView>,
    alone: Layout,
    kind: TagKind<Seq<char>>,
)
    requires
        continues(whole, before, alone),
    ensures
        continues(whole.with_tag(kind), before, alone.with_tag(kind)),
{
    assert(whole.with_tag(kind).blocks =~= before + alone.with_tag(kind).blocks);
}

/// A button right behind the opening tag of a form is sent to the address in the attribute `action` of
/// that tag, and has its label from its own attribute `value`.
pub proof fn law_button_in_form(
    form: Seq<char>,
    button: Seq<char>,
    url: Seq<char>,
    sheet: Map<Seq<char>, StyleView>,
)
    requires
        !form.contains('>'),
        first_word(lowercase(form)) == "form"@,
        tag_reads(form, lowercase(form), "form"@),
        !button.contains('>'),
        first_word(lowercase(button)) == "button"@,
        tag_reads(button, lowercase(button), "button"@),
    ensures
        ({
            let html = seq!['<'] + form + seq!['>'] + (seq!['<'] + button + seq!['>']);
            let label = given(
                attr_value(button, lowercase(button), "value"@),
                seq!['S', 'u', 'b', 'm', 'i', 't'],
            );
            &&& page_pieces(html) is Some
            &&& page_of(page_pieces(html)->0, url, sheet).blocks == seq![
                BlockView {
                    text: label,
                    block_type: BlockTypeView::Button {
                        text: label,
                        action_url: attr_value(form, lowercase(form), "action"@),
                    },
                    style: cascaded(
                        open_tag(button, lowercase(button), "button"@),
                        sheet,
                    ),
                },
            ]
        }),
{
    let none = Seq::<char>::empty();
    let end = seq!['<'] + button + seq!['>'];
    let a = open_tag(form, lowercase(form), "form"@);
    let b = open_tag(button, lowercase(button), "button"@);
    lemma_tag_names();
    lemma_not_raw();
    law_tag_contents(form, lowercase(form), "form"@);
    law_tag_contents(button, lowercase(button), "button"@);
    law_opening_tag_comes_first(form, end);
    law_opening_tag_comes_first(button, none);
    assert(end + none =~= end);
    assert(page_pieces(none) == Some(Seq::<PieceView>::empty()));
    let pieces = seq![PieceView::Open(a)] + (seq![PieceView::Open(b)] + Seq::<PieceView>::empty());
    assert(page_pieces(seq!['<'] + form + seq!['>'] + end) == Some(pieces));
    let start = Seq::<PieceView>::empty();
    let between = Seq::<PieceView>::empty();
    law_button_belongs_to_its_form(start, PieceView::Open(a), between, b, url, sheet);
    let opened = start.push(PieceView::Open(a)) + between;
    assert(opened =~= start.push(PieceView::Open(a)));
    assert(pieces =~= opened.push(PieceView::Open(b)));
    law_widget_is_added(start, a, url, sheet);
    law_last_title_and_cookie_count(start, PieceView::Open(a), url, sheet);
    let earlier = page_of(opened, url, sheet).blocks;
    assert(earlier.len() == 0);
    let block = page_of(pieces, url, sheet).blocks.last();
    assert(page_of(pieces, url, sheet).blocks =~= seq![block]);
}

/// The names of a form and of a button open elements whose content is cut into pieces.
proof fn lemma_not_raw()
    ensures
        opens_element("form"@),
        opens_element("button"@),
{
    reveal_strlit("form");
    reveal_strlit("button");
    reveal_strlit("title");
    reveal_strlit("script");
    reveal_strlit("style");
    reveal_strlit("head");
    reveal_strlit("/");
    assert("form"@[0] == 'f' && "button"@[0] == 'b' && "title"@[0] == 't' && "script"@[0] == 's'
        && "style"@[0] == 's' && "head"@[0] == 'h' && "/"@[0] == '/');
    assert("form"@.take(1)[0] == 'f' && "button"@.take(1)[0] == 'b');
}

} // verus!
