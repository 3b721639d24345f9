//! The state of the browser window: tabs, alerts and language.
use vstd::prelude::*;
use crate::css::{copy_text, opt_text, Align, CssStyle, StyleView};
use crate::download::{DownloadMsg, DownloadMsgView};
use crate::page::{
    blocks_view, strings_view, BlockType, BlockTypeView, BlockView, FetchResult, PageView, RenderBlock,
};
use crate::picture::{opt_image, ColorImage, ImageView};
use crate::letters::{is_ascii, law_ascii_byte_len};
use crate::text::{
    byte_len, bytes_of, char_index, ends_with, from_chars, has_suffix, index_of_byte, law_byte_len_is_utf8_len, law_char_index,
    lemma_byte_len_concat, lemma_char_index_bounds, slice_of, strip_end, to_chars, without_end,
};
use crate::url::{law_link_leads, leads_to, resolve_url, resolved_url};

verus! {

/// The language that the window speaks.
#[derive(Clone, Copy, Debug, PartialEq, Eq, Structural)]
pub enum Language {
    English,
    Polish,
}

/// The texts of the window.
#[derive(Clone, Copy, Debug, PartialEq, Eq, Structural)]
pub enum Label {
    Settings,
    AppLanguage,
    NewTab,
    SecureConnection,
    InsecureConnection,
    Address,
    Go,
    DownloadStarted,
    Notification,
}

/// The text `label` in the language `lang`.
pub open spec fn label_text(lang: Language, label: Label) -> Seq<char> {
    match (label, lang) {
        (Label::Settings, Language::English) => "Settings"@,
        (Label::Settings, Language::Polish) => "Ustawienia"@,
        (Label::AppLanguage, Language::English) => "App Language"@,
        (Label::AppLanguage, Language::Polish) => "Język Aplikacji"@,
        (Label::NewTab, Language::English) => "New Tab"@,
        (Label::NewTab, Language::Polish) => "Nowa Karta"@,
        (Label::SecureConnection, Language::English) => "Secure Connection (HTTPS)"@,
        (Label::SecureConnection, Language::Polish) => "Bezpieczne połączenie (HTTPS)"@,
        (Label::InsecureConnection, Language::English) => "Insecure Connection (HTTP)"@,
        (Label::InsecureConnection, Language::Polish) => "Niezabezpieczone połączenie (HTTP)"@,
        (Label::Address, Language::English) => "URL:"@,
        (Label::Address, Language::Polish) => "Adres WWW:"@,
        (Label::Go, Language::English) => "Go!"@,
        (Label::Go, Language::Polish) => "Idź!"@,
        (Label::DownloadStarted, Language::English) => "Starting file download..."@,
        (Label::DownloadStarted, Language::Polish) => "Rozpoczęto pobieranie pliku..."@,
        (Label::Notification, Language::English) => "Notification"@,
        (Label::Notification, Language::Polish) => "Powiadomienie"@,
    }
}

impl Language {
    /// The text `label` in this language.
    pub fn label(self, label: Label) -> (r: &'static str)
        ensures
            r@ == label_text(self, label),
    {
        match (label, self) {
            (Label::Settings, Language::English) => "Settings",
            (Label::Settings, Language::Polish) => "Ustawienia",
            (Label::AppLanguage, Language::English) => "App Language",
            (Label::AppLanguage, Language::Polish) => "Język Aplikacji",
            (Label::NewTab, Language::English) => "New Tab",
            (Label::NewTab, Language::Polish) => "Nowa Karta",
            (Label::SecureConnection, Language::English) => "Secure Connection (HTTPS)",
            (Label::SecureConnection, Language::Polish) => "Bezpieczne połączenie (HTTPS)",
            (Label::InsecureConnection, Language::English) => "Insecure Connection (HTTP)",
            (Label::InsecureConnection, Language::Polish) => "Niezabezpieczone połączenie (HTTP)",
            (Label::Address, Language::English) => "URL:",
            (Label::Address, Language::Polish) => "Adres WWW:",
            (Label::Go, Language::English) => "Go!",
            (Label::Go, Language::Polish) => "Idź!",
            (Label::DownloadStarted, Language::English) => "Starting file download...",
            (Label::DownloadStarted, Language::Polish) => "Rozpoczęto pobieranie pliku...",
            (Label::Notification, Language::English) => "Notification",
            (Label::Notification, Language::Polish) => "Powiadomienie",
        }
    }
}

// ---------------------------------------------------------------------------------------------
// Tabs
// ---------------------------------------------------------------------------------------------

/// A tab.
#[derive(Debug)]
pub struct Tab {
    pub url: String,
    pub title: String,
    pub favicon: Option<ColorImage>,
    pub content: Vec<RenderBlock>,
    pub is_loading: bool,
    pub cookie_jar: Option<String>,
    pub is_secure: bool,
}

/// The contents of a [`Tab`].
pub struct TabView {
    pub url: Seq<char>,
    pub title: Seq<char>,
    pub favicon: Option<ImageView>,
    pub content: Seq<BlockView>,
    pub is_loading: bool,
    pub cookie_jar: Option<Seq<char>>,
    pub is_secure: bool,
}

impl View for Tab {
    type V = TabView;

    open spec fn view(&self) -> TabView {
        TabView {
            url: self.url@,
            title: self.title@,
            favicon: opt_image(self.favicon),
            content: blocks_view(self.content@),
            is_loading: self.is_loading,
            cookie_jar: opt_text(self.cookie_jar),
            is_secure: self.is_secure,
        }
    }
}

/// A tab that shows nothing that came from the network.
pub open spec fn start_tab(title: Seq<char>, content: Seq<BlockView>) -> TabView {
    TabView {
        url: "Gruz://start"@,
        title,
        favicon: None,
        content,
        is_loading: false,
        cookie_jar: None,
        is_secure: true,
    }
}

/// What the first tab greets with.
pub open spec fn greeting() -> BlockView {
    BlockView {
        text: "Hi!!\n Type an URL!"@,
        block_type: BlockTypeView::Heading(1),
        style: StyleView { align: Some(Align::Center), ..StyleView::plain() },
    }
}

impl TabView {
    /// The tab after the page that it waited for has come. Without a title it is called by its
    /// address; the icon and the cookie stay unless the page brings others.
    pub open spec fn showing(self, page: PageView) -> TabView {
        TabView {
            url: self.url,
            title: match page.title {
                Some(title) => title,
                None => page.url,
            },
            favicon: match page.favicon_raw {
                Some(icon) => Some(icon),
                None => self.favicon,
            },
            content: page.blocks,
            is_loading: false,
            cookie_jar: match page.new_cookie {
                Some(cookie) => Some(cookie),
                None => self.cookie_jar,
            },
            is_secure: page.is_secure,
        }
    }

    /// The tab when it begins to wait for the page `url`.
    pub open spec fn awaiting(self, url: Seq<char>) -> TabView {
        TabView { url, is_loading: true, favicon: None, ..self }
    }
}

/// Whether a title that is too long for its tab can be cut after its first twelve bytes.
pub open spec fn title_cuts(title: Seq<char>) -> bool {
    byte_len(title) > 15 ==> char_index(title, 12) is Some
}

/// What stands on the tab with the title `title`: more than fifteen bytes are cut to twelve.
pub open spec fn short_title(title: Seq<char>) -> Seq<char> {
    if byte_len(title) > 15 {
        title.take(char_index(title, 12)->0) + "..."@
    } else {
        title
    }
}

/// What stands on the tab with the title `title`.
pub fn tab_label(title: &str) -> (r: String)
    requires
        title_cuts(title@),
    ensures
        r@ == short_title(title@),
{
    let chars = to_chars(title);
    assert(chars@.take(chars@.len() as int) =~= chars@);
    if bytes_of(&chars, chars.len()) > 15 {
        match index_of_byte(&chars, 12) {
            Some(end) => {
                let head = slice_of(&chars, 0, end);
                assert(head@ =~= chars@.take(end as int));
                let mut r = from_chars(&head);
                r.append("...");
                r
            },
            None => title.to_string(),
        }
    } else {
        title.to_string()
    }
}

/// The size of the letters of a heading.
pub open spec fn letter_size(level: int) -> int {
    36 - 4 * level
}

/// The size of the letters of a heading.
pub fn heading_size(level: u8) -> (r: i32)
    ensures
        r == letter_size(level as int),
        r == 36 - 4 * level,
{
    36 - (level as i32) * 4
}

// ---------------------------------------------------------------------------------------------
// Addresses
// ---------------------------------------------------------------------------------------------

/// Whether `url` leads to a file that is downloaded and not shown.
pub open spec fn is_download(url: Seq<char>) -> bool {
    ends_with(url, ".zip"@) || ends_with(url, ".exe"@) || ends_with(url, ".png"@) || ends_with(
        url,
        ".rar"@,
    )
}

/// Whether `url` leads to a file that is downloaded and not shown.
pub fn leads_to_download(url: &str) -> (r: bool)
    ensures
        r == is_download(url@),
{
    let chars = to_chars(url);
    has_suffix(&chars, ".zip") || has_suffix(&chars, ".exe") || has_suffix(&chars, ".png")
        || has_suffix(&chars, ".rar")
}

/// The fields among `blocks`, each with its value and an ampersand after it.
pub open spec fn form_fields(blocks: Seq<BlockView>) -> Seq<char>
    decreases blocks.len(),
{
    if blocks.len() == 0 {
        Seq::empty()
    } else {
        let earlier = form_fields(blocks.drop_last());
        match blocks.last().block_type {
            BlockTypeView::Input { name, value } => earlier + name + "="@ + value + "&"@,
            _ => earlier,
        }
    }
}

/// The address to which a form with the address `action` is sent from the page `base` with the
/// content `blocks`. No ampersand stands at the end.
pub open spec fn form_url(base: Seq<char>, action: Seq<char>, blocks: Seq<BlockView>) -> Seq<char> {
    resolved_url(base, action) + "?"@ + strip_end(form_fields(blocks), '&')
}

/// The address to which a form with the address `action` is sent from the page `base` with the
/// content `blocks`.
pub fn build_form_url(base: &str, action: &str, blocks: &Vec<RenderBlock>) -> (r: String)
    ensures
        r@ == form_url(base@, action@, blocks_view(blocks@)),
{
    let mut query = String::new();
    let ghost all = blocks_view(blocks@);
    let mut i: usize = 0;
    assert(all.take(0) =~= Seq::<BlockView>::empty());
    while i < blocks.len()
        invariant
            i <= blocks.len(),
            all == blocks_view(blocks@),
            query@ == form_fields(all.take(i as int)),
        decreases blocks.len() - i,
    {
        proof {
            assert(all.take(i + 1).drop_last() =~= all.take(i as int));
            assert(all.take(i + 1).last() == blocks@[i as int]@);
        }
        match &blocks[i].block_type {
            BlockType::Input { name, value } => {
                query.append(name.as_str());
                query.append("=");
                query.append(value.as_str());
                query.append("&");
            },
            _ => {},
        }
        i = i + 1;
    }
    assert(all.take(i as int) =~= all);
    let mut r = resolve_url(base, action);
    r.append("?");
    r.append(from_chars(&without_end(&to_chars(query.as_str()), '&')).as_str());
    r
}

// ---------------------------------------------------------------------------------------------
// The window
// ---------------------------------------------------------------------------------------------

/// The state of the window.
#[derive(Debug)]
pub struct GruzNetApp {
    pub tabs: Vec<Tab>,
    pub active_tab: usize,
    pub lang: Language,
    pub is_settings_open: bool,
    pub active_alerts: Vec<String>,
}

/// The contents of a [`GruzNetApp`].
pub struct AppView {
    pub tabs: Seq<TabView>,
    pub active_tab: int,
    pub lang: Language,
    pub is_settings_open: bool,
    pub active_alerts: Seq<Seq<char>>,
}

/// The contents of a list of tabs.
pub open spec fn tabs_view(tabs: Seq<Tab>) -> Seq<TabView> {
    tabs.map_values(|t: Tab| t@)
}

impl View for GruzNetApp {
    type V = AppView;

    open spec fn view(&self) -> AppView {
        AppView {
            tabs: tabs_view(self.tabs@),
            active_tab: self.active_tab as int,
            lang: self.lang,
            is_settings_open: self.is_settings_open,
            active_alerts: strings_view(self.active_alerts@),
        }
    }
}

impl AppView {
    /// Whether there is a tab, and one of them is the active one.
    pub open spec fn wf(self) -> bool {
        0 <= self.active_tab < self.tabs.len()
    }

    /// The active tab.
    pub open spec fn current(self) -> TabView {
        self.tabs[self.active_tab]
    }

    /// The window with `tab` as its active tab.
    pub open spec fn with_current(self, tab: TabView) -> AppView {
        AppView { tabs: self.tabs.update(self.active_tab, tab), ..self }
    }

    /// The window with one more alert.
    pub open spec fn with_alert(self, alert: Seq<char>) -> AppView {
        AppView { active_alerts: self.active_alerts.push(alert), ..self }
    }
}

/// The window when it opens.
pub open spec fn fresh_app() -> AppView {
    AppView {
        tabs: seq![start_tab("Start Page"@, seq![greeting()])],
        active_tab: 0,
        lang: Language::English,
        is_settings_open: false,
        active_alerts: Seq::empty(),
    }
}

/// The alert that tells of `message` in the language `lang`.
pub open spec fn download_alert(lang: Language, message: DownloadMsgView) -> Option<Seq<char>> {
    match (message, lang) {
        (DownloadMsgView::Done(url, path), Language::English) => Some(
            "Downloaded: "@ + url + " to "@ + path,
        ),
        (DownloadMsgView::Done(url, path), Language::Polish) => Some("Pobrano: "@ + url + " do "@ + path),
        (DownloadMsgView::Error(url, reason), Language::English) => Some(
            "Error "@ + url + ": "@ + reason,
        ),
        (DownloadMsgView::Error(url, reason), Language::Polish) => Some(
            "Błąd "@ + url + ": "@ + reason,
        ),
        (DownloadMsgView::Progress(url, percent), _) => None,
    }
}

/// Those of the first `n` of `alerts` whose position is not among `closed`, in their order.
pub open spec fn kept_alerts(alerts: Seq<Seq<char>>, closed: Seq<usize>, n: int) -> Seq<Seq<char>>
    decreases n,
{
    if n <= 0 {
        Seq::empty()
    } else {
        let earlier = kept_alerts(alerts, closed, n - 1);
        if closed.contains((n - 1) as usize) {
            earlier
        } else {
            earlier.push(alerts[n - 1])
        }
    }
}

/// The window after `page` has come for the tab `idx`, which shows it if it waits for one.
pub open spec fn after_page(app: AppView, idx: int, page: PageView) -> AppView {
    if app.tabs[idx].is_loading {
        AppView { tabs: app.tabs.update(idx, app.tabs[idx].showing(page)), ..app }
    } else {
        app
    }
}

/// The window after it was told `message` of a download.
pub open spec fn after_message(app: AppView, message: DownloadMsgView) -> AppView {
    match download_alert(app.lang, message) {
        Some(alert) => app.with_alert(alert),
        None => app,
    }
}

/// The window after the alerts at the positions `closed` have been closed.
pub open spec fn after_closing(app: AppView, closed: Seq<usize>) -> AppView {
    AppView {
        active_alerts: kept_alerts(app.active_alerts, closed, app.active_alerts.len() as int),
        ..app
    }
}

/// What an address leads to.
#[derive(Debug)]
pub enum Visit {
    /// A page to load into the active tab, with the cookie of the tab.
    Load { url: String, cookie: Option<String> },
    /// A file to download.
    Download { url: String },
}

/// The contents of a [`Visit`].
pub enum VisitView {
    Load { url: Seq<char>, cookie: Option<Seq<char>> },
    Download { url: Seq<char> },
}

impl View for Visit {
    type V = VisitView;

    open spec fn view(&self) -> VisitView {
        match *self {
            Visit::Load { url, cookie } => VisitView::Load { url: url@, cookie: opt_text(cookie) },
            Visit::Download { url } => VisitView::Download { url: url@ },
        }
    }
}

/// The window after a visit to `url`.
pub open spec fn visited(app: AppView, url: Seq<char>) -> AppView {
    if is_download(url) {
        app.with_alert(label_text(app.lang, Label::DownloadStarted))
    } else {
        app.with_current(app.current().awaiting(url))
    }
}

/// What is fetched on a visit to `url`.
pub open spec fn visit_to(app: AppView, url: Seq<char>) -> VisitView {
    if is_download(url) {
        VisitView::Download { url }
    } else {
        VisitView::Load { url, cookie: app.current().cookie_jar }
    }
}

/// The address to which the form `action` on the page of the active tab is sent.
pub open spec fn form_target(app: AppView, action: Seq<char>) -> Seq<char> {
    form_url(app.current().url, action, app.current().content)
}

/// What is fetched when the form `action` is sent.
pub open spec fn form_visit(app: AppView, action: Seq<char>) -> VisitView {
    VisitView::Load { url: form_target(app, action), cookie: app.current().cookie_jar }
}

/// The window after the address `link` has been clicked.
pub open spec fn after_link(app: AppView, link: Option<Seq<char>>) -> AppView {
    match link {
        Some(url) => visited(app, url),
        None => app,
    }
}

/// The window after the form `form` has been sent.
pub open spec fn after_form(app: AppView, form: Option<Seq<char>>) -> AppView {
    match form {
        Some(action) => app.with_current(app.current().awaiting(form_target(app, action))),
        None => app,
    }
}

/// The address that the link `href` on the page of the active tab leads to.
pub open spec fn link_address(app: AppView, href: Seq<char>) -> Seq<char> {
    resolved_url(app.current().url, href)
}

/// The contents of a visit that may be missing.
pub open spec fn opt_visit(visit: Option<Visit>) -> Option<VisitView> {
    match visit {
        Some(v) => Some(v@),
        None => None,
    }
}

/// The window with the tab `idx` as the active one.
pub open spec fn selected_tab(app: AppView, idx: int) -> AppView {
    AppView { active_tab: idx, ..app }
}

/// The window with one more tab, which is the active one.
pub open spec fn added_tab(app: AppView) -> AppView {
    AppView {
        tabs: app.tabs.push(start_tab(label_text(app.lang, Label::NewTab), Seq::empty())),
        active_tab: app.tabs.len() as int,
        ..app
    }
}

/// The window after a tab has been selected, one opened and one closed, as far as that was asked
/// for.
pub open spec fn after_tab_bar(
    app: AppView,
    selected: Option<int>,
    add_tab: bool,
    closed: Option<int>,
) -> AppView {
    let first = match selected {
        Some(idx) => selected_tab(app, idx),
        None => app,
    };
    let second = if add_tab {
        added_tab(first)
    } else {
        first
    };
    match closed {
        Some(idx) => closed_tab(second, idx),
        None => second,
    }
}

/// The window after the tab `idx` has been closed. Where the active tab would be past the last one,
/// the last one becomes active; otherwise the number of the active tab stays.
pub open spec fn closed_tab(app: AppView, idx: int) -> AppView {
    let tabs = app.tabs.remove(idx);
    AppView {
        tabs,
        active_tab: if app.active_tab >= tabs.len() {
            tabs.len() - 1
        } else {
            app.active_tab
        },
        ..app
    }
}

/// A tab that shows nothing that came from the network.
fn make_start_tab(title: &str, content: Vec<RenderBlock>) -> (r: Tab)
    ensures
        r@ == start_tab(title@, blocks_view(content@)),
{
    Tab {
        url: "Gruz://start".to_string(),
        title: title.to_string(),
        favicon: None,
        content,
        is_loading: false,
        cookie_jar: None,
        is_secure: true,
    }
}

impl Default for GruzNetApp {
    fn default() -> (r: GruzNetApp)
        ensures
            r@ == fresh_app(),
            r@.wf(),
    {
        let greeting = RenderBlock {
            text: "Hi!!\n Type an URL!".to_string(),
            block_type: BlockType::Heading(1),
            style: CssStyle {
                align: Some(Align::Center),
                bg_color: None,
                text_color: None,
                font_size: None,
                padding: None,
                border_color: None,
                is_bold: false,
                is_italic: false,
            },
        };
        let content: Vec<RenderBlock> = vec![greeting];
        let tab = make_start_tab("Start Page", content);
        let r = GruzNetApp {
            tabs: vec![tab],
            active_tab: 0,
            lang: Language::English,
            is_settings_open: false,
            active_alerts: Vec::new(),
        };
        proof {
            assert(blocks_view(content@) =~= seq![self::greeting()]);
            assert(tabs_view(r.tabs@) =~= fresh_app().tabs);
            assert(strings_view(r.active_alerts@) =~= Seq::<Seq<char>>::empty());
        }
        r
    }
}

impl GruzNetApp {
    /// Makes the tab `idx` the active one.
    pub fn select_tab(&mut self, idx: usize)
        requires
            idx < old(self)@.tabs.len(),
        ensures
            final(self)@ == selected_tab(old(self)@, idx as int),
            final(self)@.wf(),
    {
        self.active_tab = idx;
    }

    /// Opens a tab and makes it the active one.
    pub fn new_tab(&mut self)
        ensures
            final(self)@ == added_tab(old(self)@),
            final(self)@.wf(),
    {
        let content: Vec<RenderBlock> = Vec::new();
        assert(blocks_view(content@) =~= Seq::<BlockView>::empty());
        let tab = make_start_tab(self.lang.label(Label::NewTab), content);
        self.tabs.push(tab);
        self.active_tab = self.tabs.len() - 1;
        assert(self@.tabs =~= old(self)@.tabs.push(tab@));
    }

    /// Closes the tab `idx`. The last tab cannot be closed.
    pub fn close_tab(&mut self, idx: usize)
        requires
            old(self)@.wf(),
            idx < old(self)@.tabs.len(),
            old(self)@.tabs.len() > 1,
        ensures
            final(self)@ == closed_tab(old(self)@, idx as int),
            final(self)@.wf(),
    {
        self.tabs.remove(idx);
        if self.active_tab >= self.tabs.len() {
            self.active_tab = self.tabs.len() - 1;
        }
        assert(self@.tabs =~= old(self)@.tabs.remove(idx as int));
    }

    /// Whether a tab waits for its page.
    pub fn is_loading(&self) -> (r: bool)
        ensures
            r == (exists|i: int| 0 <= i < self@.tabs.len() && (#[trigger] self@.tabs[i]).is_loading),
    {
        let mut i: usize = 0;
        while i < self.tabs.len()
            invariant
                i <= self.tabs.len(),
                forall|k: int| 0 <= k < i ==> !(#[trigger] self@.tabs[k]).is_loading,
            decreases self.tabs.len() - i,
        {
            assert(self@.tabs[i as int] == self.tabs@[i as int]@);
            if self.tabs[i].is_loading {
                return true;
            }
            i = i + 1;
        }
        false
    }

    /// Shows `page` in the tab `idx`, if the tab waits for one.
    pub fn receive_page(&mut self, idx: usize, page: FetchResult)
        requires
            idx < old(self)@.tabs.len(),
        ensures
            final(self)@ == after_page(old(self)@, idx as int, page@),
    {
        assert(self@.tabs[idx as int] == self.tabs@[idx as int]@);
        if self.tabs[idx].is_loading {
            let tab = &mut self.tabs[idx];
            tab.content = page.blocks;
            tab.title = match page.title {
                Some(title) => title,
                None => page.url,
            };
            tab.is_secure = page.is_secure;
            if page.favicon_raw.is_some() {
                tab.favicon = page.favicon_raw;
            }
            if page.new_cookie.is_some() {
                tab.cookie_jar = page.new_cookie;
            }
            tab.is_loading = false;
            assert(self@.tabs =~= old(self)@.tabs.update(
                idx as int,
                old(self)@.tabs[idx as int].showing(page@),
            ));
        }
    }

    /// Makes the active tab wait for the page `url`.
    fn await_page(&mut self, url: String) -> (r: Visit)
        requires
            old(self)@.wf(),
        ensures
            final(self)@ == old(self)@.with_current(old(self)@.current().awaiting(url@)),
            final(self)@.wf(),
            r@ == (VisitView::Load { url: url@, cookie: old(self)@.current().cookie_jar }),
    {
        assert(self@.current() == self.tabs@[self.active_tab as int]@);
        let active = self.active_tab;
        let tab = &mut self.tabs[active];
        tab.url = url.clone();
        tab.is_loading = true;
        tab.favicon = None;
        let cookie = copy_text(&tab.cookie_jar);
        assert(self@.tabs =~= old(self)@.tabs.update(
            active as int,
            old(self)@.current().awaiting(url@),
        ));
        Visit::Load { url, cookie }
    }

    /// Goes to `url`: files are downloaded, anything else is loaded into the active tab.
    pub fn visit(&mut self, url: String) -> (r: Visit)
        requires
            old(self)@.wf(),
        ensures
            final(self)@ == visited(old(self)@, url@),
            final(self)@.wf(),
            r@ == visit_to(old(self)@, url@),
    {
        if leads_to_download(url.as_str()) {
            let alert = self.lang.label(Label::DownloadStarted).to_string();
            self.active_alerts.push(alert);
            assert(self@.active_alerts =~= old(self)@.active_alerts.push(alert@));
            Visit::Download { url }
        } else {
            self.await_page(url)
        }
    }

    /// The address that the link `href` on the page of the active tab leads to.
    pub fn link_target(&self, href: &str) -> (r: String)
        requires
            self@.wf(),
        ensures
            r@ == link_address(self@, href@),
    {
        assert(self@.current() == self.tabs@[self.active_tab as int]@);
        resolve_url(self.tabs[self.active_tab].url.as_str(), href)
    }

    /// Sends the form with the address `action` on the page of the active tab, and loads the answer
    /// into the tab.
    pub fn submit_form(&mut self, action: &str) -> (r: Visit)
        requires
            old(self)@.wf(),
        ensures
            final(self)@ == after_form(old(self)@, Some(action@)),
            final(self)@.wf(),
            r@ == form_visit(old(self)@, action@),
    {
        assert(self@.current() == self.tabs@[self.active_tab as int]@);
        let tab = &self.tabs[self.active_tab];
        let final_url = build_form_url(tab.url.as_str(), action, &tab.content);
        self.await_page(final_url)
    }

    /// Carries out what was clicked in the row of tabs: a tab that was selected, then the button that
    /// opens one, then the button that closes one.
    pub fn handle_tab_bar(&mut self, selected: Option<usize>, add_tab: bool, closed: Option<usize>)
        requires
            old(self)@.wf(),
            selected matches Some(idx) ==> idx < old(self)@.tabs.len(),
            closed matches Some(idx) ==> idx < old(self)@.tabs.len() && old(self)@.tabs.len() > 1,
        ensures
            final(self)@ == after_tab_bar(
                old(self)@,
                match selected {
                    Some(idx) => Some(idx as int),
                    None => None,
                },
                add_tab,
                match closed {
                    Some(idx) => Some(idx as int),
                    None => None,
                },
            ),
            final(self)@.wf(),
    {
        match selected {
            Some(idx) => self.select_tab(idx),
            None => {},
        }
        if add_tab {
            self.new_tab();
        }
        match closed {
            Some(idx) => self.close_tab(idx),
            None => {},
        }
    }

    /// Carries out what was clicked on the page: an address to go to, and then a form to send. Says
    /// what is to be fetched for the one and for the other.
    pub fn handle_page(&mut self, link: Option<String>, form: Option<String>) -> (r: (
        Option<Visit>,
        Option<Visit>,
    ))
        requires
            old(self)@.wf(),
        ensures
            final(self)@ == after_form(after_link(old(self)@, opt_text(link)), opt_text(form)),
            final(self)@.wf(),
            opt_visit(r.0) == (match link {
                Some(url) => Some(visit_to(old(self)@, url@)),
                None => None,
            }),
            opt_visit(r.1) == (match form {
                Some(action) => Some(form_visit(after_link(old(self)@, opt_text(link)), action@)),
                None => None,
            }),
    {
        let first = match link {
            Some(url) => Some(self.visit(url)),
            None => None,
        };
        let second = match form {
            Some(action) => Some(self.submit_form(action.as_str())),
            None => None,
        };
        (first, second)
    }

    /// Takes note of what has happened to a download.
    pub fn receive_download(&mut self, message: DownloadMsg)
        ensures
            final(self)@ == after_message(old(self)@, message@),
    {
        let alert = match message {
            DownloadMsg::Done(url, path) => {
                let (head, link) = match self.lang {
                    Language::English => ("Downloaded: ", " to "),
                    Language::Polish => ("Pobrano: ", " do "),
                };
                let mut alert = head.to_string();
                alert.append(url.as_str());
                alert.append(link);
                alert.append(path.as_str());
                alert
            },
            DownloadMsg::Error(url, reason) => {
                let head = match self.lang {
                    Language::English => "Error ",
                    Language::Polish => "Błąd ",
                };
                let mut alert = head.to_string();
                alert.append(url.as_str());
                alert.append(": ");
                alert.append(reason.as_str());
                alert
            },
            DownloadMsg::Progress(url, percent) => {
                return;
            },
        };
        self.active_alerts.push(alert);
        assert(self@.active_alerts =~= old(self)@.active_alerts.push(alert@));
    }

    /// Removes the alerts at the positions `closed`. The others keep their order.
    pub fn dismiss_alerts(&mut self, closed: &Vec<usize>)
        ensures
            final(self)@ == after_closing(old(self)@, closed@),
    {
        let mut kept: Vec<String> = Vec::new();
        let ghost all = strings_view(self.active_alerts@);
        let mut i: usize = 0;
        assert(strings_view(kept@) =~= Seq::<Seq<char>>::empty());
        while i < self.active_alerts.len()
            invariant
                i <= self.active_alerts.len(),
                all == strings_view(self.active_alerts@),
                *self == *old(self),
                strings_view(kept@) == kept_alerts(all, closed@, i as int),
            decreases self.active_alerts.len() - i,
        {
            let ghost seen = strings_view(kept@);
            if !holds(closed, i) {
                let alert = self.active_alerts[i].clone();
                kept.push(alert);
                assert(strings_view(kept@) =~= seen.push(alert@));
                assert(all[i as int] == alert@);
            }
            i = i + 1;
        }
        self.active_alerts = kept;
    }
}

/// Whether `x` is among `v`.
fn holds(v: &Vec<usize>, x: usize) -> (r: bool)
    ensures
        r == v@.contains(x),
{
    let mut i: usize = 0;
    while i < v.len()
        invariant
            i <= v.len(),
            forall|k: int| 0 <= k < i ==> v@[k] != x,
        decreases v.len() - i,
    {
        if v[i] == x {
            return true;
        }
        i = i + 1;
    }
    false
}

// ---------------------------------------------------------------------------------------------
// Laws
// ---------------------------------------------------------------------------------------------

/// Whatever is clicked, there is a tab and one of them is active; a visit never changes a tab that
/// is not the active one.
pub proof fn law_window_stays_whole(app: AppView, url: Seq<char>, action: Seq<char>)
    requires
        app.wf(),
    ensures
        visited(app, url).wf(),
        after_form(app, Some(action)).wf(),
        visited(app, url).active_tab == app.active_tab,
        forall|i: int|
            0 <= i < app.tabs.len() && i != app.active_tab ==> #[trigger] visited(app, url).tabs[i]
                == app.tabs[i],
        forall|i: int|
            0 <= i < app.tabs.len() && i != app.active_tab ==> #[trigger] after_form(
                app,
                Some(action),
            ).tabs[i] == app.tabs[i],
{
}

/// A tab that is opened and closed again leaves the others as they were. The last of them is then
/// the active one.
pub proof fn law_open_and_close(app: AppView)
    requires
        app.wf(),
    ensures
        closed_tab(added_tab(app), app.tabs.len() as int).tabs == app.tabs,
        closed_tab(added_tab(app), app.tabs.len() as int).active_tab == app.tabs.len() - 1,
{
    assert(closed_tab(added_tab(app), app.tabs.len() as int).tabs =~= app.tabs);
}

/// A page keeps the cookie of its tab until it brings another one, and the next request carries it.
pub proof fn law_cookie_is_kept(app: AppView, page: PageView, url: Seq<char>)
    requires
        app.wf(),
        !is_download(url),
    ensures
        visit_to(app.with_current(app.current().showing(page)), url) == (VisitView::Load {
            url,
            cookie: match page.new_cookie {
                Some(cookie) => Some(cookie),
                None => app.current().cookie_jar,
            },
        }),
{
}

/// What stands on a tab takes fifteen bytes at most.
pub proof fn law_tab_label_fits(title: Seq<char>)
    requires
        title_cuts(title),
    ensures
        byte_len(short_title(title)) <= 15,
{
    if byte_len(title) > 15 {
        let end = char_index(title, 12)->0;
        lemma_char_index_bounds(title, 12);
        law_char_index(title, 12, end);
        lemma_byte_len_concat(title.take(end), "..."@);
        reveal_strlit("...");
        assert(is_ascii("..."@));
        law_ascii_byte_len("..."@);
    }
}

/// A form without fields is sent without any, and no form is sent with an ampersand at the end.
pub proof fn law_form_ends_without_ampersand(base: Seq<char>, action: Seq<char>, blocks: Seq<BlockView>)
    ensures
        form_url(base, action, blocks).last() != '&',
        form_fields(blocks).len() == 0 ==> form_url(base, action, blocks) == resolved_url(base, action)
            + "?"@,
{
    let fields = form_fields(blocks);
    lemma_strip_end(fields, '&');
    reveal_strlit("?");
    let url = form_url(base, action, blocks);
    if strip_end(fields, '&').len() == 0 {
        assert(url.last() == '?');
        assert(url =~= resolved_url(base, action) + "?"@);
    } else {
        assert(url.last() == strip_end(fields, '&').last());
    }
}

proof fn lemma_strip_end(s: Seq<char>, c: char)
    ensures
        strip_end(s, c).len() > 0 ==> strip_end(s, c).last() != c,
        s.len() == 0 ==> strip_end(s, c).len() == 0,
    decreases s.len(),
{
    if s.len() > 0 && s.last() == c {
        lemma_strip_end(s.drop_last(), c);
    }
}

/// Where no alert is closed all stay, and where all are closed none stays.
pub proof fn law_alerts_stay_until_closed(alerts: Seq<Seq<char>>, closed: Seq<usize>)
    requires
        alerts.len() <= usize::MAX,
    ensures
        closed.len() == 0 ==> kept_alerts(alerts, closed, alerts.len() as int) == alerts,
        (forall|i: usize| i < alerts.len() ==> closed.contains(i)) ==> kept_alerts(
            alerts,
            closed,
            alerts.len() as int,
        ).len() == 0,
{
    if closed.len() == 0 {
        lemma_all_kept(alerts, closed, alerts.len() as int);
        assert(alerts.take(alerts.len() as int) =~= alerts);
    }
    if forall|i: usize| i < alerts.len() ==> closed.contains(i) {
        lemma_none_kept(alerts, closed, alerts.len() as int);
    }
}

proof fn lemma_all_kept(alerts: Seq<Seq<char>>, closed: Seq<usize>, n: int)
    requires
        closed.len() == 0,
        0 <= n <= alerts.len(),
    ensures
        kept_alerts(alerts, closed, n) == alerts.take(n),
    decreases n,
{
    if n > 0 {
        lemma_all_kept(alerts, closed, n - 1);
        assert(alerts.take(n) =~= alerts.take(n - 1).push(alerts[n - 1]));
    } else {
        assert(alerts.take(0) =~= Seq::<Seq<char>>::empty());
    }
}

proof fn lemma_none_kept(alerts: Seq<Seq<char>>, closed: Seq<usize>, n: int)
    requires
        forall|i: usize| i < alerts.len() ==> closed.contains(i),
        0 <= n <= alerts.len() <= usize::MAX,
    ensures
        kept_alerts(alerts, closed, n).len() == 0,
    decreases n,
{
    if n > 0 {
        lemma_none_kept(alerts, closed, n - 1);
        assert(closed.contains((n - 1) as usize));
    }
}

/// A visit is a download exactly where the last four characters of the address are `.zip`, `.exe`,
/// `.png` or `.rar`. It is then announced, and no tab changes. Any other address is what the active
/// tab waits for, under the cookie that the tab has.
pub proof fn law_visit_goes_by_ending(app: AppView, url: Seq<char>)
    requires
        app.wf(),
    ensures
        ({
            let n = url.len() as int;
            let is_file = n >= 4 && url[n - 4] == '.' && {
                ||| url[n - 3] == 'z' && url[n - 2] == 'i' && url[n - 1] == 'p'
                ||| url[n - 3] == 'e' && url[n - 2] == 'x' && url[n - 1] == 'e'
                ||| url[n - 3] == 'p' && url[n - 2] == 'n' && url[n - 1] == 'g'
                ||| url[n - 3] == 'r' && url[n - 2] == 'a' && url[n - 1] == 'r'
            };
            let before = app.tabs[app.active_tab];
            let after = visited(app, url);
            &&& after.active_tab == app.active_tab && after.lang == app.lang && after.is_settings_open
                == app.is_settings_open
            &&& is_file ==> {
                &&& visit_to(app, url) == (VisitView::Download { url })
                &&& after.tabs == app.tabs
                &&& after.active_alerts == app.active_alerts.push(
                    match app.lang {
                        Language::English => "Starting file download..."@,
                        Language::Polish => "Rozpoczęto pobieranie pliku..."@,
                    },
                )
            }
            &&& !is_file ==> {
                &&& visit_to(app, url) == (VisitView::Load { url, cookie: before.cookie_jar })
                &&& after.active_alerts == app.active_alerts
                &&& after.tabs.len() == app.tabs.len()
                &&& after.tabs[app.active_tab] == (TabView {
                    url,
                    title: before.title,
                    favicon: None,
                    content: before.content,
                    is_loading: true,
                    cookie_jar: before.cookie_jar,
                    is_secure: before.is_secure,
                })
                &&& forall|i: int|
                    0 <= i < app.tabs.len() && i != app.active_tab ==> #[trigger] after.tabs[i] == app.tabs[i]
            }
        }),
{
    lemma_four_letter_ending(url, ".zip"@, '.', 'z', 'i', 'p');
    lemma_four_letter_ending(url, ".exe"@, '.', 'e', 'x', 'e');
    lemma_four_letter_ending(url, ".png"@, '.', 'p', 'n', 'g');
    lemma_four_letter_ending(url, ".rar"@, '.', 'r', 'a', 'r');
    reveal_strlit(".zip");
    reveal_strlit(".exe");
    reveal_strlit(".png");
    reveal_strlit(".rar");
    assert(".zip"@ =~= seq!['.', 'z', 'i', 'p']);
    assert(".exe"@ =~= seq!['.', 'e', 'x', 'e']);
    assert(".png"@ =~= seq!['.', 'p', 'n', 'g']);
    assert(".rar"@ =~= seq!['.', 'r', 'a', 'r']);
}

proof fn lemma_four_letter_ending(s: Seq<char>, p: Seq<char>, a: char, b: char, c: char, d: char)
    ensures
        p == seq![a, b, c, d] ==> (ends_with(s, p) <==> s.len() >= 4 && s[s.len() - 4] == a && s[s.len() - 3]
            == b && s[s.len() - 2] == c && s[s.len() - 1] == d),
{
    if p == seq![a, b, c, d] && s.len() >= 4 {
        let end = s.skip(s.len() - 4);
        assert(end[0] == s[s.len() - 4] && end[1] == s[s.len() - 3] && end[2] == s[s.len() - 2] && end[3]
            == s[s.len() - 1]);
        assert(p[0] == a && p[1] == b && p[2] == c && p[3] == d);
        if end[0] == a && end[1] == b && end[2] == c && end[3] == d {
            assert(end =~= p);
        }
    }
}

/// What was clicked on a page is carried out in order: the address first, as a visit to it, and then
/// the form, from the page that the active tab has then. The form is never a download.
pub proof fn law_clicks_in_order(app: AppView, url: Seq<char>, action: Seq<char>)
    requires
        app.wf(),
    ensures
        after_link(app, None) == app,
        after_link(app, Some(url)) == visited(app, url),
        after_form(app, None) == app,
        ({
            let before = app.tabs[app.active_tab];
            let target = form_url(before.url, action, before.content);
            let after = after_form(app, Some(action));
            &&& form_visit(app, action) == (VisitView::Load { url: target, cookie: before.cookie_jar })
            &&& after.tabs == app.tabs.update(
                app.active_tab,
                TabView {
                    url: target,
                    title: before.title,
                    favicon: None,
                    content: before.content,
                    is_loading: true,
                    cookie_jar: before.cookie_jar,
                    is_secure: before.is_secure,
                },
            )
            &&& after.active_tab == app.active_tab && after.lang == app.lang && after.is_settings_open
                == app.is_settings_open && after.active_alerts == app.active_alerts
        }),
{
}

/// A link that is clicked leads on from the address of the active tab.
pub proof fn law_link_leads_on(app: AppView, href: Seq<char>)
    requires
        app.wf(),
    ensures
        leads_to(app.tabs[app.active_tab].url, href, link_address(app, href)),
{
    law_link_leads(app.tabs[app.active_tab].url, href);
}

/// A page that comes for a tab that waits is shown in it: with its blocks, its title or else its
/// address, and its encryption; its icon and its cookie replace those of the tab where it has any.
/// The address of the tab stays, and so does all else in the window. A tab that does not wait stays
/// as it is.
pub proof fn law_page_is_shown(app: AppView, idx: int, page: PageView)
    requires
        0 <= idx < app.tabs.len(),
    ensures
        !app.tabs[idx].is_loading ==> after_page(app, idx, page) == app,
        app.tabs[idx].is_loading ==> {
            let before = app.tabs[idx];
            let after = after_page(app, idx, page);
            let tab = after.tabs[idx];
            &&& tab.url == before.url
            &&& !tab.is_loading
            &&& tab.content == page.blocks
            &&& tab.is_secure == page.is_secure
            &&& page.title is Some ==> Some(tab.title) == page.title
            &&& page.title is None ==> tab.title == page.url
            &&& page.favicon_raw is Some ==> tab.favicon == page.favicon_raw
            &&& page.favicon_raw is None ==> tab.favicon == before.favicon
            &&& page.new_cookie is Some ==> tab.cookie_jar == page.new_cookie
            &&& page.new_cookie is None ==> tab.cookie_jar == before.cookie_jar
            &&& after.tabs.len() == app.tabs.len()
            &&& forall|i: int|
                0 <= i < app.tabs.len() && i != idx ==> #[trigger] after.tabs[i] == app.tabs[i]
            &&& after.active_tab == app.active_tab && after.lang == app.lang && after.is_settings_open
                == app.is_settings_open && after.active_alerts == app.active_alerts
        },
{
}

/// The row of tabs is worked off in order. A tab that is opened stands behind the others and is
/// empty, and is active rather than one that was selected. The tab that is closed goes, and the
/// others keep their order; the number of the active tab stays, unless there are not that many tabs
/// any more: then the last one is active.
pub proof fn law_row_of_tabs(app: AppView, selected: Option<int>, add_tab: bool, closed: Option<int>)
    requires
        app.wf(),
        selected matches Some(i) ==> 0 <= i < app.tabs.len(),
        closed matches Some(i) ==> 0 <= i < app.tabs.len() && app.tabs.len() > 1,
    ensures
        ({
            let after = after_tab_bar(app, selected, add_tab, closed);
            let opened = TabView {
                url: "Gruz://start"@,
                title: match app.lang {
                    Language::English => "New Tab"@,
                    Language::Polish => "Nowa Karta"@,
                },
                favicon: None,
                content: Seq::empty(),
                is_loading: false,
                cookie_jar: None,
                is_secure: true,
            };
            let all = if add_tab {
                app.tabs + seq![opened]
            } else {
                app.tabs
            };
            let chosen = if add_tab {
                app.tabs.len() as int
            } else if selected is Some {
                selected->0
            } else {
                app.active_tab
            };
            &&& closed is None ==> after.tabs == all && after.active_tab == chosen
            &&& closed matches Some(i) ==> {
                &&& after.tabs == all.take(i) + all.skip(i + 1)
                &&& chosen < all.len() - 1 ==> after.active_tab == chosen
                &&& chosen == all.len() - 1 ==> after.active_tab == chosen - 1
            }
            &&& after.wf()
            &&& after.lang == app.lang && after.is_settings_open == app.is_settings_open
                && after.active_alerts == app.active_alerts
        }),
{
    let after = after_tab_bar(app, selected, add_tab, closed);
    let opened = start_tab(label_text(app.lang, Label::NewTab), Seq::empty());
    let all = if add_tab {
        app.tabs + seq![opened]
    } else {
        app.tabs
    };
    assert(app.tabs.push(opened) =~= app.tabs + seq![opened]);
    match closed {
        Some(i) => {
            assert(all.remove(i) =~= all.take(i) + all.skip(i + 1));
        },
        None => {},
    }
}

/// A title that takes more than fifteen bytes in UTF-8 is cut after the characters that take twelve,
/// and three points follow. Any other title stays.
pub proof fn law_long_title_is_cut(head: Seq<char>, tail: Seq<char>)
    ensures
        vstd::utf8::encode_utf8(head).len() == 12 && vstd::utf8::encode_utf8(head + tail).len() > 15
            ==> title_cuts(head + tail) && short_title(head + tail) == head + seq!['.', '.', '.'],
        vstd::utf8::encode_utf8(head).len() <= 15 ==> title_cuts(head) && short_title(head) == head,
{
    let title = head + tail;
    let n = head.len() as int;
    law_byte_len_is_utf8_len(head);
    law_byte_len_is_utf8_len(title);
    assert(title.take(n) =~= head);
    law_char_index(title, 12, n);
    reveal_strlit("...");
    assert("..."@ =~= seq!['.', '.', '.']);
}

/// The letters of a heading are four points smaller than those of the heading above it, and those of
/// the first level are 32 points high.
pub proof fn law_heading_sizes(level: int)
    ensures
        letter_size(level) == letter_size(level + 1) + 4,
        letter_size(1) == 32,
{
}

/// Each field of a page counts, wherever it stands, and nothing else does: the fields of two pages in
/// a row are those of the one and those of the other.
pub proof fn law_fields_in_a_row(first: Seq<BlockView>, second: Seq<BlockView>)
    ensures
        form_fields(first + second) == form_fields(first) + form_fields(second),
    decreases second.len(),
{
    let both = first + second;
    if second.len() == 0 {
        assert(both =~= first);
        assert(form_fields(first) + form_fields(second) =~= form_fields(first));
    } else {
        assert(both.drop_last() =~= first + second.drop_last());
        assert(both.last() == second.last());
        law_fields_in_a_row(first, second.drop_last());
        assert(form_fields(both) =~= form_fields(first) + form_fields(second));
    }
}

/// Blocks without a field among them say nothing in a form.
proof fn lemma_no_fields(blocks: Seq<BlockView>)
    requires
        forall|i: int| 0 <= i < blocks.len() ==> !((#[trigger] blocks[i]).block_type is Input),
    ensures
        form_fields(blocks) == Seq::<char>::empty(),
    decreases blocks.len(),
{
    if blocks.len() > 0 {
        let earlier = blocks.drop_last();
        assert forall|i: int| 0 <= i < earlier.len() implies !((#[trigger] earlier[i]).block_type is Input) by {
            assert(earlier[i] == blocks[i]);
        }
        assert(!(blocks[blocks.len() - 1].block_type is Input));
        lemma_no_fields(earlier);
    }
}

proof fn lemma_single_field(block: BlockView, name: Seq<char>, value: Seq<char>)
    requires
        block.block_type == (BlockTypeView::Input { name, value }),
    ensures
        form_fields(seq![block]) == name + seq!['='] + value + seq!['&'],
{
    let one = seq![block];
    assert(one.drop_last() =~= Seq::<BlockView>::empty());
    assert(one.last() == block);
    reveal_with_fuel(form_fields, 2);
    reveal_strlit("=");
    reveal_strlit("&");
    assert("="@ =~= seq!['=']);
    assert("&"@ =~= seq!['&']);
    assert(form_fields(one) =~= name + seq!['='] + value + seq!['&']);
}

/// A form on a page with one field is sent to its address with a question mark, the name of the
/// field, an equals sign and its value, each exactly as it stands in the block. An ampersand at the
/// end of the value would be taken off.
pub proof fn law_one_field_is_sent(
    base: Seq<char>,
    action: Seq<char>,
    front: Seq<BlockView>,
    field: BlockView,
    back: Seq<BlockView>,
    name: Seq<char>,
    value: Seq<char>,
)
    requires
        forall|i: int| 0 <= i < front.len() ==> !((#[trigger] front[i]).block_type is Input),
        forall|i: int| 0 <= i < back.len() ==> !((#[trigger] back[i]).block_type is Input),
        field.block_type == (BlockTypeView::Input { name, value }),
        value.len() > 0 ==> value.last() != '&',
    ensures
        form_url(base, action, front + seq![field] + back) == resolved_url(base, action) + seq!['?'] + name
            + seq!['='] + value,
{
    let blocks = front + seq![field] + back;
    let pair = name + seq!['='] + value;
    law_fields_in_a_row(front + seq![field], back);
    law_fields_in_a_row(front, seq![field]);
    lemma_no_fields(front);
    lemma_no_fields(back);
    lemma_single_field(field, name, value);
    let sent = pair + seq!['&'];
    assert(Seq::<char>::empty() + sent =~= sent);
    assert(sent + Seq::<char>::empty() =~= sent);
    assert(form_fields(blocks) == sent);
    assert(pair.last() == (if value.len() > 0 {
        value.last()
    } else {
        '='
    }));
    lemma_strip_one(pair);
    reveal_strlit("?");
    assert("?"@ =~= seq!['?']);
    let start = resolved_url(base, action) + seq!['?'];
    assert(form_url(base, action, blocks) == start + pair);
    lemma_join_pair(start, name, value);
}

proof fn lemma_join_pair(start: Seq<char>, name: Seq<char>, value: Seq<char>)
    ensures
        start + (name + seq!['='] + value) == start + name + seq!['='] + value,
{
    assert(start + (name + seq!['='] + value) =~= start + name + seq!['='] + value);
}

/// One ampersand behind a text that does not end with one is taken off.
proof fn lemma_strip_one(s: Seq<char>)
    requires
        s.len() > 0,
        s.last() != '&',
    ensures
        strip_end(s + seq!['&'], '&') == s,
{
    let t = s + seq!['&'];
    assert(t.last() == '&');
    assert(t.drop_last() =~= s);
    assert(strip_end(t, '&') == strip_end(s, '&'));
}

/// What is sent from a page with several fields is what is sent from its first part, an ampersand,
/// and the query of the second part: the fields stand in the order of the page with an ampersand
/// between them. This is said of parts whose last fields have a value that does not end with an
/// ampersand.
pub proof fn law_fields_are_sent_in_order(
    base: Seq<char>,
    action: Seq<char>,
    first: Seq<BlockView>,
    i: int,
    second: Seq<BlockView>,
    j: int,
)
    requires
        is_last_field(first, i),
        is_last_field(second, j),
    ensures
        ({
            let start = resolved_url(base, action) + seq!['?'];
            &&& form_url(base, action, second).take(start.len() as int) == start
            &&& form_url(base, action, first + second) == form_url(base, action, first) + seq!['&'] + form_url(
                base,
                action,
                second,
            ).skip(start.len() as int)
        }),
{
    let start = resolved_url(base, action) + seq!['?'];
    law_fields_in_a_row(first, second);
    lemma_last_field(first, i);
    lemma_last_field(second, j);
    let a = form_fields(first).drop_last();
    let b = form_fields(second).drop_last();
    assert(form_fields(first) =~= a + seq!['&']);
    assert(form_fields(second) =~= b + seq!['&']);
    lemma_strip_one(a);
    lemma_strip_one(b);
    let both = a + seq!['&'] + b;
    assert(form_fields(first + second) =~= both + seq!['&']);
    assert(both.last() == b.last());
    lemma_strip_one(both);
    reveal_strlit("?");
    assert("?"@ =~= seq!['?']);
    let sent = form_url(base, action, second);
    assert(sent =~= start + b);
    assert(sent.take(start.len() as int) =~= start);
    assert(sent.skip(start.len() as int) =~= b);
    assert(form_url(base, action, first) =~= start + a);
    assert(form_url(base, action, first + second) =~= start + a + seq!['&'] + b);
}

/// Whether the block `i` is the last field among `blocks`, with a value that does not end with an
/// ampersand.
pub open spec fn is_last_field(blocks: Seq<BlockView>, i: int) -> bool {
    &&& 0 <= i < blocks.len()
    &&& blocks[i].block_type matches BlockTypeView::Input { name, value } && (value.len() > 0
        ==> value.last() != '&')
    &&& forall|k: int| i < k < blocks.len() ==> !((#[trigger] blocks[k]).block_type is Input)
}

proof fn lemma_last_field(blocks: Seq<BlockView>, i: int)
    requires
        is_last_field(blocks, i),
    ensures
        form_fields(blocks).len() > 1,
        form_fields(blocks).last() == '&',
        form_fields(blocks)[form_fields(blocks).len() - 2] != '&',
{
    let front = blocks.take(i);
    let back = blocks.skip(i + 1);
    let field = blocks[i];
    match field.block_type {
        BlockTypeView::Input { name, value } => {
            assert(blocks =~= front + seq![field] + back);
            assert forall|k: int| 0 <= k < back.len() implies !((#[trigger] back[k]).block_type is Input) by {
                assert(back[k] == blocks[i + 1 + k]);
            }
            lemma_no_fields(back);
            lemma_single_field(field, name, value);
            law_fields_in_a_row(front + seq![field], back);
            law_fields_in_a_row(front, seq![field]);
            let all = form_fields(blocks);
            assert(all =~= form_fields(front) + (name + seq!['='] + value + seq!['&']));
            let pair = name + seq!['='] + value;
            assert(all =~= form_fields(front) + pair + seq!['&']);
            assert(all[all.len() - 2] == pair.last());
        },
        _ => {},
    }
}

/// Of the fields of a page, nothing but ampersands at the end is not sent.
pub proof fn law_only_ampersands_are_lost(base: Seq<char>, action: Seq<char>, blocks: Seq<BlockView>)
    ensures
        ({
            let whole = resolved_url(base, action) + seq!['?'] + form_fields(blocks);
            let sent = form_url(base, action, blocks);
            &&& sent.len() <= whole.len()
            &&& whole.take(sent.len() as int) == sent
            &&& forall|i: int| sent.len() <= i < whole.len() ==> #[trigger] whole[i] == '&'
        }),
{
    let start = resolved_url(base, action) + seq!['?'];
    let fields = form_fields(blocks);
    lemma_strip_end_is_prefix(fields, '&');
    reveal_strlit("?");
    assert("?"@ =~= seq!['?']);
    let whole = start + fields;
    let sent = form_url(base, action, blocks);
    assert(sent =~= start + strip_end(fields, '&'));
    assert(whole.take(sent.len() as int) =~= sent);
    assert forall|i: int| sent.len() <= i < whole.len() implies #[trigger] whole[i] == '&' by {
        assert(whole[i] == fields[i - start.len()]);
    }
}

proof fn lemma_strip_end_is_prefix(s: Seq<char>, c: char)
    ensures
        strip_end(s, c).len() <= s.len(),
        s.take(strip_end(s, c).len() as int) == strip_end(s, c),
        forall|i: int| strip_end(s, c).len() <= i < s.len() ==> #[trigger] s[i] == c,
    decreases s.len(),
{
    if s.len() > 0 && s.last() == c {
        let t = s.drop_last();
        lemma_strip_end_is_prefix(t, c);
        let n = strip_end(s, c).len() as int;
        assert(s.take(n) =~= t.take(n));
        assert forall|i: int| n <= i < s.len() implies #[trigger] s[i] == c by {
            if i < s.len() - 1 {
                assert(s[i] == t[i]);
            }
        }
    } else {
        assert(s.take(s.len() as int) =~= s);
    }
}

/// What happens to a download is told with its address, and with the place of the file or what went
/// wrong. Progress is not told.
pub proof fn law_downloads_are_told(app: AppView, url: Seq<char>, rest: Seq<char>, percent: u8)
    ensures
        after_message(app, DownloadMsgView::Progress(url, percent)) == app,
        after_message(app, DownloadMsgView::Done(url, rest)) == (AppView {
            active_alerts: app.active_alerts + seq![
                match app.lang {
                    Language::English => "Downloaded: "@ + url + " to "@ + rest,
                    Language::Polish => "Pobrano: "@ + url + " do "@ + rest,
                },
            ],
            ..app
        }),
        after_message(app, DownloadMsgView::Error(url, rest)) == (AppView {
            active_alerts: app.active_alerts + seq![
                match app.lang {
                    Language::English => "Error "@ + url + ": "@ + rest,
                    Language::Polish => "Błąd "@ + url + ": "@ + rest,
                },
            ],
            ..app
        }),
{
    assert forall|alert: Seq<char>| #[trigger] app.active_alerts.push(alert) == app.active_alerts + seq![
        alert,
    ] by {
        assert(app.active_alerts.push(alert) =~= app.active_alerts + seq![alert]);
    }
}

/// An alert that is not closed stays, behind those before it that stay; one that is closed goes, and
/// nothing else of the window changes.
pub proof fn law_alert_is_closed(app: AppView, closed: Seq<usize>, i: int)
    requires
        0 <= i < app.active_alerts.len() <= usize::MAX,
    ensures
        after_closing(app, closed) == (AppView {
            active_alerts: after_closing(app, closed).active_alerts,
            ..app
        }),
        closed.contains(i as usize) ==> kept_alerts(app.active_alerts, closed, i + 1) == kept_alerts(
            app.active_alerts,
            closed,
            i,
        ),
        !closed.contains(i as usize) ==> {
            let kept = after_closing(app, closed).active_alerts;
            let place = kept_alerts(app.active_alerts, closed, i).len() as int;
            place < kept.len() && kept[place] == app.active_alerts[i]
        },
        after_closing(app, seq![i as usize]).active_alerts == app.active_alerts.take(i)
            + app.active_alerts.skip(i + 1),
{
    let alerts = app.active_alerts;
    if !closed.contains(i as usize) {
        lemma_kept_is_prefix(alerts, closed, i + 1, alerts.len() as int);
        let upto = kept_alerts(alerts, closed, i + 1);
        assert(upto == kept_alerts(alerts, closed, i).push(alerts[i]));
        assert(upto.last() == after_closing(app, closed).active_alerts[upto.len() - 1]);
    }
    lemma_one_closed(alerts, i, alerts.len() as int);
}

proof fn lemma_kept_is_prefix(alerts: Seq<Seq<char>>, closed: Seq<usize>, m: int, n: int)
    requires
        0 <= m <= n <= alerts.len(),
    ensures
        kept_alerts(alerts, closed, m).len() <= kept_alerts(alerts, closed, n).len(),
        kept_alerts(alerts, closed, n).take(kept_alerts(alerts, closed, m).len() as int) == kept_alerts(
            alerts,
            closed,
            m,
        ),
    decreases n - m,
{
    let k = kept_alerts(alerts, closed, m);
    if m < n {
        lemma_kept_is_prefix(alerts, closed, m, n - 1);
        let earlier = kept_alerts(alerts, closed, n - 1);
        assert(kept_alerts(alerts, closed, n).take(k.len() as int) =~= earlier.take(k.len() as int));
    } else {
        assert(k.take(k.len() as int) =~= k);
    }
}

proof fn lemma_one_closed(alerts: Seq<Seq<char>>, i: int, n: int)
    requires
        0 <= i < alerts.len() <= usize::MAX,
        0 <= n <= alerts.len(),
    ensures
        kept_alerts(alerts, seq![i as usize], n) == (if n <= i {
            alerts.take(n)
        } else {
            alerts.take(i) + alerts.subrange(i + 1, n)
        }),
        alerts.subrange(i + 1, alerts.len() as int) == alerts.skip(i + 1),
    decreases n,
{
    let closed = seq![i as usize];
    assert(closed[0] == i as usize);
    assert(alerts.subrange(i + 1, alerts.len() as int) =~= alerts.skip(i + 1));
    if n > 0 {
        lemma_one_closed(alerts, i, n - 1);
        if n - 1 == i {
            assert(closed.contains((n - 1) as usize));
            assert(alerts.take(i) + alerts.subrange(i + 1, n) =~= alerts.take(i));
        } else {
            assert(!closed.contains((n - 1) as usize));
            if n <= i {
                assert(alerts.take(n) =~= alerts.take(n - 1).push(alerts[n - 1]));
            } else {
                assert(alerts.take(i) + alerts.subrange(i + 1, n) =~= (alerts.take(i) + alerts.subrange(
                    i + 1,
                    n - 1,
                )).push(alerts[n - 1]));
            }
        }
    } else {
        assert(alerts.take(0) =~= Seq::<Seq<char>>::empty());
    }
}

} // verus!
