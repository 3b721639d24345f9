use gruznet::browser::{
    build_form_url, heading_size, leads_to_download, tab_label, GruzNetApp, Label, Language, Visit,
};
use gruznet::css::{Align, CssStyle};
use gruznet::download::DownloadMsg;
use gruznet::page::{BlockType, FetchResult, RenderBlock};
use gruznet::picture::ColorImage;

fn page(url: &str, title: Option<&str>) -> FetchResult {
    FetchResult {
        url: url.to_string(),
        title: title.map(|t| t.to_string()),
        favicon_raw: None,
        blocks: Vec::new(),
        alerts: Vec::new(),
        new_cookie: None,
        auto_redirect: None,
        is_secure: false,
    }
}

fn field(name: &str, value: &str) -> RenderBlock {
    RenderBlock {
        text: String::new(),
        block_type: BlockType::Input { name: name.to_string(), value: value.to_string() },
        style: CssStyle::default(),
    }
}

fn paragraph(text: &str) -> RenderBlock {
    RenderBlock { text: text.to_string(), block_type: BlockType::Paragraph, style: CssStyle::default() }
}

fn urls(app: &GruzNetApp) -> Vec<String> {
    app.tabs.iter().map(|t| t.url.clone()).collect()
}

#[test]
fn the_window_opens_with_a_greeting() {
    let app = GruzNetApp::default();
    assert_eq!(app.tabs.len(), 1);
    assert_eq!(app.active_tab, 0);
    assert_eq!(app.lang, Language::English);
    assert!(!app.is_settings_open);
    assert!(app.active_alerts.is_empty());
    let tab = &app.tabs[0];
    assert_eq!((tab.url.as_str(), tab.title.as_str()), ("Gruz://start", "Start Page"));
    assert!(tab.is_secure);
    assert!(!tab.is_loading);
    assert!(tab.favicon.is_none());
    assert_eq!(tab.cookie_jar, None);
    assert_eq!(tab.content.len(), 1);
    assert_eq!(tab.content[0].text, "Hi!!\n Type an URL!");
    assert!(matches!(tab.content[0].block_type, BlockType::Heading(1)));
    assert_eq!(tab.content[0].style.align, Some(Align::Center));
    assert_eq!(tab.content[0].style.padding, None);
}

#[test]
fn every_text_has_two_languages() {
    let texts = [
        (Label::Settings, "Settings", "Ustawienia"),
        (Label::AppLanguage, "App Language", "Język Aplikacji"),
        (Label::NewTab, "New Tab", "Nowa Karta"),
        (Label::SecureConnection, "Secure Connection (HTTPS)", "Bezpieczne połączenie (HTTPS)"),
        (Label::InsecureConnection, "Insecure Connection (HTTP)", "Niezabezpieczone połączenie (HTTP)"),
        (Label::Address, "URL:", "Adres WWW:"),
        (Label::Go, "Go!", "Idź!"),
        (Label::DownloadStarted, "Starting file download...", "Rozpoczęto pobieranie pliku..."),
        (Label::Notification, "Notification", "Powiadomienie"),
    ];
    for (label, english, polish) in texts {
        assert_eq!(Language::English.label(label), english);
        assert_eq!(Language::Polish.label(label), polish);
    }
}

#[test]
fn new_tabs_are_active() {
    let mut app = GruzNetApp::default();
    app.new_tab();
    assert_eq!((app.tabs.len(), app.active_tab), (2, 1));
    assert_eq!(app.tabs[1].title, "New Tab");
    assert_eq!(app.tabs[1].url, "Gruz://start");
    assert!(app.tabs[1].content.is_empty());
    assert!(app.tabs[1].is_secure);
    app.lang = Language::Polish;
    app.new_tab();
    assert_eq!((app.active_tab, app.tabs[2].title.as_str()), (2, "Nowa Karta"));
    app.select_tab(0);
    assert_eq!(app.active_tab, 0);
}

#[test]
fn closing_a_tab_keeps_an_active_one() {
    let mut app = GruzNetApp::default();
    app.new_tab();
    app.new_tab();
    for (i, name) in ["a", "b", "c"].iter().enumerate() {
        app.tabs[i].url = name.to_string();
    }
    app.close_tab(2);
    assert_eq!(app.active_tab, 1);
    assert_eq!(urls(&app), ["a", "b"]);
    app.close_tab(0);
    assert_eq!(app.active_tab, 0);
    assert_eq!(urls(&app), ["b"]);
}

#[test]
fn closing_a_tab_before_the_active_one_keeps_the_number() {
    let mut app = GruzNetApp::default();
    app.new_tab();
    app.new_tab();
    for (i, name) in ["a", "b", "c"].iter().enumerate() {
        app.tabs[i].url = name.to_string();
    }
    app.select_tab(1);
    app.close_tab(0);
    assert_eq!(app.active_tab, 1);
    assert_eq!(urls(&app), ["b", "c"]);
}

#[test]
fn opening_and_closing_leaves_the_others() {
    let mut app = GruzNetApp::default();
    app.new_tab();
    app.tabs[1].url = "b".to_string();
    app.select_tab(0);
    app.new_tab();
    app.close_tab(2);
    assert_eq!(urls(&app), ["Gruz://start", "b"]);
    assert_eq!(app.active_tab, 1);
}

#[test]
fn the_row_of_tabs_is_worked_off_in_order() {
    let mut app = GruzNetApp::default();
    app.new_tab();
    app.handle_tab_bar(Some(0), false, None);
    assert_eq!(app.active_tab, 0);
    app.handle_tab_bar(Some(0), true, None);
    assert_eq!((app.tabs.len(), app.active_tab), (3, 2));
    app.handle_tab_bar(Some(1), true, Some(0));
    assert_eq!((app.tabs.len(), app.active_tab), (3, 2));
    app.handle_tab_bar(None, false, None);
    assert_eq!((app.tabs.len(), app.active_tab), (3, 2));
    app.handle_tab_bar(Some(0), false, Some(0));
    assert_eq!((app.tabs.len(), app.active_tab), (2, 0));
}

#[test]
fn pages_are_loaded_into_the_active_tab() {
    let mut app = GruzNetApp::default();
    app.new_tab();
    app.tabs[1].favicon = Some(ColorImage { width: 0, height: 0, pixels: Vec::new() });
    let visit = app.visit("http://a.com".to_string());
    assert!(matches!(visit, Visit::Load { url, cookie: None } if url == "http://a.com"));
    assert!(app.tabs[1].is_loading);
    assert!(app.tabs[1].favicon.is_none());
    assert_eq!(app.tabs[1].url, "http://a.com");
    assert!(!app.tabs[0].is_loading);
    assert_eq!(app.tabs[0].url, "Gruz://start");
    assert!(app.is_loading());
    assert!(app.active_alerts.is_empty());
}

#[test]
fn files_are_downloaded() {
    for url in ["http://a.com/x.zip", "x.exe", ".png", "a.rar"] {
        assert!(leads_to_download(url));
        let mut app = GruzNetApp::default();
        let visit = app.visit(url.to_string());
        assert!(matches!(visit, Visit::Download { url: asked } if asked == url));
        assert_eq!(app.active_alerts, ["Starting file download..."]);
        assert!(!app.is_loading());
        assert_eq!(app.tabs[0].url, "Gruz://start");
    }
    for url in ["", "x.ZIP", "x.zip?y", "x.jpg", "zip", "png/"] {
        assert!(!leads_to_download(url));
    }
}

#[test]
fn a_page_that_came_is_shown() {
    let mut app = GruzNetApp::default();
    app.visit("http://a.com".to_string());
    let mut came = page("http://a.com", Some("T"));
    came.blocks.push(paragraph("hello"));
    came.is_secure = true;
    came.new_cookie = Some("__test=1".to_string());
    came.favicon_raw = Some(ColorImage { width: 1, height: 1, pixels: vec![(1, 2, 3, 4)] });
    app.receive_page(0, came);
    let tab = &app.tabs[0];
    assert!(!tab.is_loading);
    assert!(tab.is_secure);
    assert_eq!(tab.title, "T");
    assert_eq!(tab.content[0].text, "hello");
    assert_eq!(tab.cookie_jar, Some("__test=1".to_string()));
    assert_eq!(tab.favicon.as_ref().unwrap().pixels, [(1, 2, 3, 4)]);
    assert!(!app.is_loading());
}

#[test]
fn a_page_without_a_title_is_called_by_its_address() {
    let mut app = GruzNetApp::default();
    app.visit("http://a.com".to_string());
    app.receive_page(0, page("http://a.com", None));
    assert_eq!(app.tabs[0].title, "http://a.com");
    assert!(app.tabs[0].content.is_empty());
    assert!(!app.tabs[0].is_secure);
}

#[test]
fn a_page_that_nobody_waits_for_is_not_shown() {
    let mut app = GruzNetApp::default();
    app.receive_page(0, page("http://a.com", Some("T")));
    assert_eq!(app.tabs[0].title, "Start Page");
    assert_eq!(app.tabs[0].content.len(), 1);
}

#[test]
fn the_cookie_is_kept_and_sent() {
    let mut app = GruzNetApp::default();
    app.visit("http://a.com".to_string());
    let mut came = page("http://a.com", None);
    came.new_cookie = Some("__test=1".to_string());
    app.receive_page(0, came);
    let visit = app.visit("http://a.com/again".to_string());
    assert!(matches!(visit, Visit::Load { cookie: Some(c), .. } if c == "__test=1"));
    app.receive_page(0, page("http://a.com/again", None));
    let visit = app.visit("http://b.com".to_string());
    assert!(matches!(visit, Visit::Load { cookie: Some(c), .. } if c == "__test=1"));
}

#[test]
fn links_lead_from_the_page_of_the_tab() {
    let mut app = GruzNetApp::default();
    app.tabs[0].url = "https://a.com/x".to_string();
    assert_eq!(app.link_target("/y"), "https://a.com/y");
    assert_eq!(app.link_target("http://b.com"), "http://b.com");
}

#[test]
fn forms_are_sent_with_their_fields() {
    let blocks = vec![field("q", "a b"), paragraph("x"), field("n", "")];
    assert_eq!(build_form_url("http://a.com/x", "/go", &blocks), "http://a.com/go?q=a b&n=");
    assert_eq!(build_form_url("http://a.com", "http://b.com/go", &blocks), "http://b.com/go?q=a b&n=");
}

#[test]
fn forms_end_without_an_ampersand() {
    assert_eq!(build_form_url("a.com", "go", &Vec::new()), "http://a.com/go?");
    assert_eq!(build_form_url("a.com", "go", &vec![field("q", "x&&")]), "http://a.com/go?q=x");
    assert_eq!(build_form_url("a.com", "go?r=1&", &vec![paragraph("x")]), "http://a.com/go?r=1&?");
}

#[test]
fn sending_a_form_loads_the_answer() {
    let mut app = GruzNetApp::default();
    app.tabs[0].url = "https://a.com/x".to_string();
    app.tabs[0].cookie_jar = Some("c".to_string());
    app.tabs[0].content = vec![field("q", "1")];
    let visit = app.submit_form("/go.zip");
    assert!(matches!(
        visit,
        Visit::Load { url, cookie: Some(c) } if url == "https://a.com/go.zip?q=1" && c == "c"
    ));
    assert!(app.tabs[0].is_loading);
    assert_eq!(app.tabs[0].url, "https://a.com/go.zip?q=1");
    assert_eq!(app.tabs[0].content.len(), 1);
}

#[test]
fn a_link_is_followed_before_a_form_is_sent() {
    let mut app = GruzNetApp::default();
    app.tabs[0].content = vec![field("q", "1")];
    let (first, second) =
        app.handle_page(Some("https://b.com/x".to_string()), Some("/go".to_string()));
    assert!(matches!(first, Some(Visit::Load { url, .. }) if url == "https://b.com/x"));
    assert!(matches!(second, Some(Visit::Load { url, .. }) if url == "https://b.com/go?q=1"));
    assert_eq!(app.tabs[0].url, "https://b.com/go?q=1");
    let (first, second) = app.handle_page(None, None);
    assert!(first.is_none() && second.is_none());
}

#[test]
fn a_visit_leaves_the_other_tabs_alone() {
    let mut app = GruzNetApp::default();
    app.new_tab();
    app.new_tab();
    app.select_tab(1);
    let before = (format!("{:?}", app.tabs[0]), format!("{:?}", app.tabs[2]));
    app.visit("http://a.com".to_string());
    app.submit_form("go");
    assert_eq!((format!("{:?}", app.tabs[0]), format!("{:?}", app.tabs[2])), before);
    assert_eq!(app.active_tab, 1);
}

#[test]
fn downloads_are_told_in_both_languages() {
    let mut app = GruzNetApp::default();
    app.receive_download(DownloadMsg::Progress("u".to_string(), 10));
    assert!(app.active_alerts.is_empty());
    app.receive_download(DownloadMsg::Done("u".to_string(), "\"p\"".to_string()));
    app.receive_download(DownloadMsg::Error("u".to_string(), "why".to_string()));
    app.lang = Language::Polish;
    app.receive_download(DownloadMsg::Done("u".to_string(), "\"p\"".to_string()));
    app.receive_download(DownloadMsg::Error("u".to_string(), "why".to_string()));
    app.visit("x.zip".to_string());
    assert_eq!(
        app.active_alerts,
        [
            "Downloaded: u to \"p\"",
            "Error u: why",
            "Pobrano: u do \"p\"",
            "Błąd u: why",
            "Rozpoczęto pobieranie pliku...",
        ]
    );
}

#[test]
fn alerts_stay_until_closed() {
    let mut app = GruzNetApp::default();
    for name in ["a", "b", "c", "d"] {
        app.active_alerts.push(name.to_string());
    }
    app.dismiss_alerts(&Vec::new());
    assert_eq!(app.active_alerts, ["a", "b", "c", "d"]);
    app.dismiss_alerts(&vec![0, 2, 9]);
    assert_eq!(app.active_alerts, ["b", "d"]);
    app.dismiss_alerts(&vec![1, 1]);
    assert_eq!(app.active_alerts, ["b"]);
    app.dismiss_alerts(&vec![0]);
    assert!(app.active_alerts.is_empty());
}

#[test]
fn long_titles_are_cut() {
    assert_eq!(tab_label(""), "");
    assert_eq!(tab_label("fifteen letters"), "fifteen letters");
    assert_eq!(tab_label("sixteen letters!"), "sixteen lett...");
    assert_eq!(tab_label("żółw żółw"), "żółw żółw");
    assert_eq!(tab_label("żółwie żółwie"), "żółwie ż...");
    for title in ["a very long title indeed", "łąki łąki łąki łąki"] {
        assert!(tab_label(title).len() <= 15);
    }
}

#[test]
fn headings_have_a_size() {
    assert_eq!(heading_size(1), 32);
    assert_eq!(heading_size(2), 28);
    assert_eq!(heading_size(9), 0);
    assert_eq!(heading_size(10), -4);
    assert_eq!(heading_size(255), -984);
}
