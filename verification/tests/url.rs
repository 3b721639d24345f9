use gruznet::text::is_whitespace;
use gruznet::url::{download_file_name, parse_url, resolve_url};

fn parts(url: &str) -> (String, String, bool) {
    parse_url(url)
}

fn expect(host: &str, path: &str, is_secure: bool) -> (String, String, bool) {
    (host.to_string(), path.to_string(), is_secure)
}

#[test]
fn address_with_host_and_path() {
    assert_eq!(parts("http://example.com/a/b"), expect("example.com", "/a/b", false));
    assert_eq!(parts("https://example.com/a?x=1#y"), expect("example.com", "/a?x=1#y", true));
}

#[test]
fn address_without_path() {
    assert_eq!(parts("http://example.com"), expect("example.com", "/", false));
    assert_eq!(parts("https://example.com/"), expect("example.com", "/", true));
}

#[test]
fn address_without_scheme() {
    assert_eq!(parts("example.com/x"), expect("example.com", "/x", false));
    assert_eq!(parts("example.com"), expect("example.com", "/", false));
}

#[test]
fn empty_address() {
    assert_eq!(parts(""), expect("", "/", false));
    assert_eq!(parts("  \t "), expect("", "/", false));
    assert_eq!(parts("http://"), expect("", "/", false));
    assert_eq!(parts("/"), expect("", "/", false));
}

#[test]
fn space_around_an_address_goes() {
    assert_eq!(parts("  https://example.com/a b \n"), expect("example.com", "/a b", true));
    assert_eq!(parts("\u{3000}http://example.com\u{a0}"), expect("example.com", "/", false));
}

#[test]
fn repeated_schemes_go() {
    assert_eq!(parts("http://http://example.com/"), expect("example.com", "/", false));
    assert_eq!(parts("http://https://example.com/"), expect("example.com", "/", false));
    assert_eq!(parts("https://https://example.com"), expect("example.com", "/", true));
}

#[test]
fn a_scheme_behind_the_encrypted_one_stays() {
    assert_eq!(parts("https://http://example.com"), expect("http:", "//example.com", true));
}

#[test]
fn schemes_are_lower_case() {
    assert_eq!(parts("HTTPS://example.com/"), expect("HTTPS:", "//example.com/", false));
}

#[test]
fn start_page_has_a_host_of_sorts() {
    assert_eq!(parts("Gruz://start"), expect("Gruz:", "//start", false));
}

#[test]
fn letters_outside_ascii_stay_whole() {
    assert_eq!(parts("http://żółw.pl/łąka"), expect("żółw.pl", "/łąka", false));
}

#[test]
fn absolute_links_lead_to_themselves() {
    assert_eq!(resolve_url("http://a.com/x", "https://b.com/y"), "https://b.com/y");
    assert_eq!(resolve_url("whatever", "http"), "http");
    assert_eq!(resolve_url("http://a.com", "httpfoo/bar"), "httpfoo/bar");
}

#[test]
fn relative_links_stay_on_the_host() {
    assert_eq!(resolve_url("http://a.com/x/y", "z.html"), "http://a.com/z.html");
    assert_eq!(resolve_url("http://a.com/x/y", "/z.html"), "http://a.com/z.html");
    assert_eq!(resolve_url("https://a.com", "//z.html"), "https://a.com/z.html");
    assert_eq!(resolve_url("a.com", ""), "http://a.com/");
    assert_eq!(resolve_url("a.com", "///"), "http://a.com/");
    assert_eq!(resolve_url("http://a.com", " /z"), "http://a.com/ /z");
}

#[test]
fn resolved_links_are_taken_apart_again() {
    for base in ["http://a.com/x", "https://b.com", "c.com/d", ""] {
        for href in ["", "z", "/z", "//z/y", "#top", "ftp://x", " z", "z ", "a//b", "h", "https"] {
            let (host, path, is_secure) = parse_url(&resolve_url(base, href));
            if href.starts_with("http") {
                assert_eq!((host, path, is_secure), parse_url(href));
            } else {
                let (base_host, _, base_secure) = parse_url(base);
                assert_eq!(host, base_host);
                assert_eq!(is_secure, base_secure);
                assert_eq!(path, format!("/{}", href.trim_start_matches('/').trim_end()));
            }
        }
    }
}

#[test]
fn host_and_path_make_up_the_address() {
    for url in ["http://a.com/x/y", "https://a.com/", "a.com/x?y=/z", "/x"] {
        let (host, path, _) = parse_url(url);
        let clean = url.trim_start_matches("http://").trim_start_matches("https://");
        assert_eq!(format!("{}{}", host, path), clean);
        assert!(!host.contains('/'));
        assert!(path.starts_with('/'));
    }
}

#[test]
fn file_names_follow_the_last_slash() {
    assert_eq!(download_file_name("http://a.com/b/c.zip"), "c.zip");
    assert_eq!(download_file_name("c.zip"), "c.zip");
    assert_eq!(download_file_name("http://a.com/b/"), "");
    assert_eq!(download_file_name(""), "");
    assert_eq!(download_file_name("a/b\\..\\c.exe"), "b\\..\\c.exe");
}

#[test]
fn white_space_is_that_of_unicode() {
    for code in 0..=0x10ffffu32 {
        if let Some(c) = char::from_u32(code) {
            assert_eq!(is_whitespace(c), c.is_whitespace(), "{:x}", code);
        }
    }
}

fn again(url: &str) -> String {
    let (host, path, is_secure) = parse_url(url);
    format!("{}://{}{}", if is_secure { "https" } else { "http" }, host, path)
}

#[test]
fn addresses_put_together_again_have_the_same_parts() {
    for url in [
        "http://a.com/x/y",
        "https://a.com",
        " a.com//x ",
        "",
        "https://http://a.com/x",
        "https://https://a/b",
        "http://",
        "/",
        "http:// a/b",
    ] {
        assert_eq!(parts(&again(url)), parts(url));
    }
}

#[test]
fn a_scheme_between_two_others_is_not_kept() {
    let url = "http://https://http://a";
    assert_eq!(parts(url), expect("http:", "//a", false));
    assert_eq!(parts(&again(url)), expect("a", "/", false));
}
