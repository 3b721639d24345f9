use gruznet::letters::decode_text;
use gruznet::markup::{
    attr_from_lowered, cookie_from_lowered, extract_attr, scan_html, try_extract_attr, OffBoundary, OpenTag, Piece,
    TagKind,
};

fn some(s: &str) -> Option<String> {
    Some(s.to_string())
}

fn pieces(html: &str) -> String {
    format!("{:?}", scan_html(html).unwrap())
}

fn only_tag(html: &str) -> OpenTag {
    let mut found = scan_html(html).unwrap();
    assert_eq!(found.len(), 1);
    match found.remove(0) {
        Piece::Open(tag) => tag,
        other => panic!("{:?}", other),
    }
}

fn title_of(html: &str) -> Option<String> {
    match scan_html(html).unwrap().remove(0) {
        Piece::Title(title) => title,
        other => panic!("{:?}", other),
    }
}

fn script_of(html: &str) -> (Option<String>, bool) {
    match scan_html(html).unwrap().remove(0) {
        Piece::Script { cookie, reload } => (cookie, reload),
        other => panic!("{:?}", other),
    }
}

#[test]
fn attributes_are_read_back() {
    assert_eq!(extract_attr("a href=\"x y\" id='z'", "href"), some("x y"));
    assert_eq!(extract_attr("a href=\"x y\" id='z'", "id"), some("z"));
    assert_eq!(extract_attr("a HREF=\"X\"", "href"), some("X"));
    assert_eq!(extract_attr("a title=\"it's\"", "title"), some("it's"));
    assert_eq!(extract_attr("a title='\"'", "title"), some("\""));
    assert_eq!(extract_attr("łąka href=\"żółw\"", "href"), some("żółw"));
}

#[test]
fn attributes_that_are_missing_or_bare() {
    assert_eq!(extract_attr("a", "href"), None);
    assert_eq!(extract_attr("", "href"), None);
    assert_eq!(extract_attr("a href", "href"), None);
    assert_eq!(extract_attr("a href=x", "href"), None);
    assert_eq!(extract_attr("a href =\"x\"", "href"), None);
}

#[test]
fn unfinished_attributes_run_to_the_end() {
    assert_eq!(extract_attr("a href=\"x y", "href"), some("x y"));
    assert_eq!(extract_attr("a href='", "href"), some(""));
    assert_eq!(extract_attr("a href=", "href"), some(""));
    assert_eq!(extract_attr("a href=\"\"", "href"), some(""));
}

#[test]
fn the_first_place_that_looks_like_the_attribute_counts() {
    assert_eq!(extract_attr("a data-href=\"1\" href=\"2\"", "href"), some("1"));
    assert_eq!(extract_attr("a class=\"id='x'\" id=\"y\"", "id"), some("x"));
    assert_eq!(extract_attr("a id=1 id=\"2\"", "id"), None);
}

#[test]
fn places_are_counted_in_the_lower_case() {
    // The dotted capital letter takes two bytes, its lower case three.
    assert_eq!(try_extract_attr("\u{130} href=\"x\"", "href"), Ok(None));
    assert_eq!(try_extract_attr("\u{130} href=\"'x'", "href"), Ok(some("x")));
    // The Kelvin sign takes three bytes, its lower case one.
    assert_eq!(try_extract_attr("\u{212a} href=\"x\"", "href"), Ok(None));
}

#[test]
fn places_off_the_characters_are_an_error() {
    assert_eq!(try_extract_attr("\u{130}\u{130} href=\"é\"", "href"), Err(OffBoundary));
    assert_eq!(try_extract_attr("\u{23a} href=", "href"), Err(OffBoundary));
    assert_eq!(try_extract_attr("\u{130}\u{130} href=\"é\"", "id"), Ok(None));
}

#[test]
fn ascii_tags_can_always_be_read() {
    for tag in ["a href=", "A HREF=\"", "href=href=href=", "=", "x href='y\"z' "] {
        assert_eq!(try_extract_attr(tag, "href"), Ok(extract_attr(tag, "href")));
    }
}

#[test]
fn attributes_out_of_a_given_lower_case() {
    assert_eq!(attr_from_lowered("A HREF=\"X\"", "a href=\"x\"", "href"), some("X"));
    assert_eq!(attr_from_lowered("abcdef'g'", "id=", "id"), None);
    assert_eq!(attr_from_lowered("abc'g'", "id=", "id"), some("g"));
    assert_eq!(attr_from_lowered("abc'g'", "ID=", "id"), None);
}

#[test]
fn cookies_are_read_back() {
    let script = "document.cookie=\"__test=abc; path=/\"";
    assert_eq!(cookie_from_lowered(script, script), Ok(some("__test=abc")));
    let script = "x; document.cookie = '__test=1;2'";
    assert_eq!(cookie_from_lowered(script, script), Ok(some("__test=1")));
    let script = "document.cookie=\"a__test=b\" ; y";
    assert_eq!(cookie_from_lowered(script, script), Ok(some("a__test=b")));
}

#[test]
fn cookies_of_another_kind_do_not_count() {
    for script in [
        "",
        "document.cookie",
        "document.cookie=",
        "document.cookie=   ",
        "document.cookie='session=1'",
        "document.cookie=__test=1",
    ] {
        assert_eq!(cookie_from_lowered(script, script), Ok(None), "{}", script);
    }
}

#[test]
fn only_the_first_mention_of_the_cookie_counts() {
    let script = "document.cookie;x='__test=1'; document.cookie='__test=2'";
    assert_eq!(cookie_from_lowered(script, script), Ok(some("__test=1")));
    let script = "document.cookie='a'; document.cookie='__test=2'";
    assert_eq!(cookie_from_lowered(script, script), Ok(None));
}

#[test]
fn cookies_off_the_characters_are_an_error() {
    assert_eq!(cookie_from_lowered("é", "xdocument.cookie"), Err(OffBoundary));
    assert_eq!(cookie_from_lowered("", "xdocument.cookie"), Err(OffBoundary));
    assert_eq!(
        scan_html("<script>\u{130}é document.cookie='__test=1'</script>").unwrap().len(),
        1
    );
    assert!(scan_html("<script>\u{23a}document.cooki\u{212a}e document.cookie</script>").is_ok());
    assert!(scan_html("<script>\u{212a}€document.cookie='__test=1'</script>").is_err());
}

#[test]
fn text_is_one_piece() {
    assert_eq!(pieces("hello > world"), "[Text(\"hello > world\")]");
    assert_eq!(pieces(" \n"), "[Text(\" \\n\")]");
    assert_eq!(pieces(""), "[]");
}

#[test]
fn tags_are_cut_out_of_text() {
    let found = scan_html("a<b>c</b>d").unwrap();
    assert_eq!(found.len(), 5);
    assert!(matches!(&found[0], Piece::Text(t) if t == "a"));
    assert!(matches!(&found[1], Piece::Open(t) if t.name == "b" && matches!(t.kind, TagKind::Bold)));
    assert!(matches!(&found[2], Piece::Text(t) if t == "c"));
    assert!(matches!(&found[3], Piece::Close { form: false }));
    assert!(matches!(&found[4], Piece::Text(t) if t == "d"));
}

#[test]
fn unfinished_tags_run_to_the_end() {
    let tag = only_tag("<a href=\"x\"");
    assert_eq!(tag.name, "a");
    assert!(matches!(tag.kind, TagKind::Link(href) if href == "x"));
    assert_eq!(only_tag("<").name, "");
    assert_eq!(only_tag("<>").name, "");
    assert_eq!(only_tag("<a <b").name, "a");
}

#[test]
fn tags_have_a_kind() {
    assert!(matches!(only_tag("<div>").kind, TagKind::Div));
    assert!(matches!(only_tag("<h1>").kind, TagKind::Heading(1)));
    assert!(matches!(only_tag("<H2>").kind, TagKind::Heading(2)));
    assert!(matches!(only_tag("<h3>").kind, TagKind::Other));
    assert!(matches!(only_tag("<strong>").kind, TagKind::Bold));
    assert!(matches!(only_tag("<i>").kind, TagKind::Italic));
    assert!(matches!(only_tag("<em x>").kind, TagKind::Italic));
    assert!(matches!(only_tag("<br/>").kind, TagKind::Other));
    assert!(matches!(only_tag("<!-- x -->").kind, TagKind::Other));
}

#[test]
fn tags_bring_their_attributes() {
    assert!(matches!(only_tag("<a>").kind, TagKind::Link(href) if href.is_empty()));
    assert!(matches!(only_tag("<form>").kind, TagKind::Form(None)));
    assert!(matches!(only_tag("<form ACTION='/go'>").kind, TagKind::Form(Some(to)) if to == "/go"));
    assert!(matches!(only_tag("<input>").kind, TagKind::Input(name) if name == "input"));
    assert!(matches!(only_tag("<input name=\"q\">").kind, TagKind::Input(name) if name == "q"));
    assert!(matches!(only_tag("<button>").kind, TagKind::Button(text) if text == "Submit"));
    assert!(matches!(only_tag("<button value=\"Go\">").kind, TagKind::Button(text) if text == "Go"));
    assert!(matches!(
        only_tag("<img>").kind,
        TagKind::Image { src, alt } if src.is_empty() && alt == "IMG"
    ));
    assert!(matches!(
        only_tag("<img src=\"a.png\" alt=\"A\">").kind,
        TagKind::Image { src, alt } if src == "a.png" && alt == "A"
    ));
    let tag = only_tag("<p class=\"A b\" id='C' style=\"color: red\">");
    assert_eq!((tag.class, tag.id, tag.style), (some("A b"), some("C"), some("color: red")));
}

#[test]
fn tag_names_are_the_first_word_in_lower_case() {
    assert_eq!(only_tag("<  ŁUK\tx>").name, "łuk");
    assert_eq!(only_tag("<\u{212a}>").name, "k");
}

#[test]
fn closing_tags() {
    assert_eq!(pieces("</form>"), "[Close { form: true }]");
    assert_eq!(pieces("</FORM >"), "[Close { form: true }]");
    assert_eq!(pieces("</forms>"), "[Close { form: false }]");
    assert_eq!(pieces("</>"), "[Close { form: false }]");
    assert_eq!(pieces("< /p>"), "[Close { form: false }]");
    assert_eq!(pieces("</ form"), "[Close { form: false }]");
}

#[test]
fn titles_are_trimmed() {
    assert_eq!(title_of("<title> A <b> title </title>rest"), some("A <b> title"));
    assert_eq!(title_of("<TITLE>x</TiTlE>"), some("x"));
    assert_eq!(title_of("<title></title>"), some(""));
    assert_eq!(title_of("<title>never closed"), None);
    assert_eq!(scan_html("<title>x</title>y").unwrap().len(), 2);
    assert_eq!(scan_html("<title>x").unwrap().len(), 1);
}

#[test]
fn content_that_is_not_shown() {
    assert_eq!(pieces("<style>p { } <b></STYLE>x"), "[Hidden, Text(\"x\")]");
    assert_eq!(pieces("<head><title>x</title></head>y"), "[Hidden, Text(\"y\")]");
    assert_eq!(pieces("<head>x"), "[Hidden]");
    assert_eq!(pieces("<style"), "[Hidden]");
}

#[test]
fn scripts_are_searched_for_the_cookie() {
    assert_eq!(script_of("<script>alert(1)</script>"), (None, false));
    assert_eq!(script_of("<script>location.reload()</script>"), (None, true));
    assert_eq!(
        script_of("<SCRIPT>Document.Cookie=\"__test=A; x\"; Location.Reload();</SCRIPT>x"),
        (some("__test=A"), true)
    );
    assert_eq!(script_of("<script>document.cookie='__test=1'"), (some("__test=1"), false));
}

#[test]
fn pages_off_the_characters_are_an_error() {
    assert_eq!(scan_html("<a \u{130}\u{130} href=\"é\">x</a>").err(), Some(OffBoundary));
    assert!(scan_html("<p \u{130}\u{130} href=\"é\">x</p>").is_ok());
    assert!(scan_html("<p \u{130}\u{130} class=\"é\">x</p>").is_err());
    assert!(scan_html("</p \u{130}\u{130} class=\"é\">").is_ok());
}

/// The end of the content, found the slow way: the first length at which the lower case of what was
/// read ends with the tag.
fn slow_end(content: &str, end: &str) -> Option<usize> {
    let mut read = String::new();
    for c in content.chars() {
        read.push(c);
        if read.to_lowercase().ends_with(end) {
            return Some(read.len());
        }
    }
    None
}

#[test]
fn closing_tags_are_found_as_in_lower_case_text() {
    for content in [
        "a</title>b",
        "a</TITLE>b</title>",
        "</T\u{130}TLE>x</title>",
        "</t\u{131}tle>x</title>",
        "\u{212a}\u{130}é</tiTle>",
        "</title </title>",
        "<</title>",
        "</titl",
        "Σ</title>Σ",
        "ＴＩＴＬＥ</title>",
    ] {
        let slow = slow_end(content, "</title>").map(|n| content[..n - 8].trim().to_string());
        assert_eq!(title_of(&format!("<title>{}", content)), slow, "{}", content);
    }
}

#[test]
fn only_ascii_letters_have_the_lower_case_of_the_tags() {
    for code in 0x80..=0x10ffffu32 {
        if let Some(c) = char::from_u32(code) {
            let low: Vec<char> = c.to_lowercase().collect();
            if low.iter().any(|l| l.is_ascii()) {
                assert!(c == '\u{212a}' || c == '\u{130}', "{:x}", code);
            }
        }
    }
    assert_eq!("\u{212a}".to_lowercase(), "k");
    assert_eq!("\u{130}".to_lowercase(), "i\u{307}");
}

#[test]
fn bytes_are_repaired() {
    assert_eq!(decode_text(&"żółw".as_bytes().to_vec()), "żółw");
    assert_eq!(decode_text(&vec![b'a', 0xff, b'b']), "a\u{fffd}b");
    assert_eq!(decode_text(&vec![0xc5]), "\u{fffd}");
    assert_eq!(decode_text(&Vec::new()), "");
}

#[test]
fn what_stands_behind_a_piece_is_cut_as_if_it_stood_alone() {
    let firsts = [
        "<p class='x'>",
        "<a href=\"<\">",
        "</p>",
        "</form>",
        "<title> a <b> </TITLE>",
        "<style>p { }</Style>",
        "<head><title>x</title></head>",
        "<script>document.cookie='__test=1'</script>",
    ];
    for first in firsts {
        for rest in ["", "text", "<b>x</b>", "</title>", " <title>y</title>z", "<"] {
            let mut apart = scan_html(first).unwrap();
            assert_eq!(apart.len(), 1);
            apart.extend(scan_html(rest).unwrap());
            let together = scan_html(&format!("{}{}", first, rest)).unwrap();
            assert_eq!(format!("{:?}", together), format!("{:?}", apart));
        }
    }
}
