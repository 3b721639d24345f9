use gruznet::css::{parse_css_sheet, Align, Color, CssStyle, StyleSheet};
use gruznet::markup::{scan_html, OffBoundary};
use gruznet::page::{render_html_to_blocks, render_pieces, try_render_html_to_blocks, BlockType, FetchResult};

fn render(html: &str) -> FetchResult {
    render_html_to_blocks(html, "http://a.com/x", &StyleSheet::new())
}

fn styled(html: &str, css: &str) -> FetchResult {
    let mut sheet = StyleSheet::new();
    parse_css_sheet(css, &mut sheet);
    render_html_to_blocks(html, "http://a.com/x", &sheet)
}

fn show(style: &CssStyle) -> String {
    format!("{:?}", style)
}

fn texts(page: &FetchResult) -> Vec<String> {
    page.blocks.iter().map(|b| b.text.clone()).collect()
}

#[test]
fn text_is_one_paragraph() {
    let page = render("hello");
    assert_eq!(page.blocks.len(), 1);
    assert_eq!(page.blocks[0].text, "hello");
    assert!(matches!(page.blocks[0].block_type, BlockType::Paragraph));
    assert_eq!(show(&page.blocks[0].style), show(&CssStyle::default()));
    assert_eq!(page.url, "http://a.com/x");
    assert_eq!(page.title, None);
    assert!(page.favicon_raw.is_none());
    assert!(page.alerts.is_empty());
    assert_eq!(page.new_cookie, None);
    assert_eq!(page.auto_redirect, None);
    assert!(!page.is_secure);
}

#[test]
fn white_space_is_no_block() {
    assert!(render(" \n\t ").blocks.is_empty());
    assert!(render("").blocks.is_empty());
    assert!(render("<p> </p>\n<div></div>").blocks.is_empty());
}

#[test]
fn white_space_waits_for_the_next_text() {
    assert_eq!(texts(&render(" <b>x</b> y")), [" x", " y"]);
    assert_eq!(texts(&render("a<br> \n<br>b")), ["a", " \nb"]);
}

#[test]
fn encrypted_pages_are_secure() {
    let page = render_html_to_blocks("x", "https://a.com", &StyleSheet::new());
    assert!(page.is_secure);
    assert_eq!(page.url, "https://a.com");
}

#[test]
fn tags_give_blocks_their_kind() {
    let page = render("<h1>A</h1><h2>B</h2><div>C</div><a href=\"d\">D</a><p>E</p>F");
    assert_eq!(texts(&page), ["A", "B", "C", "D", "E", "F"]);
    assert!(matches!(page.blocks[0].block_type, BlockType::Heading(1)));
    assert!(matches!(page.blocks[1].block_type, BlockType::Heading(2)));
    assert!(matches!(page.blocks[2].block_type, BlockType::Div));
    assert!(matches!(&page.blocks[3].block_type, BlockType::Link(href) if href == "d"));
    assert!(matches!(page.blocks[4].block_type, BlockType::Paragraph));
    assert!(matches!(page.blocks[5].block_type, BlockType::Paragraph));
}

#[test]
fn any_closing_tag_ends_the_kind() {
    let page = render("<h1>A</x>B");
    assert!(matches!(page.blocks[0].block_type, BlockType::Heading(1)));
    assert!(matches!(page.blocks[1].block_type, BlockType::Paragraph));
}

#[test]
fn fields_buttons_and_pictures_are_blocks() {
    let page = render("<input name=\"q\"><button value=\"Go\">text<img src=\"a.png\" alt=\"A\">");
    assert_eq!(texts(&page), ["", "Go", "text", ""]);
    assert!(matches!(
        &page.blocks[0].block_type,
        BlockType::Input { name, value } if name == "q" && value.is_empty()
    ));
    assert!(matches!(
        &page.blocks[1].block_type,
        BlockType::Button { text, action_url: None } if text == "Go"
    ));
    assert!(matches!(page.blocks[2].block_type, BlockType::Paragraph));
    assert!(matches!(
        &page.blocks[3].block_type,
        BlockType::Image { src, alt, raw_image: None } if src == "a.png" && alt == "A"
    ));
}

#[test]
fn buttons_know_their_form() {
    let page = render("<form action=\"/go\"><button><p></p><button></form><button>");
    let actions: Vec<Option<String>> = page
        .blocks
        .iter()
        .map(|b| match &b.block_type {
            BlockType::Button { action_url, .. } => action_url.clone(),
            other => panic!("{:?}", other),
        })
        .collect();
    assert_eq!(actions, [Some("/go".to_string()), Some("/go".to_string()), None]);
    let page = render("<form action=\"/go\"><form><button>");
    assert!(matches!(
        &page.blocks[0].block_type,
        BlockType::Button { action_url: None, .. }
    ));
}

#[test]
fn bold_and_italic() {
    let page = render("<b>x</b><strong>x</strong><i>x</i><em>x</em>x");
    let marks: Vec<(bool, bool)> =
        page.blocks.iter().map(|b| (b.style.is_bold, b.style.is_italic)).collect();
    assert_eq!(
        marks,
        [(true, false), (true, false), (false, true), (false, true), (false, false)]
    );
}

#[test]
fn an_inner_tag_replaces_the_style() {
    let page = render("<div style=\"color: red\">a<b>b");
    assert_eq!(page.blocks[0].style.text_color, Some(Color::Red));
    assert_eq!(page.blocks[1].style.text_color, None);
    assert!(page.blocks[1].style.is_bold);
    assert!(matches!(page.blocks[1].block_type, BlockType::Paragraph));
}

#[test]
fn the_cascade_goes_from_name_to_own_declarations() {
    let css = "p { color: red; padding: 1; border: red; background-color: red; text-align: right } \
               .c { color: blue; padding: 2; border: blue; background-color: blue } \
               .d { padding: 3; border: green } \
               #i { border: white }";
    let page = styled("<p class=\"c D\" id=\"I\" style=\"background-color: black\">x", css);
    let style = &page.blocks[0].style;
    assert_eq!(style.align, Some(Align::Max));
    assert_eq!(style.text_color, Some(Color::Blue));
    assert_eq!(style.padding, Some("3".to_string()));
    assert_eq!(style.border_color, Some(Color::White));
    assert_eq!(style.bg_color, Some(Color::Black));
}

#[test]
fn own_declarations_win() {
    let css = "p, .c, #i { color: red; font-size: 9 }";
    let page = styled("<p class='c' id='i' style='color: blue'>x", css);
    assert_eq!(page.blocks[0].style.text_color, Some(Color::Blue));
    assert_eq!(page.blocks[0].style.font_size, Some("9".to_string()));
}

#[test]
fn class_and_id_selectors_are_lowered() {
    let page = styled("<p class=\"ŁUK\">x</p><p id=\"ŻÓŁW\">y", ".łuk { color: red } #żółw { color: blue }");
    assert_eq!(page.blocks[0].style.text_color, Some(Color::Red));
    assert_eq!(page.blocks[1].style.text_color, Some(Color::Blue));
}

#[test]
fn the_id_is_taken_with_its_space() {
    let page = styled("<p id=\" i\">x", "#i { color: red }");
    assert_eq!(page.blocks[0].style.text_color, None);
}

#[test]
fn style_sheets_change_only_styles() {
    let html = "<title>t</title><h1>A</h1><img src=\"x\"><p class=\"c\">B<input>";
    let plain = render(html);
    let other = styled(html, "h1, p, .c, img, input { color: red; padding: 3 }");
    assert_eq!(texts(&plain), texts(&other));
    assert_eq!(plain.title, other.title);
    for (a, b) in plain.blocks.iter().zip(other.blocks.iter()) {
        assert_eq!(format!("{:?}", a.block_type), format!("{:?}", b.block_type));
        assert_eq!(a.style.text_color, None);
        assert_eq!(b.style.text_color, Some(Color::Red));
    }
}

#[test]
fn titles_are_kept() {
    assert_eq!(render("<title> T </title>x").title, Some("T".to_string()));
    assert_eq!(render("<title>a</title><title>b</title>").title, Some("b".to_string()));
    assert_eq!(render("<title>a</title><title>b").title, Some("a".to_string()));
    assert_eq!(render("<head><title>a</title></head>x").title, None);
}

#[test]
fn hidden_content_makes_no_block() {
    assert_eq!(texts(&render("a<style>b</style>c<script>d</script>e<head>f</head>g")), ["a", "c", "e", "g"]);
}

#[test]
fn scripts_leave_a_cookie_and_ask_for_the_page_again() {
    let page = render("<script>document.cookie=\"__test=1; x\"; location.reload();</script>");
    assert_eq!(page.new_cookie, Some("__test=1".to_string()));
    assert_eq!(page.auto_redirect, Some("http://a.com/x".to_string()));
    let page = render("<script>document.cookie='__test=1'</script>");
    assert_eq!(page.new_cookie, Some("__test=1".to_string()));
    assert_eq!(page.auto_redirect, None);
    let page = render("<script>location.reload();</script>");
    assert_eq!(page.new_cookie, None);
    assert_eq!(page.auto_redirect, None);
    let page = render("<script>document.cookie='other=1'; location.reload();</script>");
    assert_eq!(page.auto_redirect, None);
}

#[test]
fn the_last_cookie_counts_and_one_reload_is_enough() {
    let page = render(
        "<script>document.cookie='__test=1'; location.reload()</script>\
         <script>document.cookie='__test=2'</script>",
    );
    assert_eq!(page.new_cookie, Some("__test=2".to_string()));
    assert_eq!(page.auto_redirect, Some("http://a.com/x".to_string()));
}

#[test]
fn blocks_are_worth_showing() {
    let page = render("<p> </p><input><div>x</div><img><a></a> <button></button>");
    for block in &page.blocks {
        let widget = matches!(
            block.block_type,
            BlockType::Input { .. } | BlockType::Button { .. } | BlockType::Image { raw_image: None, .. }
        );
        assert!(widget || !block.text.trim().is_empty());
    }
    assert_eq!(page.blocks.len(), 4);
}

#[test]
fn pieces_can_be_laid_out_by_themselves() {
    let pieces = scan_html("<h1>A</h1>B").unwrap();
    let page = render_pieces(&pieces, "http://a.com/x", &StyleSheet::new());
    assert_eq!(format!("{:?}", page), format!("{:?}", render("<h1>A</h1>B")));
}

#[test]
fn pages_that_cannot_be_read() {
    let sheet = StyleSheet::new();
    let read = try_render_html_to_blocks("<a \u{130}\u{130} href=\"é\">x</a>", "u", &sheet);
    assert_eq!(read.err(), Some(OffBoundary));
    let read = try_render_html_to_blocks("<a href=\"é\">x</a>", "u", &sheet).unwrap();
    assert!(matches!(&read.blocks[0].block_type, BlockType::Link(href) if href == "é"));
}

#[test]
fn copies_are_equal() {
    let page = styled("<h1>A</h1><a href=\"b\">B</a><input><button><img src=\"c\">", "a { padding: 1 }");
    for block in &page.blocks {
        assert_eq!(format!("{:?}", block.clone()), format!("{:?}", block));
    }
}

#[test]
fn an_element_is_one_block() {
    for (tag, close) in [("h1 class='c'", "h1"), ("div", "x"), ("B", "b"), ("a href='y'", "A")] {
        let page = styled(&format!("<{}>text</{}>", tag, close), "h1 { padding: 1 } .c { color: red }");
        assert_eq!(texts(&page), ["text"]);
    }
    let page = styled("<h1 class='c'>text</h1>", "h1 { padding: 1 } .c { color: red }");
    assert!(matches!(page.blocks[0].block_type, BlockType::Heading(1)));
    assert_eq!(page.blocks[0].style.padding, Some("1".to_string()));
    assert_eq!(page.blocks[0].style.text_color, Some(Color::Red));
    let page = render("<button>text</button>");
    assert_eq!(texts(&page), ["Submit", "text"]);
}

#[test]
fn texts_hold_no_tags_and_headings_have_two_levels() {
    let page = render(
        "a<h1>b</h1>c<h2>d</h2>e<h3>f</h3><input name='n'>g<img src='i' alt='x<y'>h<button value='<b'>i <",
    );
    let mut levels: Vec<u8> = Vec::new();
    for block in &page.blocks {
        match &block.block_type {
            BlockType::Heading(level) => levels.push(*level),
            BlockType::Input { value, .. } => assert!(value.is_empty() && block.text.is_empty()),
            BlockType::Image { raw_image, .. } => assert!(raw_image.is_none() && block.text.is_empty()),
            BlockType::Button { text, .. } => {
                assert_eq!(block.text, "<b");
                assert_eq!(block.text, *text);
            }
            _ => {}
        }
        if !matches!(block.block_type, BlockType::Button { .. }) {
            assert!(!block.text.contains('<'));
        }
    }
    assert_eq!(levels, vec![1, 2]);
}
