use gruznet::css::Color;
use gruznet::load::PageLoad;
use gruznet::page::{BlockType, FetchResult};
use gruznet::picture::ColorImage;

fn png(width: u32, height: u32, red: u8) -> Vec<u8> {
    let image = image::RgbaImage::from_pixel(width, height, image::Rgba([red, 0, 0, 255]));
    let mut bytes: Vec<u8> = Vec::new();
    image::DynamicImage::ImageRgba8(image)
        .write_to(&mut std::io::Cursor::new(&mut bytes), image::ImageOutputFormat::Png)
        .unwrap();
    bytes
}

/// Loads `url` from a network that answers as `answer` says. Gives the requests that were made, by
/// address and path, and the page.
fn load(
    url: &str,
    cookie: Option<&str>,
    answer: &dyn Fn(&str) -> Option<Vec<u8>>,
) -> (Vec<String>, Option<FetchResult>) {
    let mut asked: Vec<String> = Vec::new();
    let mut load = PageLoad::start(url.to_string(), cookie.map(|c| c.to_string()));
    while let Some(request) = load.next_request() {
        let path = request.text.split(' ').nth(1).unwrap().to_string();
        let place = format!("{}{}", request.address, path);
        assert_eq!(request.text.contains("Cookie: "), cookie.is_some());
        let reply = answer(&place);
        asked.push(place);
        load = match load.deliver(reply) {
            Ok(next) => next,
            Err(undecoded) => {
                let picture = ColorImage { width: 1, height: 1, pixels: vec![(9, 9, 9, 255)] };
                undecoded.load.deliver_read(Some(undecoded.bytes), Some(picture))
            }
        };
    }
    (asked, load.into_page())
}

const PAGE: &str = "<title>T</title>\
    <link rel=\"stylesheet\" href=\"/one.css\">\
    <style>p { color: red; padding: 1 }</style>\
    <LINK rel=\"stylesheet\" href=\"/never.css\">\
    <link rel=\"STYLESHEET\" href=\"http://b.com/two.css\">\
    <link rel=\"stylesheet\">\
    <link rel=\"icon\" href=\"old.ico\">\
    <link rel=\"shortcut icon\" href=\"new.ico\">\
    <p>text</p><img src=\"a.png\" alt=\"A\"><img src=\"b.png\">";

fn site(place: &str) -> Option<Vec<u8>> {
    match place {
        "a.com:443/x" => Some(PAGE.as_bytes().to_vec()),
        "a.com:443/one.css" => Some(b"p { color: blue; border: blue }".to_vec()),
        "b.com:80/two.css" => Some(b"p { border: white }".to_vec()),
        "a.com:443/a.png" => Some(png(2, 1, 200)),
        "a.com:443/b.png" => Some(b"no picture".to_vec()),
        "a.com:443/new.ico" => Some(png(1, 1, 7)),
        _ => None,
    }
}

fn picture(page: &FetchResult, at: usize) -> Option<&ColorImage> {
    match &page.blocks[at].block_type {
        BlockType::Image { raw_image, .. } => raw_image.as_ref(),
        other => panic!("{:?}", other),
    }
}

#[test]
fn everything_is_asked_for_in_order() {
    let (asked, page) = load("https://a.com/x", None, &site);
    assert_eq!(
        asked,
        [
            "a.com:443/x",
            "a.com:443/one.css",
            "b.com:80/two.css",
            "a.com:443/a.png",
            "a.com:443/b.png",
            "a.com:443/new.ico",
        ]
    );
    let page = page.unwrap();
    assert_eq!(page.url, "https://a.com/x");
    assert_eq!(page.title, Some("T".to_string()));
    assert!(page.is_secure);
    assert_eq!(page.blocks.len(), 3);
    assert_eq!(page.blocks[0].text, "text");
    assert_eq!(page.blocks[0].style.text_color, Some(Color::Blue));
    assert_eq!(page.blocks[0].style.border_color, Some(Color::White));
    assert_eq!(page.blocks[0].style.padding, Some("1".to_string()));
    let shown = picture(&page, 1).unwrap();
    assert_eq!((shown.width, shown.height), (2, 1));
    assert_eq!(shown.pixels, [(200, 0, 0, 255), (200, 0, 0, 255)]);
    assert!(picture(&page, 2).is_none());
    let icon = page.favicon_raw.unwrap();
    assert_eq!(icon.pixels, [(7, 0, 0, 255)]);
}

#[test]
fn the_cookie_goes_with_every_request() {
    let (asked, _) = load("https://a.com/x", Some("__test=1"), &site);
    assert_eq!(asked.len(), 6);
}

#[test]
fn what_does_not_come_is_left_out() {
    let only_page = |place: &str| if place == "a.com:443/x" { site(place) } else { None };
    let (asked, page) = load("https://a.com/x", None, &only_page);
    assert_eq!(asked.len(), 6);
    let page = page.unwrap();
    assert_eq!(page.blocks.len(), 3);
    assert_eq!(page.blocks[0].style.text_color, Some(Color::Red));
    assert_eq!(page.blocks[0].style.border_color, None);
    assert!(picture(&page, 1).is_none());
    assert!(page.favicon_raw.is_none());
}

#[test]
fn a_page_that_does_not_come_is_an_error() {
    let (asked, page) = load("https://a.com/nowhere", None, &site);
    assert_eq!(asked, ["a.com:443/nowhere"]);
    let page = page.unwrap();
    assert_eq!(page.title, Some("Error!".to_string()));
    assert_eq!(page.url, "https://a.com/nowhere");
    assert!(page.is_secure);
    assert!(page.blocks.is_empty());
    assert!(page.alerts.is_empty());
    assert!(page.favicon_raw.is_none());
    assert_eq!((page.new_cookie, page.auto_redirect), (None, None));
}

#[test]
fn without_a_link_the_icon_has_its_usual_place() {
    let plain = |place: &str| if place == "a.com:443/" { Some(b"hello".to_vec()) } else { None };
    let (asked, page) = load("https://a.com", None, &plain);
    assert_eq!(asked, ["a.com:443/", "a.com:80/favicon.ico"]);
    assert_eq!(page.unwrap().blocks[0].text, "hello");
}

#[test]
fn a_later_icon_link_without_an_address_counts() {
    let html = "<link rel=\"icon\" href=\"a.ico\"><link rel=\"icon\">";
    let one = |place: &str| if place == "a.com:80/" { Some(html.as_bytes().to_vec()) } else { None };
    let (asked, _) = load("a.com", None, &one);
    assert_eq!(asked, ["a.com:80/", "a.com:80/favicon.ico"]);
}

#[test]
fn a_link_can_be_sheet_and_icon() {
    let html = "<link rel=\"stylesheet icon\" href=\"both\"><link never closed";
    let one = |place: &str| if place == "a.com:80/" { Some(html.as_bytes().to_vec()) } else { None };
    let (asked, _) = load("a.com", None, &one);
    assert_eq!(asked, ["a.com:80/", "a.com:80/both", "a.com:80/both"]);
}

#[test]
fn inline_sheets_need_both_tags() {
    let html = "<style>p { color: red }</style><style >p { padding: 1 }</style><style>p { border: red }<p>x";
    let one = |place: &str| if place == "a.com:80/" { Some(html.as_bytes().to_vec()) } else { None };
    let (_, page) = load("a.com", None, &one);
    assert!(page.unwrap().blocks.is_empty());
    let html = "<STYLE>p { color: red }</STYLE><p>x";
    let two = |place: &str| if place == "a.com:80/" { Some(html.as_bytes().to_vec()) } else { None };
    let (_, page) = load("a.com", None, &two);
    assert_eq!(page.unwrap().blocks[0].style.text_color, None);
}

#[test]
fn faulty_bytes_are_repaired() {
    let one = |place: &str| if place == "a.com:80/" { Some(vec![b'a', 0xff]) } else { None };
    let (_, page) = load("a.com", None, &one);
    assert_eq!(page.unwrap().blocks[0].text, "a\u{fffd}");
}

#[test]
fn pages_that_cannot_be_read_come_to_an_end() {
    for html in ["<a \u{130}\u{130} href=\"é\">x</a>", "<link icon \u{130}\u{130} href=\"é\">"] {
        let one = |place: &str| if place == "a.com:80/" { Some(html.as_bytes().to_vec()) } else { None };
        let (asked, page) = load("a.com", None, &one);
        assert_eq!(asked, ["a.com:80/"]);
        assert!(page.is_none());
    }
}

#[test]
fn links_that_are_not_followed_need_not_be_read() {
    let html = "<link other \u{130}\u{130} href=\"é\">x";
    let one = |place: &str| if place == "a.com:80/" { Some(html.as_bytes().to_vec()) } else { None };
    let (asked, page) = load("a.com", None, &one);
    assert_eq!(asked, ["a.com:80/", "a.com:80/favicon.ico"]);
    assert_eq!(page.unwrap().blocks[0].text, "x");
}

#[test]
fn pictures_can_be_handed_in() {
    let mut load = PageLoad::start("a.com".to_string(), None);
    assert!(PageLoad::start("a.com".to_string(), None).into_page().is_none());
    load = load.deliver_read(Some(b"<img src=\"x\">".to_vec()), None);
    let picture = ColorImage { width: 1, height: 1, pixels: vec![(1, 2, 3, 255)] };
    load = load.deliver_read(None, Some(picture.clone()));
    load = load.deliver_read(None, Some(picture));
    assert!(load.next_request().is_none());
    load = load.deliver(Some(b"too late".to_vec())).ok().unwrap();
    let page = load.into_page().unwrap();
    assert!(matches!(
        &page.blocks[0].block_type,
        BlockType::Image { raw_image: Some(shown), .. } if shown.pixels == [(1, 2, 3, 255)]
    ));
    assert_eq!(page.favicon_raw.unwrap().pixels, [(1, 2, 3, 255)]);
}

/// The bytes of a WebP file that is stored without loss.
const LOSSLESS: [u8; 34] = [
    0x52, 0x49, 0x46, 0x46, 0x1a, 0x00, 0x00, 0x00, 0x57, 0x45, 0x42, 0x50, 0x56, 0x50, 0x38, 0x4c, 0x0d, 0x00,
    0x00, 0x00, 0x2f, 0x00, 0x00, 0x00, 0x10, 0x07, 0x10, 0x11, 0x11, 0x88, 0x88, 0xfe, 0x07, 0x00,
];

#[test]
fn answers_on_which_a_decoder_may_panic_are_handed_back() {
    let mut load = PageLoad::start("http://a.com/x".to_string(), None);
    load = load.deliver(Some(b"<img src='i'>".to_vec())).ok().unwrap();
    for _ in 0..2 {
        let asked = load.next_request().unwrap().text;
        let undecoded = load.deliver(Some(LOSSLESS.to_vec())).err().unwrap();
        assert_eq!(undecoded.bytes, LOSSLESS.to_vec());
        assert_eq!(undecoded.load.next_request().unwrap().text, asked);
        let image = image::load_from_memory(&undecoded.bytes).unwrap();
        assert_eq!((image.width(), image.height()), (1, 1));
        let picture = ColorImage { width: 1, height: 1, pixels: vec![(1, 2, 3, 255)] };
        load = undecoded.load.deliver_read(Some(undecoded.bytes), Some(picture));
    }
    let page = load.into_page().unwrap();
    assert_eq!(picture(&page, 0).unwrap().pixels, vec![(1, 2, 3, 255)]);
    assert_eq!(page.favicon_raw.unwrap().pixels, vec![(1, 2, 3, 255)]);
}

#[test]
fn such_bytes_as_a_page_or_a_sheet_are_taken() {
    let load = PageLoad::start("http://a.com/x".to_string(), None);
    assert!(load.deliver(Some(LOSSLESS.to_vec())).is_ok());
    let load = PageLoad::start("http://a.com/x".to_string(), None);
    let html = b"<link rel='stylesheet' href='s'>".to_vec();
    let load = load.deliver(Some(html)).ok().unwrap();
    assert!(load.deliver(Some(LOSSLESS.to_vec())).is_ok());
}

#[test]
fn every_picture_is_in_its_place() {
    let html = "<img src='1'>a<img src='2'><img src='no'>b<img src='4'>";
    let (_, page) = load("http://a.com/x", None, &|place: &str| match place {
        "a.com:80/x" => Some(html.as_bytes().to_vec()),
        "a.com:80/1" => Some(png(1, 1, 11)),
        "a.com:80/2" => Some(png(1, 1, 22)),
        "a.com:80/4" => Some(LOSSLESS.to_vec()),
        "a.com:80/favicon.ico" => Some(png(1, 1, 55)),
        _ => None,
    });
    let page = page.unwrap();
    assert_eq!(picture(&page, 0).unwrap().pixels, vec![(11, 0, 0, 255)]);
    assert_eq!(picture(&page, 2).unwrap().pixels, vec![(22, 0, 0, 255)]);
    assert!(picture(&page, 3).is_none());
    assert_eq!(picture(&page, 5).unwrap().pixels, vec![(9, 9, 9, 255)]);
    assert_eq!(page.favicon_raw.unwrap().pixels, vec![(55, 0, 0, 255)]);
}
