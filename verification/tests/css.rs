use gruznet::css::{
    color_from_lowered, parse_color, parse_css_sheet, parse_css_style, Align, Color, CssStyle, StyleSheet,
};

fn show(style: &CssStyle) -> String {
    format!("{:?}", style)
}

fn sheet_of(css: &str) -> StyleSheet {
    let mut sheet = StyleSheet::new();
    parse_css_sheet(css, &mut sheet);
    sheet
}

fn text_color(sheet: &StyleSheet, selector: &str) -> Option<Color> {
    sheet.get(selector).and_then(|style| style.text_color)
}

#[test]
fn colors_have_names() {
    assert_eq!(parse_color("red"), Some(Color::Red));
    assert_eq!(parse_color("blue"), Some(Color::Blue));
    assert_eq!(parse_color("green"), Some(Color::Green));
    assert_eq!(parse_color("yellow"), Some(Color::Yellow));
    assert_eq!(parse_color("gray"), Some(Color::Gray));
    assert_eq!(parse_color("grey"), Some(Color::Gray));
    assert_eq!(parse_color("black"), Some(Color::Black));
    assert_eq!(parse_color("white"), Some(Color::White));
}

#[test]
fn color_names_in_any_case_with_space_around() {
    assert_eq!(parse_color("  ReD\n"), Some(Color::Red));
    assert_eq!(parse_color("GREY"), Some(Color::Gray));
    assert_eq!(parse_color("BLAC\u{212a}"), Some(Color::Black));
}

#[test]
fn other_colors_have_none() {
    for name in ["", "#ff0000", "purple", "re d", "redd", "rgb(1,2,3)", "\u{1e9e}"] {
        assert_eq!(parse_color(name), None);
    }
}

#[test]
fn lowered_color_names_are_taken_as_they_are() {
    assert_eq!(color_from_lowered("red"), Some(Color::Red));
    assert_eq!(color_from_lowered("white"), Some(Color::White));
    assert_eq!(color_from_lowered("Red"), None);
    assert_eq!(color_from_lowered(" red"), None);
}

#[test]
fn every_property_is_read() {
    let style = parse_css_style(
        "text-align: center; background-color: blue; color: red; font-size: 12px; padding: 3px; \
         border: green; font-weight: bold; font-style: italic",
    );
    assert_eq!(style.align, Some(Align::Center));
    assert_eq!(style.bg_color, Some(Color::Blue));
    assert_eq!(style.text_color, Some(Color::Red));
    assert_eq!(style.font_size, Some("12".to_string()));
    assert_eq!(style.padding, Some("3".to_string()));
    assert_eq!(style.border_color, Some(Color::Green));
    assert!(style.is_bold);
    assert!(style.is_italic);
}

#[test]
fn nothing_declared_is_nothing_set() {
    for s in ["", ";;", "color", "color red", "unknown: red", ":", "color:red:blue", "a:b:c;d"] {
        assert_eq!(show(&parse_css_style(s)), show(&CssStyle::default()), "{}", s);
    }
}

#[test]
fn alignment_is_left_unless_said_otherwise() {
    assert_eq!(parse_css_style("text-align:center").align, Some(Align::Center));
    assert_eq!(parse_css_style("text-align:right").align, Some(Align::Max));
    assert_eq!(parse_css_style("text-align:left").align, Some(Align::Min));
    assert_eq!(parse_css_style("text-align:CENTER").align, Some(Align::Min));
    assert_eq!(parse_css_style("text-align:").align, Some(Align::Min));
}

#[test]
fn property_names_in_any_case() {
    assert_eq!(parse_css_style("COLOR: Red").text_color, Some(Color::Red));
    assert_eq!(parse_css_style("bac\u{212a}ground-color: red").bg_color, Some(Color::Red));
    assert_eq!(parse_css_style("  Border-Color  : white ").border_color, Some(Color::White));
}

#[test]
fn the_last_declaration_wins() {
    assert_eq!(parse_css_style("color: red; color: blue").text_color, Some(Color::Blue));
    assert_eq!(parse_css_style("color: red; color: nonsense").text_color, None);
    assert_eq!(parse_css_style("font-size: 3; font-size: x").font_size, Some("3".to_string()));
    assert!(parse_css_style("font-weight: bold; font-weight: normal").is_bold);
    assert!(!parse_css_style("font-weight: Bold").is_bold);
}

#[test]
fn units_are_taken_out_of_sizes() {
    assert_eq!(parse_css_style("font-size: 12pt").font_size, Some("12".to_string()));
    assert_eq!(parse_css_style("font-size: 1px2pt").font_size, Some("12".to_string()));
    assert_eq!(parse_css_style("font-size: 12 px").font_size, Some("12".to_string()));
    assert_eq!(parse_css_style("font-size: ppxt5").font_size, Some("5".to_string()));
    assert_eq!(parse_css_style("font-size: 2em").font_size, None);
    assert_eq!(parse_css_style("font-size: 12PX").font_size, None);
    assert_eq!(parse_css_style("padding: 12pt").padding, None);
    assert_eq!(parse_css_style("padding: .5px").padding, Some(".5".to_string()));
}

#[test]
fn sizes_are_what_reads_as_a_number() {
    let letters: Vec<char> = "019.eE+-inf a".chars().collect();
    let mut words: Vec<String> = vec![String::new()];
    let mut layer: Vec<String> = vec![String::new()];
    for _ in 0..4 {
        let mut next: Vec<String> = Vec::new();
        for word in &layer {
            for c in &letters {
                next.push(format!("{}{}", word, c));
            }
        }
        words.extend(next.iter().cloned());
        layer = next;
    }
    for word in [
        "infinity", "Infinity", "-INFINITY", "infinit", "infinityy", "+nan", "NaN", "nAn", "--1", "1e10", "1.5e-3",
        "1e+", "1e1.5", "1_000", "0x10", "12345678901234567890", "1e999", "٣", "１",
    ] {
        words.push(word.to_string());
    }
    for word in &words {
        let read = parse_css_style(&format!("font-size:{}", word)).font_size;
        let number = word.trim();
        assert_eq!(read.is_some(), number.parse::<f32>().is_ok(), "{:?}", word);
        if let Some(literal) = read {
            assert_eq!(literal, number);
        }
    }
}

#[test]
fn properties_are_set_one_by_one() {
    let mut style = CssStyle::default();
    style.set_property("color", "red");
    style.set_property("Color", "blue");
    style.set_property("padding", " 7px ");
    style.set_property("font-style", "italic");
    assert_eq!(style.text_color, Some(Color::Red));
    assert_eq!(style.padding, Some("7".to_string()));
    assert!(style.is_italic);
    style.set_property("color", "none");
    assert_eq!(style.text_color, None);
}

#[test]
fn merging_takes_over_what_is_set() {
    let mut style = parse_css_style("color: red; font-size: 10; font-weight: bold; text-align: right");
    let over = parse_css_style("color: blue; padding: 2; font-style: italic");
    style.merge(&over);
    assert_eq!(style.text_color, Some(Color::Blue));
    assert_eq!(style.font_size, Some("10".to_string()));
    assert_eq!(style.padding, Some("2".to_string()));
    assert_eq!(style.align, Some(Align::Max));
    assert!(style.is_bold);
    assert!(style.is_italic);
}

#[test]
fn merging_nothing_changes_nothing() {
    let style = parse_css_style("color: red; border: gray; padding: 1");
    let mut left = style.clone();
    left.merge(&CssStyle::default());
    assert_eq!(show(&left), show(&style));
    let mut right = CssStyle::default();
    right.merge(&style);
    assert_eq!(show(&right), show(&style));
}

#[test]
fn merges_can_be_grouped_and_repeated() {
    let a = parse_css_style("color: red; padding: 1");
    let b = parse_css_style("color: blue; font-weight: bold");
    let c = parse_css_style("padding: 3; border: white");
    let mut left = a.clone();
    left.merge(&b);
    left.merge(&c);
    let mut tail = b.clone();
    tail.merge(&c);
    let mut right = a.clone();
    right.merge(&tail);
    assert_eq!(show(&left), show(&right));
    left.merge(&c);
    assert_eq!(show(&left), show(&right));
}

#[test]
fn rules_are_kept_by_selector() {
    let sheet = sheet_of("h1 { color: red } .note, #top { color: blue; padding: 4px }");
    assert_eq!(text_color(&sheet, "h1"), Some(Color::Red));
    assert_eq!(text_color(&sheet, ".note"), Some(Color::Blue));
    assert_eq!(text_color(&sheet, "#top"), Some(Color::Blue));
    assert_eq!(sheet.get("#top").unwrap().padding, Some("4".to_string()));
    assert!(sheet.get("h2").is_none());
    assert!(sheet.get("").is_none());
}

#[test]
fn selectors_are_lowered_and_trimmed() {
    let sheet = sheet_of(" H1 ,\n .ŁUKA ,, { color: red }");
    assert_eq!(text_color(&sheet, "h1"), Some(Color::Red));
    assert_eq!(text_color(&sheet, ".łuka"), Some(Color::Red));
    assert!(sheet.get("H1").is_none());
    assert!(sheet.get("").is_none());
}

#[test]
fn later_rules_are_merged() {
    let mut sheet = sheet_of("p { color: red; padding: 1 }");
    parse_css_sheet("p { color: blue }", &mut sheet);
    let style = sheet.get("p").unwrap();
    assert_eq!(style.text_color, Some(Color::Blue));
    assert_eq!(style.padding, Some("1".to_string()));
    parse_css_sheet("div { color: white }", &mut sheet);
    assert_eq!(text_color(&sheet, "p"), Some(Color::Blue));
    assert_eq!(text_color(&sheet, "div"), Some(Color::White));
}

#[test]
fn a_selector_named_twice_counts_once() {
    let once = sheet_of("p { color: red }");
    let twice = sheet_of("p, P , p { color: red }");
    assert_eq!(show(once.get("p").unwrap()), show(twice.get("p").unwrap()));
}

#[test]
fn rules_need_braces() {
    let sheet = sheet_of("p color: red } a { color: blue");
    assert!(sheet.get("p").is_none());
    assert_eq!(text_color(&sheet, "a"), Some(Color::Blue));
    assert!(sheet_of("").get("").is_none());
    assert_eq!(show(sheet_of("b {").get("b").unwrap()), show(&CssStyle::default()));
}

#[test]
fn nested_braces_end_at_the_first() {
    let sheet = sheet_of("@media x { p { color: red } q { color: blue } }");
    assert!(sheet.get("p").is_none());
    assert!(sheet.get("@media x").is_some());
    assert_eq!(text_color(&sheet, "q"), Some(Color::Blue));
}

#[test]
fn comments_say_nothing() {
    let sheet = sheet_of("/* p { color: red } */ a { color: /* red */ blue }");
    assert!(sheet.get("p").is_none());
    assert_eq!(text_color(&sheet, "a"), Some(Color::Blue));
    let plain = sheet_of("a { color: blue }");
    let commented = sheet_of("/* x * / y **/a { color: blue }");
    assert_eq!(show(plain.get("a").unwrap()), show(commented.get("a").unwrap()));
}

#[test]
fn comment_marks_go_wherever_they_stand() {
    assert_eq!(text_color(&sheet_of("a*/b { color: red }"), "ab"), Some(Color::Red));
    assert!(sheet_of("/*/*/ a { color: red }").get("a").is_none());
    assert!(sheet_of("a { color: red } /* b { color: red }").get("b").is_none());
    assert_eq!(text_color(&sheet_of("a/b { color: red }"), "a/b"), Some(Color::Red));
    assert_eq!(text_color(&sheet_of("a* { color: red }"), "a*"), Some(Color::Red));
}

const SHEETS: [&str; 5] = [
    "p { color: red; padding: 4px } .a, p { font-weight: bold }",
    "p { color: blue; font-size: 12pt }\n",
    ".a { text-align: right; background-color: nosuch } ",
    "",
    "/* p { color: green } */ div { border: gray; font-style: italic }",
];

fn same_rules(a: &StyleSheet, b: &StyleSheet) {
    for selector in ["p", ".a", "div", ""] {
        assert_eq!(a.get(selector).map(show), b.get(selector).map(show));
    }
}

#[test]
fn a_sheet_read_twice_counts_once() {
    for first in SHEETS {
        for second in SHEETS {
            let mut once = sheet_of(first);
            parse_css_sheet(second, &mut once);
            let mut twice = sheet_of(first);
            parse_css_sheet(second, &mut twice);
            parse_css_sheet(second, &mut twice);
            same_rules(&once, &twice);
        }
    }
}

#[test]
fn a_sheet_is_merged_into_what_was_read_before() {
    for first in SHEETS {
        for second in SHEETS {
            let before = sheet_of(first);
            let alone = sheet_of(second);
            let mut both = sheet_of(first);
            parse_css_sheet(second, &mut both);
            for selector in ["p", ".a", "div"] {
                let mut merged = before.get(selector).cloned().unwrap_or_default();
                merged.merge(&alone.get(selector).cloned().unwrap_or_default());
                let found = both.get(selector).cloned().unwrap_or_default();
                assert_eq!(show(&found), show(&merged));
            }
        }
    }
}

#[test]
fn sheets_in_a_row_are_read_one_after_the_other() {
    for first in [SHEETS[0], SHEETS[1], SHEETS[2], SHEETS[4]] {
        for second in SHEETS {
            let mut in_turn = sheet_of(first);
            parse_css_sheet(second, &mut in_turn);
            same_rules(&sheet_of(&format!("{}{}", first, second)), &in_turn);
        }
    }
    let open = sheet_of("p { color: red } /* p { color: blue }");
    assert_eq!(text_color(&open, "p"), Some(Color::Red));
    assert_eq!(text_color(&sheet_of("x p { color: red }"), "p"), None);
}

#[test]
fn a_sheet_takes_nothing_away() {
    let mut sheet = sheet_of(
        "p { color: red; background-color: blue; border: green; text-align: center; font-size: 9; \
         padding: 2; font-weight: bold; font-style: italic }",
    );
    parse_css_sheet(
        "p { color: nosuch; background-color: ; border: none; text-align: x; font-size: big; padding: a; \
         font-weight: normal; font-style: normal }",
        &mut sheet,
    );
    let style = sheet.get("p").unwrap();
    assert_eq!(style.text_color, Some(Color::Red));
    assert_eq!(style.bg_color, Some(Color::Blue));
    assert_eq!(style.border_color, Some(Color::Green));
    assert_eq!(style.align, Some(Align::Min));
    assert_eq!(style.font_size.as_deref(), Some("9"));
    assert_eq!(style.padding.as_deref(), Some("2"));
    assert!(style.is_bold && style.is_italic);
}

#[test]
fn declarations_in_a_row_are_read_one_after_the_other() {
    let first = "color: red; font-weight: bold";
    let second = " COLOR : nosuch;padding: 3px";
    let both = parse_css_style(&format!("{};{}", first, second));
    let mut in_turn = parse_css_style(first);
    in_turn.set_property("color", "nosuch");
    in_turn.set_property("padding", "3px");
    assert_eq!(show(&both), show(&in_turn));
    assert_eq!(both.text_color, None);
    assert!(both.is_bold);
    assert_eq!(show(&parse_css_style("color: red;")), show(&parse_css_style("color: red")));
}
