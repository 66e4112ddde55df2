use termview::builder::{build_forest, MarkupEvent};
use termview::render::{classify_tag, find_href, CliTreeRenderer, RenderError, TagKind};
use termview::style::{write_styled, StyleFlags, TextStyle, TextStyling};
use termview::tree::TreeNode;

const BOLD: &str = "\x1b[1m";
const ITALIC: &str = "\x1b[3m";
const RESET: &str = "\x1b[0m";
const LINK_STYLE: &str = "\x1b[4m\x1b[58;2;0;0;255m";

fn start(name: &str) -> MarkupEvent {
    MarkupEvent::Start { name: name.to_string(), attributes: Vec::new() }
}

fn start_with(name: &str, attrs: &[(&str, &str)]) -> MarkupEvent {
    MarkupEvent::Start {
        name: name.to_string(),
        attributes: attrs.iter().map(|(k, v)| (k.to_string(), v.to_string())).collect(),
    }
}

fn text(raw: &str) -> MarkupEvent {
    MarkupEvent::Text(raw.to_string())
}

fn render_events(events: Vec<MarkupEvent>) -> Result<String, RenderError> {
    let forest = build_forest(events).unwrap();
    let mut r = CliTreeRenderer::new();
    let mut out = String::new();
    r.render_all(&forest, &mut out)?;
    Ok(out)
}

fn render_ok(events: Vec<MarkupEvent>) -> String {
    render_events(events).unwrap()
}

#[test]
fn paragraph_renders_text_and_line_break() {
    assert_eq!(render_ok(vec![start("p"), text("Hello"), MarkupEvent::End]), "Hello\n");
}

#[test]
fn heading_is_bold_then_line_break() {
    let out = render_ok(vec![start("h1"), text("Title"), MarkupEvent::End]);
    assert_eq!(out, format!("{BOLD}Title{RESET}\n"));
}

#[test]
fn unsupported_tag_is_an_error() {
    let r = render_events(vec![start("table"), text("x"), MarkupEvent::End]);
    match r {
        Err(RenderError::UnsupportedTag(t)) => assert_eq!(t, "table"),
        Ok(s) => panic!("rendered {s:?}"),
    }
}

#[test]
fn first_unsupported_tag_is_reported() {
    let r = render_events(vec![
        start("div"),
        start("form"),
        MarkupEvent::End,
        start("table"),
        MarkupEvent::End,
        MarkupEvent::End,
    ]);
    assert!(matches!(r, Err(RenderError::UnsupportedTag(t)) if t == "form"));
}

#[test]
fn unsupported_tag_inside_skipped_element_is_not_reached() {
    let out = render_ok(vec![start("script"), start("table"), MarkupEvent::End, MarkupEvent::End]);
    assert_eq!(out, "");
}

#[test]
fn plain_blocks_round_trip() {
    let out = render_ok(vec![
        start("div"),
        start("p"),
        text("a"),
        MarkupEvent::End,
        start("p"),
        text("b"),
        MarkupEvent::End,
        MarkupEvent::End,
    ]);
    assert_eq!(out, "a\nb\n\n");
}

#[test]
fn bold_twice_renders_as_bold_once() {
    let twice = render_ok(vec![
        start("b"),
        start("b"),
        text("X"),
        MarkupEvent::End,
        MarkupEvent::End,
    ]);
    let once = render_ok(vec![start("b"), text("X"), MarkupEvent::End]);
    assert_eq!(twice, once);
    assert_eq!(once, format!("{BOLD}X{RESET}"));
}

#[test]
fn bold_italic_nesting_order_does_not_matter() {
    let bi = render_ok(vec![start("b"), start("i"), text("X"), MarkupEvent::End, MarkupEvent::End]);
    let ib = render_ok(vec![start("i"), start("b"), text("X"), MarkupEvent::End, MarkupEvent::End]);
    assert_eq!(bi, ib);
    assert_eq!(bi, format!("{BOLD}{ITALIC}X{RESET}"));
}

#[test]
fn anchor_wraps_its_label_in_one_hyperlink() {
    let out = render_ok(vec![
        start_with("a", &[("href", "https://x")]),
        text("  "),
        start("b"),
        text("Y"),
        MarkupEvent::End,
        text("  "),
        MarkupEvent::End,
    ]);
    assert_eq!(out.matches("\x1b]8;;").count(), 2);
    let label = format!(
        "{LINK_STYLE} {RESET}\x1b[1m{LINK_STYLE}Y{RESET}{LINK_STYLE} {RESET}"
    );
    assert_eq!(out, format!("\x1b]8;;https://x\x1b\\{label}\x1b]8;;\x1b\\"));
}

#[test]
fn anchor_without_href_links_to_nothing() {
    let out = render_ok(vec![start("a"), MarkupEvent::End]);
    assert_eq!(out, "\x1b]8;;\x1b\\\x1b]8;;\x1b\\");
}

#[test]
fn first_href_wins() {
    let attrs = vec![
        ("id".to_string(), "z".to_string()),
        ("href".to_string(), "one".to_string()),
        ("href".to_string(), "two".to_string()),
    ];
    assert_eq!(find_href(&attrs), "one");
    assert_eq!(find_href(&Vec::new()), "");
}

#[test]
fn layout_tags() {
    assert_eq!(render_ok(vec![start("br"), MarkupEvent::End]), "\n");
    assert_eq!(
        render_ok(vec![start("hr"), MarkupEvent::End]),
        "\n-------------------------\n"
    );
    assert_eq!(
        render_ok(vec![start("li"), text("x"), MarkupEvent::End]),
        "  - x\n"
    );
    assert_eq!(
        render_ok(vec![start("title"), text("T"), MarkupEvent::End]),
        format!("\n{BOLD}T{RESET}\n----------\n")
    );
    assert_eq!(
        render_ok(vec![start("head"), start("meta"), MarkupEvent::End, start("small"), text("s"), MarkupEvent::End, MarkupEvent::End]),
        "s"
    );
    assert_eq!(
        render_ok(vec![start("u"), text("x"), MarkupEvent::End]),
        "\x1b[4mx\x1b[0m"
    );
}

#[test]
fn tag_classification() {
    assert_eq!(classify_tag("div"), TagKind::Block);
    assert_eq!(classify_tag("h7"), TagKind::Heading);
    assert_eq!(classify_tag("head"), TagKind::Inline);
    assert_eq!(classify_tag("hr"), TagKind::Rule);
    assert_eq!(classify_tag("b"), TagKind::Styled(TextStyling::Bold));
    assert_eq!(classify_tag("style"), TagKind::Skipped);
    assert_eq!(classify_tag("table"), TagKind::Unsupported);
    assert_eq!(classify_tag(""), TagKind::Unsupported);
}

#[test]
fn style_composition() {
    let mut s = TextStyle::new();
    let f = s.get_style();
    assert!(!f.bold && !f.italic && !f.underline && f.underline_color.is_none());
    s.push(TextStyling::Link);
    s.push(TextStyling::Bold);
    s.push(TextStyling::Bold);
    let f = s.get_style();
    assert!(f.bold && !f.italic && f.underline);
    assert_eq!(f.underline_color, Some((0, 0, 255)));
    s.pop();
    s.pop();
    s.pop();
    s.pop();
    assert!(!s.get_style().underline);
}

#[test]
fn render_tree_keeps_scopes_balanced() {
    let mut r = CliTreeRenderer::new();
    let mut out = String::new();
    let node = TreeNode::Node {
        name: "i".to_string(),
        attributes: vec![],
        children: vec![TreeNode::Text("a".to_string())],
    };
    r.render_tree(node, &mut out).unwrap();
    r.render_tree(TreeNode::Text("b".to_string()), &mut out).unwrap();
    assert_eq!(out, format!("{ITALIC}a{RESET}b"));
}

#[test]
fn heading_is_h_and_one_digit_only() {
    assert_eq!(classify_tag("h1"), TagKind::Heading);
    assert_eq!(classify_tag("h0"), TagKind::Heading);
    assert_eq!(classify_tag("h12"), TagKind::Unsupported);
    assert_eq!(classify_tag("h1x"), TagKind::Unsupported);
    let r = render_events(vec![start("h12"), text("x"), MarkupEvent::End]);
    assert!(matches!(r, Err(RenderError::UnsupportedTag(t)) if t == "h12"));
}

fn render_partial(events: Vec<MarkupEvent>) -> (String, Result<(), RenderError>) {
    let forest = build_forest(events).unwrap();
    let mut r = CliTreeRenderer::new();
    let mut out = String::new();
    let res = r.render_all(&forest, &mut out);
    (out, res)
}

#[test]
fn unsupported_tag_alone_writes_nothing() {
    let (out, res) = render_partial(vec![start("table"), MarkupEvent::End]);
    assert!(res.is_err());
    assert_eq!(out, "");
}

#[test]
fn output_before_the_failure_is_kept() {
    let (out, res) = render_partial(vec![
        start("p"),
        text("a"),
        MarkupEvent::End,
        start("li"),
        text("b"),
        start("table"),
        MarkupEvent::End,
        text("c"),
        MarkupEvent::End,
    ]);
    assert!(matches!(res, Err(RenderError::UnsupportedTag(t)) if t == "table"));
    assert_eq!(out, "a\n  - b");
}

#[test]
fn failing_anchor_writes_nothing_of_its_label() {
    let (out, res) = render_partial(vec![
        text("x"),
        start("a"),
        text("y"),
        start("form"),
        MarkupEvent::End,
        MarkupEvent::End,
    ]);
    assert!(res.is_err());
    assert_eq!(out, "x");
}

#[test]
fn style_codes_and_colour_digits() {
    let f = StyleFlags { bold: false, italic: true, underline: true, underline_color: Some((7, 42, 200)) };
    let mut out = String::from(">");
    write_styled(f, "x", &mut out);
    assert_eq!(out, ">\x1b[3m\x1b[4m\x1b[58;2;7;42;200mx\x1b[0m");
    let plain = StyleFlags { bold: false, italic: false, underline: false, underline_color: None };
    let mut out = String::new();
    write_styled(plain, "y", &mut out);
    assert_eq!(out, "y");
}
