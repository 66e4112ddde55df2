use termview::builder::{build_forest, AstBuilder, BuildError, DocumentParser, MarkupEvent};
use termview::tree::TreeNode;

fn start(name: &str) -> MarkupEvent {
    MarkupEvent::Start { name: name.to_string(), attributes: Vec::new() }
}

fn text(raw: &str) -> MarkupEvent {
    MarkupEvent::Text(raw.to_string())
}

fn count(n: &TreeNode) -> usize {
    match n {
        TreeNode::Text(_) => 1,
        TreeNode::Node { children, .. } => 1 + children.iter().map(count).sum::<usize>(),
    }
}

fn names(n: &TreeNode, out: &mut Vec<String>) {
    if let TreeNode::Node { name, children, .. } = n {
        out.push(name.clone());
        for c in children {
            names(c, out);
        }
    }
}

#[test]
fn paragraph_events_build_one_element_with_text() {
    let forest = build_forest(vec![start("p"), text("Hello"), MarkupEvent::End]).unwrap();
    assert_eq!(forest.len(), 1);
    match &forest[0] {
        TreeNode::Node { name, attributes, children } => {
            assert_eq!(name, "p");
            assert!(attributes.is_empty());
            assert_eq!(children.len(), 1);
            assert!(matches!(&children[0], TreeNode::Text(t) if t == "Hello"));
        }
        TreeNode::Text(_) => panic!("expected an element"),
    }
}

#[test]
fn end_without_open_element_is_structural_misuse() {
    let r = build_forest(vec![start("p"), MarkupEvent::End, MarkupEvent::End, text("x")]);
    assert_eq!(r.err(), Some(BuildError::StructuralMisuse));
    let r = build_forest(vec![MarkupEvent::End]);
    assert_eq!(r.err(), Some(BuildError::StructuralMisuse));
}

#[test]
fn node_end_on_empty_builder_fails_and_leaves_it_usable() {
    let mut b = AstBuilder::new();
    assert_eq!(b.node_end(), Err(BuildError::StructuralMisuse));
    b.push_node(TreeNode::Text("a".to_string()));
    let forest = b.finish();
    assert_eq!(forest.len(), 1);
}

#[test]
fn node_count_and_order_follow_the_events() {
    let events = vec![
        start("html"),
        start("body"),
        text("\n    "),
        start("h1"),
        text("Title"),
        MarkupEvent::End,
        start("p"),
        text("one"),
        start("b"),
        text("two"),
        MarkupEvent::End,
        MarkupEvent::End,
        text("   \n   "),
        MarkupEvent::End,
        MarkupEvent::End,
    ];
    let forest = build_forest(events).unwrap();
    assert_eq!(forest.len(), 1);
    // five starts, three texts that keep something: "\n    " becomes " ",
    // "   \n   " becomes "  "
    assert_eq!(count(&forest[0]), 5 + 5);
    let mut seen = Vec::new();
    names(&forest[0], &mut seen);
    assert_eq!(seen, vec!["html", "body", "h1", "p", "b"]);
}

#[test]
fn empty_text_is_not_kept() {
    let forest = build_forest(vec![start("div"), text(""), MarkupEvent::End]).unwrap();
    match &forest[0] {
        TreeNode::Node { children, .. } => assert!(children.is_empty()),
        TreeNode::Text(_) => panic!("expected an element"),
    }
}

#[test]
fn text_outside_elements_goes_to_the_roots() {
    let forest = build_forest(vec![text("a"), start("br"), MarkupEvent::End, text("b")]).unwrap();
    assert_eq!(forest.len(), 3);
    assert!(matches!(&forest[2], TreeNode::Text(t) if t == "b"));
}

#[test]
fn unclosed_elements_are_dropped_at_the_end() {
    let forest = build_forest(vec![text("a"), start("p"), text("b")]).unwrap();
    assert_eq!(forest.len(), 1);
}

#[test]
fn finish_empties_the_builder() {
    let mut b = AstBuilder::new();
    b.node_start(TreeNode::Node { name: "p".to_string(), attributes: vec![], children: vec![] });
    b.push_node(TreeNode::Text("x".to_string()));
    assert_eq!(b.node_end(), Ok(()));
    let first = b.finish();
    assert_eq!(first.len(), 1);
    assert_eq!(count(&first[0]), 2);
    assert!(b.finish().is_empty());
}

#[test]
fn document_parser_holds_its_input() {
    let p = DocumentParser::new("<p>x</p>");
    assert_eq!(p.input(), "<p>x</p>");
}
