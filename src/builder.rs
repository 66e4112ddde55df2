use vstd::prelude::*;

use crate::text::{strip_indent, strip_text_indent};
use crate::tree::{
    attrs_view, forest_of, tree_labels, Label, tree_of, tree_size, trees_labels, trees_size, Tree, TreeNode,
};

verus! {

/// One event of a markup token stream.
#[derive(Debug)]
pub enum MarkupEvent {
    /// An element opens.
    Start { name: String, attributes: Vec<(String, String)> },
    /// The innermost open element closes.
    End,
    /// A run of raw text.
    Text(String),
}

/// Why a token stream could not be assembled into a tree.
#[derive(Debug, PartialEq, Eq, Structural)]
pub enum BuildError {
    /// An element was closed while none was open.
    StructuralMisuse,
}

/// Adds `t` as the last child of the innermost open element, or, where no
/// element is open (or the innermost open node is text), as the last root.
pub open spec fn attach(stack: Seq<Tree>, root: Seq<Tree>, t: Tree) -> (Seq<Tree>, Seq<Tree>) {
    if stack.len() > 0 && stack.last() is Element {
        let top = stack.last();
        (
            stack.drop_last().push(
                Tree::Element {
                    name: top->name,
                    attributes: top->attributes,
                    children: top->children.push(t),
                },
            ),
            root,
        )
    } else {
        (stack, root.push(t))
    }
}

/// The open elements and the finished roots after a stream of events, or
/// `None` where some event closed an element while none was open.
pub open spec fn build_state(events: Seq<MarkupEvent>) -> Option<(Seq<Tree>, Seq<Tree>)>
    decreases events.len(),
{
    if events.len() == 0 {
        Some((Seq::<Tree>::empty(), Seq::<Tree>::empty()))
    } else {
        match build_state(events.drop_last()) {
            None => None,
            Some(state) => {
                let (stack, root) = state;
                match events.last() {
                    MarkupEvent::Start { name, attributes } => Some(
                        (
                            stack.push(
                                Tree::Element {
                                    name: name@,
                                    attributes: attrs_view(attributes@),
                                    children: Seq::<Tree>::empty(),
                                },
                            ),
                            root,
                        ),
                    ),
                    MarkupEvent::End => if stack.len() == 0 {
                        None
                    } else {
                        Some(attach(stack.drop_last(), root, stack.last()))
                    },
                    MarkupEvent::Text(raw) => if strip_indent(raw@).len() == 0 {
                        Some((stack, root))
                    } else {
                        Some(attach(stack, root, Tree::Text { value: strip_indent(raw@) }))
                    },
                }
            },
        }
    }
}

/// The roots that a stream of events builds, or `None` for a misuse.
pub open spec fn built_forest(events: Seq<MarkupEvent>) -> Option<Seq<Tree>> {
    match build_state(events) {
        Some(state) => Some(state.1),
        None => None,
    }
}

/// Assembles content trees from markup events, one event at a time.
pub struct AstBuilder {
    root: Vec<TreeNode>,
    stack: Vec<TreeNode>,
}

impl AstBuilder {
    /// The finished roots, in order.
    pub closed spec fn roots(&self) -> Seq<Tree> {
        forest_of(self.root@)
    }

    /// The open nodes, outermost first.
    pub closed spec fn open_nodes(&self) -> Seq<Tree> {
        forest_of(self.stack@)
    }

    /// A builder with nothing open and nothing finished.
    pub fn new() -> (r: Self)
        ensures
            r.roots() == Seq::<Tree>::empty(),
            r.open_nodes() == Seq::<Tree>::empty(),
    {
        AstBuilder { root: Vec::new(), stack: Vec::new() }
    }

    /// Opens `node`: it becomes the innermost open node.
    pub fn node_start(&mut self, node: TreeNode)
        ensures
            final(self).open_nodes() == old(self).open_nodes().push(tree_of(node)),
            final(self).roots() == old(self).roots(),
    {
        let ghost s = self.stack@;
        self.stack.push(node);
        assert(self.stack@.drop_last() == s);
    }

    /// Closes the innermost open node and attaches it to the node that
    /// encloses it, or to the roots. With nothing open this is a misuse:
    /// the builder is left as it was.
    pub fn node_end(&mut self) -> (r: Result<(), BuildError>)
        ensures
            r is Err <==> old(self).open_nodes().len() == 0,
            r is Err ==> final(self).open_nodes() == old(self).open_nodes() && final(self).roots()
                == old(self).roots(),
            r is Ok ==> (final(self).open_nodes(), final(self).roots()) == attach(
                old(self).open_nodes().drop_last(),
                old(self).roots(),
                old(self).open_nodes().last(),
            ),
    {
        let ghost s = self.stack@;
        match self.stack.pop() {
            None => Err(BuildError::StructuralMisuse),
            Some(node) => {
                assert(s.drop_last() == self.stack@);
                self.push_node(node);
                Ok(())
            },
        }
    }

    /// Attaches `node` as the last child of the innermost open element, or
    /// as the last root where no element is innermost.
    pub fn push_node(&mut self, node: TreeNode)
        ensures
            (final(self).open_nodes(), final(self).roots()) == attach(
                old(self).open_nodes(),
                old(self).roots(),
                tree_of(node),
            ),
    {
        let ghost s = self.stack@;
        let ghost rt = self.root@;
        match self.stack.pop() {
            Some(TreeNode::Node { name, attributes, mut children }) => {
                let ghost c = children@;
                children.push(node);
                assert(children@.drop_last() == c);
                assert(forest_of(children@) == forest_of(c).push(tree_of(node)));
                self.stack.push(TreeNode::Node { name, attributes, children });
                assert(self.stack@.drop_last() == s.drop_last());
                assert(forest_of(s) == forest_of(s.drop_last()).push(tree_of(s.last())));
                assert(forest_of(s).drop_last() == forest_of(s.drop_last()));
                assert(self.open_nodes() == forest_of(s.drop_last()).push(tree_of(self.stack@.last())));
                assert(self.open_nodes() == attach(forest_of(s), forest_of(rt), tree_of(node)).0);
            },
            Some(other) => {
                self.stack.push(other);
                assert(self.stack@ == s);
                assert(forest_of(s) == forest_of(s.drop_last()).push(tree_of(s.last())));
                self.root.push(node);
                assert(self.root@.drop_last() == rt);
                assert(self.roots() == forest_of(rt).push(tree_of(node)));
            },
            None => {
                self.root.push(node);
                assert(self.root@.drop_last() == rt);
            },
        }
    }

    /// Hands out the finished roots and leaves the builder empty. Nodes that
    /// are still open are dropped.
    pub fn finish(&mut self) -> (r: Vec<TreeNode>)
        ensures
            forest_of(r@) == old(self).roots(),
            final(self).roots() == Seq::<Tree>::empty(),
            final(self).open_nodes() == Seq::<Tree>::empty(),
    {
        let mut r: Vec<TreeNode> = Vec::new();
        std::mem::swap(&mut r, &mut self.root);
        self.stack = Vec::new();
        r
    }
}

/// A markup document, held for a tokenizer to read.
pub struct DocumentParser<'a> {
    input: &'a str,
}

impl<'a> DocumentParser<'a> {
    /// The document's characters.
    pub closed spec fn view(&self) -> Seq<char> {
        self.input@
    }

    /// Holds `input` as the document.
    pub fn new(input: &'a str) -> (r: Self)
        ensures
            r.view() == input@,
    {
        DocumentParser { input }
    }

    /// The document's text.
    pub fn input(&self) -> (r: &'a str)
        ensures
            r@ == self.view(),
    {
        self.input
    }
}

/// Assembles a token stream into a forest. Every event is applied in order;
/// text is normalized and kept only where something is left of it. An event
/// that closes an element while none is open is a misuse, and no forest is
/// returned. Elements still open at the end are dropped.
pub fn build_forest(events: Vec<MarkupEvent>) -> (r: Result<Vec<TreeNode>, BuildError>)
    ensures
        r is Ok <==> built_forest(events@) is Some,
        r matches Ok(f) ==> built_forest(events@) == Some(forest_of(f@)),
{
    let mut b = AstBuilder::new();
    let ghost evs = events@;
    for ev in it: events
        invariant
            it.seq() == evs,
            build_state(evs.take(it.index() as int)) == Some((b.open_nodes(), b.roots())),
    {
        let ghost i = it.index() as int;
        assert(evs.take(i + 1).drop_last() == evs.take(i));
        assert(evs.take(i + 1).last() == ev);
        match ev {
            MarkupEvent::Start { name, attributes } => {
                let node = TreeNode::Node { name, attributes, children: Vec::new() };
                assert(forest_of(Seq::<TreeNode>::empty()) == Seq::<Tree>::empty());
                b.node_start(node);
            },
            MarkupEvent::End => {
                let r = b.node_end();
                if r.is_err() {
                    proof {
                        lemma_failure_persists(evs, i + 1);
                    }
                    return Err(BuildError::StructuralMisuse);
                }
            },
            MarkupEvent::Text(raw) => {
                let t = strip_text_indent(raw.as_str());
                if !t.as_str().is_empty() {
                    b.push_node(TreeNode::Text(t));
                }
            },
        }
    }
    assert(evs.take(evs.len() as int) == evs);
    Ok(b.finish())
}

/// Once a prefix of the stream is a misuse, so is the whole stream.
proof fn lemma_failure_persists(events: Seq<MarkupEvent>, i: int)
    requires
        0 <= i <= events.len(),
        build_state(events.take(i)) is None,
    ensures
        build_state(events) is None,
    decreases events.len() - i,
{
    if i < events.len() {
        assert(events.take(i + 1).drop_last() == events.take(i));
        lemma_failure_persists(events, i + 1);
    } else {
        assert(events.take(i) == events);
    }
}

/// How many elements are open after a stream of events.
pub open spec fn depth(events: Seq<MarkupEvent>) -> int
    decreases events.len(),
{
    if events.len() == 0 {
        0
    } else {
        depth(events.drop_last()) + match events.last() {
            MarkupEvent::Start { .. } => 1int,
            MarkupEvent::End => -1int,
            MarkupEvent::Text(_) => 0int,
        }
    }
}

/// Every end closes an element that a start opened before it, and every
/// start is closed.
pub open spec fn well_nested(events: Seq<MarkupEvent>) -> bool {
    &&& forall|i: int| 0 <= i <= events.len() ==> depth(#[trigger] events.take(i)) >= 0
    &&& depth(events) == 0
}

/// The number of start events.
pub open spec fn start_count(events: Seq<MarkupEvent>) -> nat
    decreases events.len(),
{
    if events.len() == 0 {
        0
    } else {
        start_count(events.drop_last()) + if events.last() is Start {
            1nat
        } else {
            0nat
        }
    }
}

/// The number of text events with something left after normalization.
pub open spec fn kept_text_count(events: Seq<MarkupEvent>) -> nat
    decreases events.len(),
{
    if events.len() == 0 {
        0
    } else {
        kept_text_count(events.drop_last()) + match events.last() {
            MarkupEvent::Text(raw) => if strip_indent(raw@).len() > 0 {
                1nat
            } else {
                0nat
            },
            _ => 0nat,
        }
    }
}

/// What each start event and each text event with something left after
/// normalization contributes to the forest, in order.
pub open spec fn event_labels(events: Seq<MarkupEvent>) -> Seq<Label>
    decreases events.len(),
{
    if events.len() == 0 {
        Seq::<Label>::empty()
    } else {
        event_labels(events.drop_last()) + match events.last() {
            MarkupEvent::Start { name, .. } => seq![Label::Element(name@)],
            MarkupEvent::Text(raw) => if strip_indent(raw@).len() > 0 {
                seq![Label::Text(strip_indent(raw@))]
            } else {
                Seq::<Label>::empty()
            },
            MarkupEvent::End => Seq::<Label>::empty(),
        }
    }
}

/// Whether every open node is an element.
pub open spec fn all_elements(stack: Seq<Tree>) -> bool {
    forall|i: int| 0 <= i < stack.len() ==> #[trigger] stack[i] is Element
}

proof fn lemma_push_measures(f: Seq<Tree>, t: Tree)
    ensures
        trees_size(f.push(t)) == trees_size(f) + tree_size(t),
        trees_labels(f.push(t)) == trees_labels(f) + tree_labels(t),
{
    assert(f.push(t).drop_last() == f);
}

/// Attaching a tree adds its nodes and its pre-order labels after those
/// already there.
proof fn lemma_attach_measures(stack: Seq<Tree>, root: Seq<Tree>, t: Tree)
    requires
        all_elements(stack),
    ensures
        all_elements(attach(stack, root, t).0),
        trees_size(attach(stack, root, t).1) + trees_size(attach(stack, root, t).0) == trees_size(
            root,
        ) + trees_size(stack) + tree_size(t),
        trees_labels(attach(stack, root, t).1) + trees_labels(attach(stack, root, t).0)
            == trees_labels(root) + trees_labels(stack) + tree_labels(t),
{
    if stack.len() > 0 {
        let top = stack.last();
        assert(top is Element);
        let c = top->children;
        let top2 = Tree::Element { name: top->name, attributes: top->attributes, children: c.push(t) };
        let dl = stack.drop_last();
        lemma_push_measures(c, t);
        lemma_push_measures(dl, top2);
        assert(stack == dl.push(top));
        lemma_push_measures(dl, top);
        assert(tree_labels(top2) == seq![Label::Element(top->name)] + trees_labels(c) + tree_labels(t));
        assert(tree_labels(top) == seq![Label::Element(top->name)] + trees_labels(c));
        assert(trees_labels(root) + trees_labels(dl.push(top2)) == trees_labels(root) + trees_labels(
            stack,
        ) + tree_labels(t));
        assert forall|i: int| 0 <= i < dl.push(top2).len() implies #[trigger] dl.push(top2)[i] is Element by {
            if i < dl.len() {
                assert(stack[i] is Element);
            }
        }
    } else {
        lemma_push_measures(root, t);
        assert(trees_labels(root.push(t)) + trees_labels(stack) == trees_labels(root) + trees_labels(
            stack,
        ) + tree_labels(t));
    }
}

/// What holds after every prefix of a stream that never closes more than
/// it opened.
proof fn lemma_build_invariant(events: Seq<MarkupEvent>)
    requires
        forall|i: int| 0 <= i <= events.len() ==> depth(#[trigger] events.take(i)) >= 0,
    ensures
        build_state(events) is Some,
        build_state(events)->Some_0.0.len() == depth(events),
        all_elements(build_state(events)->Some_0.0),
        trees_size(build_state(events)->Some_0.1) + trees_size(build_state(events)->Some_0.0)
            == start_count(events) + kept_text_count(events),
        trees_labels(build_state(events)->Some_0.1) + trees_labels(build_state(events)->Some_0.0)
            == event_labels(events),
    decreases events.len(),
{
    if events.len() > 0 {
        let p = events.drop_last();
        assert forall|i: int| 0 <= i <= p.len() implies depth(#[trigger] p.take(i)) >= 0 by {
            assert(p.take(i) == events.take(i));
        }
        lemma_build_invariant(p);
        let (stack, root) = build_state(p)->Some_0;
        assert(events.take(events.len() as int) == events);
        match events.last() {
            MarkupEvent::Start { name, attributes } => {
                let t = Tree::Element {
                    name: name@,
                    attributes: attrs_view(attributes@),
                    children: Seq::<Tree>::empty(),
                };
                lemma_push_measures(stack, t);
                assert(tree_labels(t) == seq![Label::Element(name@)] + Seq::<Label>::empty());
                assert(trees_labels(root) + trees_labels(stack.push(t)) == trees_labels(root)
                    + trees_labels(stack) + seq![Label::Element(name@)]);
                assert forall|i: int| 0 <= i < stack.push(t).len() implies #[trigger] stack.push(
                    t,
                )[i] is Element by {
                    if i < stack.len() {
                        assert(stack[i] is Element);
                    }
                }
            },
            MarkupEvent::End => {
                let dl = stack.drop_last();
                assert(stack == dl.push(stack.last()));
                lemma_push_measures(dl, stack.last());
                assert forall|i: int| 0 <= i < dl.len() implies #[trigger] dl[i] is Element by {
                    assert(stack[i] is Element);
                }
                lemma_attach_measures(dl, root, stack.last());
                assert(event_labels(events) == event_labels(p) + Seq::<Label>::empty());
            },
            MarkupEvent::Text(raw) => {
                let v = strip_indent(raw@);
                if v.len() > 0 {
                    let t = Tree::Text { value: v };
                    lemma_attach_measures(stack, root, t);
                } else {
                    assert(event_labels(events) == event_labels(p) + Seq::<Label>::empty());
                }
            },
        }
    }
}

/// For a well-nested stream, the forest holds one node per start event and
/// per text event with something left after normalization, and a pre-order
/// walk of it meets the elements and texts in the order of their events.
pub proof fn lemma_build_preserves_nodes_and_order(events: Seq<MarkupEvent>)
    requires
        well_nested(events),
    ensures
        built_forest(events) is Some,
        trees_size(built_forest(events)->Some_0) == start_count(events) + kept_text_count(events),
        trees_labels(built_forest(events)->Some_0) == event_labels(events),
{
    lemma_build_invariant(events);
    let (stack, root) = build_state(events)->Some_0;
    assert(stack.len() == 0);
    assert(trees_labels(root) + Seq::<Label>::empty() == trees_labels(root));
}

} // verus!
