use vstd::prelude::*;

verus! {

/// A node of the content tree: an element with its attributes and children,
/// or a run of text.
#[derive(Debug)]
pub enum TreeNode {
    Node { name: String, attributes: Vec<(String, String)>, children: Vec<TreeNode> },
    Text(String),
}

/// The mathematical content of a `TreeNode`.
pub enum Tree {
    Element { name: Seq<char>, attributes: Seq<(Seq<char>, Seq<char>)>, children: Seq<Tree> },
    Text { value: Seq<char> },
}

/// The characters of each attribute's name and value.
pub open spec fn attrs_view(a: Seq<(String, String)>) -> Seq<(Seq<char>, Seq<char>)> {
    a.map_values(|p: (String, String)| (p.0@, p.1@))
}

/// The content of one node.
pub open spec fn tree_of(n: TreeNode) -> Tree
    decreases n,
{
    match n {
        TreeNode::Node { name, attributes, children } => Tree::Element {
            name: name@,
            attributes: attrs_view(attributes@),
            children: forest_of(children@),
        },
        TreeNode::Text(t) => Tree::Text { value: t@ },
    }
}

/// The content of a forest, tree by tree.
pub open spec fn forest_of(f: Seq<TreeNode>) -> Seq<Tree>
    decreases f,
{
    if f.len() == 0 {
        Seq::<Tree>::empty()
    } else {
        forest_of(f.drop_last()).push(tree_of(f.last()))
    }
}

/// Number of nodes in a tree, the root included.
pub open spec fn tree_size(t: Tree) -> nat
    decreases t,
{
    match t {
        Tree::Element { children, .. } => 1 + trees_size(children),
        Tree::Text { .. } => 1,
    }
}

/// Number of nodes in a forest.
pub open spec fn trees_size(f: Seq<Tree>) -> nat
    decreases f,
{
    if f.len() == 0 {
        0
    } else {
        trees_size(f.drop_last()) + tree_size(f.last())
    }
}

/// What a pre-order walk meets at a node: an element's name, or a text.
pub enum Label {
    Element(Seq<char>),
    Text(Seq<char>),
}

/// The nodes of a tree in pre-order: element names and texts.
pub open spec fn tree_labels(t: Tree) -> Seq<Label>
    decreases t,
{
    match t {
        Tree::Element { name, children, .. } => seq![Label::Element(name)] + trees_labels(children),
        Tree::Text { value } => seq![Label::Text(value)],
    }
}

/// The nodes of a forest in pre-order: element names and texts.
pub open spec fn trees_labels(f: Seq<Tree>) -> Seq<Label>
    decreases f,
{
    if f.len() == 0 {
        Seq::<Label>::empty()
    } else {
        trees_labels(f.drop_last()) + tree_labels(f.last())
    }
}

} // verus!
