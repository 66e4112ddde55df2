use vstd::prelude::*;
use vstd::string::{StrSliceExecFns, StringExecFns};

use crate::style::{
    flags_of, has_styling, lemma_has_styling_push, start_of, styled, write_styled, TextStyle, TextStyling,
};
use crate::tree::TreeNode;

verus! {

/// What an element's name asks of the renderer.
#[derive(Clone, Copy, Debug, PartialEq, Eq, Structural)]
pub enum TagKind {
    /// Children, then a line break: `div`, `p`, `body`, `html`, `img`, `ul`.
    Block,
    /// Children and nothing more: `small`, `head`.
    Inline,
    /// Children under one more style scope: `b`, `i`, `u`.
    Styled(TextStyling),
    /// `h` and one ASCII digit (`h0` to `h9`): bold children, then a line break.
    Heading,
    /// `li`: a dash, the children, a line break.
    ListItem,
    /// `a`: the children's text as one hyperlink.
    Anchor,
    /// `meta`, `style`, `link`, `script`: nothing at all.
    Skipped,
    /// `br`: a line break.
    LineBreak,
    /// `hr`: a horizontal rule on a line of its own.
    Rule,
    /// `title`: bold children between a line break and a divider.
    Title,
    /// Any other name.
    Unsupported,
}

/// Why a tree could not be rendered.
#[derive(Debug)]
pub enum RenderError {
    /// An element whose name the renderer has no rule for.
    UnsupportedTag(String),
}

pub open spec fn is_heading_name(name: Seq<char>) -> bool {
    name.len() == 2 && name[0] == 'h' && '0' <= name[1] && name[1] <= '9'
}

/// The rule that applies to an element of the given name.
pub open spec fn tag_kind(name: Seq<char>) -> TagKind {
    if name == "div"@ || name == "p"@ || name == "body"@ || name == "html"@ || name == "img"@
        || name == "ul"@ {
        TagKind::Block
    } else if name == "small"@ {
        TagKind::Inline
    } else if name == "i"@ {
        TagKind::Styled(TextStyling::Italic)
    } else if name == "b"@ {
        TagKind::Styled(TextStyling::Bold)
    } else if name == "u"@ {
        TagKind::Styled(TextStyling::Underline)
    } else if name == "li"@ {
        TagKind::ListItem
    } else if is_heading_name(name) {
        TagKind::Heading
    } else if name == "a"@ {
        TagKind::Anchor
    } else if name == "head"@ {
        TagKind::Inline
    } else if name == "meta"@ || name == "style"@ || name == "link"@ || name == "script"@ {
        TagKind::Skipped
    } else if name == "br"@ {
        TagKind::LineBreak
    } else if name == "hr"@ {
        TagKind::Rule
    } else if name == "title"@ {
        TagKind::Title
    } else {
        TagKind::Unsupported
    }
}

/// The scopes in force for the children of an element of kind `k`.
pub open spec fn scopes_inside(st: Seq<TextStyling>, k: TagKind) -> Seq<TextStyling> {
    match k {
        TagKind::Styled(s) => st.push(s),
        TagKind::Heading => st.push(TextStyling::Bold),
        TagKind::Title => st.push(TextStyling::Bold),
        TagKind::Anchor => st.push(TextStyling::Link),
        _ => st,
    }
}

/// What an element of kind `k` writes before its children.
pub open spec fn opening_of(k: TagKind) -> Seq<char> {
    match k {
        TagKind::ListItem => "  - "@,
        TagKind::Title => "\n"@,
        _ => Seq::<char>::empty(),
    }
}

/// What an element of kind `k` writes after its children.
pub open spec fn closing_of(k: TagKind) -> Seq<char> {
    match k {
        TagKind::Block => "\n"@,
        TagKind::Heading => "\n"@,
        TagKind::ListItem => "\n"@,
        TagKind::Title => "\n----------\n"@,
        _ => Seq::<char>::empty(),
    }
}

/// The value of the first attribute named `href`, or nothing.
pub open spec fn href_of(attrs: Seq<(String, String)>) -> Seq<char>
    decreases attrs.len(),
{
    if attrs.len() == 0 {
        Seq::<char>::empty()
    } else if attrs[0].0@ == "href"@ {
        attrs[0].1@
    } else {
        href_of(attrs.drop_first())
    }
}

/// A terminal hyperlink: `ESC ]8;; url ESC \ label ESC ]8;; ESC \`.
pub open spec fn hyperlink(url: Seq<char>, label: Seq<char>) -> Seq<char> {
    "\x1b]8;;"@ + url + "\x1b\\"@ + label + "\x1b]8;;\x1b\\"@
}

/// The text that a node renders to under the scopes `st`, or the name of the
/// first element on the way that has no rule.
pub open spec fn render_node(n: TreeNode, st: Seq<TextStyling>) -> Result<Seq<char>, Seq<char>>
    decreases n,
{
    match n {
        TreeNode::Text(t) => Ok(styled(flags_of(st), t@)),
        TreeNode::Node { name, attributes, children } => {
            let k = tag_kind(name@);
            if k is Unsupported {
                Err(name@)
            } else if k is Skipped {
                Ok(Seq::<char>::empty())
            } else if k is LineBreak {
                Ok("\n"@)
            } else if k is Rule {
                Ok("\n-------------------------\n"@)
            } else {
                match render_forest(children@, scopes_inside(st, k)) {
                    Err(e) => Err(e),
                    Ok(body) => if k is Anchor {
                        Ok(hyperlink(href_of(attributes@), body))
                    } else {
                        Ok(opening_of(k) + body + closing_of(k))
                    },
                }
            }
        },
    }
}

/// The text that a forest renders to, tree after tree, or the first error.
pub open spec fn render_forest(f: Seq<TreeNode>, st: Seq<TextStyling>) -> Result<
    Seq<char>,
    Seq<char>,
>
    decreases f,
{
    if f.len() == 0 {
        Ok(Seq::<char>::empty())
    } else {
        match render_forest(f.drop_last(), st) {
            Err(e) => Err(e),
            Ok(front) => match render_node(f.last(), st) {
                Err(e) => Err(e),
                Ok(back) => Ok(front + back),
            },
        }
    }
}

/// What rendering a node writes before it fails: an element without a rule
/// writes nothing, an anchor writes nothing (its label was going to a buffer
/// of its own), any other element its opening and what its children wrote.
pub open spec fn partial_node(n: TreeNode, st: Seq<TextStyling>) -> Seq<char>
    decreases n,
{
    match n {
        TreeNode::Text(_) => Seq::<char>::empty(),
        TreeNode::Node { name, children, .. } => {
            let k = tag_kind(name@);
            if k is Unsupported || k is Anchor || k is Skipped || k is LineBreak || k is Rule {
                Seq::<char>::empty()
            } else {
                opening_of(k) + partial_forest(children@, scopes_inside(st, k))
            }
        },
    }
}

/// What rendering a forest writes before it fails: the text of the trees
/// before the first failing one, then what that one wrote.
pub open spec fn partial_forest(f: Seq<TreeNode>, st: Seq<TextStyling>) -> Seq<char>
    decreases f,
{
    if f.len() == 0 {
        Seq::<char>::empty()
    } else {
        match render_forest(f.drop_last(), st) {
            Err(_) => partial_forest(f.drop_last(), st),
            Ok(front) => front + partial_node(f.last(), st),
        }
    }
}

/// Once a prefix of a forest fails, the whole forest fails the same way.
proof fn lemma_forest_error_persists(f: Seq<TreeNode>, i: int, st: Seq<TextStyling>)
    requires
        0 <= i <= f.len(),
        render_forest(f.take(i), st) is Err,
    ensures
        render_forest(f, st) == render_forest(f.take(i), st),
        partial_forest(f, st) == partial_forest(f.take(i), st),
    decreases f.len() - i,
{
    if i < f.len() {
        assert(f.take(i + 1).drop_last() == f.take(i));
        lemma_forest_error_persists(f, i + 1, st);
    } else {
        assert(f.take(i) == f);
    }
}

/// Whether two strings hold the same characters.
fn same_text(a: &str, b: &str) -> (r: bool)
    ensures
        r == (a@ == b@),
{
    let n = a.unicode_len();
    if n != b.unicode_len() {
        return false;
    }
    let mut i: usize = 0;
    while i < n
        invariant
            n == a@.len(),
            n == b@.len(),
            i <= n,
            forall|j: int| 0 <= j < i ==> a@[j] == b@[j],
        decreases n - i,
    {
        if a.get_char(i) != b.get_char(i) {
            return false;
        }
        i = i + 1;
    }
    assert(a@ =~= b@);
    true
}

/// The rule that applies to an element named `name`.
pub fn classify_tag(name: &str) -> (r: TagKind)
    ensures
        r == tag_kind(name@),
{
    if same_text(name, "div") || same_text(name, "p") || same_text(name, "body") || same_text(
        name,
        "html",
    ) || same_text(name, "img") || same_text(name, "ul") {
        TagKind::Block
    } else if same_text(name, "small") {
        TagKind::Inline
    } else if same_text(name, "i") {
        TagKind::Styled(TextStyling::Italic)
    } else if same_text(name, "b") {
        TagKind::Styled(TextStyling::Bold)
    } else if same_text(name, "u") {
        TagKind::Styled(TextStyling::Underline)
    } else if same_text(name, "li") {
        TagKind::ListItem
    } else if name.unicode_len() == 2 && name.get_char(0) == 'h' && '0' <= name.get_char(1)
        && name.get_char(1) <= '9' {
        TagKind::Heading
    } else if same_text(name, "a") {
        TagKind::Anchor
    } else if same_text(name, "head") {
        TagKind::Inline
    } else if same_text(name, "meta") || same_text(name, "style") || same_text(name, "link")
        || same_text(name, "script") {
        TagKind::Skipped
    } else if same_text(name, "br") {
        TagKind::LineBreak
    } else if same_text(name, "hr") {
        TagKind::Rule
    } else if same_text(name, "title") {
        TagKind::Title
    } else {
        TagKind::Unsupported
    }
}

/// The value of the first attribute named `href`, or an empty string.
pub fn find_href(attrs: &Vec<(String, String)>) -> (r: &str)
    ensures
        r@ == href_of(attrs@),
{
    let n = attrs.len();
    let mut i: usize = 0;
    assert(attrs@.skip(0) == attrs@);
    while i < n
        invariant
            n == attrs@.len(),
            i <= n,
            href_of(attrs@.skip(i as int)) == href_of(attrs@),
        decreases n - i,
    {
        assert(attrs@.skip(i as int).drop_first() == attrs@.skip(i + 1));
        assert(attrs@.skip(i as int)[0] == attrs@[i as int]);
        if same_text(attrs[i].0.as_str(), "href") {
            return attrs[i].1.as_str();
        }
        i = i + 1;
    }
    assert(attrs@.skip(n as int).len() == 0);
    proof {
        reveal_strlit("");
    }
    ""
}

/// Relies on terminal_link::Link's `Display`: for a link without an id it
/// writes `ESC ]8;; url ESC \ text ESC ]8;; ESC \`.
#[verifier::external_body]
fn link_text(text: &str, url: &str) -> (r: String)
    ensures
        r@ == hyperlink(url@, text@),
{
    terminal_link::Link::new(text, url).to_string()
}

/// Renders content trees as styled terminal text.
pub struct CliTreeRenderer {
    current_style: TextStyle,
}

impl CliTreeRenderer {
    /// The style scopes in force, outermost first.
    pub closed spec fn scopes(&self) -> Seq<TextStyling> {
        self.current_style.view()
    }

    /// A renderer with no style in force.
    pub fn new() -> (r: Self)
        ensures
            r.scopes() == Seq::<TextStyling>::empty(),
    {
        CliTreeRenderer { current_style: TextStyle::new() }
    }

    /// Renders one tree, appending its text to `out`. On success the text
    /// appended is `render_node(root, ..)`; an element without a rule stops
    /// the walk with that element's name. The scopes in force are the same
    /// afterwards.
    pub fn render_tree(&mut self, root: TreeNode, out: &mut String) -> (r: Result<(), RenderError>)
        ensures
            final(self).scopes() == old(self).scopes(),
            r is Ok <==> render_node(root, old(self).scopes()) is Ok,
            r is Ok ==> final(out)@ == old(out)@ + render_node(root, old(self).scopes())->Ok_0,
            r matches Err(RenderError::UnsupportedTag(t)) ==> render_node(root, old(self).scopes())
                == Err::<Seq<char>, Seq<char>>(t@),
            r is Err ==> final(out)@ == old(out)@ + partial_node(root, old(self).scopes()),
    {
        self.render_node(&root, out)
    }

    /// Renders a forest, tree after tree, appending its text to `out`.
    pub fn render_all(&mut self, forest: &Vec<TreeNode>, out: &mut String) -> (r: Result<
        (),
        RenderError,
    >)
        ensures
            final(self).scopes() == old(self).scopes(),
            r is Ok <==> render_forest(forest@, old(self).scopes()) is Ok,
            r is Ok ==> final(out)@ == old(out)@ + render_forest(forest@, old(self).scopes())->Ok_0,
            r matches Err(RenderError::UnsupportedTag(t)) ==> render_forest(
                forest@,
                old(self).scopes(),
            ) == Err::<Seq<char>, Seq<char>>(t@),
            r is Err ==> final(out)@ == old(out)@ + partial_forest(forest@, old(self).scopes()),
        decreases forest,
    {
        let ghost st = self.scopes();
        let ghost out0 = out@;
        let n = forest.len();
        let mut i: usize = 0;
        while i < n
            invariant
                n == forest@.len(),
                i <= n,
                st == old(self).scopes(),
                out0 == old(out)@,
                self.scopes() == st,
                render_forest(forest@.take(i as int), st) is Ok,
                out@ == out0 + render_forest(forest@.take(i as int), st)->Ok_0,
            decreases n - i,
        {
            assert(forest@.take(i + 1).drop_last() == forest@.take(i as int));
            assert(forest@.take(i + 1).last() == forest@[i as int]);
            proof {
                vstd::std_specs::vec::axiom_vec_index_decreases(*forest, i as int);
            }
            let r = self.render_node(&forest[i], out);
            assert(self.scopes() == st);
            if r.is_err() {
                assert(render_forest(forest@.take(i + 1), st) == render_node(forest@[i as int], st));
                assert(partial_forest(forest@.take(i + 1), st) == render_forest(
                    forest@.take(i as int),
                    st,
                )->Ok_0 + partial_node(forest@[i as int], st));
                proof {
                    lemma_forest_error_persists(forest@, i + 1, st);
                }
                return r;
            }
            i = i + 1;
        }
        assert(forest@.take(n as int) == forest@);
        Ok(())
    }

    fn render_node(&mut self, node: &TreeNode, out: &mut String) -> (r: Result<(), RenderError>)
        ensures
            final(self).scopes() == old(self).scopes(),
            r is Ok <==> render_node(*node, old(self).scopes()) is Ok,
            r is Ok ==> final(out)@ == old(out)@ + render_node(*node, old(self).scopes())->Ok_0,
            r matches Err(RenderError::UnsupportedTag(t)) ==> render_node(*node, old(self).scopes())
                == Err::<Seq<char>, Seq<char>>(t@),
            r is Err ==> final(out)@ == old(out)@ + partial_node(*node, old(self).scopes()),
        decreases *node,
    {
        match node {
            TreeNode::Text(t) => {
                let f = self.current_style.get_style();
                write_styled(f, t.as_str(), out);
                Ok(())
            },
            TreeNode::Node { name, attributes, children } => {
                let k = classify_tag(name.as_str());
                match k {
                    TagKind::Unsupported => {
                        return Err(RenderError::UnsupportedTag(name.clone()));
                    },
                    TagKind::Skipped => {
                        return Ok(());
                    },
                    TagKind::LineBreak => {
                        out.append("\n");
                        return Ok(());
                    },
                    TagKind::Rule => {
                        out.append("\n-------------------------\n");
                        return Ok(());
                    },
                    _ => {},
                }
                match k {
                    TagKind::ListItem => out.append("  - "),
                    TagKind::Title => out.append("\n"),
                    _ => {},
                }
                let ghost st = self.scopes();
                let ghost mid = out@;
                match k {
                    TagKind::Styled(s) => self.current_style.push(s),
                    TagKind::Heading => self.current_style.push(TextStyling::Bold),
                    TagKind::Title => self.current_style.push(TextStyling::Bold),
                    TagKind::Anchor => self.current_style.push(TextStyling::Link),
                    _ => {},
                }
                assert(self.scopes() == scopes_inside(st, k));
                let r = match k {
                    TagKind::Anchor => {
                        let mut label = String::new();
                        let r = self.render_all(children, &mut label);
                        if r.is_ok() {
                            let href = find_href(attributes);
                            let linked = link_text(label.as_str(), href);
                            out.append(linked.as_str());
                        }
                        r
                    },
                    _ => self.render_all(children, out),
                };
                match k {
                    TagKind::Styled(_) => self.current_style.pop(),
                    TagKind::Heading => self.current_style.pop(),
                    TagKind::Title => self.current_style.pop(),
                    TagKind::Anchor => self.current_style.pop(),
                    _ => {},
                }
                assert(self.scopes() == st);
                if r.is_err() {
                    return r;
                }
                match k {
                    TagKind::Block => out.append("\n"),
                    TagKind::Heading => out.append("\n"),
                    TagKind::ListItem => out.append("\n"),
                    TagKind::Title => out.append("\n----------\n"),
                    _ => {},
                }
                Ok(())
            },
        }
    }
}
/// The rules for the style and link tags, by name.
proof fn lemma_tag_kinds()
    ensures
        tag_kind("b"@) == TagKind::Styled(TextStyling::Bold),
        tag_kind("i"@) == TagKind::Styled(TextStyling::Italic),
        tag_kind("a"@) == TagKind::Anchor,
{
    reveal_strlit("div");
    reveal_strlit("p");
    reveal_strlit("body");
    reveal_strlit("html");
    reveal_strlit("img");
    reveal_strlit("ul");
    reveal_strlit("small");
    reveal_strlit("i");
    reveal_strlit("b");
    reveal_strlit("u");
    reveal_strlit("li");
    reveal_strlit("a");
    assert("b"@[0] != "p"@[0] && "b"@[0] != "i"@[0] && "i"@[0] != "p"@[0]);
    assert("b"@ != "p"@ && "b"@ != "i"@ && "i"@ != "p"@);
    assert("b"@.len() != "body"@.len() && "i"@.len() != "img"@.len());
    assert("a"@[0] != "p"@[0] && "a"@[0] != "i"@[0] && "a"@[0] != "b"@[0] && "a"@[0] != "u"@[0]);
    assert("a"@ != "p"@ && "a"@ != "i"@ && "a"@ != "b"@ && "a"@ != "u"@);
    assert(!is_heading_name("a"@));
}

/// A text leaf as the only child of a style tag of kind `k`.
proof fn lemma_styled_leaf(n: TreeNode, leaf: TreeNode, st: Seq<TextStyling>, k: TextStyling)
    requires
        n matches TreeNode::Node { name, children, .. } && tag_kind(name@) == TagKind::Styled(k)
            && children@ == seq![leaf],
        leaf is Text,
    ensures
        render_node(n, st) == Ok::<Seq<char>, Seq<char>>(
            styled(flags_of(st.push(k)), leaf->Text_0@),
        ),
{
    let t = leaf->Text_0@;
    lemma_single_child(n, st.push(k));
    assert(Seq::<char>::empty() + styled(flags_of(st.push(k)), t) + Seq::<char>::empty()
        == styled(flags_of(st.push(k)), t));
}

/// A text leaf inside a style tag of kind `k2` inside one of kind `k1`.
proof fn lemma_nested_styled_leaf(
    outer: TreeNode,
    inner: TreeNode,
    leaf: TreeNode,
    st: Seq<TextStyling>,
    k1: TextStyling,
    k2: TextStyling,
)
    requires
        outer matches TreeNode::Node { name, children, .. } && tag_kind(name@) == TagKind::Styled(
            k1,
        ) && children@ == seq![inner],
        inner matches TreeNode::Node { name, children, .. } && tag_kind(name@) == TagKind::Styled(
            k2,
        ) && children@ == seq![leaf],
        leaf is Text,
    ensures
        render_node(outer, st) == Ok::<Seq<char>, Seq<char>>(
            styled(flags_of(st.push(k1).push(k2)), leaf->Text_0@),
        ),
{
    let t = leaf->Text_0@;
    lemma_single_child(outer, st.push(k1));
    lemma_styled_leaf(inner, leaf, st.push(k1), k2);
    let body = styled(flags_of(st.push(k1).push(k2)), t);
    assert(Seq::<char>::empty() + body + Seq::<char>::empty() == body);
}

/// The style of two scopes pushed on `st`, kind by kind.
proof fn lemma_two_scopes(st: Seq<TextStyling>, a: TextStyling, b: TextStyling, k: TextStyling)
    ensures
        has_styling(st.push(a).push(b), k) == (has_styling(st, k) || a == k || b == k),
{
    lemma_has_styling_push(st, a, k);
    lemma_has_styling_push(st.push(a), b, k);
}

/// Bold is a flag, not a counter: a text leaf inside two nested `b`
/// elements renders exactly as inside one.
pub proof fn lemma_bold_twice_is_bold_once(
    outer: TreeNode,
    inner: TreeNode,
    leaf: TreeNode,
    st: Seq<TextStyling>,
)
    requires
        outer matches TreeNode::Node { name, children, .. } && name@ == "b"@ && children@ == seq![inner],
        inner matches TreeNode::Node { name, children, .. } && name@ == "b"@ && children@ == seq![leaf],
        leaf is Text,
    ensures
        render_node(outer, st) == render_node(inner, st),
{
    lemma_tag_kinds();
    lemma_nested_styled_leaf(outer, inner, leaf, st, TextStyling::Bold, TextStyling::Bold);
    lemma_styled_leaf(inner, leaf, st, TextStyling::Bold);
    assert forall|k: TextStyling|
        has_styling(st.push(TextStyling::Bold).push(TextStyling::Bold), k) == has_styling(
            st.push(TextStyling::Bold),
            k,
        ) by {
        lemma_two_scopes(st, TextStyling::Bold, TextStyling::Bold, k);
        lemma_has_styling_push(st, TextStyling::Bold, k);
    }
}

/// The nesting order of `b` and `i` does not matter: `<b><i>X</i></b>` and
/// `<i><b>X</b></i>` render alike, and the text is both bold and italic.
pub proof fn lemma_bold_italic_commute(
    bi: TreeNode,
    bi_inner: TreeNode,
    ib: TreeNode,
    ib_inner: TreeNode,
    leaf: TreeNode,
    st: Seq<TextStyling>,
)
    requires
        bi matches TreeNode::Node { name, children, .. } && name@ == "b"@ && children@ == seq![bi_inner],
        bi_inner matches TreeNode::Node { name, children, .. } && name@ == "i"@ && children@ == seq![leaf],
        ib matches TreeNode::Node { name, children, .. } && name@ == "i"@ && children@ == seq![ib_inner],
        ib_inner matches TreeNode::Node { name, children, .. } && name@ == "b"@ && children@ == seq![leaf],
        leaf is Text,
    ensures
        render_node(bi, st) == render_node(ib, st),
        render_node(bi, st) == Ok::<Seq<char>, Seq<char>>(
            styled(flags_of(st.push(TextStyling::Bold).push(TextStyling::Italic)), leaf->Text_0@),
        ),
        flags_of(st.push(TextStyling::Bold).push(TextStyling::Italic)).bold,
        flags_of(st.push(TextStyling::Bold).push(TextStyling::Italic)).italic,
{
    lemma_tag_kinds();
    lemma_nested_styled_leaf(bi, bi_inner, leaf, st, TextStyling::Bold, TextStyling::Italic);
    lemma_nested_styled_leaf(ib, ib_inner, leaf, st, TextStyling::Italic, TextStyling::Bold);
    assert forall|k: TextStyling|
        has_styling(st.push(TextStyling::Bold).push(TextStyling::Italic), k) == has_styling(
            st.push(TextStyling::Italic).push(TextStyling::Bold),
            k,
        ) by {
        lemma_two_scopes(st, TextStyling::Bold, TextStyling::Italic, k);
        lemma_two_scopes(st, TextStyling::Italic, TextStyling::Bold, k);
    }
    lemma_two_scopes(st, TextStyling::Bold, TextStyling::Italic, TextStyling::Bold);
    lemma_two_scopes(st, TextStyling::Bold, TextStyling::Italic, TextStyling::Italic);
}

/// The forest of one tree renders as that tree.
proof fn lemma_single_child(n: TreeNode, st: Seq<TextStyling>)
    requires
        n matches TreeNode::Node { children, .. } && children@.len() == 1,
    ensures
        n matches TreeNode::Node { children, .. } && render_forest(children@, st) == render_node(
            children@[0],
            st,
        ),
{
    if let TreeNode::Node { children, .. } = n {
        assert(children@.drop_last().len() == 0);
        assert(render_forest(children@.drop_last(), st) == Ok::<Seq<char>, Seq<char>>(Seq::<char>::empty()));
        let r = render_node(children@.last(), st);
        if let Ok(back) = r {
            assert(Seq::<char>::empty() + back == back);
        }
    }
}

/// An anchor renders as exactly one hyperlink: the text of all its children,
/// rendered under the link style, wrapped once with its first `href`.
pub proof fn lemma_anchor_is_one_hyperlink(a: TreeNode, st: Seq<TextStyling>)
    requires
        a matches TreeNode::Node { name, children, .. } && name@ == "a"@ && render_forest(
            children@,
            st.push(TextStyling::Link),
        ) is Ok,
    ensures
        a matches TreeNode::Node { attributes, children, .. } && render_node(a, st) == Ok::<
            Seq<char>,
            Seq<char>,
        >(
            hyperlink(
                href_of(attributes@),
                render_forest(children@, st.push(TextStyling::Link))->Ok_0,
            ),
        ),
{
    lemma_tag_kinds();
}

/// A tree of block elements and text alone.
pub open spec fn plain_blocks(n: TreeNode) -> bool
    decreases n,
{
    match n {
        TreeNode::Text(_) => true,
        TreeNode::Node { name, children, .. } => tag_kind(name@) == TagKind::Block
            && all_plain_blocks(children@),
    }
}

/// A forest of block elements and text alone.
pub open spec fn all_plain_blocks(f: Seq<TreeNode>) -> bool
    decreases f,
{
    if f.len() == 0 {
        true
    } else {
        all_plain_blocks(f.drop_last()) && plain_blocks(f.last())
    }
}

/// The text leaves of a tree in document order, with a line break after
/// each element.
pub open spec fn block_text(n: TreeNode) -> Seq<char>
    decreases n,
{
    match n {
        TreeNode::Text(t) => t@,
        TreeNode::Node { children, .. } => blocks_text(children@) + "\n"@,
    }
}

/// The text leaves of a forest in document order, with a line break after
/// each element.
pub open spec fn blocks_text(f: Seq<TreeNode>) -> Seq<char>
    decreases f,
{
    if f.len() == 0 {
        Seq::<char>::empty()
    } else {
        blocks_text(f.drop_last()) + block_text(f.last())
    }
}

/// Unstyled block elements with text leaves render as the leaves' text in
/// document order, each element adding exactly one line break at its end.
pub proof fn lemma_plain_blocks_round_trip(n: TreeNode)
    requires
        plain_blocks(n),
    ensures
        render_node(n, Seq::<TextStyling>::empty()) == Ok::<Seq<char>, Seq<char>>(block_text(n)),
    decreases n,
{
    match n {
        TreeNode::Text(t) => {
            assert(!has_styling(Seq::<TextStyling>::empty(), TextStyling::Bold));
            assert(!has_styling(Seq::<TextStyling>::empty(), TextStyling::Italic));
            assert(!has_styling(Seq::<TextStyling>::empty(), TextStyling::Underline));
            assert(!has_styling(Seq::<TextStyling>::empty(), TextStyling::Link));
            assert(start_of(flags_of(Seq::<TextStyling>::empty())) =~= Seq::<char>::empty());
            assert(Seq::<char>::empty() + t@ + Seq::<char>::empty() == t@);
        },
        TreeNode::Node { children, .. } => {
            lemma_plain_forest_round_trip(children@);
            assert(Seq::<char>::empty() + blocks_text(children@) + "\n"@ == blocks_text(children@)
                + "\n"@);
        },
    }
}

/// The forest form of `lemma_plain_blocks_round_trip`.
pub proof fn lemma_plain_forest_round_trip(f: Seq<TreeNode>)
    requires
        all_plain_blocks(f),
    ensures
        render_forest(f, Seq::<TextStyling>::empty()) == Ok::<Seq<char>, Seq<char>>(
            blocks_text(f),
        ),
    decreases f,
{
    if f.len() > 0 {
        lemma_plain_forest_round_trip(f.drop_last());
        lemma_plain_blocks_round_trip(f.last());
    }
}

} // verus!
