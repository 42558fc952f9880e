//! The mathematical model of a green tree and the contracts under which the
//! `rowan` builder and tree types are used.

use rowan::cursor::SyntaxNode;
use rowan::{GreenNode, GreenNodeBuilder, NodeOrToken};
use vstd::prelude::*;
use vstd::utf8::encode_utf8;

verus! {

/// A green tree as a value: a leaf carries its kind and literal text, an
/// inner node its kind and its children in document order.
pub enum Element {
    Token { kind: u16, text: Seq<char> },
    Node { kind: u16, children: Seq<Element> },
}

/// The leaf of kind `kind` and text `text`.
pub open spec fn leaf(kind: u16, text: Seq<char>) -> Element {
    Element::Token { kind, text }
}

/// The leaves below `e`, in document order, each as kind and text.
pub open spec fn element_leaves(e: Element) -> Seq<(u16, Seq<char>)>
    decreases e,
{
    match e {
        Element::Token { kind, text } => seq![(kind, text)],
        Element::Node { kind, children } => forest_leaves(children),
    }
}

/// The leaves below a sequence of siblings, in document order.
pub open spec fn forest_leaves(es: Seq<Element>) -> Seq<(u16, Seq<char>)>
    decreases es,
{
    if es.len() == 0 {
        Seq::empty()
    } else {
        forest_leaves(es.drop_last()) + element_leaves(es.last())
    }
}

/// The texts of `leaves`, concatenated in order.
pub open spec fn leaves_text(leaves: Seq<(u16, Seq<char>)>) -> Seq<char>
    decreases leaves.len(),
{
    if leaves.len() == 0 {
        Seq::empty()
    } else {
        leaves_text(leaves.drop_last()) + leaves.last().1
    }
}

/// The text that `e` covers: the concatenation of its leaves' texts.
pub open spec fn element_text(e: Element) -> Seq<char> {
    leaves_text(element_leaves(e))
}

/// The number of bytes of the UTF-8 encoding of `text`.
pub open spec fn utf8_len(text: Seq<char>) -> nat {
    encode_utf8(text).len()
}

/// The kind of `e`.
pub open spec fn element_kind(e: Element) -> u16 {
    match e {
        Element::Token { kind, text } => kind,
        Element::Node { kind, children } => kind,
    }
}

/// The children of `e`; a leaf has none.
pub open spec fn element_children(e: Element) -> Seq<Element> {
    match e {
        Element::Token { kind, text } => Seq::empty(),
        Element::Node { kind, children } => children,
    }
}

/// The leaves of two runs of siblings, one after the other, are the leaves
/// of the first run followed by those of the second.
pub proof fn lemma_forest_leaves_concat(a: Seq<Element>, b: Seq<Element>)
    ensures
        forest_leaves(a + b) == forest_leaves(a) + forest_leaves(b),
    decreases b.len(),
{
    if b.len() == 0 {
        assert(a + b =~= a);
        assert(forest_leaves(a) + forest_leaves(b) =~= forest_leaves(a));
    } else {
        lemma_forest_leaves_concat(a, b.drop_last());
        assert((a + b).drop_last() =~= a + b.drop_last());
        assert((a + b).last() == b.last());
        assert(forest_leaves(a + b) =~= forest_leaves(a) + forest_leaves(b));
    }
}

/// A single sibling has the leaves of that element.
pub proof fn lemma_forest_leaves_single(e: Element)
    ensures
        forest_leaves(seq![e]) == element_leaves(e),
{
    reveal_with_fuel(forest_leaves, 2);
    assert(seq![e].drop_last() =~= Seq::<Element>::empty());
    assert(forest_leaves(seq![e]) =~= element_leaves(e));
}

/// The text of two runs of leaves is the text of the first followed by the
/// text of the second.
pub proof fn lemma_leaves_text_concat(a: Seq<(u16, Seq<char>)>, b: Seq<(u16, Seq<char>)>)
    ensures
        leaves_text(a + b) == leaves_text(a) + leaves_text(b),
    decreases b.len(),
{
    if b.len() == 0 {
        assert(a + b =~= a);
        assert(leaves_text(a) + leaves_text(b) =~= leaves_text(a));
    } else {
        lemma_leaves_text_concat(a, b.drop_last());
        assert((a + b).drop_last() =~= a + b.drop_last());
        assert((a + b).last() == b.last());
        assert(leaves_text(a + b) =~= leaves_text(a) + leaves_text(b));
    }
}

/// The UTF-8 length of a concatenation is the sum of the parts' lengths.
pub proof fn lemma_utf8_len_concat(a: Seq<char>, b: Seq<char>)
    ensures
        encode_utf8(a + b) == encode_utf8(a) + encode_utf8(b),
        utf8_len(a + b) == utf8_len(a) + utf8_len(b),
    decreases a.len(),
{
    if a.len() == 0 {
        assert(a + b =~= b);
        assert(encode_utf8(a) + encode_utf8(b) =~= encode_utf8(b));
    } else {
        lemma_utf8_len_concat(a.drop_first(), b);
        assert((a + b).drop_first() =~= a.drop_first() + b);
        assert((a + b)[0] == a[0]);
        assert(encode_utf8(a + b) =~= encode_utf8(a) + encode_utf8(b));
    }
}

/// Whether `text` fits the 32-bit text sizes of a green tree.
pub fn text_fits(text: &str) -> (fits: bool)
    ensures
        fits == (utf8_len(text@) <= u32::MAX),
{
    text.as_bytes().len() <= 0xffff_ffff
}

/// A prefix of a run of leaves has no more bytes of text than the run.
pub proof fn lemma_prefix_bytes(leaves: Seq<(u16, Seq<char>)>, n: int)
    requires
        0 <= n <= leaves.len(),
    ensures
        utf8_len(leaves_text(leaves.take(n))) <= utf8_len(leaves_text(leaves)),
{
    assert(leaves =~= leaves.take(n) + leaves.skip(n));
    lemma_leaves_text_concat(leaves.take(n), leaves.skip(n));
    lemma_utf8_len_concat(leaves_text(leaves.take(n)), leaves_text(leaves.skip(n)));
}

/// `rowan::GreenNodeBuilder`, carried as an opaque value. What it holds is
/// spoken of through `builder_parents` and `builder_children`.
#[verifier::external_type_specification]
#[verifier::external_body]
pub struct ExGreenNodeBuilder<'cache>(GreenNodeBuilder<'cache>);

/// `rowan::GreenNode`, carried as an opaque value. What it holds is spoken
/// of through `green_kind` and `green_children`.
#[verifier::external_type_specification]
#[verifier::external_body]
pub struct ExGreenNode(GreenNode);

/// `rowan::cursor::SyntaxNode`, carried as an opaque value. What it views is
/// spoken of through `syntax_kind` and `syntax_children`.
#[verifier::external_type_specification]
#[verifier::external_body]
pub struct ExSyntaxNode(SyntaxNode);

/// The nodes that a builder has started and not yet finished, outermost
/// first: each with its kind and the number of finished siblings that the
/// builder held when the node was started.
pub uninterp spec fn builder_parents(b: GreenNodeBuilder<'static>) -> Seq<(u16, nat)>;

/// The finished elements that a builder holds, in document order. Those
/// from an open node's mark onwards are that node's children so far.
pub uninterp spec fn builder_children(b: GreenNodeBuilder<'static>) -> Seq<Element>;

/// The kind of a green node.
pub uninterp spec fn green_kind(n: GreenNode) -> u16;

/// The children of a green node, in document order.
pub uninterp spec fn green_children(n: GreenNode) -> Seq<Element>;

/// The kind of the green node that a syntax node views.
pub uninterp spec fn syntax_kind(n: SyntaxNode) -> u16;

/// The children of the green node that a syntax node views.
pub uninterp spec fn syntax_children(n: SyntaxNode) -> Seq<Element>;

/// The tree that a green node is.
pub open spec fn green_tree(n: GreenNode) -> Element {
    Element::Node { kind: green_kind(n), children: green_children(n) }
}

/// The tree that a syntax node views.
pub open spec fn syntax_tree(n: SyntaxNode) -> Element {
    Element::Node { kind: syntax_kind(n), children: syntax_children(n) }
}

/// `rowan::GreenNodeBuilder::new`: the new builder holds no open node and no
/// finished element.
#[verifier::external_body]
pub(crate) fn builder_new() -> (b: GreenNodeBuilder<'static>)
    ensures
        builder_parents(b) == Seq::<(u16, nat)>::empty(),
        builder_children(b) == Seq::<Element>::empty(),
{
    GreenNodeBuilder::new()
}

/// `rowan::GreenNodeBuilder::start_node`: opens a node of kind `kind`, marked
/// with the number of finished elements held; those stay as they are.
#[verifier::external_body]
pub(crate) fn builder_start_node(b: &mut GreenNodeBuilder<'static>, kind: u16)
    ensures
        builder_parents(*final(b)) == builder_parents(*old(b)).push(
            (kind, builder_children(*old(b)).len()),
        ),
        builder_children(*final(b)) == builder_children(*old(b)),
{
    b.start_node(rowan::SyntaxKind(kind))
}

/// `rowan::GreenNodeBuilder::token`: appends a leaf of kind `kind` and text
/// `text` to the finished elements; the open nodes stay as they are.
#[verifier::external_body]
pub(crate) fn builder_token(b: &mut GreenNodeBuilder<'static>, kind: u16, text: &str)
    ensures
        builder_parents(*final(b)) == builder_parents(*old(b)),
        builder_children(*final(b)) == builder_children(*old(b)).push(leaf(kind, text@)),
{
    b.token(rowan::SyntaxKind(kind), text)
}

/// `rowan::GreenNodeBuilder::finish_node`: closes the innermost open node.
/// The finished elements from its mark onwards become its children, and the
/// node takes their place. The call panics with no open node, and where the
/// text gathered does not fit the 32-bit text sizes that `rowan` computes;
/// both are excluded.
#[verifier::external_body]
pub(crate) fn builder_finish_node(b: &mut GreenNodeBuilder<'static>)
    requires
        builder_parents(*old(b)).len() > 0,
        builder_parents(*old(b)).last().1 <= builder_children(*old(b)).len(),
        utf8_len(leaves_text(forest_leaves(builder_children(*old(b))))) <= u32::MAX,
    ensures
        builder_parents(*final(b)) == builder_parents(*old(b)).drop_last(),
        builder_children(*final(b)) == builder_children(*old(b)).take(
            builder_parents(*old(b)).last().1 as int,
        ).push(
            Element::Node {
                kind: builder_parents(*old(b)).last().0,
                children: builder_children(*old(b)).skip(
                    builder_parents(*old(b)).last().1 as int,
                ),
            },
        ),
{
    b.finish_node()
}

/// `rowan::GreenNodeBuilder::finish`: hands out the one finished element,
/// which must be a node; with any other content the call panics.
#[verifier::external_body]
pub(crate) fn builder_finish(b: GreenNodeBuilder<'static>) -> (tree: GreenNode)
    requires
        builder_children(b).len() == 1,
        builder_children(b)[0] is Node,
    ensures
        green_kind(tree) == element_kind(builder_children(b)[0]),
        green_children(tree) == element_children(builder_children(b)[0]),
{
    b.finish()
}

/// `rowan::cursor::SyntaxNode::new_root` on a clone of `green`: the root
/// views the tree that `green` is.
#[verifier::external_body]
pub(crate) fn syntax_root(green: &GreenNode) -> (root: SyntaxNode)
    ensures
        syntax_kind(root) == green_kind(*green),
        syntax_children(root) == green_children(*green),
{
    SyntaxNode::new_root(green.clone())
}

/// `rowan::cursor::SyntaxNode::kind`, as its raw number.
#[verifier::external_body]
pub(crate) fn syntax_kind_of(node: &SyntaxNode) -> (kind: u16)
    ensures
        kind == syntax_kind(*node),
{
    node.kind().0
}

/// `Clone::clone` of `rowan::cursor::SyntaxNode`: another handle on the same
/// node of the same tree.
#[verifier::external_body]
pub(crate) fn syntax_clone(node: &SyntaxNode) -> (copy: SyntaxNode)
    ensures
        syntax_kind(copy) == syntax_kind(*node),
        syntax_children(copy) == syntax_children(*node),
{
    node.clone()
}

/// A child of a syntax node: a node to descend into, or a token with its
/// kind and text.
pub enum SyntaxElement {
    Node(SyntaxNode),
    Token(u16, String),
}

impl SyntaxElement {
    /// The subtree that this child is.
    pub open spec fn tree(self) -> Element {
        match self {
            SyntaxElement::Node(node) => syntax_tree(node),
            SyntaxElement::Token(kind, text) => leaf(kind, text@),
        }
    }
}

/// `rowan::cursor::SyntaxNode::children_with_tokens`, collected: the
/// children of `node` in document order, each the subtree at its place.
#[verifier::external_body]
pub(crate) fn syntax_children_of(node: &SyntaxNode) -> (out: Vec<SyntaxElement>)
    ensures
        out@.len() == syntax_children(*node).len(),
        forall|i: int| 0 <= i < out@.len() ==> (#[trigger] out@[i]).tree() == syntax_children(*node)[i],
{
    node.children_with_tokens().map(|el| match el {
        NodeOrToken::Node(it) => SyntaxElement::Node(it),
        NodeOrToken::Token(it) => SyntaxElement::Token(it.kind().0, it.text().to_string()),
    }).collect()
}

} // verus!
