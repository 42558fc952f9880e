//! Reading a syntax tree: the children of a node, searched and filtered by
//! kind.

use crate::green::{
    element_kind, element_leaves, element_text, forest_leaves, leaf, leaves_text,
    lemma_forest_leaves_concat, lemma_forest_leaves_single, lemma_leaves_text_concat,
    syntax_children, syntax_children_of, syntax_clone, syntax_kind, syntax_kind_of, syntax_tree,
    Element, SyntaxElement,
};
use rowan::cursor::SyntaxNode;
use vstd::prelude::*;
use vstd::string::StringExecFns;

verus! {

/// Whether `e` is an inner node of kind `kind`.
pub open spec fn is_node_of_kind(e: Element, kind: u16) -> bool {
    e is Node && element_kind(e) == kind
}

/// Whether `e` is a leaf of kind `kind`.
pub open spec fn is_token_of_kind(e: Element, kind: u16) -> bool {
    e is Token && element_kind(e) == kind
}

/// The first inner node of kind `kind` among `children`.
pub open spec fn first_node_of_kind(children: Seq<Element>, kind: u16) -> Option<Element>
    decreases children.len(),
{
    if children.len() == 0 {
        None
    } else if is_node_of_kind(children[0], kind) {
        Some(children[0])
    } else {
        first_node_of_kind(children.drop_first(), kind)
    }
}

/// The text of the first leaf of kind `kind` among `children`.
pub open spec fn first_token_of_kind(children: Seq<Element>, kind: u16) -> Option<Seq<char>>
    decreases children.len(),
{
    if children.len() == 0 {
        None
    } else if is_token_of_kind(children[0], kind) {
        Some(children[0]->text)
    } else {
        first_token_of_kind(children.drop_first(), kind)
    }
}

/// The inner nodes of kind `kind` among `children`, in their order.
pub open spec fn nodes_of_kind(children: Seq<Element>, kind: u16) -> Seq<Element>
    decreases children.len(),
{
    if children.len() == 0 {
        Seq::empty()
    } else if is_node_of_kind(children.last(), kind) {
        nodes_of_kind(children.drop_last(), kind).push(children.last())
    } else {
        nodes_of_kind(children.drop_last(), kind)
    }
}

/// The inner nodes among `children`, in their order.
pub open spec fn inner_nodes(children: Seq<Element>) -> Seq<Element>
    decreases children.len(),
{
    if children.len() == 0 {
        Seq::empty()
    } else if children.last() is Node {
        inner_nodes(children.drop_last()).push(children.last())
    } else {
        inner_nodes(children.drop_last())
    }
}

/// The trees that `nodes` view.
pub open spec fn node_trees(nodes: Seq<SyntaxNode>) -> Seq<Element> {
    Seq::new(nodes.len(), |i: int| syntax_tree(nodes[i]))
}

/// The first child of `node` that is an inner node of kind `kind`.
pub fn first_child_node(node: &SyntaxNode, kind: u16) -> (out: Option<SyntaxNode>)
    ensures
        match out {
            Some(child) => first_node_of_kind(syntax_children(*node), kind) == Some(
                syntax_tree(child),
            ) && syntax_kind(child) == kind,
            None => first_node_of_kind(syntax_children(*node), kind) is None,
        },
{
    let children = syntax_children_of(node);
    let ghost all = syntax_children(*node);
    let mut i: usize = 0;
    proof {
        assert(all.skip(0) =~= all);
    }
    while i < children.len()
        invariant
            i <= children.len(),
            children@.len() == all.len(),
            forall|j: int| 0 <= j < children@.len() ==> (#[trigger] children@[j]).tree() == all[j],
            all == syntax_children(*node),
            first_node_of_kind(all, kind) == first_node_of_kind(all.skip(i as int), kind),
        decreases children.len() - i,
    {
        proof {
            assert(all.skip(i as int).drop_first() =~= all.skip(i + 1));
            assert(all.skip(i as int)[0] == children@[i as int].tree());
        }
        match &children[i] {
            SyntaxElement::Node(child) => {
                let child_kind = syntax_kind_of(child);
                if child_kind == kind {
                    let copy = syntax_clone(child);
                    proof {
                        assert(children@[i as int].tree() == syntax_tree(*child));
                        assert(syntax_tree(copy) == syntax_tree(*child));
                        assert(is_node_of_kind(all.skip(i as int)[0], kind));
                    }
                    return Some(copy);
                }
            },
            SyntaxElement::Token(_, _) => {},
        }
        i += 1;
    }
    proof {
        assert(all.skip(i as int) =~= Seq::<Element>::empty());
    }
    None
}

/// The text of the first child of `node` that is a leaf of kind `kind`.
pub fn first_child_token(node: &SyntaxNode, kind: u16) -> (out: Option<String>)
    ensures
        match out {
            Some(text) => first_token_of_kind(syntax_children(*node), kind) == Some(text@),
            None => first_token_of_kind(syntax_children(*node), kind) is None,
        },
{
    let children = syntax_children_of(node);
    let ghost all = syntax_children(*node);
    let mut i: usize = 0;
    proof {
        assert(all.skip(0) =~= all);
    }
    while i < children.len()
        invariant
            i <= children.len(),
            children@.len() == all.len(),
            forall|j: int| 0 <= j < children@.len() ==> (#[trigger] children@[j]).tree() == all[j],
            all == syntax_children(*node),
            first_token_of_kind(all, kind) == first_token_of_kind(all.skip(i as int), kind),
        decreases children.len() - i,
    {
        proof {
            assert(all.skip(i as int).drop_first() =~= all.skip(i + 1));
            assert(all.skip(i as int)[0] == children@[i as int].tree());
        }
        match &children[i] {
            SyntaxElement::Node(_) => {},
            SyntaxElement::Token(token_kind, text) => {
                if *token_kind == kind {
                    let copy = text.clone();
                    proof {
                        assert(children@[i as int].tree() == leaf(*token_kind, text@));
                        assert(is_token_of_kind(all.skip(i as int)[0], kind));
                    }
                    return Some(copy);
                }
            },
        }
        i += 1;
    }
    proof {
        assert(all.skip(i as int) =~= Seq::<Element>::empty());
    }
    None
}

/// The children of `node` that are inner nodes, in their order.
pub fn child_nodes(node: &SyntaxNode) -> (out: Vec<SyntaxNode>)
    ensures
        node_trees(out@) == inner_nodes(syntax_children(*node)),
{
    let children = syntax_children_of(node);
    let ghost all = syntax_children(*node);
    let mut out: Vec<SyntaxNode> = Vec::new();
    let mut i: usize = 0;
    proof {
        assert(all.take(0) =~= Seq::<Element>::empty());
        assert(node_trees(out@) =~= Seq::<Element>::empty());
    }
    while i < children.len()
        invariant
            i <= children.len(),
            children@.len() == all.len(),
            forall|j: int| 0 <= j < children@.len() ==> (#[trigger] children@[j]).tree() == all[j],
            node_trees(out@) == inner_nodes(all.take(i as int)),
        decreases children.len() - i,
    {
        proof {
            assert(all.take(i + 1).drop_last() =~= all.take(i as int));
            assert(all.take(i + 1).last() == children@[i as int].tree());
        }
        match &children[i] {
            SyntaxElement::Node(child) => {
                let ghost before = node_trees(out@);
                let copy = syntax_clone(child);
                out.push(copy);
                proof {
                    assert(node_trees(out@) =~= before.push(syntax_tree(copy)));
                }
            },
            SyntaxElement::Token(_, _) => {},
        }
        i += 1;
    }
    proof {
        assert(all.take(i as int) =~= all);
    }
    out
}

/// The children of `node` that are inner nodes of kind `kind`, in their
/// order.
pub fn child_nodes_of_kind(node: &SyntaxNode, kind: u16) -> (out: Vec<SyntaxNode>)
    ensures
        node_trees(out@) == nodes_of_kind(syntax_children(*node), kind),
        forall|i: int| 0 <= i < out@.len() ==> syntax_kind(#[trigger] out@[i]) == kind,
{
    let children = syntax_children_of(node);
    let ghost all = syntax_children(*node);
    let mut out: Vec<SyntaxNode> = Vec::new();
    let mut i: usize = 0;
    proof {
        assert(all.take(0) =~= Seq::<Element>::empty());
        assert(node_trees(out@) =~= Seq::<Element>::empty());
    }
    while i < children.len()
        invariant
            i <= children.len(),
            children@.len() == all.len(),
            forall|j: int| 0 <= j < children@.len() ==> (#[trigger] children@[j]).tree() == all[j],
            node_trees(out@) == nodes_of_kind(all.take(i as int), kind),
            forall|j: int| 0 <= j < out@.len() ==> syntax_kind(#[trigger] out@[j]) == kind,
        decreases children.len() - i,
    {
        proof {
            assert(all.take(i + 1).drop_last() =~= all.take(i as int));
            assert(all.take(i + 1).last() == children@[i as int].tree());
        }
        match &children[i] {
            SyntaxElement::Node(child) => {
                let child_kind = syntax_kind_of(child);
                if child_kind == kind {
                    let ghost before = node_trees(out@);
                    let copy = syntax_clone(child);
                    out.push(copy);
                    proof {
                        assert(node_trees(out@) =~= before.push(syntax_tree(copy)));
                    }
                }
            },
            SyntaxElement::Token(_, _) => {},
        }
        i += 1;
    }
    proof {
        assert(all.take(i as int) =~= all);
    }
    out
}

/// The text that `node` covers: the texts of the leaves below it, joined in
/// document order.
pub fn node_text(node: &SyntaxNode) -> (out: String)
    ensures
        out@ == element_text(syntax_tree(*node)),
    decreases syntax_tree(*node),
{
    let children = syntax_children_of(node);
    let ghost all = syntax_children(*node);
    let mut out = String::new();
    let mut i: usize = 0;
    proof {
        assert(all.take(0) =~= Seq::<Element>::empty());
    }
    while i < children.len()
        invariant
            i <= children.len(),
            all == syntax_children(*node),
            children@.len() == all.len(),
            forall|j: int| 0 <= j < children@.len() ==> (#[trigger] children@[j]).tree() == all[j],
            out@ == leaves_text(forest_leaves(all.take(i as int))),
        decreases children.len() - i,
    {
        let ghost before = forest_leaves(all.take(i as int));
        proof {
            assert(all.take(i + 1) =~= all.take(i as int) + seq![all[i as int]]);
            lemma_forest_leaves_concat(all.take(i as int), seq![all[i as int]]);
            lemma_forest_leaves_single(all[i as int]);
            lemma_leaves_text_concat(before, element_leaves(all[i as int]));
            assert(all[i as int] == children@[i as int].tree());
        }
        match &children[i] {
            SyntaxElement::Node(child) => {
                proof {
                    assert(syntax_tree(*child) == all[i as int]);
                    let whole = syntax_tree(*node);
                    assert(whole matches Element::Node { kind, children } && children == all
                        && decreases_to!(whole => children));
                    assert(decreases_to!(all => all[i as int]));
                }
                let inner = node_text(child);
                out.append(inner.as_str());
            },
            SyntaxElement::Token(_, text) => {
                proof {
                    reveal_with_fuel(leaves_text, 2);
                    let only = element_leaves(all[i as int]);
                    assert(only.drop_last() =~= Seq::<(u16, Seq<char>)>::empty());
                    assert(leaves_text(only) =~= text@);
                }
                out.append(text.as_str());
            },
        }
        i += 1;
    }
    proof {
        assert(all.take(i as int) =~= all);
    }
    out
}

} // verus!
