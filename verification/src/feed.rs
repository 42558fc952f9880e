//! The grammar-independent core of a parser: a cursor over the token list
//! that hands every token it passes to a green tree builder, and collects
//! diagnostics.

use crate::green::{
    builder_children, builder_finish, builder_finish_node, builder_new, builder_parents,
    builder_start_node, builder_token, element_leaves, forest_leaves, green_tree, leaf,
    leaves_text, lemma_forest_leaves_concat, lemma_forest_leaves_single, lemma_prefix_bytes,
    utf8_len, Element,
};
use rowan::{GreenNode, GreenNodeBuilder};
use vstd::prelude::*;

verus! {

/// What one grammar rule contributes when it runs at some position: the
/// elements it appends to the node that is open, the position it stops at,
/// and the diagnostics it records.
pub struct Piece {
    pub items: Seq<Element>,
    pub end: int,
    pub errors: Seq<Seq<char>>,
}

/// The rule that does nothing at `pos`.
pub open spec fn piece_empty(pos: int) -> Piece {
    Piece { items: Seq::empty(), end: pos, errors: Seq::empty() }
}

/// `a`, then `b`.
pub open spec fn piece_join(a: Piece, b: Piece) -> Piece {
    Piece { items: a.items + b.items, end: b.end, errors: a.errors + b.errors }
}

/// `body`, wrapped into one node of kind `kind`.
pub open spec fn piece_node(kind: u16, body: Piece) -> Piece {
    Piece {
        items: seq![Element::Node { kind, children: body.items }],
        end: body.end,
        errors: body.errors,
    }
}

/// The rule that records `message` at `pos` and consumes nothing.
pub open spec fn piece_error(pos: int, message: Seq<char>) -> Piece {
    Piece { items: Seq::empty(), end: pos, errors: seq![message] }
}

/// The kind of the token at `pos`, if there is one.
pub open spec fn kind_at(toks: Seq<(u16, Seq<char>)>, pos: int) -> Option<u16> {
    if 0 <= pos < toks.len() {
        Some(toks[pos].0)
    } else {
        None
    }
}

/// The rule that consumes the token at `pos` as a leaf; at the end of the
/// tokens it does nothing.
pub open spec fn piece_bump(toks: Seq<(u16, Seq<char>)>, pos: int) -> Piece {
    if 0 <= pos < toks.len() {
        Piece { items: seq![leaf(toks[pos].0, toks[pos].1)], end: pos + 1, errors: Seq::empty() }
    } else {
        piece_empty(pos)
    }
}

/// Tokens as kinds and texts.
pub open spec fn token_views(tokens: Seq<(u16, String)>) -> Seq<(u16, Seq<char>)> {
    Seq::new(tokens.len(), |i: int| (tokens[i].0, tokens[i].1@))
}

/// Messages as texts.
pub open spec fn string_views(messages: Seq<String>) -> Seq<Seq<char>> {
    Seq::new(messages.len(), |i: int| messages[i]@)
}

/// Joining is associative.
pub proof fn lemma_join_assoc(a: Piece, b: Piece, c: Piece)
    ensures
        piece_join(piece_join(a, b), c) == piece_join(a, piece_join(b, c)),
{
    assert((a.items + b.items) + c.items =~= a.items + (b.items + c.items));
    assert((a.errors + b.errors) + c.errors =~= a.errors + (b.errors + c.errors));
}

/// A rule that does nothing where `p` ends adds nothing to `p`.
pub proof fn lemma_join_empty(p: Piece)
    ensures
        piece_join(p, piece_empty(p.end)) == p,
        piece_join(piece_empty(p.end), p) == p,
{
    assert(p.items + Seq::<Element>::empty() =~= p.items);
    assert(p.errors + Seq::<Seq<char>>::empty() =~= p.errors);
    assert(Seq::<Element>::empty() + p.items =~= p.items);
    assert(Seq::<Seq<char>>::empty() + p.errors =~= p.errors);
}

/// One call on the tree builder: a node opened with its kind, a token handed
/// over with its kind and text, or the innermost open node closed.
pub enum BuilderCall {
    StartNode(u16),
    Token(u16, Seq<char>),
    FinishNode,
}

/// How many of `calls` open a node.
pub open spec fn starts(calls: Seq<BuilderCall>) -> nat
    decreases calls.len(),
{
    if calls.len() == 0 {
        0
    } else if calls.last() is StartNode {
        starts(calls.drop_last()) + 1
    } else {
        starts(calls.drop_last())
    }
}

/// How many of `calls` close a node.
pub open spec fn finishes(calls: Seq<BuilderCall>) -> nat
    decreases calls.len(),
{
    if calls.len() == 0 {
        0
    } else if calls.last() is FinishNode {
        finishes(calls.drop_last()) + 1
    } else {
        finishes(calls.drop_last())
    }
}

/// How many of `calls` hand over a token.
pub open spec fn tokens_passed(calls: Seq<BuilderCall>) -> nat
    decreases calls.len(),
{
    if calls.len() == 0 {
        0
    } else if calls.last() is Token {
        tokens_passed(calls.drop_last()) + 1
    } else {
        tokens_passed(calls.drop_last())
    }
}

/// At no point of `calls` have more nodes been closed than opened.
pub open spec fn never_over_closed(calls: Seq<BuilderCall>) -> bool {
    forall|n: int|
        0 <= n <= calls.len() ==> finishes(#[trigger] calls.take(n)) <= starts(calls.take(n))
}

/// `calls` are balanced: no node is closed before it is opened, and in the
/// end every node opened is closed.
pub open spec fn well_nested(calls: Seq<BuilderCall>) -> bool {
    never_over_closed(calls) && starts(calls) == finishes(calls)
}

/// Whether `longer` starts with `shorter`.
pub open spec fn is_prefix(shorter: Seq<BuilderCall>, longer: Seq<BuilderCall>) -> bool {
    shorter.len() <= longer.len() && longer.take(shorter.len() as int) == shorter
}

/// Whether the calls made since `before` build one node of kind `kind`:
/// the first of them opens the node and the last closes it.
pub open spec fn wraps(before: Seq<BuilderCall>, after: Seq<BuilderCall>, kind: u16) -> bool {
    &&& before.len() + 2 <= after.len()
    &&& after[before.len() as int] == BuilderCall::StartNode(kind)
    &&& after.last() == BuilderCall::FinishNode
}

/// One more call adds one to the count of its kind and leaves the other
/// counts as they are.
pub proof fn lemma_call_counts_push(calls: Seq<BuilderCall>, call: BuilderCall)
    ensures
        starts(calls.push(call)) == starts(calls) + (if call is StartNode {
            1nat
        } else {
            0nat
        }),
        finishes(calls.push(call)) == finishes(calls) + (if call is FinishNode {
            1nat
        } else {
            0nat
        }),
        tokens_passed(calls.push(call)) == tokens_passed(calls) + (if call is Token {
            1nat
        } else {
            0nat
        }),
        is_prefix(calls, calls.push(call)),
{
    assert(calls.push(call).drop_last() =~= calls);
    assert(calls.push(call).take(calls.len() as int) =~= calls);
}

/// Every call opens a node, closes one or hands over a token.
pub proof fn lemma_call_counts_total(calls: Seq<BuilderCall>)
    ensures
        calls.len() == starts(calls) + finishes(calls) + tokens_passed(calls),
    decreases calls.len(),
{
    if calls.len() > 0 {
        lemma_call_counts_total(calls.drop_last());
    }
}

/// Calls that never over-close stay so with one more call that does not
/// over-close.
pub proof fn lemma_never_over_closed_push(calls: Seq<BuilderCall>, call: BuilderCall)
    requires
        never_over_closed(calls),
        finishes(calls.push(call)) <= starts(calls.push(call)),
    ensures
        never_over_closed(calls.push(call)),
{
    let more = calls.push(call);
    assert forall|n: int| 0 <= n <= more.len() implies finishes(#[trigger] more.take(n)) <= starts(
        more.take(n),
    ) by {
        if n <= calls.len() {
            assert(more.take(n) =~= calls.take(n));
        } else {
            assert(more.take(n) =~= more);
        }
    }
}

/// A prefix of a prefix is a prefix.
pub proof fn lemma_prefix_of_prefix(a: Seq<BuilderCall>, b: Seq<BuilderCall>, c: Seq<BuilderCall>)
    requires
        is_prefix(a, b),
        is_prefix(b, c),
    ensures
        is_prefix(a, c),
{
    assert(c.take(a.len() as int) =~= c.take(b.len() as int).take(a.len() as int));
}

/// Every open node starts within the first `held` finished elements, inner
/// nodes no earlier than outer ones.
pub open spec fn marks_in_order(parents: Seq<(u16, nat)>, held: nat) -> bool {
    &&& forall|i: int| 0 <= i < parents.len() ==> (#[trigger] parents[i]).1 <= held
    &&& forall|i: int, j: int|
        0 <= i <= j < parents.len() ==> (#[trigger] parents[i]).1 <= (#[trigger] parents[j]).1
}

/// A cursor over a token list, the builder that receives the tokens passed,
/// and the diagnostics recorded so far.
pub struct TokenFeed {
    tokens: Vec<(u16, String)>,
    pos: usize,
    builder: GreenNodeBuilder<'static>,
    errors: Vec<String>,
    calls: Ghost<Seq<BuilderCall>>,
}

impl TokenFeed {
    /// The tokens, consumed or not.
    pub closed spec fn toks(&self) -> Seq<(u16, Seq<char>)> {
        token_views(self.tokens@)
    }

    /// The index of the current token.
    pub closed spec fn pos(&self) -> int {
        self.pos as int
    }

    /// The open nodes, outermost first, each with its kind and the number of
    /// finished elements that preceded it.
    pub closed spec fn parents(&self) -> Seq<(u16, nat)> {
        builder_parents(self.builder)
    }

    /// The finished elements.
    pub closed spec fn children(&self) -> Seq<Element> {
        builder_children(self.builder)
    }

    /// The calls made on the builder so far, in their order.
    pub closed spec fn calls(&self) -> Seq<BuilderCall> {
        self.calls@
    }

    /// How often a node has been opened so far.
    pub open spec fn started(&self) -> nat {
        starts(self.calls())
    }

    /// How often a node has been closed so far.
    pub open spec fn finished(&self) -> nat {
        finishes(self.calls())
    }

    /// The diagnostics recorded, oldest first.
    pub closed spec fn errors(&self) -> Seq<Seq<char>> {
        string_views(self.errors@)
    }

    /// The cursor is within the tokens, the leaves built are exactly the
    /// tokens passed, the whole text fits a 32-bit size, every open node
    /// starts within the finished elements, inner nodes no earlier than
    /// outer ones, the open nodes are those opened and not yet closed, no
    /// node was closed before it was opened, and one token was handed over
    /// for each token passed.
    pub closed spec fn wf(&self) -> bool {
        &&& self.pos <= self.tokens.len()
        &&& forest_leaves(self.children()) == self.toks().take(self.pos as int)
        &&& utf8_len(leaves_text(self.toks())) <= u32::MAX
        &&& marks_in_order(self.parents(), self.children().len())
        &&& self.started() == self.finished() + self.parents().len()
        &&& never_over_closed(self.calls())
        &&& tokens_passed(self.calls()) == self.pos
    }

    /// This state is `before` after a rule that contributed `p`: the same
    /// tokens and open nodes, with the rule's elements and diagnostics
    /// appended, the cursor at the rule's end, and the rule's calls behind
    /// the calls made before.
    pub open spec fn extends(&self, before: &TokenFeed, p: Piece) -> bool {
        &&& is_prefix(before.calls(), self.calls())
        &&& self.toks() == before.toks()
        &&& self.parents() == before.parents()
        &&& self.children() == before.children() + p.items
        &&& self.pos() == p.end
        &&& self.errors() == before.errors() + p.errors
    }

    /// This state is `before` with one more node open, of kind `kind`.
    pub open spec fn opened(&self, before: &TokenFeed, kind: u16) -> bool {
        &&& self.toks() == before.toks()
        &&& self.pos() == before.pos()
        &&& self.errors() == before.errors()
        &&& self.children() == before.children()
        &&& self.parents() == before.parents().push((kind, before.children().len()))
        &&& self.calls() == before.calls().push(BuilderCall::StartNode(kind))
    }

    /// This state is `before` with its innermost open node closed: the
    /// elements from the node's mark onwards have become its children.
    pub open spec fn closed(&self, before: &TokenFeed) -> bool {
        let mark = before.parents().last().1 as int;
        &&& before.parents().len() > 0
        &&& mark <= before.children().len()
        &&& self.calls() == before.calls().push(BuilderCall::FinishNode)
        &&& self.toks() == before.toks()
        &&& self.pos() == before.pos()
        &&& self.errors() == before.errors()
        &&& self.parents() == before.parents().drop_last()
        &&& self.children() == before.children().take(mark).push(
            Element::Node {
                kind: before.parents().last().0,
                children: before.children().skip(mark),
            },
        )
    }

    /// No node is closed that was not opened before: at any time the nodes
    /// closed and the nodes still open are together the nodes opened, no
    /// earlier point had more nodes closed than opened, and the builder has
    /// received one token for each token passed.
    pub proof fn lemma_calls_are_matched(&self)
        requires
            self.wf(),
        ensures
            self.started() == self.finished() + self.parents().len(),
            never_over_closed(self.calls()),
            tokens_passed(self.calls()) == self.pos(),
    {
    }

    /// A rule that leaves the open nodes as it found them has closed as many
    /// nodes as it has opened.
    pub proof fn lemma_rule_is_balanced(&self, before: &TokenFeed, p: Piece)
        requires
            before.wf(),
            self.wf(),
            self.extends(before, p),
        ensures
            self.started() - before.started() == self.finished() - before.finished(),
    {
    }

    /// The cursor never leaves the tokens.
    pub proof fn lemma_pos_in_bounds(&self)
        requires
            self.wf(),
        ensures
            0 <= self.pos() <= self.toks().len(),
    {
    }

    /// The leaves of the finished elements are the tokens before the cursor.
    pub proof fn lemma_leaves_are_consumed_tokens(&self)
        requires
            self.wf(),
        ensures
            forest_leaves(self.children()) == self.toks().take(self.pos()),
    {
    }

    /// A feed at the start of `tokens`, with an empty builder.
    pub fn new(tokens: Vec<(u16, String)>) -> (feed: TokenFeed)
        requires
            utf8_len(leaves_text(token_views(tokens@))) <= u32::MAX,
        ensures
            feed.wf(),
            feed.toks() == token_views(tokens@),
            feed.pos() == 0,
            feed.parents() == Seq::<(u16, nat)>::empty(),
            feed.children() == Seq::<Element>::empty(),
            feed.errors() == Seq::<Seq<char>>::empty(),
            feed.calls() == Seq::<BuilderCall>::empty(),
    {
        let feed = TokenFeed {
            tokens,
            pos: 0,
            builder: builder_new(),
            errors: Vec::new(),
            calls: Ghost(Seq::empty()),
        };
        proof {
            assert(feed.toks().take(0) =~= Seq::empty());
            assert(feed.errors() =~= Seq::<Seq<char>>::empty());
            assert forall|n: int| 0 <= n <= feed.calls().len() implies finishes(
                #[trigger] feed.calls().take(n),
            ) <= starts(feed.calls().take(n)) by {
                assert(feed.calls().take(n) =~= Seq::<BuilderCall>::empty());
            }
        }
        feed
    }

    /// The kind of the current token, or `None` at the end.
    pub fn current(&self) -> (kind: Option<u16>)
        requires
            self.wf(),
        ensures
            kind == kind_at(self.toks(), self.pos()),
    {
        if self.pos < self.tokens.len() {
            Some(self.tokens[self.pos].0)
        } else {
            None
        }
    }

    /// Hands the current token to the builder and moves past it; does
    /// nothing at the end.
    pub fn bump(&mut self)
        requires
            old(self).wf(),
        ensures
            final(self).wf(),
            final(self).extends(old(self), piece_bump(old(self).toks(), old(self).pos())),
            final(self).calls() == (if old(self).pos() < old(self).toks().len() {
                old(self).calls().push(
                    BuilderCall::Token(
                        old(self).toks()[old(self).pos()].0,
                        old(self).toks()[old(self).pos()].1,
                    ),
                )
            } else {
                old(self).calls()
            }),
            final(self).started() == old(self).started(),
            final(self).finished() == old(self).finished(),
    {
        if self.pos < self.tokens.len() {
            let ghost before = self.children();
            let ghost item = leaf(self.tokens@[self.pos as int].0, self.tokens@[self.pos as int].1@);
            let ghost call = BuilderCall::Token(
                self.tokens@[self.pos as int].0,
                self.tokens@[self.pos as int].1@,
            );
            builder_token(
                &mut self.builder,
                self.tokens[self.pos].0,
                self.tokens[self.pos].1.as_str(),
            );
            self.pos += 1;
            self.calls = Ghost(self.calls@.push(call));
            proof {
                lemma_call_counts_push(old(self).calls(), call);
                lemma_never_over_closed_push(old(self).calls(), call);
                assert(self.children() =~= before + seq![item]);
                lemma_forest_leaves_concat(before, seq![item]);
                lemma_forest_leaves_single(item);
                assert(self.toks().take(self.pos as int) =~= self.toks().take(self.pos - 1)
                    + element_leaves(item));
            }
        } else {
            proof {
                assert(self.children() =~= self.children() + Seq::<Element>::empty());
                assert(self.errors() =~= self.errors() + Seq::<Seq<char>>::empty());
                assert(self.calls().take(self.calls().len() as int) =~= self.calls());
            }
        }
        proof {
            assert(self.errors() =~= old(self).errors() + Seq::<Seq<char>>::empty());
        }
    }

    /// Records `message` as a diagnostic.
    pub fn error(&mut self, message: String)
        requires
            old(self).wf(),
        ensures
            final(self).wf(),
            final(self).extends(old(self), piece_error(old(self).pos(), message@)),
            final(self).calls() == old(self).calls(),
    {
        self.errors.push(message);
        proof {
            assert(self.calls().take(self.calls().len() as int) =~= self.calls());
            assert(self.children() =~= old(self).children() + Seq::<Element>::empty());
            assert(self.errors() =~= old(self).errors() + seq![message@]);
        }
    }

    /// Opens a node of kind `kind`; what is built next becomes its children.
    pub fn start_node(&mut self, kind: u16)
        requires
            old(self).wf(),
        ensures
            final(self).wf(),
            final(self).opened(old(self), kind),
            final(self).started() == old(self).started() + 1,
            final(self).finished() == old(self).finished(),
    {
        builder_start_node(&mut self.builder, kind);
        self.calls = Ghost(self.calls@.push(BuilderCall::StartNode(kind)));
        proof {
            lemma_call_counts_push(old(self).calls(), BuilderCall::StartNode(kind));
            lemma_never_over_closed_push(old(self).calls(), BuilderCall::StartNode(kind));
        }
    }

    /// Closes the innermost open node: the elements built since it was
    /// opened become its children, and the node takes their place.
    pub fn finish_node(&mut self)
        requires
            old(self).wf(),
            old(self).parents().len() > 0,
        ensures
            final(self).wf(),
            final(self).closed(old(self)),
            final(self).started() == old(self).started(),
            final(self).finished() == old(self).finished() + 1,
    {
        let ghost before = self.children();
        let ghost first = self.parents().last().1 as int;
        proof {
            lemma_prefix_bytes(self.toks(), self.pos as int);
        }
        builder_finish_node(&mut self.builder);
        self.calls = Ghost(self.calls@.push(BuilderCall::FinishNode));
        proof {
            lemma_call_counts_push(old(self).calls(), BuilderCall::FinishNode);
            lemma_never_over_closed_push(old(self).calls(), BuilderCall::FinishNode);
            let node = Element::Node { kind: old(self).parents().last().0, children: before.skip(first) };
            assert(self.children() =~= before.take(first) + seq![node]);
            lemma_forest_leaves_concat(before.take(first), seq![node]);
            lemma_forest_leaves_single(node);
            assert(before =~= before.take(first) + before.skip(first));
            lemma_forest_leaves_concat(before.take(first), before.skip(first));
        }
    }

    /// Ends the build and hands out the tree with the diagnostics.
    pub fn finish(self) -> (out: (GreenNode, Vec<String>))
        requires
            self.wf(),
            self.parents().len() == 0,
            self.children().len() == 1,
            self.children()[0] is Node,
        ensures
            green_tree(out.0) == self.children()[0],
            string_views(out.1@) == self.errors(),
            element_leaves(green_tree(out.0)) == self.toks().take(self.pos()),
            well_nested(self.calls()),
            tokens_passed(self.calls()) == self.pos(),
    {
        proof {
            assert(self.children() =~= seq![self.children()[0]]);
            lemma_forest_leaves_single(self.children()[0]);
        }
        let tree = builder_finish(self.builder);
        (tree, self.errors)
    }
}

/// A state extends itself by the rule that does nothing.
pub proof fn lemma_extends_same(s: &TokenFeed)
    ensures
        s.extends(s, piece_empty(s.pos())),
{
    assert(s.children() + Seq::<Element>::empty() =~= s.children());
    assert(s.errors() + Seq::<Seq<char>>::empty() =~= s.errors());
    assert(s.calls().take(s.calls().len() as int) =~= s.calls());
}

/// Two rules run one after the other contribute their join.
pub proof fn lemma_extends_join(s0: &TokenFeed, s1: &TokenFeed, s2: &TokenFeed, p: Piece, q: Piece)
    requires
        s1.extends(s0, p),
        s2.extends(s1, q),
    ensures
        s2.extends(s0, piece_join(p, q)),
{
    assert((s0.children() + p.items) + q.items =~= s0.children() + (p.items + q.items));
    assert((s0.errors() + p.errors) + q.errors =~= s0.errors() + (p.errors + q.errors));
    lemma_prefix_of_prefix(s0.calls(), s1.calls(), s2.calls());
}

/// Opening a node, running a rule and closing the node contributes the
/// rule's elements wrapped into that node, and leaves the open nodes as they
/// were.
pub proof fn lemma_extends_node(
    s0: &TokenFeed,
    s1: &TokenFeed,
    s2: &TokenFeed,
    s3: &TokenFeed,
    kind: u16,
    body: Piece,
)
    requires
        s1.opened(s0, kind),
        s2.extends(s1, body),
        s3.closed(s2),
    ensures
        s3.extends(s0, piece_node(kind, body)),
{
    let mark = s0.children().len() as int;
    lemma_call_counts_push(s0.calls(), BuilderCall::StartNode(kind));
    lemma_call_counts_push(s2.calls(), BuilderCall::FinishNode);
    lemma_prefix_of_prefix(s0.calls(), s1.calls(), s2.calls());
    lemma_prefix_of_prefix(s0.calls(), s2.calls(), s3.calls());
    assert(s2.parents().last() == (kind, s0.children().len()));
    assert(s2.parents().drop_last() =~= s0.parents());
    assert((s0.children() + body.items).take(mark) =~= s0.children());
    assert((s0.children() + body.items).skip(mark) =~= body.items);
    assert(s3.children() =~= s0.children() + piece_node(kind, body).items);
}

/// Whether the rule that contributed `p` at `pos` consumed tokens in order
/// and kept each as a leaf: it stopped at or behind `pos`, within the
/// tokens, and the leaves of its elements are the tokens it passed.
pub open spec fn covers(toks: Seq<(u16, Seq<char>)>, pos: int, p: Piece) -> bool {
    &&& 0 <= pos <= p.end <= toks.len()
    &&& forest_leaves(p.items) == toks.subrange(pos, p.end)
}

/// The rules that add no element consume no token.
pub proof fn lemma_covers_nothing(toks: Seq<(u16, Seq<char>)>, pos: int, message: Seq<char>)
    requires
        0 <= pos <= toks.len(),
    ensures
        covers(toks, pos, piece_empty(pos)),
        covers(toks, pos, piece_error(pos, message)),
{
    assert(toks.subrange(pos, pos) =~= Seq::empty());
}

/// Consuming one token keeps it as a leaf.
pub proof fn lemma_covers_bump(toks: Seq<(u16, Seq<char>)>, pos: int)
    requires
        0 <= pos <= toks.len(),
    ensures
        covers(toks, pos, piece_bump(toks, pos)),
{
    if pos < toks.len() {
        lemma_forest_leaves_single(leaf(toks[pos].0, toks[pos].1));
        assert(toks.subrange(pos, pos + 1) =~= seq![toks[pos]]);
    } else {
        assert(toks.subrange(pos, pos) =~= Seq::empty());
    }
}

/// Two rules that keep their tokens, one after the other, keep them all.
pub proof fn lemma_covers_join(toks: Seq<(u16, Seq<char>)>, pos: int, a: Piece, b: Piece)
    requires
        covers(toks, pos, a),
        covers(toks, a.end, b),
    ensures
        covers(toks, pos, piece_join(a, b)),
{
    lemma_forest_leaves_concat(a.items, b.items);
    assert(toks.subrange(pos, b.end) =~= toks.subrange(pos, a.end) + toks.subrange(a.end, b.end));
}

/// Wrapping elements into a node keeps their leaves.
pub proof fn lemma_covers_node(toks: Seq<(u16, Seq<char>)>, pos: int, kind: u16, body: Piece)
    requires
        covers(toks, pos, body),
    ensures
        covers(toks, pos, piece_node(kind, body)),
{
    lemma_forest_leaves_single(Element::Node { kind, children: body.items });
}

/// The calls of a rule that builds one node: where a node is opened, rules
/// run, and the node is closed, the first of these calls opens the node and
/// the last closes it.
pub proof fn lemma_node_calls(
    s0: &TokenFeed,
    s1: &TokenFeed,
    s2: &TokenFeed,
    s3: &TokenFeed,
    kind: u16,
)
    requires
        s1.opened(s0, kind),
        is_prefix(s1.calls(), s2.calls()),
        s3.closed(s2),
    ensures
        wraps(s0.calls(), s3.calls(), kind),
{
    let at = s0.calls().len() as int;
    assert(s1.calls()[at] == BuilderCall::StartNode(kind));
    assert(s2.calls().take(s1.calls().len() as int)[at] == s2.calls()[at]);
    assert(s3.calls()[at] == s2.calls()[at]);
}

/// The calls of a whole build under one root: where a build starts with no
/// call, opens a root, runs rules that open at most `tokens` nodes, and
/// closes the root, the first call opens the root, the last call closes it,
/// and at most `tokens` and one nodes were opened.
pub proof fn lemma_rooted_calls(
    s0: &TokenFeed,
    s1: &TokenFeed,
    s2: &TokenFeed,
    s3: &TokenFeed,
    kind: u16,
    tokens: nat,
)
    requires
        s0.calls() == Seq::<BuilderCall>::empty(),
        s1.opened(s0, kind),
        is_prefix(s1.calls(), s2.calls()),
        s2.started() - s1.started() <= tokens,
        s3.closed(s2),
    ensures
        s3.calls().len() >= 2,
        s3.calls()[0] == BuilderCall::StartNode(kind),
        s3.calls().last() == BuilderCall::FinishNode,
        starts(s3.calls()) <= tokens + 1,
{
    lemma_call_counts_push(s0.calls(), BuilderCall::StartNode(kind));
    lemma_call_counts_push(s2.calls(), BuilderCall::FinishNode);
    assert(s1.calls()[0] == BuilderCall::StartNode(kind));
    assert(s2.calls().take(s1.calls().len() as int)[0] == s2.calls()[0]);
    assert(s3.calls()[0] == s2.calls()[0]);
    assert(starts(s0.calls()) == 0);
}

} // verus!
