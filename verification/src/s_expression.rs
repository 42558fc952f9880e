//! S-expressions: parenthesized lists of words, tokenized by `m_lexer`,
//! parsed into a lossless syntax tree, and evaluated as integer arithmetic.

use crate::feed::{
    covers, kind_at, lemma_call_counts_total, lemma_covers_bump, lemma_covers_join,
    lemma_covers_node, lemma_covers_nothing, lemma_extends_join, lemma_extends_node,
    lemma_extends_same, lemma_join_assoc, lemma_join_empty, lemma_node_calls, lemma_rooted_calls,
    piece_bump, piece_empty, piece_error, piece_join, piece_node, starts, string_views,
    token_views, tokens_passed, well_nested, wraps, BuilderCall, Piece, TokenFeed,
};
use crate::green::{
    element_children, element_kind, element_leaves, element_text, green_tree, leaves_text,
    lemma_forest_leaves_single, lemma_leaves_text_concat, syntax_children, syntax_children_of,
    syntax_clone, syntax_kind, syntax_kind_of, syntax_root, syntax_tree, utf8_len, Element,
    SyntaxElement,
};
use crate::syntax::is_node_of_kind;
use crate::text::{integer_of, parse_integer, same_text};
use m_lexer::{LexerBuilder, TokenKind};
use rowan::cursor::SyntaxNode;
use rowan::GreenNode;
use vstd::prelude::*;
use vstd::utf8::{
    decode_utf8, decode_utf8_split, encode_utf8, encode_utf8_decode_utf8, encode_utf8_valid_utf8,
    is_char_boundary, valid_utf8, valid_utf8_split,
};

verus! {

/// The kinds of tokens and of nodes, numbered without gaps from 0 in the
/// order written; the token kinds come first.
#[derive(Debug, Clone, Copy, PartialEq, Eq, Structural, PartialOrd, Ord, Hash)]
#[allow(non_camel_case_types)]
pub enum SyntaxKind {
    L_PAREN,
    R_PAREN,
    WORD,
    WHITESPACE,
    ERROR,
    LIST,
    ATOM,
    ROOT,
}

/// The largest number of a kind.
pub const MAX_KIND: u16 = 7;

/// The largest number of a token kind.
pub const MAX_TOKEN_KIND: u16 = 4;

impl SyntaxKind {
    /// The number of this kind.
    pub open spec fn raw(self) -> u16 {
        match self {
            SyntaxKind::L_PAREN => 0,
            SyntaxKind::R_PAREN => 1,
            SyntaxKind::WORD => 2,
            SyntaxKind::WHITESPACE => 3,
            SyntaxKind::ERROR => 4,
            SyntaxKind::LIST => 5,
            SyntaxKind::ATOM => 6,
            SyntaxKind::ROOT => 7,
        }
    }

    /// The kind with number `raw`, if there is one.
    pub open spec fn decode(raw: u16) -> Option<SyntaxKind> {
        if raw == 0 {
            Some(SyntaxKind::L_PAREN)
        } else if raw == 1 {
            Some(SyntaxKind::R_PAREN)
        } else if raw == 2 {
            Some(SyntaxKind::WORD)
        } else if raw == 3 {
            Some(SyntaxKind::WHITESPACE)
        } else if raw == 4 {
            Some(SyntaxKind::ERROR)
        } else if raw == 5 {
            Some(SyntaxKind::LIST)
        } else if raw == 6 {
            Some(SyntaxKind::ATOM)
        } else if raw == 7 {
            Some(SyntaxKind::ROOT)
        } else {
            None
        }
    }

    /// The number of this kind.
    pub fn to_raw(self) -> (raw: u16)
        ensures
            raw == self.raw(),
            raw <= MAX_KIND,
            SyntaxKind::decode(raw) == Some(self),
    {
        match self {
            SyntaxKind::L_PAREN => 0,
            SyntaxKind::R_PAREN => 1,
            SyntaxKind::WORD => 2,
            SyntaxKind::WHITESPACE => 3,
            SyntaxKind::ERROR => 4,
            SyntaxKind::LIST => 5,
            SyntaxKind::ATOM => 6,
            SyntaxKind::ROOT => 7,
        }
    }

    /// The kind with number `raw`; `None` for a number that no kind has.
    pub fn from_raw(raw: u16) -> (kind: Option<SyntaxKind>)
        ensures
            kind == SyntaxKind::decode(raw),
            kind is Some <==> raw <= MAX_KIND,
            kind matches Some(k) ==> k.raw() == raw,
    {
        match raw {
            0 => Some(SyntaxKind::L_PAREN),
            1 => Some(SyntaxKind::R_PAREN),
            2 => Some(SyntaxKind::WORD),
            3 => Some(SyntaxKind::WHITESPACE),
            4 => Some(SyntaxKind::ERROR),
            5 => Some(SyntaxKind::LIST),
            6 => Some(SyntaxKind::ATOM),
            7 => Some(SyntaxKind::ROOT),
            _ => None,
        }
    }
}

/// The language tag of this grammar: it maps kinds to their numbers and
/// back.
#[derive(Debug, Clone, Copy, PartialEq, Eq, PartialOrd, Ord, Hash)]
pub enum Lang {
    Sexp,
}

impl Lang {
    /// The kind with number `raw`. A number beyond the last kind is a defect
    /// of the caller.
    pub fn kind_from_raw(raw: u16) -> (kind: SyntaxKind)
        requires
            raw <= MAX_KIND,
        ensures
            SyntaxKind::decode(raw) == Some(kind),
            kind.raw() == raw,
    {
        match SyntaxKind::from_raw(raw) {
            Some(kind) => kind,
            None => SyntaxKind::ROOT,
        }
    }

    /// The number of `kind`.
    pub fn kind_to_raw(kind: SyntaxKind) -> (raw: u16)
        ensures
            raw == kind.raw(),
            raw <= MAX_KIND,
    {
        kind.to_raw()
    }
}

/// The rules of the tokenizer, each a token kind's number with the regular
/// expression of its tokens: the two parentheses, words, white space.
pub open spec fn lexer_rules() -> Seq<(u16, Seq<char>)> {
    seq![(0u16, "\\("@), (1u16, "\\)"@), (2u16, "[^\\s()]+"@), (3u16, "\\s+"@)]
}

/// What `m_lexer` makes of `text` under `rules`, with `error_kind` for what
/// no rule matches: the tokens in order, each as its kind's number and its
/// length in bytes.
pub uninterp spec fn lexer_tokens(
    error_kind: u16,
    rules: Seq<(u16, Seq<char>)>,
    text: Seq<char>,
) -> Seq<(u16, nat)>;

/// Whether `cuts` divide `bytes` into pieces, one after the other from the
/// start to the end: each piece is not empty and ends where a character
/// ends.
pub open spec fn segments(bytes: Seq<u8>, cuts: Seq<(u16, nat)>) -> bool
    decreases cuts.len(),
{
    if cuts.len() == 0 {
        bytes.len() == 0
    } else {
        let n = cuts[0].1 as int;
        &&& 0 < n
        &&& is_char_boundary(bytes, n)
        &&& segments(bytes.subrange(n, bytes.len() as int), cuts.drop_first())
    }
}

/// Rules as numbers and patterns.
pub open spec fn rule_views(rules: Seq<(u16, &'static str)>) -> Seq<(u16, Seq<char>)> {
    Seq::new(rules.len(), |i: int| (rules[i].0, rules[i].1@))
}

/// Cuts as numbers and lengths.
pub open spec fn cut_views(cuts: Seq<(u16, usize)>) -> Seq<(u16, nat)> {
    Seq::new(cuts.len(), |i: int| (cuts[i].0, cuts[i].1 as nat))
}

/// A lexer built by `m_lexer::LexerBuilder` from `error_kind` and `rules`,
/// run by `m_lexer::Lexer::tokenize` on `text`. The tokens cover `text` from
/// start to end without gaps, each at least one byte long and ending where a
/// character ends, and each has the kind of a rule or `error_kind`. A rule
/// that is no regular expression, or matches the empty string, makes the
/// call panic: only the rules of this grammar are admitted.
#[verifier::external_body]
fn tokenize(error_kind: u16, rules: &Vec<(u16, &'static str)>, text: &str) -> (out: Vec<
    (u16, usize),
>)
    requires
        rule_views(rules@) == lexer_rules(),
    ensures
        cut_views(out@) == lexer_tokens(error_kind, rule_views(rules@), text@),
        segments(encode_utf8(text@), cut_views(out@)),
        forall|i: int|
            0 <= i < out@.len() ==> (#[trigger] out@[i]).0 == error_kind || exists|j: int|
                0 <= j < rules@.len() && (#[trigger] rules@[j]).0 == out@[i].0,
{
    let table: Vec<(TokenKind, &str)> = rules.iter().map(|r| (TokenKind(r.0), r.1)).collect();
    let lexer = LexerBuilder::new().error_token(TokenKind(error_kind)).tokens(&table).build();
    lexer.tokenize(text).into_iter().map(|t| (t.kind.0, t.len)).collect()
}

/// The token kind with number `raw`, if there is one.
pub open spec fn token_kind_of(raw: u16) -> Option<SyntaxKind> {
    if raw <= MAX_TOKEN_KIND {
        SyntaxKind::decode(raw)
    } else {
        None
    }
}

/// `tokens` behind `before`, where there are any.
pub open spec fn prepend(
    before: Seq<(SyntaxKind, Seq<char>)>,
    tokens: Option<Seq<(SyntaxKind, Seq<char>)>>,
) -> Option<Seq<(SyntaxKind, Seq<char>)>> {
    match tokens {
        Some(rest) => Some(before + rest),
        None => None,
    }
}

/// The tokens that `cuts` make of `bytes`: each cut takes its length in
/// bytes from the front, as a token of its kind. There are none where a
/// cut's number is not that of a token kind, where a cut ends inside a
/// character or behind the end, or where the cuts do not use up the bytes.
pub open spec fn cut_bytes(bytes: Seq<u8>, cuts: Seq<(u16, nat)>) -> Option<
    Seq<(SyntaxKind, Seq<char>)>,
>
    decreases cuts.len(),
{
    if cuts.len() == 0 {
        if bytes.len() == 0 {
            Some(Seq::empty())
        } else {
            None
        }
    } else {
        let n = cuts[0].1 as int;
        match token_kind_of(cuts[0].0) {
            Some(kind) => if is_char_boundary(bytes, n) {
                prepend(
                    seq![(kind, decode_utf8(bytes.subrange(0, n)))],
                    cut_bytes(bytes.subrange(n, bytes.len() as int), cuts.drop_first()),
                )
            } else {
                None
            },
            None => None,
        }
    }
}

/// Tokens as kinds and texts.
pub open spec fn typed_views(tokens: Seq<(SyntaxKind, String)>) -> Seq<(SyntaxKind, Seq<char>)> {
    Seq::new(tokens.len(), |i: int| (tokens[i].0, tokens[i].1@))
}

/// Typed tokens with their kinds as numbers.
pub open spec fn raw_tokens(tokens: Seq<(SyntaxKind, Seq<char>)>) -> Seq<(u16, Seq<char>)> {
    Seq::new(tokens.len(), |i: int| (tokens[i].0.raw(), tokens[i].1))
}

/// Cutting loses nothing: the texts of the tokens cut from `bytes`, joined
/// in order, are the text that `bytes` encode.
pub proof fn lemma_cut_lossless(bytes: Seq<u8>, cuts: Seq<(u16, nat)>)
    requires
        valid_utf8(bytes),
        cut_bytes(bytes, cuts) is Some,
    ensures
        leaves_text(raw_tokens(cut_bytes(bytes, cuts)->0)) == decode_utf8(bytes),
    decreases cuts.len(),
{
    if cuts.len() == 0 {
        assert(decode_utf8(bytes) =~= Seq::<char>::empty());
        assert(leaves_text(raw_tokens(cut_bytes(bytes, cuts)->0)) =~= Seq::<char>::empty());
    } else {
        let n = cuts[0].1 as int;
        let kind = token_kind_of(cuts[0].0)->0;
        let tail = bytes.subrange(n, bytes.len() as int);
        valid_utf8_split(bytes, n);
        decode_utf8_split(bytes, n);
        lemma_cut_lossless(tail, cuts.drop_first());
        let rest = cut_bytes(tail, cuts.drop_first())->0;
        let head = seq![(kind.raw(), decode_utf8(bytes.subrange(0, n)))];
        assert(raw_tokens(cut_bytes(bytes, cuts)->0) =~= head + raw_tokens(rest));
        lemma_leaves_text_concat(head, raw_tokens(rest));
        reveal_with_fuel(leaves_text, 2);
        assert(head.drop_last() =~= Seq::<(u16, Seq<char>)>::empty());
        assert(leaves_text(head) =~= head[0].1);
    }
}

/// Cuts that divide `bytes` and carry numbers of token kinds make tokens.
pub proof fn lemma_segments_cut(bytes: Seq<u8>, cuts: Seq<(u16, nat)>)
    requires
        segments(bytes, cuts),
        forall|i: int| 0 <= i < cuts.len() ==> (#[trigger] cuts[i]).0 <= MAX_TOKEN_KIND,
    ensures
        cut_bytes(bytes, cuts) is Some,
    decreases cuts.len(),
{
    if cuts.len() > 0 {
        let n = cuts[0].1 as int;
        assert(cuts[0].0 <= MAX_TOKEN_KIND);
        assert forall|i: int| 0 <= i < cuts.drop_first().len() implies (
        #[trigger] cuts.drop_first()[i]).0 <= MAX_TOKEN_KIND by {
            assert(cuts.drop_first()[i] == cuts[i + 1]);
        }
        lemma_segments_cut(bytes.subrange(n, bytes.len() as int), cuts.drop_first());
    }
}

/// Cuts `text` into tokens: each cut gives a kind's number and a length in
/// bytes, taken from the front of what is left. `None` where the cuts do
/// not fit `text`.
pub fn cut_tokens(text: &str, cuts: &Vec<(u16, usize)>) -> (out: Option<Vec<(SyntaxKind, String)>>)
    ensures
        match out {
            Some(tokens) => cut_bytes(encode_utf8(text@), cut_views(cuts@)) == Some(
                typed_views(tokens@),
            ),
            None => cut_bytes(encode_utf8(text@), cut_views(cuts@)) is None,
        },
{
    let ghost all = cut_views(cuts@);
    let mut rest: &str = text;
    let mut out: Vec<(SyntaxKind, String)> = Vec::new();
    let mut i: usize = 0;
    proof {
        assert(all.skip(0) =~= all);
        assert(typed_views(out@) =~= Seq::empty());
        match cut_bytes(encode_utf8(text@), all) {
            Some(tokens) => {
                assert(typed_views(out@) + tokens =~= tokens);
            },
            None => {},
        }
    }
    while i < cuts.len()
        invariant
            i <= cuts.len(),
            all == cut_views(cuts@),
            cut_bytes(encode_utf8(text@), all) == prepend(
                typed_views(out@),
                cut_bytes(encode_utf8(rest@), all.skip(i as int)),
            ),
        decreases cuts.len() - i,
    {
        let kind_raw = cuts[i].0;
        let n = cuts[i].1;
        let ghost bytes = encode_utf8(rest@);
        proof {
            assert(all.skip(i as int)[0] == (kind_raw, n as nat));
            assert(all.skip(i as int).drop_first() =~= all.skip(i + 1));
            encode_utf8_valid_utf8(rest@);
        }
        if kind_raw > MAX_TOKEN_KIND {
            return None;
        }
        let kind = Lang::kind_from_raw(kind_raw);
        if !rest.is_char_boundary(n) {
            return None;
        }
        let (head, tail) = rest.split_at(n);
        let ghost before = typed_views(out@);
        out.push((kind, head.to_owned()));
        proof {
            encode_utf8_decode_utf8(head@);
            valid_utf8_split(bytes, n as int);
            let t = (kind, decode_utf8(bytes.subrange(0, n as int)));
            assert(typed_views(out@) =~= before.push(t));
            match cut_bytes(encode_utf8(tail@), all.skip(i + 1)) {
                Some(more) => {
                    assert(before.push(t) + more =~= before + (seq![t] + more));
                },
                None => {},
            }
        }
        rest = tail;
        i += 1;
    }
    proof {
        assert(all.skip(i as int) =~= Seq::<(u16, nat)>::empty());
        assert(typed_views(out@) + Seq::<(SyntaxKind, Seq<char>)>::empty() =~= typed_views(out@));
    }
    if !rest.is_empty() {
        proof {
            assert(encode_utf8(rest@).len() > 0) by {
                reveal_with_fuel(encode_utf8, 2);
            }
        }
        return None;
    }
    proof {
        assert(encode_utf8(rest@).len() == 0);
        assert(cut_bytes(encode_utf8(rest@), all.skip(i as int)) == Some(
            Seq::<(SyntaxKind, Seq<char>)>::empty(),
        ));
    }
    Some(out)
}

/// The tokens of `text`: what `m_lexer` makes of it under the rules of this
/// grammar, each with its text.
pub open spec fn lex_spec(text: Seq<char>) -> Seq<(SyntaxKind, Seq<char>)> {
    match cut_bytes(encode_utf8(text), lexer_tokens(SyntaxKind::ERROR.raw(), lexer_rules(), text)) {
        Some(tokens) => tokens,
        None => Seq::empty(),
    }
}

/// Splits `text` into tokens. Every character belongs to exactly one token:
/// the texts of the tokens, joined in order, are `text`.
pub fn lex(text: &str) -> (tokens: Vec<(SyntaxKind, String)>)
    ensures
        typed_views(tokens@) == lex_spec(text@),
        leaves_text(raw_tokens(lex_spec(text@))) == text@,
{
    let mut rules: Vec<(u16, &'static str)> = Vec::new();
    rules.push((SyntaxKind::L_PAREN.to_raw(), "\\("));
    rules.push((SyntaxKind::R_PAREN.to_raw(), "\\)"));
    rules.push((SyntaxKind::WORD.to_raw(), "[^\\s()]+"));
    rules.push((SyntaxKind::WHITESPACE.to_raw(), "\\s+"));
    proof {
        assert(rule_views(rules@) =~= lexer_rules());
    }
    let cuts = tokenize(SyntaxKind::ERROR.to_raw(), &rules, text);
    proof {
        let all = cut_views(cuts@);
        assert forall|i: int| 0 <= i < all.len() implies (#[trigger] all[i]).0
            <= MAX_TOKEN_KIND by {
            assert(all[i].0 == cuts@[i].0);
        }
        lemma_segments_cut(encode_utf8(text@), all);
        encode_utf8_valid_utf8(text@);
        lemma_cut_lossless(encode_utf8(text@), all);
        encode_utf8_decode_utf8(text@);
    }
    match cut_tokens(text, &cuts) {
        Some(tokens) => tokens,
        None => Vec::new(),
    }
}

/// How a rule for one S-expression ended: with an expression consumed, at
/// the end of the tokens, or before a closing parenthesis.
#[derive(Debug, Clone, Copy, PartialEq, Eq, Structural)]
pub enum SexpRes {
    Expr,
    Eof,
    RParen,
}

/// The rule that consumes white space from `pos` on.
pub open spec fn piece_ws(toks: Seq<(u16, Seq<char>)>, pos: int) -> Piece
    decreases toks.len() - pos,
{
    if 0 <= pos < toks.len() && toks[pos].0 == SyntaxKind::WHITESPACE.raw() {
        piece_join(piece_bump(toks, pos), piece_ws(toks, pos + 1))
    } else {
        piece_empty(pos)
    }
}

/// How the rule for one S-expression ends at `pos`, by the first token
/// behind the white space there.
pub open spec fn sexp_res(toks: Seq<(u16, Seq<char>)>, pos: int) -> SexpRes {
    match kind_at(toks, piece_ws(toks, pos).end) {
        None => SexpRes::Eof,
        Some(kind) => if kind == SyntaxKind::R_PAREN.raw() {
            SexpRes::RParen
        } else {
            SexpRes::Expr
        },
    }
}

/// One S-expression at `pos`: white space, then a list where a parenthesis
/// opens, an atom node around a word, or any other token as a leaf. Before
/// a closing parenthesis and at the end only the white space is consumed.
pub open spec fn piece_sexp(toks: Seq<(u16, Seq<char>)>, pos: int) -> Piece
    decreases toks.len() - pos, 1nat,
{
    let w = piece_ws(toks, pos);
    match kind_at(toks, w.end) {
        None => w,
        Some(kind) => if kind == SyntaxKind::R_PAREN.raw() {
            w
        } else if kind == SyntaxKind::L_PAREN.raw() {
            if pos <= w.end {
                piece_join(w, piece_list(toks, w.end))
            } else {
                w
            }
        } else if kind == SyntaxKind::WORD.raw() {
            piece_join(w, piece_node(SyntaxKind::ATOM.raw(), piece_bump(toks, w.end)))
        } else {
            piece_join(w, piece_bump(toks, w.end))
        },
    }
}

/// A list at `pos`, where a parenthesis opens: the parenthesis and what
/// follows up to the parenthesis that closes it, as one node.
pub open spec fn piece_list(toks: Seq<(u16, Seq<char>)>, pos: int) -> Piece
    decreases toks.len() - pos, 0nat,
{
    if 0 <= pos < toks.len() {
        piece_node(
            SyntaxKind::LIST.raw(),
            piece_join(piece_bump(toks, pos), piece_list_rest(toks, pos + 1)),
        )
    } else {
        piece_empty(pos)
    }
}

/// The inside of a list from `pos` on: S-expressions up to the closing
/// parenthesis, which is consumed; where the tokens end first, a diagnostic
/// is recorded.
pub open spec fn piece_list_rest(toks: Seq<(u16, Seq<char>)>, pos: int) -> Piece
    decreases toks.len() - pos, 2nat,
{
    if 0 <= pos <= toks.len() {
        let s = piece_sexp(toks, pos);
        match sexp_res(toks, pos) {
            SexpRes::Eof => piece_join(s, piece_error(s.end, "expected `)`"@)),
            SexpRes::RParen => piece_join(s, piece_bump(toks, s.end)),
            SexpRes::Expr => if pos < s.end <= toks.len() {
                piece_join(s, piece_list_rest(toks, s.end))
            } else {
                s
            },
        }
    } else {
        piece_empty(pos)
    }
}

/// A closing parenthesis that closes nothing: a diagnostic, and the
/// parenthesis in an error node.
pub open spec fn piece_unmatched(toks: Seq<(u16, Seq<char>)>, pos: int) -> Piece {
    piece_node(
        SyntaxKind::ERROR.raw(),
        piece_join(piece_error(pos, "unmatched `)"@), piece_bump(toks, pos)),
    )
}

/// The S-expressions from `pos` to the end of the tokens.
pub open spec fn piece_items(toks: Seq<(u16, Seq<char>)>, pos: int) -> Piece
    decreases toks.len() - pos,
{
    if 0 <= pos <= toks.len() {
        let s = piece_sexp(toks, pos);
        match sexp_res(toks, pos) {
            SexpRes::Eof => s,
            SexpRes::RParen => {
                let u = piece_join(s, piece_unmatched(toks, s.end));
                if pos < u.end <= toks.len() {
                    piece_join(u, piece_items(toks, u.end))
                } else {
                    u
                }
            },
            SexpRes::Expr => if pos < s.end <= toks.len() {
                piece_join(s, piece_items(toks, s.end))
            } else {
                s
            },
        }
    } else {
        piece_empty(pos)
    }
}

/// The whole text: its S-expressions and the white space behind them, as
/// the root node.
pub open spec fn piece_root(toks: Seq<(u16, Seq<char>)>) -> Piece {
    let items = piece_items(toks, 0);
    piece_node(SyntaxKind::ROOT.raw(), piece_join(items, piece_ws(toks, items.end)))
}

/// The tokens of `text`, with their kinds as numbers.
pub open spec fn tokens_of(text: Seq<char>) -> Seq<(u16, Seq<char>)> {
    raw_tokens(lex_spec(text))
}

/// The syntax tree of `text`.
pub open spec fn parse_tree(text: Seq<char>) -> Element {
    piece_root(tokens_of(text)).items[0]
}

/// The diagnostics of `text`, in the order in which parsing meets them.
pub open spec fn parse_errors(text: Seq<char>) -> Seq<Seq<char>> {
    piece_root(tokens_of(text)).errors
}

/// The result of parsing: the tree, and the diagnostics in the order in
/// which they were met.
pub struct Parse {
    green_node: GreenNode,
    pub errors: Vec<String>,
    calls: Ghost<Seq<BuilderCall>>,
}

impl Parse {
    /// The tree is a root node.
    #[verifier::type_invariant]
    spec fn rooted(self) -> bool {
        green_tree(self.green_node) is Node && element_kind(green_tree(self.green_node))
            == SyntaxKind::ROOT.raw()
    }

    /// The tree.
    pub closed spec fn tree(&self) -> Element {
        green_tree(self.green_node)
    }

    /// The diagnostics.
    pub closed spec fn messages(&self) -> Seq<Seq<char>> {
        string_views(self.errors@)
    }

    /// The calls that parsing made on the tree builder, in their order.
    pub closed spec fn calls(&self) -> Seq<BuilderCall> {
        self.calls@
    }

    /// Whether the calls made on the builder are in order for `tokens`
    /// tokens. The first call opens the root and the last closes it; no
    /// node is closed before it is opened and every node opened is closed;
    /// each token is handed over once; and no more nodes are opened than
    /// there are tokens, but for the root, so that the calls are at most
    /// three for each token and two more.
    pub open spec fn in_order(&self, tokens: nat) -> bool {
        &&& self.calls().len() >= 2
        &&& self.calls()[0] == BuilderCall::StartNode(SyntaxKind::ROOT.raw())
        &&& self.calls().last() == BuilderCall::FinishNode
        &&& well_nested(self.calls())
        &&& tokens_passed(self.calls()) == tokens
        &&& starts(self.calls()) <= tokens + 1
        &&& self.calls().len() <= 3 * tokens + 2
    }

    /// Whether this is what parsing `text` gives.
    pub open spec fn is_parse_of(&self, text: Seq<char>) -> bool {
        self.tree() == parse_tree(text) && self.messages() == parse_errors(text)
    }

    /// The diagnostics, in the order in which they were met.
    pub fn diagnostics(&self) -> (out: &Vec<String>)
        ensures
            string_views(out@) == self.messages(),
    {
        &self.errors
    }
}

/// The parser: the grammar's rules over a token feed.
struct Parser {
    feed: TokenFeed,
}

impl Parser {
    /// This parser is `before` after a rule that contributed `p`, and the
    /// rule opened no more nodes than it consumed tokens.
    spec fn did(&self, before: &Parser, p: Piece) -> bool {
        &&& self.feed.wf()
        &&& self.feed.extends(&before.feed, p)
        &&& self.feed.started() - before.feed.started() <= self.feed.pos() - before.feed.pos()
    }

    /// The number of tokens not yet consumed.
    spec fn left(&self) -> int {
        self.feed.toks().len() - self.feed.pos()
    }

    /// A parser at the start of `tokens`.
    fn new(tokens: Vec<(SyntaxKind, String)>) -> (parser: Parser)
        requires
            utf8_len(leaves_text(raw_tokens(typed_views(tokens@)))) <= u32::MAX,
        ensures
            parser.feed.wf(),
            parser.feed.toks() == raw_tokens(typed_views(tokens@)),
            parser.feed.pos() == 0,
            parser.feed.parents() == Seq::<(u16, nat)>::empty(),
            parser.feed.children() == Seq::<Element>::empty(),
            parser.feed.errors() == Seq::<Seq<char>>::empty(),
            parser.feed.calls() == Seq::<BuilderCall>::empty(),
    {
        let mut raw: Vec<(u16, String)> = Vec::new();
        let mut i: usize = 0;
        while i < tokens.len()
            invariant
                i <= tokens.len(),
                token_views(raw@) == raw_tokens(typed_views(tokens@)).take(i as int),
            decreases tokens.len() - i,
        {
            let ghost before = token_views(raw@);
            raw.push((tokens[i].0.to_raw(), tokens[i].1.clone()));
            i += 1;
            proof {
                assert(token_views(raw@) =~= before.push(
                    (tokens@[i - 1].0.raw(), tokens@[i - 1].1@),
                ));
                assert(token_views(raw@) =~= raw_tokens(typed_views(tokens@)).take(i as int));
            }
        }
        proof {
            assert(raw_tokens(typed_views(tokens@)).take(i as int) =~= raw_tokens(
                typed_views(tokens@),
            ));
        }
        Parser { feed: TokenFeed::new(raw) }
    }

    /// The number of the current token's kind, or `None` at the end.
    fn current(&self) -> (kind: Option<u16>)
        requires
            self.feed.wf(),
        ensures
            kind == kind_at(self.feed.toks(), self.feed.pos()),
    {
        self.feed.current()
    }

    /// Consumes the current token as a leaf.
    fn bump(&mut self)
        requires
            old(self).feed.wf(),
        ensures
            final(self).did(old(self), piece_bump(old(self).feed.toks(), old(self).feed.pos())),
            final(self).feed.started() == old(self).feed.started(),
    {
        self.feed.bump();
    }

    /// Consumes white space.
    fn skip_ws(&mut self)
        requires
            old(self).feed.wf(),
        ensures
            final(self).did(old(self), piece_ws(old(self).feed.toks(), old(self).feed.pos())),
            old(self).feed.pos() <= final(self).feed.pos() <= old(self).feed.toks().len(),
    {
        let ghost toks = self.feed.toks();
        let ghost start = self.feed.pos();
        let ghost mut acc = piece_empty(start);
        proof {
            lemma_extends_same(&self.feed);
            lemma_join_empty(piece_ws(toks, start));
            self.feed.lemma_pos_in_bounds();
        }
        loop
            invariant
                self.feed.wf(),
                self.feed.started() - old(self).feed.started() <= self.feed.pos() - old(
                    self,
                ).feed.pos(),
                self.feed.toks() == toks,
                self.feed.extends(&old(self).feed, acc),
                acc.end == self.feed.pos(),
                piece_ws(toks, start) == piece_join(acc, piece_ws(toks, self.feed.pos())),
                start <= self.feed.pos() <= toks.len(),
            ensures
                self.did(old(self), piece_ws(toks, start)),
                start <= self.feed.pos() <= toks.len(),
            decreases toks.len() - self.feed.pos(),
        {
            if self.current() != Some(SyntaxKind::WHITESPACE.to_raw()) {
                proof {
                    lemma_join_empty(acc);
                }
                break ;
            }
            let ghost prev = self.feed;
            let ghost step = piece_bump(toks, prev.pos());
            self.feed.bump();
            proof {
                lemma_extends_join(&old(self).feed, &prev, &self.feed, acc, step);
                lemma_join_assoc(acc, step, piece_ws(toks, prev.pos() + 1));
                acc = piece_join(acc, step);
                self.feed.lemma_pos_in_bounds();
            }
        }
    }

    /// One S-expression, and how it ended.
    fn sexp(&mut self) -> (res: SexpRes)
        requires
            old(self).feed.wf(),
        ensures
            final(self).did(old(self), piece_sexp(old(self).feed.toks(), old(self).feed.pos())),
            res == sexp_res(old(self).feed.toks(), old(self).feed.pos()),
            old(self).feed.pos() <= final(self).feed.pos() <= old(self).feed.toks().len(),
            res == SexpRes::Expr ==> old(self).feed.pos() < final(self).feed.pos(),
            res == SexpRes::Eof ==> final(self).feed.pos() == old(self).feed.toks().len(),
            res == SexpRes::RParen ==> kind_at(final(self).feed.toks(), final(self).feed.pos())
                == Some(SyntaxKind::R_PAREN.raw()),
        decreases old(self).left(), 1nat,
    {
        let ghost toks = self.feed.toks();
        let ghost w = piece_ws(toks, self.feed.pos());
        proof {
            self.feed.lemma_pos_in_bounds();
        }
        self.skip_ws();
        let ghost sw = self.feed;
        let kind = match self.current() {
            None => {
                return SexpRes::Eof;
            },
            Some(kind) => kind,
        };
        if kind == SyntaxKind::R_PAREN.to_raw() {
            return SexpRes::RParen;
        }
        if kind == SyntaxKind::L_PAREN.to_raw() {
            self.list();
            proof {
                lemma_extends_join(&old(self).feed, &sw, &self.feed, w, piece_list(toks, w.end));
                self.feed.lemma_pos_in_bounds();
            }
        } else if kind == SyntaxKind::WORD.to_raw() {
            self.feed.start_node(SyntaxKind::ATOM.to_raw());
            let ghost s1 = self.feed;
            self.bump();
            let ghost s2 = self.feed;
            self.feed.finish_node();
            proof {
                let atom = piece_node(SyntaxKind::ATOM.raw(), piece_bump(toks, w.end));
                lemma_extends_node(
                    &sw,
                    &s1,
                    &s2,
                    &self.feed,
                    SyntaxKind::ATOM.raw(),
                    piece_bump(toks, w.end),
                );
                lemma_extends_join(&old(self).feed, &sw, &self.feed, w, atom);
            }
        } else {
            self.bump();
            proof {
                lemma_extends_join(&old(self).feed, &sw, &self.feed, w, piece_bump(toks, w.end));
            }
        }
        SexpRes::Expr
    }

    /// A list, from its opening parenthesis on.
    fn list(&mut self)
        requires
            old(self).feed.wf(),
            kind_at(old(self).feed.toks(), old(self).feed.pos()) == Some(
                SyntaxKind::L_PAREN.raw(),
            ),
        ensures
            final(self).did(old(self), piece_list(old(self).feed.toks(), old(self).feed.pos())),
            wraps(old(self).feed.calls(), final(self).feed.calls(), SyntaxKind::LIST.raw()),
            old(self).feed.pos() < final(self).feed.pos(),
        decreases old(self).left(), 0nat,
    {
        let ghost toks = self.feed.toks();
        let ghost start = self.feed.pos();
        self.feed.start_node(SyntaxKind::LIST.to_raw());
        let ghost s1 = self.feed;
        self.bump();
        let ghost sa = self.feed;
        self.list_rest();
        let ghost sb = self.feed;
        let ghost body = piece_join(piece_bump(toks, start), piece_list_rest(toks, start + 1));
        proof {
            lemma_extends_join(
                &s1,
                &sa,
                &sb,
                piece_bump(toks, start),
                piece_list_rest(toks, start + 1),
            );
        }
        self.feed.finish_node();
        proof {
            lemma_extends_node(&old(self).feed, &s1, &sb, &self.feed, SyntaxKind::LIST.raw(), body);
            lemma_node_calls(&old(self).feed, &s1, &sb, &self.feed, SyntaxKind::LIST.raw());
        }
    }

    /// The inside of a list, up to its closing parenthesis or the end.
    fn list_rest(&mut self)
        requires
            old(self).feed.wf(),
        ensures
            final(self).did(
                old(self),
                piece_list_rest(old(self).feed.toks(), old(self).feed.pos()),
            ),
            old(self).feed.pos() <= final(self).feed.pos(),
        decreases old(self).left(), 2nat,
    {
        let ghost toks = self.feed.toks();
        let ghost start = self.feed.pos();
        let ghost mut acc = piece_empty(start);
        proof {
            lemma_extends_same(&self.feed);
            lemma_join_empty(piece_list_rest(toks, start));
            self.feed.lemma_pos_in_bounds();
        }
        loop
            invariant_except_break
                self.feed.extends(&old(self).feed, acc),
                acc.end == self.feed.pos(),
                piece_list_rest(toks, start) == piece_join(
                    acc,
                    piece_list_rest(toks, self.feed.pos()),
                ),
                start <= self.feed.pos() <= toks.len(),
            invariant
                self.feed.wf(),
                self.feed.started() - old(self).feed.started() <= self.feed.pos() - old(
                    self,
                ).feed.pos(),
                self.feed.toks() == toks,
                toks == old(self).feed.toks(),
                start == old(self).feed.pos(),
            ensures
                self.did(old(self), piece_list_rest(toks, start)),
                start <= self.feed.pos(),
            decreases toks.len() - self.feed.pos(),
        {
            let ghost prev = self.feed;
            let ghost s = piece_sexp(toks, prev.pos());
            let res = self.sexp();
            let ghost mid = self.feed;
            match res {
                SexpRes::Eof => {
                    self.feed.error("expected `)`".to_owned());
                    proof {
                        let step = piece_join(s, piece_error(s.end, "expected `)`"@));
                        lemma_extends_join(
                            &prev,
                            &mid,
                            &self.feed,
                            s,
                            piece_error(s.end, "expected `)`"@),
                        );
                        lemma_extends_join(&old(self).feed, &prev, &self.feed, acc, step);
                    }
                    break ;
                },
                SexpRes::RParen => {
                    self.bump();
                    proof {
                        let step = piece_join(s, piece_bump(toks, s.end));
                        lemma_extends_join(&prev, &mid, &self.feed, s, piece_bump(toks, s.end));
                        lemma_extends_join(&old(self).feed, &prev, &self.feed, acc, step);
                        self.feed.lemma_pos_in_bounds();
                    }
                    break ;
                },
                SexpRes::Expr => {
                    proof {
                        lemma_extends_join(&old(self).feed, &prev, &self.feed, acc, s);
                        lemma_join_assoc(acc, s, piece_list_rest(toks, s.end));
                        acc = piece_join(acc, s);
                    }
                },
            }
        }
    }

    /// The S-expressions up to the end of the tokens.
    fn items(&mut self)
        requires
            old(self).feed.wf(),
        ensures
            final(self).did(old(self), piece_items(old(self).feed.toks(), old(self).feed.pos())),
            final(self).feed.pos() == old(self).feed.toks().len(),
    {
        let ghost toks = self.feed.toks();
        let ghost start = self.feed.pos();
        let ghost mut acc = piece_empty(start);
        proof {
            lemma_extends_same(&self.feed);
            lemma_join_empty(piece_items(toks, start));
            self.feed.lemma_pos_in_bounds();
        }
        loop
            invariant_except_break
                self.feed.extends(&old(self).feed, acc),
                acc.end == self.feed.pos(),
                piece_items(toks, start) == piece_join(acc, piece_items(toks, self.feed.pos())),
                start <= self.feed.pos() <= toks.len(),
            invariant
                self.feed.wf(),
                self.feed.started() - old(self).feed.started() <= self.feed.pos() - old(
                    self,
                ).feed.pos(),
                self.feed.toks() == toks,
                toks == old(self).feed.toks(),
                start == old(self).feed.pos(),
            ensures
                self.did(old(self), piece_items(toks, start)),
                self.feed.pos() == toks.len(),
            decreases toks.len() - self.feed.pos(),
        {
            let ghost prev = self.feed;
            let ghost s = piece_sexp(toks, prev.pos());
            let res = self.sexp();
            let ghost mid = self.feed;
            match res {
                SexpRes::Eof => {
                    proof {
                        lemma_extends_join(&old(self).feed, &prev, &self.feed, acc, s);
                    }
                    break ;
                },
                SexpRes::RParen => {
                    self.feed.start_node(SyntaxKind::ERROR.to_raw());
                    let ghost s1 = self.feed;
                    self.feed.error("unmatched `)".to_owned());
                    let ghost s2 = self.feed;
                    self.bump();
                    let ghost s3 = self.feed;
                    self.feed.finish_node();
                    proof {
                        let inner = piece_join(
                            piece_error(s.end, "unmatched `)"@),
                            piece_bump(toks, s.end),
                        );
                        lemma_extends_join(
                            &s1,
                            &s2,
                            &s3,
                            piece_error(s.end, "unmatched `)"@),
                            piece_bump(toks, s.end),
                        );
                        lemma_extends_node(
                            &mid,
                            &s1,
                            &s3,
                            &self.feed,
                            SyntaxKind::ERROR.raw(),
                            inner,
                        );
                        let u = piece_join(s, piece_unmatched(toks, s.end));
                        lemma_extends_join(&prev, &mid, &self.feed, s, piece_unmatched(toks, s.end));
                        lemma_extends_join(&old(self).feed, &prev, &self.feed, acc, u);
                        lemma_join_assoc(acc, u, piece_items(toks, u.end));
                        acc = piece_join(acc, u);
                        self.feed.lemma_pos_in_bounds();
                    }
                },
                SexpRes::Expr => {
                    proof {
                        lemma_extends_join(&old(self).feed, &prev, &self.feed, acc, s);
                        lemma_join_assoc(acc, s, piece_items(toks, s.end));
                        acc = piece_join(acc, s);
                    }
                },
            }
        }
    }

    /// The whole text, as the tree and the diagnostics.
    fn parse(self) -> (parse: Parse)
        requires
            self.feed.wf(),
            self.feed.pos() == 0,
            self.feed.parents() == Seq::<(u16, nat)>::empty(),
            self.feed.children() == Seq::<Element>::empty(),
            self.feed.errors() == Seq::<Seq<char>>::empty(),
            self.feed.calls() == Seq::<BuilderCall>::empty(),
        ensures
            parse.tree() == piece_root(self.feed.toks()).items[0],
            parse.messages() == piece_root(self.feed.toks()).errors,
            element_leaves(parse.tree()) == self.feed.toks(),
            parse.in_order(self.feed.toks().len() as nat),
    {
        let mut this = self;
        let ghost toks = this.feed.toks();
        let ghost s0 = this.feed;
        this.feed.start_node(SyntaxKind::ROOT.to_raw());
        let ghost s1 = this.feed;
        this.items();
        let ghost a = piece_items(toks, 0);
        let ghost sa = this.feed;
        assert(sa.started() - s1.started() <= sa.pos() - s1.pos());
        this.skip_ws();
        let ghost b = piece_join(a, piece_ws(toks, a.end));
        let ghost sb = this.feed;
        assert(sb.started() - s1.started() <= sb.pos() - s1.pos());
        proof {
            lemma_extends_join(&s1, &sa, &sb, a, piece_ws(toks, a.end));
        }
        let ghost last = sb;
        this.feed.finish_node();
        proof {
            lemma_extends_node(&s0, &s1, &sb, &this.feed, SyntaxKind::ROOT.raw(), b);
            assert(this.feed.children() =~= piece_node(SyntaxKind::ROOT.raw(), b).items);
            assert(toks.take(toks.len() as int) =~= toks);
        }
        let ghost calls = this.feed.calls();
        proof {
            lemma_call_counts_total(calls);
            lemma_rooted_calls(&s0, &s1, &last, &this.feed, SyntaxKind::ROOT.raw(), toks.len());
        }
        let (green_node, errors) = this.feed.finish();
        Parse { green_node, errors, calls: Ghost(calls) }
    }
}

/// Parses `text`. A tree comes back for every text; an unmatched
/// parenthesis is recorded in the diagnostics. The tree holds every token of
/// `text` as a leaf with its text unchanged: the text of the tree is `text`.
pub fn parse(text: &str) -> (parse: Parse)
    requires
        utf8_len(text@) <= u32::MAX,
    ensures
        parse.is_parse_of(text@),
        parse.in_order(tokens_of(text@).len()),
        is_node_of_kind(parse.tree(), SyntaxKind::ROOT.raw()),
        element_leaves(parse.tree()) == tokens_of(text@),
        element_text(parse.tree()) == text@,
{
    let tokens = lex(text);
    Parser::new(tokens).parse()
}

/// The root of a text.
pub struct Root(SyntaxNode);

impl Root {
    /// The node viewed has the kind that this type stands for.
    #[verifier::type_invariant]
    spec fn well_kinded(self) -> bool {
        syntax_kind(self.0) == SyntaxKind::ROOT.raw()
    }

    /// The tree of the node viewed.
    pub closed spec fn tree(&self) -> Element {
        syntax_tree(self.0)
    }

    /// Views `node` as this type; succeeds exactly where the node's kind is
    /// `ROOT`.
    pub fn cast(node: SyntaxNode) -> (out: Option<Root>)
        ensures
            out is Some <==> element_kind(syntax_tree(node)) == SyntaxKind::ROOT.raw(),
            out matches Some(it) ==> it.tree() == syntax_tree(node),
    {
        if syntax_kind_of(&node) == SyntaxKind::ROOT.to_raw() {
            Some(Root(node))
        } else {
            None
        }
    }
}

/// A parenthesized list.
pub struct List(SyntaxNode);

impl List {
    /// The node viewed has the kind that this type stands for.
    #[verifier::type_invariant]
    spec fn well_kinded(self) -> bool {
        syntax_kind(self.0) == SyntaxKind::LIST.raw()
    }

    /// The tree of the node viewed.
    pub closed spec fn tree(&self) -> Element {
        syntax_tree(self.0)
    }

    /// Views `node` as this type; succeeds exactly where the node's kind is
    /// `LIST`.
    pub fn cast(node: SyntaxNode) -> (out: Option<List>)
        ensures
            out is Some <==> element_kind(syntax_tree(node)) == SyntaxKind::LIST.raw(),
            out matches Some(it) ==> it.tree() == syntax_tree(node),
    {
        if syntax_kind_of(&node) == SyntaxKind::LIST.to_raw() {
            Some(List(node))
        } else {
            None
        }
    }
}

/// A word.
pub struct Atom(SyntaxNode);

impl Atom {
    /// The node viewed has the kind that this type stands for.
    #[verifier::type_invariant]
    spec fn well_kinded(self) -> bool {
        syntax_kind(self.0) == SyntaxKind::ATOM.raw()
    }

    /// The tree of the node viewed.
    pub closed spec fn tree(&self) -> Element {
        syntax_tree(self.0)
    }

    /// Views `node` as this type; succeeds exactly where the node's kind is
    /// `ATOM`.
    pub fn cast(node: SyntaxNode) -> (out: Option<Atom>)
        ensures
            out is Some <==> element_kind(syntax_tree(node)) == SyntaxKind::ATOM.raw(),
            out matches Some(it) ==> it.tree() == syntax_tree(node),
    {
        if syntax_kind_of(&node) == SyntaxKind::ATOM.to_raw() {
            Some(Atom(node))
        } else {
            None
        }
    }
}

/// An S-expression: an atom or a list.
pub struct Sexp(SyntaxNode);

/// An S-expression, told apart.
pub enum SexpKind {
    Atom(Atom),
    List(List),
}

/// An arithmetic operator.
#[derive(Debug, Clone, Copy, PartialEq, Eq, Structural)]
pub enum Op {
    Add,
    Sub,
    Div,
    Mul,
}

/// Whether `e` is an atom or a list.
pub open spec fn is_sexp(e: Element) -> bool {
    is_node_of_kind(e, SyntaxKind::ATOM.raw()) || is_node_of_kind(e, SyntaxKind::LIST.raw())
}

/// The places of the S-expressions among `children`, in their order.
pub open spec fn sexp_indices(children: Seq<Element>) -> Seq<int>
    decreases children.len(),
{
    if children.len() == 0 {
        Seq::empty()
    } else if is_sexp(children.last()) {
        sexp_indices(children.drop_last()).push(children.len() - 1)
    } else {
        sexp_indices(children.drop_last())
    }
}

/// The elements of `children` at `places`.
pub open spec fn pick(children: Seq<Element>, places: Seq<int>) -> Seq<Element> {
    Seq::new(places.len(), |k: int| children[places[k]])
}

/// The S-expressions among `children`, in their order.
pub open spec fn sexps_of(children: Seq<Element>) -> Seq<Element> {
    pick(children, sexp_indices(children))
}

/// The trees of S-expressions.
pub open spec fn sexp_trees(sexps: Seq<Sexp>) -> Seq<Element> {
    Seq::new(sexps.len(), |i: int| sexps[i].tree())
}

/// The text of an atom: that of its first child, which is a token.
pub open spec fn atom_text(e: Element) -> Option<Seq<char>> {
    let children = element_children(e);
    if children.len() > 0 && children[0] is Token {
        Some(children[0]->text)
    } else {
        None
    }
}

/// The operator that `text` names.
pub open spec fn op_of(text: Seq<char>) -> Option<Op> {
    if text == "+"@ {
        Some(Op::Add)
    } else if text == "-"@ {
        Some(Op::Sub)
    } else if text == "*"@ {
        Some(Op::Mul)
    } else if text == "/"@ {
        Some(Op::Div)
    } else {
        None
    }
}

/// The operator that the atom `e` names.
pub open spec fn atom_op(e: Element) -> Option<Op> {
    match atom_text(e) {
        Some(text) => op_of(text),
        None => None,
    }
}

/// `op` applied to `a` and `b`: the sum, difference, product, or quotient
/// rounded towards zero. There is no result where the divisor is zero or
/// the result does not fit 64 bits.
pub open spec fn apply_op(op: Op, a: i64, b: i64) -> Option<i64> {
    match op {
        Op::Add => a.checked_add(b),
        Op::Sub => a.checked_sub(b),
        Op::Mul => a.checked_mul(b),
        Op::Div => a.checked_div(b),
    }
}

/// The value of the S-expression `e`. An atom has the integer that its
/// text writes. A list has its first element's operator applied to the
/// values of its second and third elements; further elements are ignored.
/// Whatever is missing or has no value leaves the whole without one.
pub open spec fn eval_tree(e: Element) -> Option<i64>
    decreases e,
{
    match e {
        Element::Token { kind, text } => None,
        Element::Node { kind, children } => if kind == SyntaxKind::ATOM.raw() {
            match atom_text(e) {
                Some(text) => integer_of(text),
                None => None,
            }
        } else if kind == SyntaxKind::LIST.raw() {
            let places = sexp_indices(children);
            if places.len() >= 3 && 0 <= places[0] < children.len() && 0 <= places[1]
                < children.len() && 0 <= places[2] < children.len() {
                let head = children[places[0]];
                if is_node_of_kind(head, SyntaxKind::ATOM.raw()) {
                    match (
                        atom_op(head),
                        eval_tree(children[places[1]]),
                        eval_tree(children[places[2]]),
                    ) {
                        (Some(op), Some(a), Some(b)) => apply_op(op, a, b),
                        _ => None,
                    }
                } else {
                    None
                }
            } else {
                None
            }
        } else {
            None
        },
    }
}

/// White space keeps its tokens.
pub proof fn lemma_ws_covers(toks: Seq<(u16, Seq<char>)>, pos: int)
    requires
        0 <= pos <= toks.len(),
    ensures
        covers(toks, pos, piece_ws(toks, pos)),
    decreases toks.len() - pos,
{
    if pos < toks.len() && toks[pos].0 == SyntaxKind::WHITESPACE.raw() {
        lemma_covers_bump(toks, pos);
        lemma_ws_covers(toks, pos + 1);
        lemma_covers_join(toks, pos, piece_bump(toks, pos), piece_ws(toks, pos + 1));
    } else {
        lemma_covers_nothing(toks, pos, Seq::empty());
    }
}

/// One S-expression keeps its tokens. It stops at the end of the tokens or
/// before a closing parenthesis, or else has consumed at least one token.
pub proof fn lemma_sexp_covers(toks: Seq<(u16, Seq<char>)>, pos: int)
    requires
        0 <= pos <= toks.len(),
    ensures
        covers(toks, pos, piece_sexp(toks, pos)),
        sexp_res(toks, pos) == SexpRes::Eof ==> piece_sexp(toks, pos).end == toks.len(),
        sexp_res(toks, pos) == SexpRes::RParen ==> kind_at(toks, piece_sexp(toks, pos).end)
            == Some(SyntaxKind::R_PAREN.raw()),
        sexp_res(toks, pos) == SexpRes::Expr ==> pos < piece_sexp(toks, pos).end,
    decreases toks.len() - pos, 1nat,
{
    let w = piece_ws(toks, pos);
    lemma_ws_covers(toks, pos);
    match kind_at(toks, w.end) {
        None => {},
        Some(kind) => {
            if kind == SyntaxKind::R_PAREN.raw() {
            } else if kind == SyntaxKind::L_PAREN.raw() {
                lemma_list_covers(toks, w.end);
                lemma_covers_join(toks, pos, w, piece_list(toks, w.end));
            } else if kind == SyntaxKind::WORD.raw() {
                lemma_covers_bump(toks, w.end);
                lemma_covers_node(toks, w.end, SyntaxKind::ATOM.raw(), piece_bump(toks, w.end));
                lemma_covers_join(
                    toks,
                    pos,
                    w,
                    piece_node(SyntaxKind::ATOM.raw(), piece_bump(toks, w.end)),
                );
            } else {
                lemma_covers_bump(toks, w.end);
                lemma_covers_join(toks, pos, w, piece_bump(toks, w.end));
            }
        },
    }
}

/// A list keeps its tokens, and consumes at least its opening parenthesis.
pub proof fn lemma_list_covers(toks: Seq<(u16, Seq<char>)>, pos: int)
    requires
        0 <= pos < toks.len(),
    ensures
        covers(toks, pos, piece_list(toks, pos)),
        pos < piece_list(toks, pos).end,
    decreases toks.len() - pos, 0nat,
{
    lemma_covers_bump(toks, pos);
    lemma_list_rest_covers(toks, pos + 1);
    let body = piece_join(piece_bump(toks, pos), piece_list_rest(toks, pos + 1));
    lemma_covers_join(toks, pos, piece_bump(toks, pos), piece_list_rest(toks, pos + 1));
    lemma_covers_node(toks, pos, SyntaxKind::LIST.raw(), body);
}

/// The inside of a list keeps its tokens.
pub proof fn lemma_list_rest_covers(toks: Seq<(u16, Seq<char>)>, pos: int)
    requires
        0 <= pos <= toks.len(),
    ensures
        covers(toks, pos, piece_list_rest(toks, pos)),
    decreases toks.len() - pos, 2nat,
{
    let s = piece_sexp(toks, pos);
    lemma_sexp_covers(toks, pos);
    match sexp_res(toks, pos) {
        SexpRes::Eof => {
            lemma_covers_nothing(toks, s.end, "expected `)`"@);
            lemma_covers_join(toks, pos, s, piece_error(s.end, "expected `)`"@));
        },
        SexpRes::RParen => {
            lemma_covers_bump(toks, s.end);
            lemma_covers_join(toks, pos, s, piece_bump(toks, s.end));
        },
        SexpRes::Expr => {
            lemma_list_rest_covers(toks, s.end);
            lemma_covers_join(toks, pos, s, piece_list_rest(toks, s.end));
        },
    }
}

/// An unmatched closing parenthesis is kept.
pub proof fn lemma_unmatched_covers(toks: Seq<(u16, Seq<char>)>, pos: int)
    requires
        0 <= pos <= toks.len(),
    ensures
        covers(toks, pos, piece_unmatched(toks, pos)),
{
    lemma_covers_nothing(toks, pos, "unmatched `)"@);
    lemma_covers_bump(toks, pos);
    lemma_covers_join(toks, pos, piece_error(pos, "unmatched `)"@), piece_bump(toks, pos));
    lemma_covers_node(
        toks,
        pos,
        SyntaxKind::ERROR.raw(),
        piece_join(piece_error(pos, "unmatched `)"@), piece_bump(toks, pos)),
    );
}

/// The S-expressions from `pos` on keep every token up to the end.
pub proof fn lemma_items_cover(toks: Seq<(u16, Seq<char>)>, pos: int)
    requires
        0 <= pos <= toks.len(),
    ensures
        covers(toks, pos, piece_items(toks, pos)),
        piece_items(toks, pos).end == toks.len(),
    decreases toks.len() - pos,
{
    let s = piece_sexp(toks, pos);
    lemma_sexp_covers(toks, pos);
    match sexp_res(toks, pos) {
        SexpRes::Eof => {},
        SexpRes::RParen => {
            lemma_unmatched_covers(toks, s.end);
            let u = piece_join(s, piece_unmatched(toks, s.end));
            lemma_covers_join(toks, pos, s, piece_unmatched(toks, s.end));
            lemma_items_cover(toks, u.end);
            lemma_covers_join(toks, pos, u, piece_items(toks, u.end));
        },
        SexpRes::Expr => {
            lemma_items_cover(toks, s.end);
            lemma_covers_join(toks, pos, s, piece_items(toks, s.end));
        },
    }
}

/// The leaves of the tree of any token list are the tokens, all of them in
/// their order, each with its kind and text: nothing is dropped, however
/// the parentheses are placed.
pub proof fn lemma_tree_holds_every_token(toks: Seq<(u16, Seq<char>)>)
    ensures
        piece_root(toks).items.len() == 1,
        piece_root(toks).end == toks.len(),
        element_leaves(piece_root(toks).items[0]) == toks,
{
    let items = piece_items(toks, 0);
    lemma_items_cover(toks, 0);
    lemma_ws_covers(toks, items.end);
    let body = piece_join(items, piece_ws(toks, items.end));
    lemma_covers_join(toks, 0, items, piece_ws(toks, items.end));
    lemma_covers_node(toks, 0, SyntaxKind::ROOT.raw(), body);
    lemma_forest_leaves_single(piece_root(toks).items[0]);
    assert(piece_root(toks).items =~= seq![piece_root(toks).items[0]]);
    assert(toks.subrange(0, toks.len() as int) =~= toks);
}

/// Parsing is a function of the text: two results for one text are the same
/// tree with the same diagnostics.
pub proof fn lemma_parse_deterministic(first: Parse, second: Parse, text: Seq<char>)
    requires
        first.is_parse_of(text),
        second.is_parse_of(text),
    ensures
        first.tree() == second.tree(),
        first.messages() == second.messages(),
{
}

/// Division by zero has no result.
pub proof fn lemma_division_by_zero(a: i64)
    ensures
        apply_op(Op::Div, a, 0) is None,
{
}

/// A list with fewer than three elements has no value.
pub proof fn lemma_short_list_has_no_value(e: Element)
    requires
        is_node_of_kind(e, SyntaxKind::LIST.raw()),
        sexps_of(element_children(e)).len() < 3,
    ensures
        eval_tree(e) is None,
{
}

/// A list whose first element names no operator has no value.
pub proof fn lemma_list_without_operator_has_no_value(e: Element)
    requires
        is_node_of_kind(e, SyntaxKind::LIST.raw()),
        sexps_of(element_children(e)).len() >= 1,
        atom_op(sexps_of(element_children(e))[0]) is None,
    ensures
        eval_tree(e) is None,
{
    lemma_sexp_indices_in_bounds(element_children(e));
}

/// The places of S-expressions lie among the children.
pub proof fn lemma_sexp_indices_in_bounds(children: Seq<Element>)
    ensures
        forall|k: int|
            0 <= k < sexp_indices(children).len() ==> 0 <= (#[trigger] sexp_indices(children)[k])
                < children.len(),
        sexp_indices(children).len() <= children.len(),
    decreases children.len(),
{
    if children.len() > 0 {
        lemma_sexp_indices_in_bounds(children.drop_last());
    }
}

/// Every S-expression among the children is an atom or a list.
pub proof fn lemma_sexps_are_sexps(children: Seq<Element>)
    ensures
        forall|k: int|
            0 <= k < sexps_of(children).len() ==> is_sexp(#[trigger] sexps_of(children)[k]),
    decreases children.len(),
{
    lemma_sexp_indices_in_bounds(children);
    if children.len() > 0 {
        lemma_sexps_are_sexps(children.drop_last());
        lemma_sexp_indices_in_bounds(children.drop_last());
        let rest = sexp_indices(children.drop_last());
        assert forall|k: int| 0 <= k < sexps_of(children).len() implies is_sexp(
            #[trigger] sexps_of(children)[k],
        ) by {
            if k < rest.len() {
                assert(sexps_of(children)[k] == children.drop_last()[rest[k]]);
                assert(sexps_of(children.drop_last())[k] == children.drop_last()[rest[k]]);
            }
        }
    }
}

/// The children of `node` that are atoms or lists, in their order.
fn child_sexps(node: &SyntaxNode) -> (out: Vec<Sexp>)
    ensures
        sexp_trees(out@) == sexps_of(syntax_children(*node)),
{
    let children = syntax_children_of(node);
    let ghost all = syntax_children(*node);
    let mut out: Vec<Sexp> = Vec::new();
    let mut i: usize = 0;
    proof {
        assert(all.take(0) =~= Seq::<Element>::empty());
        assert(sexp_trees(out@) =~= pick(all, sexp_indices(all.take(0))));
    }
    while i < children.len()
        invariant
            i <= children.len(),
            children@.len() == all.len(),
            forall|j: int| 0 <= j < children@.len() ==> (#[trigger] children@[j]).tree() == all[j],
            sexp_trees(out@) == pick(all, sexp_indices(all.take(i as int))),
        decreases children.len() - i,
    {
        proof {
            assert(all.take(i + 1).drop_last() =~= all.take(i as int));
            assert(all.take(i + 1).last() == children@[i as int].tree());
        }
        match &children[i] {
            SyntaxElement::Node(child) => {
                let kind = syntax_kind_of(child);
                if kind == SyntaxKind::ATOM.to_raw() || kind == SyntaxKind::LIST.to_raw() {
                    let ghost before = sexp_trees(out@);
                    let copy = syntax_clone(child);
                    out.push(Sexp(copy));
                    proof {
                        assert(sexp_trees(out@) =~= before.push(syntax_tree(copy)));
                        assert(sexp_trees(out@) =~= pick(all, sexp_indices(all.take(i + 1))));
                    }
                }
            },
            SyntaxElement::Token(_, _) => {},
        }
        i += 1;
    }
    proof {
        assert(all.take(i as int) =~= all);
    }
    out
}

impl Sexp {
    /// The node viewed has the kind that this type stands for.
    #[verifier::type_invariant]
    spec fn well_kinded(self) -> bool {
        syntax_kind(self.0) == SyntaxKind::ATOM.raw() || syntax_kind(self.0)
            == SyntaxKind::LIST.raw()
    }

    /// The tree of the node viewed.
    pub closed spec fn tree(&self) -> Element {
        syntax_tree(self.0)
    }

    /// Views `node` as an S-expression; succeeds exactly where the node is
    /// an atom or a list.
    pub fn cast(node: SyntaxNode) -> (out: Option<Sexp>)
        ensures
            out is Some <==> is_sexp(syntax_tree(node)),
            out matches Some(it) ==> it.tree() == syntax_tree(node),
    {
        let kind = syntax_kind_of(&node);
        if kind == SyntaxKind::ATOM.to_raw() || kind == SyntaxKind::LIST.to_raw() {
            Some(Sexp(node))
        } else {
            None
        }
    }

    /// This S-expression as the atom or the list that it is.
    pub fn kind(&self) -> (out: SexpKind)
        ensures
            match out {
                SexpKind::Atom(atom) => atom.tree() == self.tree() && is_node_of_kind(
                    self.tree(),
                    SyntaxKind::ATOM.raw(),
                ),
                SexpKind::List(list) => list.tree() == self.tree() && is_node_of_kind(
                    self.tree(),
                    SyntaxKind::LIST.raw(),
                ),
            },
    {
        proof {
            use_type_invariant(self);
        }
        if syntax_kind_of(&self.0) == SyntaxKind::ATOM.to_raw() {
            SexpKind::Atom(Atom(syntax_clone(&self.0)))
        } else {
            SexpKind::List(List(syntax_clone(&self.0)))
        }
    }

    /// The value of this S-expression, if it has one.
    pub fn eval(&self) -> (out: Option<i64>)
        ensures
            out == eval_tree(self.tree()),
        decreases self.tree(), 1nat,
    {
        match self.kind() {
            SexpKind::Atom(atom) => atom.eval(),
            SexpKind::List(list) => list.eval(),
        }
    }
}

impl Root {
    /// The S-expressions directly in the text, in their order.
    pub fn sexps(&self) -> (out: Vec<Sexp>)
        ensures
            sexp_trees(out@) == sexps_of(element_children(self.tree())),
    {
        child_sexps(&self.0)
    }
}

/// The operator that `text` names: `+`, `-`, `*` or `/`.
pub fn op_from_text(text: &String) -> (out: Option<Op>)
    ensures
        out == op_of(text@),
{
    if same_text(text, "+") {
        Some(Op::Add)
    } else if same_text(text, "-") {
        Some(Op::Sub)
    } else if same_text(text, "*") {
        Some(Op::Mul)
    } else if same_text(text, "/") {
        Some(Op::Div)
    } else {
        None
    }
}

/// `op` applied to `a` and `b`; `None` where the divisor is zero or the
/// result does not fit 64 bits.
pub fn apply(op: Op, a: i64, b: i64) -> (out: Option<i64>)
    ensures
        out == apply_op(op, a, b),
{
    match op {
        Op::Add => a.checked_add(b),
        Op::Sub => a.checked_sub(b),
        Op::Mul => a.checked_mul(b),
        Op::Div => a.checked_div(b),
    }
}

impl Atom {
    /// The text of the first child, where that is a token.
    fn first_text(&self) -> (out: Option<String>)
        ensures
            match out {
                Some(text) => atom_text(self.tree()) == Some(text@),
                None => atom_text(self.tree()) is None,
            },
    {
        let children = syntax_children_of(&self.0);
        if children.len() == 0 {
            return None;
        }
        match &children[0] {
            SyntaxElement::Token(_, text) => Some(text.clone()),
            SyntaxElement::Node(_) => None,
        }
    }

    /// The integer that this atom writes, if it writes one.
    pub fn eval(&self) -> (out: Option<i64>)
        ensures
            out == eval_tree(self.tree()),
    {
        proof {
            use_type_invariant(self);
        }
        match self.first_text() {
            Some(text) => parse_integer(text.as_str()),
            None => None,
        }
    }

    /// The operator that this atom names, if it names one.
    pub fn as_op(&self) -> (out: Option<Op>)
        ensures
            out == atom_op(self.tree()),
    {
        match self.first_text() {
            Some(text) => op_from_text(&text),
            None => None,
        }
    }

    /// The text of this atom. An atom that the parser built holds exactly
    /// one token; an atom without one is a defect of the caller.
    pub fn text(&self) -> (out: String)
        requires
            atom_text(self.tree()) is Some,
        ensures
            Some(out@) == atom_text(self.tree()),
    {
        match self.first_text() {
            Some(text) => text,
            None => String::new(),
        }
    }
}

impl List {
    /// The S-expressions directly in this list, in their order.
    pub fn sexps(&self) -> (out: Vec<Sexp>)
        ensures
            sexp_trees(out@) == sexps_of(element_children(self.tree())),
    {
        child_sexps(&self.0)
    }

    /// The value of this list: its first element's operator applied to the
    /// values of the second and the third. `None` where an element is
    /// missing, the first names no operator, an operand has no value, the
    /// divisor is zero, or the result does not fit 64 bits.
    pub fn eval(&self) -> (out: Option<i64>)
        ensures
            out == eval_tree(self.tree()),
        decreases self.tree(), 0nat,
    {
        proof {
            use_type_invariant(self);
        }
        let items = self.sexps();
        let ghost children = element_children(self.tree());
        proof {
            lemma_sexp_indices_in_bounds(children);
            lemma_sexps_are_sexps(children);
        }
        if items.len() < 3 {
            return None;
        }
        proof {
            let places = sexp_indices(children);
            assert(sexp_trees(items@).len() == items@.len());
            assert(sexps_of(children).len() == places.len());
            assert(sexps_of(children)[0] == children[places[0]]);
            assert(sexps_of(children)[1] == children[places[1]]);
            assert(sexps_of(children)[2] == children[places[2]]);
            assert(sexp_trees(items@)[0] == children[places[0]]);
            assert(sexp_trees(items@)[1] == children[places[1]]);
            assert(sexp_trees(items@)[2] == children[places[2]]);
        }
        let op = match items[0].kind() {
            SexpKind::Atom(atom) => {
                match atom.as_op() {
                    Some(op) => op,
                    None => {
                        return None;
                    },
                }
            },
            SexpKind::List(list) => {
                return None;
            },
        };
        let arg1 = match items[1].eval() {
            Some(value) => value,
            None => {
                return None;
            },
        };
        let arg2 = match items[2].eval() {
            Some(value) => value,
            None => {
                return None;
            },
        };
        apply(op, arg1, arg2)
    }
}

impl Parse {
    /// The root of the syntax tree, as a node to navigate from.
    pub fn syntax(&self) -> (node: SyntaxNode)
        ensures
            syntax_tree(node) == self.tree(),
    {
        syntax_root(&self.green_node)
    }

    /// The typed root.
    pub fn root(&self) -> (out: Root)
        ensures
            out.tree() == self.tree(),
    {
        proof {
            use_type_invariant(self);
        }
        Root(self.syntax())
    }
}

} // verus!
