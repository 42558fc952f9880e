//! A small COBOL subset: `IDENTIFICATION DIVISION.`, `PROGRAM-ID. <name>.`,
//! `PROCEDURE DIVISION.` and `DISPLAY "<string>".`, tokenized and parsed into
//! a lossless syntax tree with typed views.

use crate::feed::{
    covers, kind_at, lemma_call_counts_total, lemma_covers_bump, lemma_covers_join,
    lemma_covers_node, lemma_covers_nothing, lemma_extends_join, lemma_extends_node,
    lemma_extends_same, lemma_join_assoc, lemma_join_empty, lemma_node_calls, lemma_rooted_calls,
    piece_bump, piece_empty, piece_error, piece_join, piece_node, starts, string_views,
    token_views, tokens_passed, well_nested, wraps, BuilderCall, Piece, TokenFeed,
};
use crate::green::{
    element_children, element_kind, element_leaves, element_text, green_tree, leaves_text,
    lemma_forest_leaves_single, lemma_leaves_text_concat, syntax_clone, syntax_kind,
    syntax_kind_of, syntax_root, syntax_tree, utf8_len, Element,
};
use crate::syntax::{
    child_nodes_of_kind, first_child_node, first_child_token, first_node_of_kind,
    first_token_of_kind, is_node_of_kind, node_trees, nodes_of_kind,
};
use crate::text::{
    char_is_alphabetic, char_is_alphanumeric, char_is_whitespace, chars_of, is_alphabetic,
    is_alphanumeric, is_whitespace, same_text, string_of, to_uppercase, uppercase_of,
};
use rowan::cursor::SyntaxNode;
use rowan::GreenNode;
use vstd::prelude::*;
use vstd::string::StringExecFns;

verus! {

/// The kinds of tokens and of nodes, numbered without gaps from 0 in the
/// order written; the token kinds come first.
#[derive(Debug, Clone, Copy, PartialEq, Eq, Structural, PartialOrd, Ord, Hash)]
#[allow(non_camel_case_types)]
pub enum SyntaxKind {
    IDENTIFICATION_KW,
    DIVISION_KW,
    PROGRAM_ID_KW,
    PROCEDURE_KW,
    DISPLAY_KW,
    DOT,
    STRING_LITERAL,
    IDENT,
    WHITESPACE,
    NEWLINE,
    ERROR,
    ROOT,
    IDENTIFICATION_DIVISION,
    PROGRAM_ID_CLAUSE,
    PROCEDURE_DIVISION,
    DISPLAY_STMT,
}

/// The largest number of a kind.
pub const MAX_KIND: u16 = 15;

impl SyntaxKind {
    /// The number of this kind.
    pub open spec fn raw(self) -> u16 {
        match self {
            SyntaxKind::IDENTIFICATION_KW => 0,
            SyntaxKind::DIVISION_KW => 1,
            SyntaxKind::PROGRAM_ID_KW => 2,
            SyntaxKind::PROCEDURE_KW => 3,
            SyntaxKind::DISPLAY_KW => 4,
            SyntaxKind::DOT => 5,
            SyntaxKind::STRING_LITERAL => 6,
            SyntaxKind::IDENT => 7,
            SyntaxKind::WHITESPACE => 8,
            SyntaxKind::NEWLINE => 9,
            SyntaxKind::ERROR => 10,
            SyntaxKind::ROOT => 11,
            SyntaxKind::IDENTIFICATION_DIVISION => 12,
            SyntaxKind::PROGRAM_ID_CLAUSE => 13,
            SyntaxKind::PROCEDURE_DIVISION => 14,
            SyntaxKind::DISPLAY_STMT => 15,
        }
    }

    /// The kind with number `raw`, if there is one.
    pub open spec fn decode(raw: u16) -> Option<SyntaxKind> {
        if raw == 0 {
            Some(SyntaxKind::IDENTIFICATION_KW)
        } else if raw == 1 {
            Some(SyntaxKind::DIVISION_KW)
        } else if raw == 2 {
            Some(SyntaxKind::PROGRAM_ID_KW)
        } else if raw == 3 {
            Some(SyntaxKind::PROCEDURE_KW)
        } else if raw == 4 {
            Some(SyntaxKind::DISPLAY_KW)
        } else if raw == 5 {
            Some(SyntaxKind::DOT)
        } else if raw == 6 {
            Some(SyntaxKind::STRING_LITERAL)
        } else if raw == 7 {
            Some(SyntaxKind::IDENT)
        } else if raw == 8 {
            Some(SyntaxKind::WHITESPACE)
        } else if raw == 9 {
            Some(SyntaxKind::NEWLINE)
        } else if raw == 10 {
            Some(SyntaxKind::ERROR)
        } else if raw == 11 {
            Some(SyntaxKind::ROOT)
        } else if raw == 12 {
            Some(SyntaxKind::IDENTIFICATION_DIVISION)
        } else if raw == 13 {
            Some(SyntaxKind::PROGRAM_ID_CLAUSE)
        } else if raw == 14 {
            Some(SyntaxKind::PROCEDURE_DIVISION)
        } else if raw == 15 {
            Some(SyntaxKind::DISPLAY_STMT)
        } else {
            None
        }
    }

    /// The name of this kind, as diagnostics print it.
    pub open spec fn label(self) -> Seq<char> {
        match self {
            SyntaxKind::IDENTIFICATION_KW => "IDENTIFICATION_KW"@,
            SyntaxKind::DIVISION_KW => "DIVISION_KW"@,
            SyntaxKind::PROGRAM_ID_KW => "PROGRAM_ID_KW"@,
            SyntaxKind::PROCEDURE_KW => "PROCEDURE_KW"@,
            SyntaxKind::DISPLAY_KW => "DISPLAY_KW"@,
            SyntaxKind::DOT => "DOT"@,
            SyntaxKind::STRING_LITERAL => "STRING_LITERAL"@,
            SyntaxKind::IDENT => "IDENT"@,
            SyntaxKind::WHITESPACE => "WHITESPACE"@,
            SyntaxKind::NEWLINE => "NEWLINE"@,
            SyntaxKind::ERROR => "ERROR"@,
            SyntaxKind::ROOT => "ROOT"@,
            SyntaxKind::IDENTIFICATION_DIVISION => "IDENTIFICATION_DIVISION"@,
            SyntaxKind::PROGRAM_ID_CLAUSE => "PROGRAM_ID_CLAUSE"@,
            SyntaxKind::PROCEDURE_DIVISION => "PROCEDURE_DIVISION"@,
            SyntaxKind::DISPLAY_STMT => "DISPLAY_STMT"@,
        }
    }

    /// The number of this kind.
    pub fn to_raw(self) -> (raw: u16)
        ensures
            raw == self.raw(),
            raw <= MAX_KIND,
            SyntaxKind::decode(raw) == Some(self),
    {
        match self {
            SyntaxKind::IDENTIFICATION_KW => 0,
            SyntaxKind::DIVISION_KW => 1,
            SyntaxKind::PROGRAM_ID_KW => 2,
            SyntaxKind::PROCEDURE_KW => 3,
            SyntaxKind::DISPLAY_KW => 4,
            SyntaxKind::DOT => 5,
            SyntaxKind::STRING_LITERAL => 6,
            SyntaxKind::IDENT => 7,
            SyntaxKind::WHITESPACE => 8,
            SyntaxKind::NEWLINE => 9,
            SyntaxKind::ERROR => 10,
            SyntaxKind::ROOT => 11,
            SyntaxKind::IDENTIFICATION_DIVISION => 12,
            SyntaxKind::PROGRAM_ID_CLAUSE => 13,
            SyntaxKind::PROCEDURE_DIVISION => 14,
            SyntaxKind::DISPLAY_STMT => 15,
        }
    }

    /// The kind with number `raw`; `None` for a number that no kind has.
    pub fn from_raw(raw: u16) -> (kind: Option<SyntaxKind>)
        ensures
            kind == SyntaxKind::decode(raw),
            kind is Some <==> raw <= MAX_KIND,
            kind matches Some(k) ==> k.raw() == raw,
    {
        match raw {
            0 => Some(SyntaxKind::IDENTIFICATION_KW),
            1 => Some(SyntaxKind::DIVISION_KW),
            2 => Some(SyntaxKind::PROGRAM_ID_KW),
            3 => Some(SyntaxKind::PROCEDURE_KW),
            4 => Some(SyntaxKind::DISPLAY_KW),
            5 => Some(SyntaxKind::DOT),
            6 => Some(SyntaxKind::STRING_LITERAL),
            7 => Some(SyntaxKind::IDENT),
            8 => Some(SyntaxKind::WHITESPACE),
            9 => Some(SyntaxKind::NEWLINE),
            10 => Some(SyntaxKind::ERROR),
            11 => Some(SyntaxKind::ROOT),
            12 => Some(SyntaxKind::IDENTIFICATION_DIVISION),
            13 => Some(SyntaxKind::PROGRAM_ID_CLAUSE),
            14 => Some(SyntaxKind::PROCEDURE_DIVISION),
            15 => Some(SyntaxKind::DISPLAY_STMT),
            _ => None,
        }
    }

    /// The name of this kind, as diagnostics print it.
    pub fn name(self) -> (name: &'static str)
        ensures
            name@ == self.label(),
    {
        match self {
            SyntaxKind::IDENTIFICATION_KW => "IDENTIFICATION_KW",
            SyntaxKind::DIVISION_KW => "DIVISION_KW",
            SyntaxKind::PROGRAM_ID_KW => "PROGRAM_ID_KW",
            SyntaxKind::PROCEDURE_KW => "PROCEDURE_KW",
            SyntaxKind::DISPLAY_KW => "DISPLAY_KW",
            SyntaxKind::DOT => "DOT",
            SyntaxKind::STRING_LITERAL => "STRING_LITERAL",
            SyntaxKind::IDENT => "IDENT",
            SyntaxKind::WHITESPACE => "WHITESPACE",
            SyntaxKind::NEWLINE => "NEWLINE",
            SyntaxKind::ERROR => "ERROR",
            SyntaxKind::ROOT => "ROOT",
            SyntaxKind::IDENTIFICATION_DIVISION => "IDENTIFICATION_DIVISION",
            SyntaxKind::PROGRAM_ID_CLAUSE => "PROGRAM_ID_CLAUSE",
            SyntaxKind::PROCEDURE_DIVISION => "PROCEDURE_DIVISION",
            SyntaxKind::DISPLAY_STMT => "DISPLAY_STMT",
        }
    }
}

/// The language tag of this grammar: it maps kinds to their numbers and
/// back.
#[derive(Debug, Clone, Copy, PartialEq, Eq, PartialOrd, Ord, Hash)]
pub enum CobolLang {
    Cobol,
}

impl CobolLang {
    /// The kind with number `raw`. A number beyond the last kind is a defect
    /// of the caller.
    pub fn kind_from_raw(raw: u16) -> (kind: SyntaxKind)
        requires
            raw <= MAX_KIND,
        ensures
            SyntaxKind::decode(raw) == Some(kind),
            kind.raw() == raw,
    {
        match SyntaxKind::from_raw(raw) {
            Some(kind) => kind,
            None => SyntaxKind::DISPLAY_STMT,
        }
    }

    /// The number of `kind`.
    pub fn kind_to_raw(kind: SyntaxKind) -> (raw: u16)
        ensures
            raw == kind.raw(),
            raw <= MAX_KIND,
    {
        kind.to_raw()
    }
}

/// How a token starts.
#[derive(Debug, Clone, Copy, PartialEq, Eq, Structural)]
pub enum Start {
    Dot,
    Quote,
    LineFeed,
    Blank,
    Word,
    Other,
}

/// How a token starts with `c`, given whether `c` is white space and
/// whether it is alphabetic. A dot, a quote and a line feed come first; then
/// other white space starts a run of blanks, and a letter or a hyphen a
/// word.
pub open spec fn start_of(c: char, whitespace: bool, alphabetic: bool) -> Start {
    if c == '.' {
        Start::Dot
    } else if c == '"' {
        Start::Quote
    } else if c == '\n' {
        Start::LineFeed
    } else if whitespace {
        Start::Blank
    } else if alphabetic || c == '-' {
        Start::Word
    } else {
        Start::Other
    }
}

/// Whether `c` continues a run of blanks, given whether it is white space:
/// a line feed does not.
pub open spec fn continues_blank(c: char, whitespace: bool) -> bool {
    whitespace && c != '\n'
}

/// Whether `c` continues a word, given whether it is alphabetic or
/// numeric: a hyphen does too.
pub open spec fn continues_word(c: char, alphanumeric: bool) -> bool {
    alphanumeric || c == '-'
}

/// How a token starts with `c`.
pub open spec fn char_start(c: char) -> Start {
    start_of(c, char_is_whitespace(c), char_is_alphabetic(c))
}

/// Whether `c` continues a run of blanks.
pub open spec fn is_blank(c: char) -> bool {
    continues_blank(c, char_is_whitespace(c))
}

/// Whether `c` continues a word.
pub open spec fn is_word_part(c: char) -> bool {
    continues_word(c, char_is_alphanumeric(c))
}

/// Where the string literal ends whose characters after the opening quote
/// start at `pos`: just behind the next quote, or at the end of the text
/// where none follows.
pub open spec fn string_end(text: Seq<char>, pos: int) -> int
    decreases text.len() - pos,
{
    if 0 <= pos < text.len() {
        if text[pos] == '"' {
            pos + 1
        } else {
            string_end(text, pos + 1)
        }
    } else {
        pos
    }
}

/// The first position from `pos` on that holds no blank.
pub open spec fn blank_end(text: Seq<char>, pos: int) -> int
    decreases text.len() - pos,
{
    if 0 <= pos < text.len() && is_blank(text[pos]) {
        blank_end(text, pos + 1)
    } else {
        pos
    }
}

/// The first position from `pos` on that holds no character of a word.
pub open spec fn word_end(text: Seq<char>, pos: int) -> int
    decreases text.len() - pos,
{
    if 0 <= pos < text.len() && is_word_part(text[pos]) {
        word_end(text, pos + 1)
    } else {
        pos
    }
}

/// The kind of a word whose uppercase form is `upper`: one of the five
/// keywords, or an identifier.
pub open spec fn keyword_of(upper: Seq<char>) -> SyntaxKind {
    if upper == "IDENTIFICATION"@ {
        SyntaxKind::IDENTIFICATION_KW
    } else if upper == "DIVISION"@ {
        SyntaxKind::DIVISION_KW
    } else if upper == "PROGRAM-ID"@ {
        SyntaxKind::PROGRAM_ID_KW
    } else if upper == "PROCEDURE"@ {
        SyntaxKind::PROCEDURE_KW
    } else if upper == "DISPLAY"@ {
        SyntaxKind::DISPLAY_KW
    } else {
        SyntaxKind::IDENT
    }
}

/// Where the token that starts at `pos` ends. A dot and a line feed stand
/// alone; a quote opens a string literal; other white space starts a run of
/// blanks; a letter or a hyphen starts a word; any other character stands
/// alone.
pub open spec fn token_end(text: Seq<char>, pos: int) -> int
    recommends
        0 <= pos < text.len(),
{
    match char_start(text[pos]) {
        Start::Quote => string_end(text, pos + 1),
        Start::Blank => blank_end(text, pos + 1),
        Start::Word => word_end(text, pos + 1),
        _ => pos + 1,
    }
}

/// The kind of the token that starts at `pos`.
pub open spec fn token_kind(text: Seq<char>, pos: int) -> SyntaxKind
    recommends
        0 <= pos < text.len(),
{
    match char_start(text[pos]) {
        Start::Dot => SyntaxKind::DOT,
        Start::Quote => SyntaxKind::STRING_LITERAL,
        Start::LineFeed => SyntaxKind::NEWLINE,
        Start::Blank => SyntaxKind::WHITESPACE,
        Start::Word => keyword_of(uppercase_of(text.subrange(pos, word_end(text, pos + 1)))),
        Start::Other => SyntaxKind::ERROR,
    }
}

/// The tokens of `text` from `pos` on.
pub open spec fn lex_from(text: Seq<char>, pos: int) -> Seq<(SyntaxKind, Seq<char>)>
    decreases text.len() - pos,
{
    if 0 <= pos < text.len() {
        let end = token_end(text, pos);
        if pos < end <= text.len() {
            seq![(token_kind(text, pos), text.subrange(pos, end))] + lex_from(text, end)
        } else {
            Seq::empty()
        }
    } else {
        Seq::empty()
    }
}

/// The tokens of `text`.
pub open spec fn lex_spec(text: Seq<char>) -> Seq<(SyntaxKind, Seq<char>)> {
    lex_from(text, 0)
}

/// Tokens as kinds and texts.
pub open spec fn typed_views(tokens: Seq<(SyntaxKind, String)>) -> Seq<(SyntaxKind, Seq<char>)> {
    Seq::new(tokens.len(), |i: int| (tokens[i].0, tokens[i].1@))
}

/// Every token ends behind its start and within the text.
pub proof fn lemma_token_end_bounds(text: Seq<char>, pos: int)
    requires
        0 <= pos < text.len(),
    ensures
        pos < token_end(text, pos) <= text.len(),
{
    lemma_string_end_bounds(text, pos + 1);
    lemma_blank_end_bounds(text, pos + 1);
    lemma_word_end_bounds(text, pos + 1);
}

/// A string literal ends at or behind where its inside starts, within the
/// text.
proof fn lemma_string_end_bounds(text: Seq<char>, pos: int)
    requires
        0 <= pos <= text.len(),
    ensures
        pos <= string_end(text, pos) <= text.len(),
    decreases text.len() - pos,
{
    if pos < text.len() && text[pos] != '"' {
        lemma_string_end_bounds(text, pos + 1);
    }
}

/// A run of blanks ends at or behind where it starts, within the text.
proof fn lemma_blank_end_bounds(text: Seq<char>, pos: int)
    requires
        0 <= pos <= text.len(),
    ensures
        pos <= blank_end(text, pos) <= text.len(),
    decreases text.len() - pos,
{
    if pos < text.len() && is_blank(text[pos]) {
        lemma_blank_end_bounds(text, pos + 1);
    }
}

/// A word ends at or behind where it starts, within the text.
proof fn lemma_word_end_bounds(text: Seq<char>, pos: int)
    requires
        0 <= pos <= text.len(),
    ensures
        pos <= word_end(text, pos) <= text.len(),
    decreases text.len() - pos,
{
    if pos < text.len() && is_word_part(text[pos]) {
        lemma_word_end_bounds(text, pos + 1);
    }
}

/// How a token starts with `c`, given whether `c` is white space and
/// whether it is alphabetic.
pub fn token_start(c: char, whitespace: bool, alphabetic: bool) -> (start: Start)
    ensures
        start == start_of(c, whitespace, alphabetic),
{
    if c == '.' {
        Start::Dot
    } else if c == '"' {
        Start::Quote
    } else if c == '\n' {
        Start::LineFeed
    } else if whitespace {
        Start::Blank
    } else if alphabetic || c == '-' {
        Start::Word
    } else {
        Start::Other
    }
}

/// Whether `c` continues a run of blanks, given whether it is white space.
pub fn blank_continues(c: char, whitespace: bool) -> (yes: bool)
    ensures
        yes == continues_blank(c, whitespace),
{
    whitespace && c != '\n'
}

/// Whether `c` continues a word, given whether it is alphabetic or numeric.
pub fn word_continues(c: char, alphanumeric: bool) -> (yes: bool)
    ensures
        yes == continues_word(c, alphanumeric),
{
    alphanumeric || c == '-'
}

/// Where the string literal ends whose inside starts at `pos`.
fn scan_string(chars: &Vec<char>, pos: usize) -> (end: usize)
    requires
        pos <= chars.len(),
    ensures
        end == string_end(chars@, pos as int),
        pos <= end <= chars.len(),
{
    let mut i: usize = pos;
    while i < chars.len()
        invariant
            pos <= i <= chars.len(),
            string_end(chars@, pos as int) == string_end(chars@, i as int),
        decreases chars.len() - i,
    {
        if chars[i] == '"' {
            return i + 1;
        }
        i += 1;
    }
    i
}

/// The first position from `pos` on that holds no blank.
fn scan_blanks(chars: &Vec<char>, pos: usize) -> (end: usize)
    requires
        pos <= chars.len(),
    ensures
        end == blank_end(chars@, pos as int),
        pos <= end <= chars.len(),
{
    let mut i: usize = pos;
    while i < chars.len()
        invariant
            pos <= i <= chars.len(),
            blank_end(chars@, pos as int) == blank_end(chars@, i as int),
        decreases chars.len() - i,
    {
        if !blank_continues(chars[i], is_whitespace(chars[i])) {
            return i;
        }
        i += 1;
    }
    i
}

/// The first position from `pos` on that holds no character of a word.
fn scan_word(chars: &Vec<char>, pos: usize) -> (end: usize)
    requires
        pos <= chars.len(),
    ensures
        end == word_end(chars@, pos as int),
        pos <= end <= chars.len(),
{
    let mut i: usize = pos;
    while i < chars.len()
        invariant
            pos <= i <= chars.len(),
            word_end(chars@, pos as int) == word_end(chars@, i as int),
        decreases chars.len() - i,
    {
        if !word_continues(chars[i], is_alphanumeric(chars[i])) {
            return i;
        }
        i += 1;
    }
    i
}

/// The kind of a word, given its uppercase form: one of the five keywords,
/// or an identifier.
pub fn keyword_kind(upper: &String) -> (kind: SyntaxKind)
    ensures
        kind == keyword_of(upper@),
{
    if same_text(upper, "IDENTIFICATION") {
        SyntaxKind::IDENTIFICATION_KW
    } else if same_text(upper, "DIVISION") {
        SyntaxKind::DIVISION_KW
    } else if same_text(upper, "PROGRAM-ID") {
        SyntaxKind::PROGRAM_ID_KW
    } else if same_text(upper, "PROCEDURE") {
        SyntaxKind::PROCEDURE_KW
    } else if same_text(upper, "DISPLAY") {
        SyntaxKind::DISPLAY_KW
    } else {
        SyntaxKind::IDENT
    }
}

/// Splits `text` into tokens. Every character belongs to exactly one token,
/// and no input is refused: a literal without a closing quote runs to the
/// end of the text, and a character that starts nothing else is an error
/// token of its own.
pub fn lex(text: &str) -> (tokens: Vec<(SyntaxKind, String)>)
    ensures
        typed_views(tokens@) == lex_spec(text@),
{
    let chars = chars_of(text);
    let n = chars.len();
    let mut tokens: Vec<(SyntaxKind, String)> = Vec::new();
    let mut i: usize = 0;
    proof {
        assert(typed_views(tokens@) + lex_from(text@, 0) =~= lex_spec(text@));
    }
    while i < n
        invariant
            chars@ == text@,
            n == chars.len(),
            i <= n,
            typed_views(tokens@) + lex_from(text@, i as int) == lex_spec(text@),
        decreases n - i,
    {
        let c = chars[i];
        let end: usize;
        let kind: SyntaxKind;
        match token_start(c, is_whitespace(c), is_alphabetic(c)) {
            Start::Dot => {
                end = i + 1;
                kind = SyntaxKind::DOT;
            },
            Start::Quote => {
                end = scan_string(&chars, i + 1);
                kind = SyntaxKind::STRING_LITERAL;
            },
            Start::LineFeed => {
                end = i + 1;
                kind = SyntaxKind::NEWLINE;
            },
            Start::Blank => {
                end = scan_blanks(&chars, i + 1);
                kind = SyntaxKind::WHITESPACE;
            },
            Start::Word => {
                end = scan_word(&chars, i + 1);
                let word = string_of(&chars, i, end);
                let upper = to_uppercase(word.as_str());
                kind = keyword_kind(&upper);
            },
            Start::Other => {
                end = i + 1;
                kind = SyntaxKind::ERROR;
            },
        }
        let token_text = string_of(&chars, i, end);
        let ghost before = typed_views(tokens@);
        tokens.push((kind, token_text));
        proof {
            let t = (kind, text@.subrange(i as int, end as int));
            assert(typed_views(tokens@) =~= before.push(t));
            assert(before.push(t) + lex_from(text@, end as int) =~= before + (seq![t] + lex_from(
                text@,
                end as int,
            )));
        }
        i = end;
    }
    proof {
        assert(typed_views(tokens@) + lex_from(text@, n as int) =~= typed_views(tokens@));
    }
    tokens
}

/// Typed tokens with their kinds as numbers.
pub open spec fn raw_tokens(tokens: Seq<(SyntaxKind, Seq<char>)>) -> Seq<(u16, Seq<char>)> {
    Seq::new(tokens.len(), |i: int| (tokens[i].0.raw(), tokens[i].1))
}

/// Every token's kind is the number of some kind.
pub open spec fn well_kinded(toks: Seq<(u16, Seq<char>)>) -> bool {
    forall|i: int| 0 <= i < toks.len() ==> (#[trigger] toks[i]).0 <= MAX_KIND
}

/// Whether a token of kind `raw` is white space or a line feed.
pub open spec fn is_trivia(raw: u16) -> bool {
    raw == SyntaxKind::WHITESPACE.raw() || raw == SyntaxKind::NEWLINE.raw()
}

/// The rule that consumes white space and line feeds from `pos` on.
pub open spec fn piece_ws(toks: Seq<(u16, Seq<char>)>, pos: int) -> Piece
    decreases toks.len() - pos,
{
    if 0 <= pos < toks.len() && is_trivia(toks[pos].0) {
        piece_join(piece_bump(toks, pos), piece_ws(toks, pos + 1))
    } else {
        piece_empty(pos)
    }
}

/// How a diagnostic names what was found: the kind in `Some(..)`, or `None`
/// at the end of the tokens.
pub open spec fn found_label(found: Option<u16>) -> Seq<char> {
    match found {
        Some(raw) => "Some("@ + (match SyntaxKind::decode(raw) {
            Some(kind) => kind.label(),
            None => Seq::empty(),
        }) + ")"@,
        None => "None"@,
    }
}

/// The diagnostic for a token of kind `kind` that is not there.
pub open spec fn expect_message(kind: SyntaxKind, found: Option<u16>) -> Seq<char> {
    "expected "@ + kind.label() + ", found "@ + found_label(found)
}

/// The rule that consumes the current token where it has kind `kind`, and
/// otherwise records a diagnostic and consumes nothing.
pub open spec fn piece_expect(toks: Seq<(u16, Seq<char>)>, pos: int, kind: SyntaxKind) -> Piece {
    if kind_at(toks, pos) == Some(kind.raw()) {
        piece_bump(toks, pos)
    } else {
        piece_error(pos, expect_message(kind, kind_at(toks, pos)))
    }
}

/// The rule that consumes the current token where it has kind `kind`, and
/// otherwise records `message` and consumes nothing.
pub open spec fn piece_required(
    toks: Seq<(u16, Seq<char>)>,
    pos: int,
    kind: SyntaxKind,
    message: Seq<char>,
) -> Piece {
    if kind_at(toks, pos) == Some(kind.raw()) {
        piece_bump(toks, pos)
    } else {
        piece_error(pos, message)
    }
}

/// The rule that consumes the current token where it has kind `kind`, and
/// otherwise does nothing.
pub open spec fn piece_optional(toks: Seq<(u16, Seq<char>)>, pos: int, kind: SyntaxKind) -> Piece {
    if kind_at(toks, pos) == Some(kind.raw()) {
        piece_bump(toks, pos)
    } else {
        piece_empty(pos)
    }
}

/// `IDENTIFICATION`, white space, `DIVISION`, `.`, as one node. It is used
/// where the current token is `IDENTIFICATION`.
pub open spec fn piece_identification_division(toks: Seq<(u16, Seq<char>)>, pos: int) -> Piece {
    let a = piece_bump(toks, pos);
    let b = piece_join(a, piece_ws(toks, a.end));
    let c = piece_join(b, piece_expect(toks, b.end, SyntaxKind::DIVISION_KW));
    let d = piece_join(c, piece_expect(toks, c.end, SyntaxKind::DOT));
    piece_node(SyntaxKind::IDENTIFICATION_DIVISION.raw(), d)
}

/// `PROGRAM-ID`, `.`, white space, the program's name, `.`, as one node. It
/// is used where the current token is `PROGRAM-ID`.
pub open spec fn piece_program_id(toks: Seq<(u16, Seq<char>)>, pos: int) -> Piece {
    let a = piece_bump(toks, pos);
    let b = piece_join(a, piece_expect(toks, a.end, SyntaxKind::DOT));
    let c = piece_join(b, piece_ws(toks, b.end));
    let d = piece_join(
        c,
        piece_required(toks, c.end, SyntaxKind::IDENT, "expected program name"@),
    );
    let e = piece_join(d, piece_expect(toks, d.end, SyntaxKind::DOT));
    piece_node(SyntaxKind::PROGRAM_ID_CLAUSE.raw(), e)
}

/// `DISPLAY`, white space, a string literal, and a `.` where one follows, as
/// one node. It is used where the current token is `DISPLAY`.
pub open spec fn piece_display_stmt(toks: Seq<(u16, Seq<char>)>, pos: int) -> Piece {
    let a = piece_bump(toks, pos);
    let b = piece_join(a, piece_ws(toks, a.end));
    let c = piece_join(
        b,
        piece_required(
            toks,
            b.end,
            SyntaxKind::STRING_LITERAL,
            "Expected string literal after DISPLAY"@,
        ),
    );
    let d = piece_join(c, piece_optional(toks, c.end, SyntaxKind::DOT));
    piece_node(SyntaxKind::DISPLAY_STMT.raw(), d)
}

/// One round of the statement loop at `pos`: white space, then a display
/// statement where `DISPLAY` follows, else any one token. Such a token is
/// kept as a leaf of the division and is not diagnosed.
pub open spec fn piece_statement(toks: Seq<(u16, Seq<char>)>, pos: int) -> Piece {
    let w = piece_ws(toks, pos);
    if kind_at(toks, w.end) == Some(SyntaxKind::DISPLAY_KW.raw()) {
        piece_join(w, piece_display_stmt(toks, w.end))
    } else {
        piece_join(w, piece_bump(toks, w.end))
    }
}

/// The statements from `pos` to the end of the tokens.
pub open spec fn piece_statements(toks: Seq<(u16, Seq<char>)>, pos: int) -> Piece
    decreases toks.len() - pos,
{
    if 0 <= pos < toks.len() {
        let s = piece_statement(toks, pos);
        if pos < s.end <= toks.len() {
            piece_join(s, piece_statements(toks, s.end))
        } else {
            s
        }
    } else {
        piece_empty(pos)
    }
}

/// `PROCEDURE`, white space, `DIVISION`, `.`, white space and the
/// statements, as one node. It is used where the current token is
/// `PROCEDURE`.
pub open spec fn piece_procedure_division(toks: Seq<(u16, Seq<char>)>, pos: int) -> Piece {
    let a = piece_bump(toks, pos);
    let b = piece_join(a, piece_ws(toks, a.end));
    let c = piece_join(b, piece_expect(toks, b.end, SyntaxKind::DIVISION_KW));
    let d = piece_join(c, piece_expect(toks, c.end, SyntaxKind::DOT));
    let e = piece_join(d, piece_ws(toks, d.end));
    let f = piece_join(e, piece_statements(toks, e.end));
    piece_node(SyntaxKind::PROCEDURE_DIVISION.raw(), f)
}

/// The division that `kind` introduces, where the current token has that
/// kind; nothing otherwise.
pub open spec fn piece_division(toks: Seq<(u16, Seq<char>)>, pos: int, kind: SyntaxKind) -> Piece {
    if kind_at(toks, pos) != Some(kind.raw()) {
        piece_empty(pos)
    } else if kind == SyntaxKind::IDENTIFICATION_KW {
        piece_identification_division(toks, pos)
    } else if kind == SyntaxKind::PROGRAM_ID_KW {
        piece_program_id(toks, pos)
    } else if kind == SyntaxKind::PROCEDURE_KW {
        piece_procedure_division(toks, pos)
    } else {
        piece_empty(pos)
    }
}

/// The rule that consumes every token from `pos` to the end, each as a
/// leaf.
pub open spec fn piece_rest(toks: Seq<(u16, Seq<char>)>, pos: int) -> Piece
    decreases toks.len() - pos,
{
    if 0 <= pos < toks.len() {
        piece_join(piece_bump(toks, pos), piece_rest(toks, pos + 1))
    } else {
        piece_empty(pos)
    }
}

/// The whole program: the three divisions in their order, each optional,
/// with white space before each, and then whatever tokens are left, as the
/// root node. Tokens that belong to no division are kept as leaves of the
/// root and are not diagnosed, as tokens that belong to no statement are
/// kept in the procedure division: a tree holds every token of its text.
pub open spec fn piece_root(toks: Seq<(u16, Seq<char>)>) -> Piece {
    let a = piece_ws(toks, 0);
    let b = piece_join(a, piece_division(toks, a.end, SyntaxKind::IDENTIFICATION_KW));
    let c = piece_join(b, piece_ws(toks, b.end));
    let d = piece_join(c, piece_division(toks, c.end, SyntaxKind::PROGRAM_ID_KW));
    let e = piece_join(d, piece_ws(toks, d.end));
    let f = piece_join(e, piece_division(toks, e.end, SyntaxKind::PROCEDURE_KW));
    let g = piece_join(f, piece_rest(toks, f.end));
    piece_node(SyntaxKind::ROOT.raw(), g)
}

/// The tokens of `text`, with their kinds as numbers.
pub open spec fn tokens_of(text: Seq<char>) -> Seq<(u16, Seq<char>)> {
    raw_tokens(lex_spec(text))
}

/// The syntax tree of `text`.
pub open spec fn parse_tree(text: Seq<char>) -> Element {
    piece_root(tokens_of(text)).items[0]
}

/// The diagnostics of `text`, in the order in which parsing meets them.
pub open spec fn parse_errors(text: Seq<char>) -> Seq<Seq<char>> {
    piece_root(tokens_of(text)).errors
}

/// The result of parsing: the tree, and the diagnostics in the order in
/// which they were met.
pub struct Parse {
    green_node: GreenNode,
    pub errors: Vec<String>,
    calls: Ghost<Seq<BuilderCall>>,
}

impl Parse {
    /// The tree.
    pub closed spec fn tree(&self) -> Element {
        green_tree(self.green_node)
    }

    /// The diagnostics.
    pub closed spec fn messages(&self) -> Seq<Seq<char>> {
        string_views(self.errors@)
    }

    /// The calls that parsing made on the tree builder, in their order.
    pub closed spec fn calls(&self) -> Seq<BuilderCall> {
        self.calls@
    }

    /// Whether the calls made on the builder are in order for `tokens`
    /// tokens. The first call opens the root and the last closes it; no
    /// node is closed before it is opened and every node opened is closed;
    /// each token is handed over once; and no more nodes are opened than
    /// there are tokens, but for the root, so that the calls are at most
    /// three for each token and two more.
    pub open spec fn in_order(&self, tokens: nat) -> bool {
        &&& self.calls().len() >= 2
        &&& self.calls()[0] == BuilderCall::StartNode(SyntaxKind::ROOT.raw())
        &&& self.calls().last() == BuilderCall::FinishNode
        &&& well_nested(self.calls())
        &&& tokens_passed(self.calls()) == tokens
        &&& starts(self.calls()) <= tokens + 1
        &&& self.calls().len() <= 3 * tokens + 2
    }

    /// Whether this is what parsing `text` gives.
    pub open spec fn is_parse_of(&self, text: Seq<char>) -> bool {
        self.tree() == parse_tree(text) && self.messages() == parse_errors(text)
    }

    /// The diagnostics, in the order in which they were met.
    pub fn diagnostics(&self) -> (out: &Vec<String>)
        ensures
            string_views(out@) == self.messages(),
    {
        &self.errors
    }
}

/// The parser: the grammar's rules over a token feed.
struct Parser {
    feed: TokenFeed,
}

impl Parser {
    /// The feed is in order and every token has the number of a kind.
    spec fn ready(&self) -> bool {
        self.feed.wf() && well_kinded(self.feed.toks())
    }

    /// This parser is `before` after a rule that contributed `p`, and the
    /// rule opened no more nodes than it consumed tokens.
    spec fn did(&self, before: &Parser, p: Piece) -> bool {
        &&& self.feed.wf()
        &&& self.feed.extends(&before.feed, p)
        &&& self.feed.started() - before.feed.started() <= self.feed.pos() - before.feed.pos()
    }

    /// This parser is `before` after a rule that opened `nodes` nodes and
    /// closed as many.
    spec fn built(&self, before: &Parser, nodes: nat) -> bool {
        &&& self.feed.started() == before.feed.started() + nodes
        &&& self.feed.finished() == before.feed.finished() + nodes
    }

    /// A parser at the start of `tokens`.
    fn new(tokens: Vec<(SyntaxKind, String)>) -> (parser: Parser)
        requires
            utf8_len(leaves_text(raw_tokens(typed_views(tokens@)))) <= u32::MAX,
        ensures
            parser.ready(),
            parser.feed.toks() == raw_tokens(typed_views(tokens@)),
            parser.feed.pos() == 0,
            parser.feed.parents() == Seq::<(u16, nat)>::empty(),
            parser.feed.children() == Seq::<Element>::empty(),
            parser.feed.errors() == Seq::<Seq<char>>::empty(),
            parser.feed.calls() == Seq::<BuilderCall>::empty(),
    {
        let mut raw: Vec<(u16, String)> = Vec::new();
        let mut i: usize = 0;
        while i < tokens.len()
            invariant
                i <= tokens.len(),
                token_views(raw@) == raw_tokens(typed_views(tokens@)).take(i as int),
            decreases tokens.len() - i,
        {
            let ghost before = token_views(raw@);
            raw.push((tokens[i].0.to_raw(), tokens[i].1.clone()));
            i += 1;
            proof {
                assert(token_views(raw@) =~= before.push(
                    (tokens@[i - 1].0.raw(), tokens@[i - 1].1@),
                ));
                assert(token_views(raw@) =~= raw_tokens(typed_views(tokens@)).take(i as int));
            }
        }
        proof {
            assert(raw_tokens(typed_views(tokens@)).take(i as int) =~= raw_tokens(
                typed_views(tokens@),
            ));
        }
        Parser { feed: TokenFeed::new(raw) }
    }

    /// The kind of the current token, or `None` at the end.
    fn current(&self) -> (kind: Option<SyntaxKind>)
        requires
            self.ready(),
        ensures
            match kind {
                Some(k) => kind_at(self.feed.toks(), self.feed.pos()) == Some(k.raw()),
                None => kind_at(self.feed.toks(), self.feed.pos()) is None,
            },
    {
        proof {
            self.feed.lemma_pos_in_bounds();
        }
        match self.feed.current() {
            Some(raw) => Some(CobolLang::kind_from_raw(raw)),
            None => None,
        }
    }

    /// Whether the current token has kind `kind`.
    fn at(&self, kind: SyntaxKind) -> (yes: bool)
        requires
            self.ready(),
        ensures
            yes == (kind_at(self.feed.toks(), self.feed.pos()) == Some(kind.raw())),
    {
        match self.feed.current() {
            Some(raw) => raw == kind.to_raw(),
            None => false,
        }
    }

    /// Consumes the current token as a leaf.
    fn bump(&mut self)
        requires
            old(self).ready(),
        ensures
            final(self).did(old(self), piece_bump(old(self).feed.toks(), old(self).feed.pos())),
            final(self).built(old(self), 0),
    {
        self.feed.bump();
    }

    /// Consumes white space and line feeds.
    fn skip_ws(&mut self)
        requires
            old(self).ready(),
        ensures
            final(self).did(old(self), piece_ws(old(self).feed.toks(), old(self).feed.pos())),
            final(self).built(old(self), 0),
    {
        let ghost toks = self.feed.toks();
        let ghost start = self.feed.pos();
        let ghost mut acc = piece_empty(start);
        proof {
            lemma_extends_same(&self.feed);
            lemma_join_empty(piece_ws(toks, start));
            self.feed.lemma_pos_in_bounds();
        }
        loop
            invariant
                self.ready(),
                self.feed.started() == old(self).feed.started(),
                self.feed.finished() == old(self).feed.finished(),
                self.feed.started() - old(self).feed.started() <= self.feed.pos() - old(
                    self,
                ).feed.pos(),
                self.feed.toks() == toks,
                self.feed.extends(&old(self).feed, acc),
                acc.end == self.feed.pos(),
                piece_ws(toks, start) == piece_join(acc, piece_ws(toks, self.feed.pos())),
                0 <= self.feed.pos() <= toks.len(),
            ensures
                self.did(old(self), piece_ws(toks, start)),
                self.built(old(self), 0),
            decreases toks.len() - self.feed.pos(),
        {
            let trivia = self.at(SyntaxKind::WHITESPACE) || self.at(SyntaxKind::NEWLINE);
            if !trivia {
                proof {
                    lemma_join_empty(acc);
                }
                break ;
            }
            let ghost prev = self.feed;
            let ghost step = piece_bump(toks, prev.pos());
            self.feed.bump();
            proof {
                lemma_extends_join(&old(self).feed, &prev, &self.feed, acc, step);
                lemma_join_assoc(acc, step, piece_ws(toks, prev.pos() + 1));
                acc = piece_join(acc, step);
                self.feed.lemma_pos_in_bounds();
            }
        }
    }

    /// Consumes the current token where it has kind `kind`; otherwise records
    /// what was expected and what was found, and consumes nothing.
    fn expect(&mut self, kind: SyntaxKind) -> (found: bool)
        requires
            old(self).ready(),
        ensures
            final(self).did(
                old(self),
                piece_expect(old(self).feed.toks(), old(self).feed.pos(), kind),
            ),
            final(self).built(old(self), 0),
            found == (kind_at(old(self).feed.toks(), old(self).feed.pos()) == Some(kind.raw())),
    {
        if self.at(kind) {
            self.bump();
            true
        } else {
            let mut message = "expected ".to_owned();
            message.append(kind.name());
            message.append(", found ");
            match self.current() {
                Some(k) => {
                    message.append("Some(");
                    message.append(k.name());
                    message.append(")");
                    proof {
                        assert(message@ =~= expect_message(
                            kind,
                            kind_at(self.feed.toks(), self.feed.pos()),
                        ));
                    }
                },
                None => {
                    message.append("None");
                },
            }
            self.feed.error(message);
            false
        }
    }

    /// Consumes the current token where it has kind `kind`; otherwise records
    /// `message` and consumes nothing.
    fn require(&mut self, kind: SyntaxKind, message: &str)
        requires
            old(self).ready(),
        ensures
            final(self).did(
                old(self),
                piece_required(old(self).feed.toks(), old(self).feed.pos(), kind, message@),
            ),
            final(self).built(old(self), 0),
    {
        if self.at(kind) {
            self.bump();
        } else {
            self.feed.error(message.to_owned());
        }
    }

    /// Consumes the current token where it has kind `kind`.
    fn accept(&mut self, kind: SyntaxKind)
        requires
            old(self).ready(),
        ensures
            final(self).did(
                old(self),
                piece_optional(old(self).feed.toks(), old(self).feed.pos(), kind),
            ),
            final(self).built(old(self), 0),
    {
        if self.at(kind) {
            self.bump();
        } else {
            proof {
                lemma_extends_same(&self.feed);
            }
        }
    }

    /// `IDENTIFICATION DIVISION.`
    fn parse_identification_division(&mut self)
        requires
            old(self).ready(),
            kind_at(old(self).feed.toks(), old(self).feed.pos()) is Some,
        ensures
            final(self).did(
                old(self),
                piece_identification_division(old(self).feed.toks(), old(self).feed.pos()),
            ),
            final(self).built(old(self), 1),
            wraps(
                old(self).feed.calls(),
                final(self).feed.calls(),
                SyntaxKind::IDENTIFICATION_DIVISION.raw(),
            ),
    {
        let ghost toks = self.feed.toks();
        let ghost kind = SyntaxKind::IDENTIFICATION_DIVISION.raw();
        self.feed.start_node(SyntaxKind::IDENTIFICATION_DIVISION.to_raw());
        let ghost s1 = self.feed;
        self.bump();
        let ghost a = piece_bump(toks, s1.pos());
        let ghost sa = self.feed;
        self.skip_ws();
        let ghost b = piece_join(a, piece_ws(toks, a.end));
        let ghost sb = self.feed;
        proof {
            lemma_extends_join(&s1, &sa, &sb, a, piece_ws(toks, a.end));
        }
        self.expect(SyntaxKind::DIVISION_KW);
        let ghost c = piece_join(b, piece_expect(toks, b.end, SyntaxKind::DIVISION_KW));
        let ghost sc = self.feed;
        proof {
            lemma_extends_join(&s1, &sb, &sc, b, piece_expect(toks, b.end, SyntaxKind::DIVISION_KW));
        }
        self.expect(SyntaxKind::DOT);
        let ghost d = piece_join(c, piece_expect(toks, c.end, SyntaxKind::DOT));
        let ghost sd = self.feed;
        proof {
            lemma_extends_join(&s1, &sc, &sd, c, piece_expect(toks, c.end, SyntaxKind::DOT));
        }
        self.feed.finish_node();
        proof {
            lemma_extends_node(&old(self).feed, &s1, &sd, &self.feed, kind, d);
            lemma_node_calls(&old(self).feed, &s1, &sd, &self.feed, kind);
        }
    }

    /// `PROGRAM-ID. <name>.`
    fn parse_program_id(&mut self)
        requires
            old(self).ready(),
            kind_at(old(self).feed.toks(), old(self).feed.pos()) is Some,
        ensures
            final(self).did(
                old(self),
                piece_program_id(old(self).feed.toks(), old(self).feed.pos()),
            ),
            final(self).built(old(self), 1),
            wraps(
                old(self).feed.calls(),
                final(self).feed.calls(),
                SyntaxKind::PROGRAM_ID_CLAUSE.raw(),
            ),
    {
        let ghost toks = self.feed.toks();
        let ghost kind = SyntaxKind::PROGRAM_ID_CLAUSE.raw();
        self.feed.start_node(SyntaxKind::PROGRAM_ID_CLAUSE.to_raw());
        let ghost s1 = self.feed;
        self.bump();
        let ghost a = piece_bump(toks, s1.pos());
        let ghost sa = self.feed;
        self.expect(SyntaxKind::DOT);
        let ghost b = piece_join(a, piece_expect(toks, a.end, SyntaxKind::DOT));
        let ghost sb = self.feed;
        proof {
            lemma_extends_join(&s1, &sa, &sb, a, piece_expect(toks, a.end, SyntaxKind::DOT));
        }
        self.skip_ws();
        let ghost c = piece_join(b, piece_ws(toks, b.end));
        let ghost sc = self.feed;
        proof {
            lemma_extends_join(&s1, &sb, &sc, b, piece_ws(toks, b.end));
        }
        self.require(SyntaxKind::IDENT, "expected program name");
        let ghost step = piece_required(toks, c.end, SyntaxKind::IDENT, "expected program name"@);
        let ghost d = piece_join(c, step);
        let ghost sd = self.feed;
        proof {
            lemma_extends_join(&s1, &sc, &sd, c, step);
        }
        self.expect(SyntaxKind::DOT);
        let ghost e = piece_join(d, piece_expect(toks, d.end, SyntaxKind::DOT));
        let ghost se = self.feed;
        proof {
            lemma_extends_join(&s1, &sd, &se, d, piece_expect(toks, d.end, SyntaxKind::DOT));
        }
        self.feed.finish_node();
        proof {
            lemma_extends_node(&old(self).feed, &s1, &se, &self.feed, kind, e);
            lemma_node_calls(&old(self).feed, &s1, &se, &self.feed, kind);
        }
    }

    /// `DISPLAY "<string>"`, with a dot where one follows.
    fn parse_display_stmt(&mut self)
        requires
            old(self).ready(),
            kind_at(old(self).feed.toks(), old(self).feed.pos()) is Some,
        ensures
            final(self).did(
                old(self),
                piece_display_stmt(old(self).feed.toks(), old(self).feed.pos()),
            ),
            final(self).built(old(self), 1),
            wraps(
                old(self).feed.calls(),
                final(self).feed.calls(),
                SyntaxKind::DISPLAY_STMT.raw(),
            ),
    {
        let ghost toks = self.feed.toks();
        let ghost kind = SyntaxKind::DISPLAY_STMT.raw();
        self.feed.start_node(SyntaxKind::DISPLAY_STMT.to_raw());
        let ghost s1 = self.feed;
        self.bump();
        let ghost a = piece_bump(toks, s1.pos());
        let ghost sa = self.feed;
        self.skip_ws();
        let ghost b = piece_join(a, piece_ws(toks, a.end));
        let ghost sb = self.feed;
        proof {
            lemma_extends_join(&s1, &sa, &sb, a, piece_ws(toks, a.end));
        }
        self.require(SyntaxKind::STRING_LITERAL, "Expected string literal after DISPLAY");
        let ghost step = piece_required(
            toks,
            b.end,
            SyntaxKind::STRING_LITERAL,
            "Expected string literal after DISPLAY"@,
        );
        let ghost c = piece_join(b, step);
        let ghost sc = self.feed;
        proof {
            lemma_extends_join(&s1, &sb, &sc, b, step);
        }
        self.accept(SyntaxKind::DOT);
        let ghost d = piece_join(c, piece_optional(toks, c.end, SyntaxKind::DOT));
        let ghost sd = self.feed;
        proof {
            lemma_extends_join(&s1, &sc, &sd, c, piece_optional(toks, c.end, SyntaxKind::DOT));
        }
        self.feed.finish_node();
        proof {
            lemma_extends_node(&old(self).feed, &s1, &sd, &self.feed, kind, d);
            lemma_node_calls(&old(self).feed, &s1, &sd, &self.feed, kind);
        }
    }

    /// One round of the statement loop: white space, then a display
    /// statement or one token that is passed over.
    fn parse_statement(&mut self)
        requires
            old(self).ready(),
        ensures
            final(self).did(
                old(self),
                piece_statement(old(self).feed.toks(), old(self).feed.pos()),
            ),
    {
        let ghost toks = self.feed.toks();
        let ghost w = piece_ws(toks, self.feed.pos());
        self.skip_ws();
        let ghost sw = self.feed;
        if self.at(SyntaxKind::DISPLAY_KW) {
            self.parse_display_stmt();
            proof {
                lemma_extends_join(
                    &old(self).feed,
                    &sw,
                    &self.feed,
                    w,
                    piece_display_stmt(toks, w.end),
                );
            }
        } else {
            self.bump();
            proof {
                lemma_extends_join(&old(self).feed, &sw, &self.feed, w, piece_bump(toks, w.end));
            }
        }
    }

    /// The statements up to the end of the tokens.
    fn parse_statements(&mut self)
        requires
            old(self).ready(),
        ensures
            final(self).did(
                old(self),
                piece_statements(old(self).feed.toks(), old(self).feed.pos()),
            ),
    {
        let ghost toks = self.feed.toks();
        let ghost start = self.feed.pos();
        let ghost mut acc = piece_empty(start);
        proof {
            lemma_extends_same(&self.feed);
            lemma_join_empty(piece_statements(toks, start));
            self.feed.lemma_pos_in_bounds();
        }
        while self.feed.current().is_some()
            invariant
                self.ready(),
                self.feed.started() - old(self).feed.started() <= self.feed.pos() - old(
                    self,
                ).feed.pos(),
                self.feed.toks() == toks,
                self.feed.extends(&old(self).feed, acc),
                acc.end == self.feed.pos(),
                piece_statements(toks, start) == piece_join(
                    acc,
                    piece_statements(toks, self.feed.pos()),
                ),
                0 <= self.feed.pos() <= toks.len(),
            decreases toks.len() - self.feed.pos(),
        {
            let ghost prev = self.feed;
            let ghost step = piece_statement(toks, prev.pos());
            self.parse_statement();
            proof {
                self.feed.lemma_pos_in_bounds();
                lemma_statement_progress(toks, prev.pos());
                lemma_extends_join(&old(self).feed, &prev, &self.feed, acc, step);
                lemma_join_assoc(acc, step, piece_statements(toks, step.end));
                acc = piece_join(acc, step);
            }
        }
        proof {
            lemma_join_empty(acc);
        }
    }

    /// `PROCEDURE DIVISION.` and its statements.
    fn parse_procedure_division(&mut self)
        requires
            old(self).ready(),
            kind_at(old(self).feed.toks(), old(self).feed.pos()) is Some,
        ensures
            final(self).did(
                old(self),
                piece_procedure_division(old(self).feed.toks(), old(self).feed.pos()),
            ),
            wraps(
                old(self).feed.calls(),
                final(self).feed.calls(),
                SyntaxKind::PROCEDURE_DIVISION.raw(),
            ),
    {
        let ghost toks = self.feed.toks();
        let ghost kind = SyntaxKind::PROCEDURE_DIVISION.raw();
        self.feed.start_node(SyntaxKind::PROCEDURE_DIVISION.to_raw());
        let ghost s1 = self.feed;
        self.bump();
        let ghost a = piece_bump(toks, s1.pos());
        let ghost sa = self.feed;
        self.skip_ws();
        let ghost b = piece_join(a, piece_ws(toks, a.end));
        let ghost sb = self.feed;
        proof {
            lemma_extends_join(&s1, &sa, &sb, a, piece_ws(toks, a.end));
        }
        self.expect(SyntaxKind::DIVISION_KW);
        let ghost c = piece_join(b, piece_expect(toks, b.end, SyntaxKind::DIVISION_KW));
        let ghost sc = self.feed;
        proof {
            lemma_extends_join(&s1, &sb, &sc, b, piece_expect(toks, b.end, SyntaxKind::DIVISION_KW));
        }
        self.expect(SyntaxKind::DOT);
        let ghost d = piece_join(c, piece_expect(toks, c.end, SyntaxKind::DOT));
        let ghost sd = self.feed;
        proof {
            lemma_extends_join(&s1, &sc, &sd, c, piece_expect(toks, c.end, SyntaxKind::DOT));
        }
        self.skip_ws();
        let ghost e = piece_join(d, piece_ws(toks, d.end));
        let ghost se = self.feed;
        proof {
            lemma_extends_join(&s1, &sd, &se, d, piece_ws(toks, d.end));
        }
        self.parse_statements();
        let ghost f = piece_join(e, piece_statements(toks, e.end));
        let ghost sf = self.feed;
        proof {
            lemma_extends_join(&s1, &se, &sf, e, piece_statements(toks, e.end));
        }
        self.feed.finish_node();
        proof {
            lemma_extends_node(&old(self).feed, &s1, &sf, &self.feed, kind, f);
            lemma_node_calls(&old(self).feed, &s1, &sf, &self.feed, kind);
        }
    }

    /// The division that `kind` introduces, where the current token has that
    /// kind.
    fn parse_division(&mut self, kind: SyntaxKind)
        requires
            old(self).ready(),
        ensures
            final(self).did(
                old(self),
                piece_division(old(self).feed.toks(), old(self).feed.pos(), kind),
            ),
    {
        if !self.at(kind) {
            proof {
                lemma_extends_same(&self.feed);
            }
        } else {
            match kind {
                SyntaxKind::IDENTIFICATION_KW => self.parse_identification_division(),
                SyntaxKind::PROGRAM_ID_KW => self.parse_program_id(),
                SyntaxKind::PROCEDURE_KW => self.parse_procedure_division(),
                _ => {
                    proof {
                        lemma_extends_same(&self.feed);
                    }
                },
            }
        }
    }

    /// Every token that is left, each as a leaf.
    fn parse_rest(&mut self)
        requires
            old(self).ready(),
        ensures
            final(self).did(old(self), piece_rest(old(self).feed.toks(), old(self).feed.pos())),
            final(self).feed.pos() == old(self).feed.toks().len(),
    {
        let ghost toks = self.feed.toks();
        let ghost start = self.feed.pos();
        let ghost mut acc = piece_empty(start);
        proof {
            lemma_extends_same(&self.feed);
            lemma_join_empty(piece_rest(toks, start));
            self.feed.lemma_pos_in_bounds();
        }
        while self.feed.current().is_some()
            invariant
                self.ready(),
                self.feed.started() - old(self).feed.started() <= self.feed.pos() - old(
                    self,
                ).feed.pos(),
                self.feed.toks() == toks,
                self.feed.extends(&old(self).feed, acc),
                acc.end == self.feed.pos(),
                piece_rest(toks, start) == piece_join(acc, piece_rest(toks, self.feed.pos())),
                0 <= self.feed.pos() <= toks.len(),
            decreases toks.len() - self.feed.pos(),
        {
            let ghost prev = self.feed;
            let ghost step = piece_bump(toks, prev.pos());
            self.feed.bump();
            proof {
                self.feed.lemma_pos_in_bounds();
                lemma_extends_join(&old(self).feed, &prev, &self.feed, acc, step);
                lemma_join_assoc(acc, step, piece_rest(toks, step.end));
                acc = piece_join(acc, step);
            }
        }
        proof {
            lemma_join_empty(acc);
        }
    }

    /// The whole program, as the tree and the diagnostics.
    fn parse(self) -> (parse: Parse)
        requires
            self.ready(),
            self.feed.pos() == 0,
            self.feed.parents() == Seq::<(u16, nat)>::empty(),
            self.feed.children() == Seq::<Element>::empty(),
            self.feed.errors() == Seq::<Seq<char>>::empty(),
            self.feed.calls() == Seq::<BuilderCall>::empty(),
        ensures
            parse.tree() == piece_root(self.feed.toks()).items[0],
            parse.messages() == piece_root(self.feed.toks()).errors,
            element_leaves(parse.tree()) == self.feed.toks(),
            parse.in_order(self.feed.toks().len() as nat),
    {
        let mut this = self;
        let ghost toks = this.feed.toks();
        let ghost s0 = this.feed;
        let ghost kind = SyntaxKind::ROOT.raw();
        this.feed.start_node(SyntaxKind::ROOT.to_raw());
        let ghost s1 = this.feed;
        this.skip_ws();
        let ghost a = piece_ws(toks, 0);
        let ghost sa = this.feed;
        assert(sa.started() - s1.started() <= sa.pos() - s1.pos());
        this.parse_division(SyntaxKind::IDENTIFICATION_KW);
        let ghost b = piece_join(a, piece_division(toks, a.end, SyntaxKind::IDENTIFICATION_KW));
        let ghost sb = this.feed;
        assert(sb.started() - s1.started() <= sb.pos() - s1.pos());
        proof {
            lemma_extends_join(
                &s1,
                &sa,
                &sb,
                a,
                piece_division(toks, a.end, SyntaxKind::IDENTIFICATION_KW),
            );
        }
        this.skip_ws();
        let ghost c = piece_join(b, piece_ws(toks, b.end));
        let ghost sc = this.feed;
        assert(sc.started() - s1.started() <= sc.pos() - s1.pos());
        proof {
            lemma_extends_join(&s1, &sb, &sc, b, piece_ws(toks, b.end));
        }
        this.parse_division(SyntaxKind::PROGRAM_ID_KW);
        let ghost d = piece_join(c, piece_division(toks, c.end, SyntaxKind::PROGRAM_ID_KW));
        let ghost sd = this.feed;
        assert(sd.started() - s1.started() <= sd.pos() - s1.pos());
        proof {
            lemma_extends_join(
                &s1,
                &sc,
                &sd,
                c,
                piece_division(toks, c.end, SyntaxKind::PROGRAM_ID_KW),
            );
        }
        this.skip_ws();
        let ghost e = piece_join(d, piece_ws(toks, d.end));
        let ghost se = this.feed;
        assert(se.started() - s1.started() <= se.pos() - s1.pos());
        proof {
            lemma_extends_join(&s1, &sd, &se, d, piece_ws(toks, d.end));
        }
        this.parse_division(SyntaxKind::PROCEDURE_KW);
        let ghost f = piece_join(e, piece_division(toks, e.end, SyntaxKind::PROCEDURE_KW));
        let ghost sf = this.feed;
        assert(sf.started() - s1.started() <= sf.pos() - s1.pos());
        proof {
            lemma_extends_join(
                &s1,
                &se,
                &sf,
                e,
                piece_division(toks, e.end, SyntaxKind::PROCEDURE_KW),
            );
        }
        this.parse_rest();
        let ghost g = piece_join(f, piece_rest(toks, f.end));
        let ghost sg = this.feed;
        assert(sg.started() - s1.started() <= sg.pos() - s1.pos());
        proof {
            lemma_extends_join(&s1, &sf, &sg, f, piece_rest(toks, f.end));
        }
        let ghost last = sg;
        this.feed.finish_node();
        proof {
            lemma_extends_node(&s0, &s1, &sg, &this.feed, kind, g);
            assert(this.feed.children() =~= piece_node(kind, g).items);
            assert(toks.take(toks.len() as int) =~= toks);
        }
        let ghost calls = this.feed.calls();
        proof {
            lemma_call_counts_total(calls);
            lemma_rooted_calls(&s0, &s1, &last, &this.feed, SyntaxKind::ROOT.raw(), toks.len());
        }
        let (green_node, errors) = this.feed.finish();
        Parse { green_node, errors, calls: Ghost(calls) }
    }
}

/// One round of the statement loop that starts before the end of the
/// tokens consumes at least one token.
pub proof fn lemma_statement_progress(toks: Seq<(u16, Seq<char>)>, pos: int)
    requires
        0 <= pos < toks.len(),
    ensures
        pos < piece_statement(toks, pos).end,
{
    lemma_ws_covers(toks, pos);
    let w = piece_ws(toks, pos);
    if kind_at(toks, w.end) == Some(SyntaxKind::DISPLAY_KW.raw()) {
        lemma_display_stmt_covers(toks, w.end);
        lemma_ws_covers(toks, w.end + 1);
    }
}

/// White space keeps its tokens.
pub proof fn lemma_ws_covers(toks: Seq<(u16, Seq<char>)>, pos: int)
    requires
        0 <= pos <= toks.len(),
    ensures
        covers(toks, pos, piece_ws(toks, pos)),
    decreases toks.len() - pos,
{
    if pos < toks.len() && is_trivia(toks[pos].0) {
        lemma_covers_bump(toks, pos);
        lemma_ws_covers(toks, pos + 1);
        lemma_covers_join(toks, pos, piece_bump(toks, pos), piece_ws(toks, pos + 1));
    } else {
        lemma_covers_nothing(toks, pos, Seq::empty());
    }
}

/// The rules for one token keep it where they consume it.
pub proof fn lemma_token_rules_cover(toks: Seq<(u16, Seq<char>)>, pos: int, kind: SyntaxKind)
    requires
        0 <= pos <= toks.len(),
    ensures
        covers(toks, pos, piece_expect(toks, pos, kind)),
        covers(toks, pos, piece_optional(toks, pos, kind)),
        forall|message: Seq<char>|
            covers(toks, pos, #[trigger] piece_required(toks, pos, kind, message)),
{
    lemma_covers_bump(toks, pos);
    lemma_covers_nothing(toks, pos, expect_message(kind, kind_at(toks, pos)));
    assert forall|message: Seq<char>|
        covers(toks, pos, #[trigger] piece_required(toks, pos, kind, message)) by {
        lemma_covers_nothing(toks, pos, message);
    }
}

/// An identification division keeps its tokens.
pub proof fn lemma_identification_division_covers(toks: Seq<(u16, Seq<char>)>, pos: int)
    requires
        0 <= pos <= toks.len(),
    ensures
        covers(toks, pos, piece_identification_division(toks, pos)),
{
    let a = piece_bump(toks, pos);
    lemma_covers_bump(toks, pos);
    lemma_ws_covers(toks, a.end);
    let b = piece_join(a, piece_ws(toks, a.end));
    lemma_covers_join(toks, pos, a, piece_ws(toks, a.end));
    lemma_token_rules_cover(toks, b.end, SyntaxKind::DIVISION_KW);
    let c = piece_join(b, piece_expect(toks, b.end, SyntaxKind::DIVISION_KW));
    lemma_covers_join(toks, pos, b, piece_expect(toks, b.end, SyntaxKind::DIVISION_KW));
    lemma_token_rules_cover(toks, c.end, SyntaxKind::DOT);
    let d = piece_join(c, piece_expect(toks, c.end, SyntaxKind::DOT));
    lemma_covers_join(toks, pos, c, piece_expect(toks, c.end, SyntaxKind::DOT));
    lemma_covers_node(toks, pos, SyntaxKind::IDENTIFICATION_DIVISION.raw(), d);
}

/// A program-id clause keeps its tokens.
pub proof fn lemma_program_id_covers(toks: Seq<(u16, Seq<char>)>, pos: int)
    requires
        0 <= pos <= toks.len(),
    ensures
        covers(toks, pos, piece_program_id(toks, pos)),
{
    let a = piece_bump(toks, pos);
    lemma_covers_bump(toks, pos);
    lemma_token_rules_cover(toks, a.end, SyntaxKind::DOT);
    let b = piece_join(a, piece_expect(toks, a.end, SyntaxKind::DOT));
    lemma_covers_join(toks, pos, a, piece_expect(toks, a.end, SyntaxKind::DOT));
    lemma_ws_covers(toks, b.end);
    let c = piece_join(b, piece_ws(toks, b.end));
    lemma_covers_join(toks, pos, b, piece_ws(toks, b.end));
    lemma_token_rules_cover(toks, c.end, SyntaxKind::IDENT);
    let step = piece_required(toks, c.end, SyntaxKind::IDENT, "expected program name"@);
    let d = piece_join(c, step);
    lemma_covers_join(toks, pos, c, step);
    lemma_token_rules_cover(toks, d.end, SyntaxKind::DOT);
    let e = piece_join(d, piece_expect(toks, d.end, SyntaxKind::DOT));
    lemma_covers_join(toks, pos, d, piece_expect(toks, d.end, SyntaxKind::DOT));
    lemma_covers_node(toks, pos, SyntaxKind::PROGRAM_ID_CLAUSE.raw(), e);
}

/// A display statement keeps its tokens.
pub proof fn lemma_display_stmt_covers(toks: Seq<(u16, Seq<char>)>, pos: int)
    requires
        0 <= pos <= toks.len(),
    ensures
        covers(toks, pos, piece_display_stmt(toks, pos)),
{
    let a = piece_bump(toks, pos);
    lemma_covers_bump(toks, pos);
    lemma_ws_covers(toks, a.end);
    let b = piece_join(a, piece_ws(toks, a.end));
    lemma_covers_join(toks, pos, a, piece_ws(toks, a.end));
    lemma_token_rules_cover(toks, b.end, SyntaxKind::STRING_LITERAL);
    let step = piece_required(
        toks,
        b.end,
        SyntaxKind::STRING_LITERAL,
        "Expected string literal after DISPLAY"@,
    );
    let c = piece_join(b, step);
    lemma_covers_join(toks, pos, b, step);
    lemma_token_rules_cover(toks, c.end, SyntaxKind::DOT);
    let d = piece_join(c, piece_optional(toks, c.end, SyntaxKind::DOT));
    lemma_covers_join(toks, pos, c, piece_optional(toks, c.end, SyntaxKind::DOT));
    lemma_covers_node(toks, pos, SyntaxKind::DISPLAY_STMT.raw(), d);
}

/// One round of the statement loop keeps its tokens.
pub proof fn lemma_statement_covers(toks: Seq<(u16, Seq<char>)>, pos: int)
    requires
        0 <= pos <= toks.len(),
    ensures
        covers(toks, pos, piece_statement(toks, pos)),
{
    let w = piece_ws(toks, pos);
    lemma_ws_covers(toks, pos);
    if kind_at(toks, w.end) == Some(SyntaxKind::DISPLAY_KW.raw()) {
        lemma_display_stmt_covers(toks, w.end);
        lemma_covers_join(toks, pos, w, piece_display_stmt(toks, w.end));
    } else {
        lemma_covers_bump(toks, w.end);
        lemma_covers_join(toks, pos, w, piece_bump(toks, w.end));
    }
}

/// The statement loop keeps its tokens, and consumes every token that is
/// left.
pub proof fn lemma_statements_cover(toks: Seq<(u16, Seq<char>)>, pos: int)
    requires
        0 <= pos <= toks.len(),
    ensures
        covers(toks, pos, piece_statements(toks, pos)),
        piece_statements(toks, pos).end == toks.len(),
    decreases toks.len() - pos,
{
    if pos < toks.len() {
        let s = piece_statement(toks, pos);
        lemma_statement_covers(toks, pos);
        lemma_statement_progress(toks, pos);
        lemma_statements_cover(toks, s.end);
        lemma_covers_join(toks, pos, s, piece_statements(toks, s.end));
    } else {
        lemma_covers_nothing(toks, pos, Seq::empty());
    }
}

/// A procedure division keeps its tokens, and consumes every token from
/// its start to the end.
pub proof fn lemma_procedure_division_covers(toks: Seq<(u16, Seq<char>)>, pos: int)
    requires
        0 <= pos <= toks.len(),
    ensures
        covers(toks, pos, piece_procedure_division(toks, pos)),
        piece_procedure_division(toks, pos).end == toks.len(),
{
    let a = piece_bump(toks, pos);
    lemma_covers_bump(toks, pos);
    lemma_ws_covers(toks, a.end);
    let b = piece_join(a, piece_ws(toks, a.end));
    lemma_covers_join(toks, pos, a, piece_ws(toks, a.end));
    lemma_token_rules_cover(toks, b.end, SyntaxKind::DIVISION_KW);
    let c = piece_join(b, piece_expect(toks, b.end, SyntaxKind::DIVISION_KW));
    lemma_covers_join(toks, pos, b, piece_expect(toks, b.end, SyntaxKind::DIVISION_KW));
    lemma_token_rules_cover(toks, c.end, SyntaxKind::DOT);
    let d = piece_join(c, piece_expect(toks, c.end, SyntaxKind::DOT));
    lemma_covers_join(toks, pos, c, piece_expect(toks, c.end, SyntaxKind::DOT));
    lemma_ws_covers(toks, d.end);
    let e = piece_join(d, piece_ws(toks, d.end));
    lemma_covers_join(toks, pos, d, piece_ws(toks, d.end));
    lemma_statements_cover(toks, e.end);
    let f = piece_join(e, piece_statements(toks, e.end));
    lemma_covers_join(toks, pos, e, piece_statements(toks, e.end));
    lemma_covers_node(toks, pos, SyntaxKind::PROCEDURE_DIVISION.raw(), f);
}

/// A division, present or not, keeps its tokens.
pub proof fn lemma_division_covers(toks: Seq<(u16, Seq<char>)>, pos: int, kind: SyntaxKind)
    requires
        0 <= pos <= toks.len(),
    ensures
        covers(toks, pos, piece_division(toks, pos, kind)),
{
    lemma_covers_nothing(toks, pos, Seq::empty());
    lemma_identification_division_covers(toks, pos);
    lemma_program_id_covers(toks, pos);
    lemma_procedure_division_covers(toks, pos);
}

/// Consuming what is left keeps every token up to the end.
pub proof fn lemma_rest_covers(toks: Seq<(u16, Seq<char>)>, pos: int)
    requires
        0 <= pos <= toks.len(),
    ensures
        covers(toks, pos, piece_rest(toks, pos)),
        piece_rest(toks, pos).end == toks.len(),
    decreases toks.len() - pos,
{
    if pos < toks.len() {
        lemma_covers_bump(toks, pos);
        lemma_rest_covers(toks, pos + 1);
        lemma_covers_join(toks, pos, piece_bump(toks, pos), piece_rest(toks, pos + 1));
    } else {
        lemma_covers_nothing(toks, pos, Seq::empty());
    }
}

/// The leaves of the tree of any token list are the tokens, all of them in
/// their order, each with its kind and text: every token is a leaf exactly
/// once, whatever the tokens are.
pub proof fn lemma_tree_holds_every_token(toks: Seq<(u16, Seq<char>)>)
    ensures
        piece_root(toks).items.len() == 1,
        piece_root(toks).end == toks.len(),
        element_leaves(piece_root(toks).items[0]) == toks,
{
    let a = piece_ws(toks, 0);
    lemma_ws_covers(toks, 0);
    lemma_division_covers(toks, a.end, SyntaxKind::IDENTIFICATION_KW);
    let b = piece_join(a, piece_division(toks, a.end, SyntaxKind::IDENTIFICATION_KW));
    lemma_covers_join(toks, 0, a, piece_division(toks, a.end, SyntaxKind::IDENTIFICATION_KW));
    lemma_ws_covers(toks, b.end);
    let c = piece_join(b, piece_ws(toks, b.end));
    lemma_covers_join(toks, 0, b, piece_ws(toks, b.end));
    lemma_division_covers(toks, c.end, SyntaxKind::PROGRAM_ID_KW);
    let d = piece_join(c, piece_division(toks, c.end, SyntaxKind::PROGRAM_ID_KW));
    lemma_covers_join(toks, 0, c, piece_division(toks, c.end, SyntaxKind::PROGRAM_ID_KW));
    lemma_ws_covers(toks, d.end);
    let e = piece_join(d, piece_ws(toks, d.end));
    lemma_covers_join(toks, 0, d, piece_ws(toks, d.end));
    lemma_division_covers(toks, e.end, SyntaxKind::PROCEDURE_KW);
    let f = piece_join(e, piece_division(toks, e.end, SyntaxKind::PROCEDURE_KW));
    lemma_covers_join(toks, 0, e, piece_division(toks, e.end, SyntaxKind::PROCEDURE_KW));
    lemma_rest_covers(toks, f.end);
    let g = piece_join(f, piece_rest(toks, f.end));
    lemma_covers_join(toks, 0, f, piece_rest(toks, f.end));
    lemma_covers_node(toks, 0, SyntaxKind::ROOT.raw(), g);
    lemma_forest_leaves_single(piece_root(toks).items[0]);
    assert(piece_root(toks).items =~= seq![piece_root(toks).items[0]]);
    assert(toks.subrange(0, toks.len() as int) =~= toks);
}

/// Parsing loses nothing: the leaves of the tree of `text` are its tokens,
/// and the text of the tree is `text`, whatever `text` is.
pub proof fn lemma_parse_lossless(text: Seq<char>)
    ensures
        element_leaves(parse_tree(text)) == tokens_of(text),
        element_text(parse_tree(text)) == text,
{
    lemma_tree_holds_every_token(tokens_of(text));
    lemma_lex_lossless(text);
}

/// Parsing is a function of the text: two results for one text are the same
/// tree with the same diagnostics.
pub proof fn lemma_parse_deterministic(first: Parse, second: Parse, text: Seq<char>)
    requires
        first.is_parse_of(text),
        second.is_parse_of(text),
    ensures
        first.tree() == second.tree(),
        first.messages() == second.messages(),
{
}

/// The texts of the tokens of `text` from `pos` on, joined, are `text` from
/// `pos` on.
pub proof fn lemma_lex_from_lossless(text: Seq<char>, pos: int)
    requires
        0 <= pos <= text.len(),
    ensures
        leaves_text(raw_tokens(lex_from(text, pos))) == text.subrange(pos, text.len() as int),
    decreases text.len() - pos,
{
    if pos < text.len() {
        lemma_token_end_bounds(text, pos);
        let end = token_end(text, pos);
        let t = (token_kind(text, pos), text.subrange(pos, end));
        lemma_lex_from_lossless(text, end);
        let head = seq![(t.0.raw(), t.1)];
        assert(raw_tokens(lex_from(text, pos)) =~= head + raw_tokens(lex_from(text, end)));
        lemma_leaves_text_concat(head, raw_tokens(lex_from(text, end)));
        reveal_with_fuel(leaves_text, 2);
        assert(head.drop_last() =~= Seq::<(u16, Seq<char>)>::empty());
        assert(leaves_text(head) =~= t.1);
        assert(text.subrange(pos, text.len() as int) =~= t.1 + text.subrange(
            end,
            text.len() as int,
        ));
    } else {
        assert(text.subrange(pos, text.len() as int) =~= Seq::<char>::empty());
    }
}

/// Tokenizing loses nothing: the texts of the tokens of `text`, joined in
/// order, are `text`.
pub proof fn lemma_lex_lossless(text: Seq<char>)
    ensures
        leaves_text(tokens_of(text)) == text,
{
    lemma_lex_from_lossless(text, 0);
    assert(text.subrange(0, text.len() as int) =~= text);
}

/// The numbers of typed tokens are numbers of kinds.
pub proof fn lemma_raw_tokens_well_kinded(tokens: Seq<(SyntaxKind, Seq<char>)>)
    ensures
        well_kinded(raw_tokens(tokens)),
{
}

/// Parses `text`. A tree comes back for every text; what the grammar misses
/// is recorded in the diagnostics. The tree holds every token of `text` as
/// a leaf with its text unchanged: the text of the tree is `text`. A token
/// that fits no rule is kept where it stands, in the procedure division or
/// directly in the root, and is not diagnosed: diagnostics are for what a
/// rule expects and does not find.
pub fn parse(text: &str) -> (parse: Parse)
    requires
        utf8_len(text@) <= u32::MAX,
    ensures
        parse.is_parse_of(text@),
        parse.in_order(tokens_of(text@).len()),
        is_node_of_kind(parse.tree(), SyntaxKind::ROOT.raw()),
        element_leaves(parse.tree()) == tokens_of(text@),
        element_text(parse.tree()) == text@,
{
    let tokens = lex(text);
    proof {
        lemma_lex_lossless(text@);
        lemma_raw_tokens_well_kinded(lex_spec(text@));
    }
    Parser::new(tokens).parse()
}

/// The root of a program.
pub struct Root(SyntaxNode);

impl Root {
    /// The node viewed has the kind that this type stands for.
    #[verifier::type_invariant]
    spec fn well_kinded(self) -> bool {
        syntax_kind(self.0) == SyntaxKind::ROOT.raw()
    }

    /// The tree of the node viewed.
    pub closed spec fn tree(&self) -> Element {
        syntax_tree(self.0)
    }

    /// Views `node` as this type; succeeds exactly where the node's kind is
    /// `ROOT`.
    pub fn cast(node: SyntaxNode) -> (out: Option<Root>)
        ensures
            out is Some <==> element_kind(syntax_tree(node)) == SyntaxKind::ROOT.raw(),
            out matches Some(it) ==> it.tree() == syntax_tree(node),
    {
        if syntax_kind_of(&node) == SyntaxKind::ROOT.to_raw() {
            Some(Root(node))
        } else {
            None
        }
    }

    /// The node viewed, which is of kind `ROOT`.
    pub fn syntax(&self) -> (node: &SyntaxNode)
        ensures
            syntax_tree(*node) == self.tree(),
            is_node_of_kind(self.tree(), SyntaxKind::ROOT.raw()),
    {
        proof {
            use_type_invariant(self);
        }
        &self.0
    }
}

/// An `IDENTIFICATION DIVISION.` header.
pub struct IdentificationDivision(SyntaxNode);

impl IdentificationDivision {
    /// The node viewed has the kind that this type stands for.
    #[verifier::type_invariant]
    spec fn well_kinded(self) -> bool {
        syntax_kind(self.0) == SyntaxKind::IDENTIFICATION_DIVISION.raw()
    }

    /// The tree of the node viewed.
    pub closed spec fn tree(&self) -> Element {
        syntax_tree(self.0)
    }

    /// Views `node` as this type; succeeds exactly where the node's kind is
    /// `IDENTIFICATION_DIVISION`.
    pub fn cast(node: SyntaxNode) -> (out: Option<IdentificationDivision>)
        ensures
            out is Some <==> element_kind(syntax_tree(node)) == SyntaxKind::IDENTIFICATION_DIVISION.raw(),
            out matches Some(it) ==> it.tree() == syntax_tree(node),
    {
        if syntax_kind_of(&node) == SyntaxKind::IDENTIFICATION_DIVISION.to_raw() {
            Some(IdentificationDivision(node))
        } else {
            None
        }
    }

    /// The node viewed, which is of kind `IDENTIFICATION_DIVISION`.
    pub fn syntax(&self) -> (node: &SyntaxNode)
        ensures
            syntax_tree(*node) == self.tree(),
            is_node_of_kind(self.tree(), SyntaxKind::IDENTIFICATION_DIVISION.raw()),
    {
        proof {
            use_type_invariant(self);
        }
        &self.0
    }
}

/// A `PROGRAM-ID. <name>.` clause.
pub struct ProgramIdClause(SyntaxNode);

impl ProgramIdClause {
    /// The node viewed has the kind that this type stands for.
    #[verifier::type_invariant]
    spec fn well_kinded(self) -> bool {
        syntax_kind(self.0) == SyntaxKind::PROGRAM_ID_CLAUSE.raw()
    }

    /// The tree of the node viewed.
    pub closed spec fn tree(&self) -> Element {
        syntax_tree(self.0)
    }

    /// Views `node` as this type; succeeds exactly where the node's kind is
    /// `PROGRAM_ID_CLAUSE`.
    pub fn cast(node: SyntaxNode) -> (out: Option<ProgramIdClause>)
        ensures
            out is Some <==> element_kind(syntax_tree(node)) == SyntaxKind::PROGRAM_ID_CLAUSE.raw(),
            out matches Some(it) ==> it.tree() == syntax_tree(node),
    {
        if syntax_kind_of(&node) == SyntaxKind::PROGRAM_ID_CLAUSE.to_raw() {
            Some(ProgramIdClause(node))
        } else {
            None
        }
    }

    /// The node viewed, which is of kind `PROGRAM_ID_CLAUSE`.
    pub fn syntax(&self) -> (node: &SyntaxNode)
        ensures
            syntax_tree(*node) == self.tree(),
            is_node_of_kind(self.tree(), SyntaxKind::PROGRAM_ID_CLAUSE.raw()),
    {
        proof {
            use_type_invariant(self);
        }
        &self.0
    }
}

/// A `PROCEDURE DIVISION.` with its statements.
pub struct ProcedureDivision(SyntaxNode);

impl ProcedureDivision {
    /// The node viewed has the kind that this type stands for.
    #[verifier::type_invariant]
    spec fn well_kinded(self) -> bool {
        syntax_kind(self.0) == SyntaxKind::PROCEDURE_DIVISION.raw()
    }

    /// The tree of the node viewed.
    pub closed spec fn tree(&self) -> Element {
        syntax_tree(self.0)
    }

    /// Views `node` as this type; succeeds exactly where the node's kind is
    /// `PROCEDURE_DIVISION`.
    pub fn cast(node: SyntaxNode) -> (out: Option<ProcedureDivision>)
        ensures
            out is Some <==> element_kind(syntax_tree(node)) == SyntaxKind::PROCEDURE_DIVISION.raw(),
            out matches Some(it) ==> it.tree() == syntax_tree(node),
    {
        if syntax_kind_of(&node) == SyntaxKind::PROCEDURE_DIVISION.to_raw() {
            Some(ProcedureDivision(node))
        } else {
            None
        }
    }

    /// The node viewed, which is of kind `PROCEDURE_DIVISION`.
    pub fn syntax(&self) -> (node: &SyntaxNode)
        ensures
            syntax_tree(*node) == self.tree(),
            is_node_of_kind(self.tree(), SyntaxKind::PROCEDURE_DIVISION.raw()),
    {
        proof {
            use_type_invariant(self);
        }
        &self.0
    }
}

/// A `DISPLAY "<string>".` statement.
pub struct DisplayStmt(SyntaxNode);

impl DisplayStmt {
    /// The node viewed has the kind that this type stands for.
    #[verifier::type_invariant]
    spec fn well_kinded(self) -> bool {
        syntax_kind(self.0) == SyntaxKind::DISPLAY_STMT.raw()
    }

    /// The tree of the node viewed.
    pub closed spec fn tree(&self) -> Element {
        syntax_tree(self.0)
    }

    /// Views `node` as this type; succeeds exactly where the node's kind is
    /// `DISPLAY_STMT`.
    pub fn cast(node: SyntaxNode) -> (out: Option<DisplayStmt>)
        ensures
            out is Some <==> element_kind(syntax_tree(node)) == SyntaxKind::DISPLAY_STMT.raw(),
            out matches Some(it) ==> it.tree() == syntax_tree(node),
    {
        if syntax_kind_of(&node) == SyntaxKind::DISPLAY_STMT.to_raw() {
            Some(DisplayStmt(node))
        } else {
            None
        }
    }

    /// The node viewed, which is of kind `DISPLAY_STMT`.
    pub fn syntax(&self) -> (node: &SyntaxNode)
        ensures
            syntax_tree(*node) == self.tree(),
            is_node_of_kind(self.tree(), SyntaxKind::DISPLAY_STMT.raw()),
    {
        proof {
            use_type_invariant(self);
        }
        &self.0
    }
}

/// The text of a string literal without its quotes: the first character is
/// dropped, and the last where it is a closing quote.
pub open spec fn unquoted(text: Seq<char>) -> Seq<char> {
    if text.len() >= 2 && text.last() == '"' {
        text.subrange(1, text.len() - 1)
    } else if text.len() >= 1 {
        text.subrange(1, text.len() as int)
    } else {
        text
    }
}

/// The trees of display statements.
pub open spec fn display_trees(statements: Seq<DisplayStmt>) -> Seq<Element> {
    Seq::new(statements.len(), |i: int| statements[i].tree())
}

impl Root {
    /// The first identification division among the children, if any.
    pub fn identification_division(&self) -> (out: Option<IdentificationDivision>)
        ensures
            match out {
                Some(it) => first_node_of_kind(
                    element_children(self.tree()),
                    SyntaxKind::IDENTIFICATION_DIVISION.raw(),
                ) == Some(it.tree()),
                None => first_node_of_kind(
                    element_children(self.tree()),
                    SyntaxKind::IDENTIFICATION_DIVISION.raw(),
                ) is None,
            },
    {
        match first_child_node(&self.0, SyntaxKind::IDENTIFICATION_DIVISION.to_raw()) {
            Some(node) => Some(IdentificationDivision(node)),
            None => None,
        }
    }

    /// The first program-id clause among the children, if any.
    pub fn program_id(&self) -> (out: Option<ProgramIdClause>)
        ensures
            match out {
                Some(it) => first_node_of_kind(
                    element_children(self.tree()),
                    SyntaxKind::PROGRAM_ID_CLAUSE.raw(),
                ) == Some(it.tree()),
                None => first_node_of_kind(
                    element_children(self.tree()),
                    SyntaxKind::PROGRAM_ID_CLAUSE.raw(),
                ) is None,
            },
    {
        match first_child_node(&self.0, SyntaxKind::PROGRAM_ID_CLAUSE.to_raw()) {
            Some(node) => Some(ProgramIdClause(node)),
            None => None,
        }
    }

    /// The first procedure division among the children, if any.
    pub fn procedure_division(&self) -> (out: Option<ProcedureDivision>)
        ensures
            match out {
                Some(it) => first_node_of_kind(
                    element_children(self.tree()),
                    SyntaxKind::PROCEDURE_DIVISION.raw(),
                ) == Some(it.tree()),
                None => first_node_of_kind(
                    element_children(self.tree()),
                    SyntaxKind::PROCEDURE_DIVISION.raw(),
                ) is None,
            },
    {
        match first_child_node(&self.0, SyntaxKind::PROCEDURE_DIVISION.to_raw()) {
            Some(node) => Some(ProcedureDivision(node)),
            None => None,
        }
    }
}

impl ProgramIdClause {
    /// The program's name: the text of the first identifier directly in
    /// the clause; `None` where the clause holds none.
    pub fn name(&self) -> (out: Option<String>)
        ensures
            match out {
                Some(name) => first_token_of_kind(
                    element_children(self.tree()),
                    SyntaxKind::IDENT.raw(),
                ) == Some(name@),
                None => first_token_of_kind(
                    element_children(self.tree()),
                    SyntaxKind::IDENT.raw(),
                ) is None,
            },
    {
        first_child_token(&self.0, SyntaxKind::IDENT.to_raw())
    }
}

impl ProcedureDivision {
    /// The display statements directly in the division, in their order.
    pub fn display_statements(&self) -> (out: Vec<DisplayStmt>)
        ensures
            display_trees(out@) == nodes_of_kind(
                element_children(self.tree()),
                SyntaxKind::DISPLAY_STMT.raw(),
            ),
    {
        let nodes = child_nodes_of_kind(&self.0, SyntaxKind::DISPLAY_STMT.to_raw());
        let ghost trees = node_trees(nodes@);
        let mut out: Vec<DisplayStmt> = Vec::new();
        let mut i: usize = 0;
        proof {
            assert(display_trees(out@) =~= trees.take(0));
        }
        while i < nodes.len()
            invariant
                i <= nodes.len(),
                trees == node_trees(nodes@),
                forall|j: int|
                    0 <= j < nodes@.len() ==> syntax_kind(#[trigger] nodes@[j])
                        == SyntaxKind::DISPLAY_STMT.raw(),
                display_trees(out@) == trees.take(i as int),
            decreases nodes.len() - i,
        {
            let ghost before = display_trees(out@);
            let copy = syntax_clone(&nodes[i]);
            out.push(DisplayStmt(copy));
            i += 1;
            proof {
                assert(display_trees(out@) =~= before.push(syntax_tree(copy)));
                assert(display_trees(out@) =~= trees.take(i as int));
            }
        }
        proof {
            assert(trees.take(i as int) =~= trees);
        }
        out
    }
}

impl DisplayStmt {
    /// The text that the statement displays: its first string literal
    /// without the quotes; `None` where the statement holds no literal.
    pub fn string_literal(&self) -> (out: Option<String>)
        ensures
            match out {
                Some(text) => first_token_of_kind(
                    element_children(self.tree()),
                    SyntaxKind::STRING_LITERAL.raw(),
                ) matches Some(literal) && text@ == unquoted(literal),
                None => first_token_of_kind(
                    element_children(self.tree()),
                    SyntaxKind::STRING_LITERAL.raw(),
                ) is None,
            },
    {
        match first_child_token(&self.0, SyntaxKind::STRING_LITERAL.to_raw()) {
            Some(literal) => Some(strip_quotes(literal.as_str())),
            None => None,
        }
    }
}

/// The text of a string literal without its quotes.
pub fn strip_quotes(literal: &str) -> (out: String)
    ensures
        out@ == unquoted(literal@),
{
    let chars = chars_of(literal);
    let n = chars.len();
    if n >= 2 && chars[n - 1] == '"' {
        string_of(&chars, 1, n - 1)
    } else if n >= 1 {
        string_of(&chars, 1, n)
    } else {
        proof {
            assert(chars@.subrange(0, 0) =~= literal@);
        }
        string_of(&chars, 0, 0)
    }
}

impl Parse {
    /// The root of the syntax tree, as a node to navigate from.
    pub fn syntax(&self) -> (node: SyntaxNode)
        ensures
            syntax_tree(node) == self.tree(),
    {
        syntax_root(&self.green_node)
    }

    /// The typed root; `None` where the tree's root is of another kind.
    pub fn root(&self) -> (out: Option<Root>)
        ensures
            out is Some <==> element_kind(self.tree()) == SyntaxKind::ROOT.raw(),
            out matches Some(it) ==> it.tree() == self.tree(),
    {
        Root::cast(self.syntax())
    }
}

} // verus!
