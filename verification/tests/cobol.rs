use lossless_syntax::cobol::{
    blank_continues, keyword_kind, lex, parse, strip_quotes, token_start, word_continues,
    CobolLang, Start, SyntaxKind,
};

fn texts(tokens: &[(SyntaxKind, String)]) -> String {
    tokens.iter().map(|(_, text)| text.as_str()).collect()
}

#[test]
fn test_parse_simple_cobol() {
    let source = r#"
IDENTIFICATION DIVISION.
PROGRAM-ID. HELLO.
PROCEDURE DIVISION.
    DISPLAY "Hello, World!".
"#;

    let parse = parse(source);
    assert!(parse.errors.is_empty(), "Errors: {:?}", parse.errors);

    let root = parse.root().expect("Should have root");

    assert!(root.identification_division().is_some());

    let program_id = root.program_id().expect("Should have PROGRAM-ID");
    assert_eq!(program_id.name(), Some("HELLO".to_string()));

    let proc_div = root.procedure_division().expect("Should have PROCEDURE DIVISION");
    let displays: Vec<_> = proc_div.display_statements();
    assert_eq!(displays.len(), 1);
    assert_eq!(displays[0].string_literal(), Some("Hello, World!".to_string()));
}

#[test]
fn test_parse_multiple_display() {
    let source = r#"
IDENTIFICATION DIVISION.
PROGRAM-ID. MULTI.
PROCEDURE DIVISION.
    DISPLAY "First".
    DISPLAY "Second".
    DISPLAY "Third".
"#;

    let parse = parse(source);
    assert!(parse.errors.is_empty(), "Errors: {:?}", parse.errors);

    let root = parse.root().unwrap();
    let proc_div = root.procedure_division().unwrap();
    let displays: Vec<_> = proc_div.display_statements();

    assert_eq!(displays.len(), 3);
    assert_eq!(displays[0].string_literal(), Some("First".to_string()));
    assert_eq!(displays[1].string_literal(), Some("Second".to_string()));
    assert_eq!(displays[2].string_literal(), Some("Third".to_string()));
}

#[test]
fn hello_world_on_one_indent() {
    let source =
        "IDENTIFICATION DIVISION.\nPROGRAM-ID. HELLO.\nPROCEDURE DIVISION.\n DISPLAY \"Hello, World!\".\n";
    let parse = parse(source);
    assert!(parse.errors.is_empty());
    let root = parse.root().unwrap();
    assert_eq!(root.program_id().unwrap().name(), Some("HELLO".to_string()));
    let statements = root.procedure_division().unwrap().display_statements();
    assert_eq!(statements.len(), 1);
    assert_eq!(statements[0].string_literal(), Some("Hello, World!".to_string()));
    assert_eq!(parse.syntax().text().to_string(), source);
}

#[test]
fn missing_program_name_is_diagnosed() {
    let source = "IDENTIFICATION DIVISION.\nPROGRAM-ID. .\nPROCEDURE DIVISION.\n DISPLAY \"x\".\n";
    let parse = parse(source);
    assert_eq!(parse.errors, vec!["expected program name".to_string()]);
    let root = parse.root().unwrap();
    assert!(root.identification_division().is_some());
    assert_eq!(root.program_id().unwrap().name(), None);
    let statements = root.procedure_division().unwrap().display_statements();
    assert_eq!(statements.len(), 1);
    assert_eq!(statements[0].string_literal(), Some("x".to_string()));
    assert_eq!(parse.syntax().text().to_string(), source);
}

#[test]
fn lex_classifies_every_character() {
    let tokens = lex("display \"a b\".\n\t x-1 ?");
    let kinds: Vec<SyntaxKind> = tokens.iter().map(|(kind, _)| *kind).collect();
    assert_eq!(
        kinds,
        vec![
            SyntaxKind::DISPLAY_KW,
            SyntaxKind::WHITESPACE,
            SyntaxKind::STRING_LITERAL,
            SyntaxKind::DOT,
            SyntaxKind::NEWLINE,
            SyntaxKind::WHITESPACE,
            SyntaxKind::IDENT,
            SyntaxKind::WHITESPACE,
            SyntaxKind::ERROR,
        ]
    );
    assert_eq!(tokens[0].1, "display");
    assert_eq!(tokens[2].1, "\"a b\"");
    assert_eq!(tokens[5].1, "\t ");
    assert_eq!(tokens[6].1, "x-1");
    assert_eq!(tokens[8].1, "?");
}

#[test]
fn lex_is_lossless() {
    for source in ["", "\"open", "a\n\n b", "PROGRAM-ID. é1 .. \"x\"y", "\u{3000}\u{a0}z"] {
        assert_eq!(texts(&lex(source)), source);
    }
}

#[test]
fn lex_unterminated_literal_takes_the_rest() {
    let tokens = lex("DISPLAY \"abc. \n");
    assert_eq!(tokens.len(), 3);
    assert_eq!(tokens[2], (SyntaxKind::STRING_LITERAL, "\"abc. \n".to_string()));
}

#[test]
fn lex_line_feed_splits_white_space() {
    let tokens = lex(" \n ");
    assert_eq!(
        tokens,
        vec![
            (SyntaxKind::WHITESPACE, " ".to_string()),
            (SyntaxKind::NEWLINE, "\n".to_string()),
            (SyntaxKind::WHITESPACE, " ".to_string()),
        ]
    );
}

#[test]
fn keywords_fold_case() {
    let tokens = lex("Identification division program-id Procedure DISPLAY other");
    let kinds: Vec<SyntaxKind> =
        tokens.iter().map(|(kind, _)| *kind).filter(|kind| *kind != SyntaxKind::WHITESPACE).collect();
    assert_eq!(
        kinds,
        vec![
            SyntaxKind::IDENTIFICATION_KW,
            SyntaxKind::DIVISION_KW,
            SyntaxKind::PROGRAM_ID_KW,
            SyntaxKind::PROCEDURE_KW,
            SyntaxKind::DISPLAY_KW,
            SyntaxKind::IDENT,
        ]
    );
    assert_eq!(tokens[0].1, "Identification");
}

#[test]
fn keyword_kind_knows_the_five_keywords() {
    assert_eq!(keyword_kind(&"IDENTIFICATION".to_string()), SyntaxKind::IDENTIFICATION_KW);
    assert_eq!(keyword_kind(&"DIVISION".to_string()), SyntaxKind::DIVISION_KW);
    assert_eq!(keyword_kind(&"PROGRAM-ID".to_string()), SyntaxKind::PROGRAM_ID_KW);
    assert_eq!(keyword_kind(&"PROCEDURE".to_string()), SyntaxKind::PROCEDURE_KW);
    assert_eq!(keyword_kind(&"DISPLAY".to_string()), SyntaxKind::DISPLAY_KW);
    assert_eq!(keyword_kind(&"display".to_string()), SyntaxKind::IDENT);
    assert_eq!(keyword_kind(&"".to_string()), SyntaxKind::IDENT);
}

#[test]
fn kinds_round_trip_through_their_numbers() {
    for raw in 0u16..=15 {
        let kind = SyntaxKind::from_raw(raw).unwrap();
        assert_eq!(kind.to_raw(), raw);
        assert_eq!(CobolLang::kind_from_raw(raw), kind);
        assert_eq!(CobolLang::kind_to_raw(kind), raw);
    }
    assert_eq!(SyntaxKind::from_raw(0), Some(SyntaxKind::IDENTIFICATION_KW));
    assert_eq!(SyntaxKind::from_raw(10), Some(SyntaxKind::ERROR));
    assert_eq!(SyntaxKind::from_raw(15), Some(SyntaxKind::DISPLAY_STMT));
    assert_eq!(SyntaxKind::from_raw(16), None);
    assert_eq!(SyntaxKind::from_raw(u16::MAX), None);
    assert_eq!(SyntaxKind::DOT.name(), "DOT");
}

#[test]
fn expectation_mismatch_names_both_kinds() {
    let parse = parse("IDENTIFICATION DIVISION\nPROGRAM-ID HELLO");
    assert_eq!(
        parse.errors,
        vec![
            "expected DOT, found Some(NEWLINE)".to_string(),
            "expected DOT, found Some(WHITESPACE)".to_string(),
            "expected DOT, found None".to_string(),
        ]
    );
    let root = parse.root().unwrap();
    assert_eq!(root.program_id().unwrap().name(), Some("HELLO".to_string()));
}

#[test]
fn mismatch_consumes_nothing() {
    let parse = parse("PROCEDURE.");
    assert_eq!(parse.errors, vec!["expected DIVISION_KW, found Some(DOT)".to_string()]);
    assert_eq!(parse.syntax().text().to_string(), "PROCEDURE.");
}

#[test]
fn display_without_literal_is_diagnosed() {
    let parse = parse("PROCEDURE DIVISION.\nDISPLAY .\nDISPLAY \"ok\"");
    assert_eq!(parse.errors, vec!["Expected string literal after DISPLAY".to_string()]);
    let statements = parse.root().unwrap().procedure_division().unwrap().display_statements();
    assert_eq!(statements.len(), 2);
    assert_eq!(statements[0].string_literal(), None);
    assert_eq!(statements[1].string_literal(), Some("ok".to_string()));
}

#[test]
fn unknown_tokens_in_statements_are_kept_as_leaves() {
    let source = "PROCEDURE DIVISION.\nMOVE 1 . DISPLAY \"a\" STOP";
    let parse = parse(source);
    assert!(parse.errors.is_empty());
    let statements = parse.root().unwrap().procedure_division().unwrap().display_statements();
    assert_eq!(statements.len(), 1);
    assert_eq!(parse.syntax().text().to_string(), source);
}

#[test]
fn divisions_are_optional() {
    let parse = parse("");
    assert!(parse.errors.is_empty());
    let root = parse.root().unwrap();
    assert!(root.identification_division().is_none());
    assert!(root.program_id().is_none());
    assert!(root.procedure_division().is_none());

    let only_procedure = lossless_syntax::cobol::parse("  PROCEDURE DIVISION.");
    assert!(only_procedure.errors.is_empty());
    let root = only_procedure.root().unwrap();
    assert!(root.identification_division().is_none());
    assert!(root.procedure_division().is_some());
}

#[test]
fn tokens_behind_the_last_division_found_are_kept() {
    let parse = parse("PROGRAM-ID. A. STRAY");
    assert!(parse.errors.is_empty());
    let root = parse.syntax();
    assert_eq!(root.text().to_string(), "PROGRAM-ID. A. STRAY");
    let kinds: Vec<u16> = root.children_with_tokens().map(|child| child.kind().0).collect();
    assert_eq!(
        kinds,
        vec![
            SyntaxKind::PROGRAM_ID_CLAUSE.to_raw(),
            SyntaxKind::WHITESPACE.to_raw(),
            SyntaxKind::IDENT.to_raw(),
        ]
    );
    assert_eq!(parse.root().unwrap().program_id().unwrap().name(), Some("A".to_string()));
}

#[test]
fn a_text_without_any_division_is_kept_whole() {
    for source in ["FOO", ".", "\"open", "? ?\n.", "DIVISION IDENTIFICATION", "DISPLAY \"x\"."] {
        let parse = parse(source);
        assert!(parse.errors.is_empty());
        assert_eq!(parse.syntax().text().to_string(), source);
        let root = parse.root().unwrap();
        assert!(root.identification_division().is_none());
        assert!(root.program_id().is_none());
        assert!(root.procedure_division().is_none());
    }
}

#[test]
fn every_token_is_a_leaf_once_and_in_order() {
    for source in [
        "",
        "FOO",
        ".",
        "PROGRAM-ID. A. STRAY",
        "IDENTIFICATION DIVISION. X PROGRAM-ID. A.",
        "PROCEDURE DIVISION.\nMOVE 1 . DISPLAY \"a\" STOP",
        "PROGRAM-ID. . IDENTIFICATION DIVISION.",
        "\u{3000}é \"",
    ] {
        let tokens = lex(source);
        let parse = parse(source);
        let leaves: Vec<(u16, String)> = parse
            .syntax()
            .descendants_with_tokens()
            .filter_map(|element| element.into_token())
            .map(|token| (token.kind().0, token.text().to_string()))
            .collect();
        let expected: Vec<(u16, String)> =
            tokens.iter().map(|(kind, text)| (kind.to_raw(), text.clone())).collect();
        assert_eq!(leaves, expected);
    }
}

#[test]
fn divisions_out_of_order_are_kept_as_leaves() {
    let source = "PROGRAM-ID. A.\nIDENTIFICATION DIVISION.";
    let parse = parse(source);
    assert!(parse.errors.is_empty());
    let root = parse.root().unwrap();
    assert!(root.program_id().is_some());
    assert!(root.identification_division().is_none());
    assert_eq!(parse.syntax().text().to_string(), source);
}

#[test]
fn parsing_twice_gives_the_same_result() {
    let source = "IDENTIFICATION DIVISION\nPROGRAM-ID. .\nPROCEDURE DIVISION.\nDISPLAY \"a\nDISPLAY";
    let first = parse(source);
    let second = parse(source);
    assert_eq!(first.errors, second.errors);
    assert_eq!(format!("{:#?}", first.syntax()), format!("{:#?}", second.syntax()));
}

#[test]
fn strip_quotes_drops_the_surrounding_quotes() {
    assert_eq!(strip_quotes("\"Hello, World!\""), "Hello, World!");
    assert_eq!(strip_quotes("\"\""), "");
    assert_eq!(strip_quotes("\"open"), "open");
    assert_eq!(strip_quotes("\""), "");
    assert_eq!(strip_quotes(""), "");
    assert_eq!(strip_quotes("\"é\""), "é");
}

#[test]
fn syntax_tree_has_the_grammar_shape() {
    let parse = parse("PROGRAM-ID. A.");
    let root = parse.syntax();
    assert_eq!(root.kind().0, SyntaxKind::ROOT.to_raw());
    let kinds: Vec<u16> = root.children_with_tokens().map(|child| child.kind().0).collect();
    assert_eq!(kinds, vec![SyntaxKind::PROGRAM_ID_CLAUSE.to_raw()]);
    let clause = root.first_child().unwrap();
    let inner: Vec<u16> = clause.children_with_tokens().map(|child| child.kind().0).collect();
    assert_eq!(
        inner,
        vec![
            SyntaxKind::PROGRAM_ID_KW.to_raw(),
            SyntaxKind::DOT.to_raw(),
            SyntaxKind::WHITESPACE.to_raw(),
            SyntaxKind::IDENT.to_raw(),
            SyntaxKind::DOT.to_raw(),
        ]
    );
}

#[test]
fn token_start_goes_by_precedence() {
    assert_eq!(token_start('.', false, false), Start::Dot);
    assert_eq!(token_start('"', false, false), Start::Quote);
    assert_eq!(token_start('\n', true, false), Start::LineFeed);
    assert_eq!(token_start(' ', true, false), Start::Blank);
    assert_eq!(token_start('a', false, true), Start::Word);
    assert_eq!(token_start('-', false, false), Start::Word);
    assert_eq!(token_start('1', false, false), Start::Other);
    assert_eq!(token_start('?', false, false), Start::Other);
}

#[test]
fn runs_continue_by_class() {
    assert!(blank_continues(' ', true));
    assert!(!blank_continues('\n', true));
    assert!(!blank_continues('a', false));
    assert!(word_continues('a', true));
    assert!(word_continues('7', true));
    assert!(word_continues('-', false));
    assert!(!word_continues('.', false));
}

#[test]
fn words_may_hold_digits_but_not_start_with_one() {
    let tokens = lex("A1 1A");
    assert_eq!(
        tokens,
        vec![
            (SyntaxKind::IDENT, "A1".to_string()),
            (SyntaxKind::WHITESPACE, " ".to_string()),
            (SyntaxKind::ERROR, "1".to_string()),
            (SyntaxKind::IDENT, "A".to_string()),
        ]
    );
}

#[test]
fn malformed_input_still_gives_a_tree() {
    let source = "..\"\n?? DISPLAY DISPLAY . PROCEDURE PROCEDURE DIVISION \"x";
    let parse = parse(source);
    assert!(parse.root().is_some());
    assert_eq!(parse.diagnostics(), &parse.errors);
}
