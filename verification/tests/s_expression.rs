use lossless_syntax::s_expression::{
    apply, cut_tokens, lex, op_from_text, parse, Atom, Lang, List, Op, Root, Sexp, SexpKind,
    SyntaxKind,
};

fn values(text: &str) -> Vec<Option<i64>> {
    parse(text).root().sexps().iter().map(|sexp| sexp.eval()).collect()
}

fn atom_of(sexp: &Sexp) -> Atom {
    match sexp.kind() {
        SexpKind::Atom(atom) => atom,
        SexpKind::List(_) => panic!("a list"),
    }
}

#[test]
fn sum_of_two_numbers() {
    let parse = parse("(+ 1 2)");
    assert!(parse.errors.is_empty());
    assert_eq!(values("(+ 1 2)"), vec![Some(3)]);
}

#[test]
fn division_by_zero_has_no_result() {
    assert_eq!(values("(/ 1 0)"), vec![None]);
    assert_eq!(values("(/ 0 0)"), vec![None]);
}

#[test]
fn unmatched_closing_parenthesis_is_diagnosed() {
    let parse = parse("(+ 1 2))");
    assert_eq!(parse.errors, vec!["unmatched `)".to_string()]);
    let sexps = parse.root().sexps();
    assert_eq!(sexps.len(), 1);
    assert_eq!(sexps[0].eval(), Some(3));
    assert_eq!(parse.syntax().text().to_string(), "(+ 1 2))");
    let kinds: Vec<u16> = parse.syntax().children().map(|child| child.kind().0).collect();
    assert_eq!(kinds, vec![SyntaxKind::LIST.to_raw(), SyntaxKind::ERROR.to_raw()]);
}

#[test]
fn unmatched_opening_parenthesis_is_diagnosed() {
    let parse = parse("(+ 1 (* 2 3");
    assert_eq!(parse.errors, vec!["expected `)`".to_string(), "expected `)`".to_string()]);
    assert_eq!(parse.root().sexps()[0].eval(), Some(7));
    assert_eq!(parse.syntax().text().to_string(), "(+ 1 (* 2 3");
}

#[test]
fn the_four_operators() {
    assert_eq!(values("(+ 40 2) (- 1 2) (* -3 4) (/ 7 2) (/ -7 2)"), vec![
        Some(42),
        Some(-1),
        Some(-12),
        Some(3),
        Some(-3)
    ]);
}

#[test]
fn nested_lists_evaluate_inside_out() {
    assert_eq!(values("(* (+ 1 2) (- 5 3))"), vec![Some(6)]);
    assert_eq!(values("(+ (/ 1 0) 1)"), vec![None]);
    assert_eq!(values("((((+ 1 2))))"), vec![None]);
}

#[test]
fn too_few_operands_have_no_result() {
    assert_eq!(values("() (+) (+ 1)"), vec![None, None, None]);
}

#[test]
fn further_operands_are_ignored() {
    assert_eq!(values("(+ 1 2 3 x)"), vec![Some(3)]);
}

#[test]
fn the_head_must_name_an_operator() {
    assert_eq!(values("(1 2 3) (plus 1 2) ((+) 1 2) (+ a 2) (+ 1 b)"), vec![
        None, None, None, None, None
    ]);
}

#[test]
fn atoms_are_decimal_integers() {
    assert_eq!(values("12 -7 +5 007 x 1x - + 1.5 9223372036854775807 9223372036854775808"), vec![
        Some(12),
        Some(-7),
        Some(5),
        Some(7),
        None,
        None,
        None,
        None,
        None,
        Some(i64::MAX),
        None
    ]);
    assert_eq!(values("-9223372036854775808 -9223372036854775809 --1 １"), vec![
        Some(i64::MIN),
        None,
        None,
        None
    ]);
}

#[test]
fn overflow_has_no_result() {
    assert_eq!(values("(+ 9223372036854775807 1)"), vec![None]);
    assert_eq!(values("(- -9223372036854775808 1)"), vec![None]);
    assert_eq!(values("(* 4611686018427387904 2)"), vec![None]);
    assert_eq!(values("(/ -9223372036854775808 -1)"), vec![None]);
    assert_eq!(values("(+ 9223372036854775806 1)"), vec![Some(i64::MAX)]);
}

#[test]
fn apply_is_checked_arithmetic() {
    assert_eq!(apply(Op::Add, 1, 2), Some(3));
    assert_eq!(apply(Op::Sub, 1, 2), Some(-1));
    assert_eq!(apply(Op::Mul, 6, 7), Some(42));
    assert_eq!(apply(Op::Div, 7, -2), Some(-3));
    assert_eq!(apply(Op::Div, 7, 0), None);
    assert_eq!(apply(Op::Add, i64::MAX, 1), None);
    assert_eq!(apply(Op::Div, i64::MIN, -1), None);
}

#[test]
fn operators_by_name() {
    assert_eq!(op_from_text(&"+".to_string()), Some(Op::Add));
    assert_eq!(op_from_text(&"-".to_string()), Some(Op::Sub));
    assert_eq!(op_from_text(&"*".to_string()), Some(Op::Mul));
    assert_eq!(op_from_text(&"/".to_string()), Some(Op::Div));
    assert_eq!(op_from_text(&"++".to_string()), None);
    assert_eq!(op_from_text(&"".to_string()), None);
}

#[test]
fn atom_text_and_operator() {
    let sexps = parse("(* x)").root().sexps();
    let items = match sexps[0].kind() {
        SexpKind::List(list) => list.sexps(),
        SexpKind::Atom(_) => panic!("an atom"),
    };
    assert_eq!(items.len(), 2);
    assert_eq!(atom_of(&items[0]).text(), "*");
    assert_eq!(atom_of(&items[0]).as_op(), Some(Op::Mul));
    assert_eq!(atom_of(&items[0]).eval(), None);
    assert_eq!(atom_of(&items[1]).text(), "x");
    assert_eq!(atom_of(&items[1]).as_op(), None);
}

#[test]
fn lex_splits_at_parentheses_and_white_space() {
    let tokens = lex("(ab  c)\n");
    assert_eq!(
        tokens,
        vec![
            (SyntaxKind::L_PAREN, "(".to_string()),
            (SyntaxKind::WORD, "ab".to_string()),
            (SyntaxKind::WHITESPACE, "  ".to_string()),
            (SyntaxKind::WORD, "c".to_string()),
            (SyntaxKind::R_PAREN, ")".to_string()),
            (SyntaxKind::WHITESPACE, "\n".to_string()),
        ]
    );
    assert!(lex("").is_empty());
}

#[test]
fn lex_keeps_every_character() {
    for source in ["", "((", ") x (", "é(日本語 )\u{3000}z", "  \t\n", "a\u{a0}b"] {
        let joined: String = lex(source).iter().map(|(_, text)| text.as_str()).collect();
        assert_eq!(joined, source);
    }
}

#[test]
fn tree_text_is_the_input() {
    for source in ["", ")))", "(((", "(+ 1 2))", " ( é ( ) ) x ", ") ( ) ("] {
        assert_eq!(parse(source).syntax().text().to_string(), source);
    }
}

#[test]
fn deep_nesting_parses() {
    let depth = 200;
    let source = format!("{}+ 1 2{}", "(".repeat(depth), ")".repeat(depth));
    let parse = parse(&source);
    assert!(parse.errors.is_empty());
    assert_eq!(parse.syntax().text().to_string(), source);
    assert_eq!(parse.root().sexps().len(), 1);
}

#[test]
fn parsing_twice_gives_the_same_tree() {
    let source = "(+ 1 (* 2 3))) (x";
    let first = parse(source);
    let second = parse(source);
    assert_eq!(first.errors, second.errors);
    assert_eq!(format!("{:#?}", first.syntax()), format!("{:#?}", second.syntax()));
    assert_eq!(first.syntax().green().into_owned(), second.syntax().green().into_owned());
}

#[test]
fn tree_shape_of_a_list() {
    let parse = parse("(a )");
    let root = parse.syntax();
    assert_eq!(root.kind().0, SyntaxKind::ROOT.to_raw());
    let list = root.first_child().unwrap();
    assert_eq!(list.kind().0, SyntaxKind::LIST.to_raw());
    let kinds: Vec<u16> = list.children_with_tokens().map(|child| child.kind().0).collect();
    assert_eq!(
        kinds,
        vec![
            SyntaxKind::L_PAREN.to_raw(),
            SyntaxKind::ATOM.to_raw(),
            SyntaxKind::WHITESPACE.to_raw(),
            SyntaxKind::R_PAREN.to_raw(),
        ]
    );
}

#[test]
fn cut_tokens_takes_lengths_in_bytes() {
    let cuts = vec![(2u16, 2usize), (3, 1), (2, 1)];
    assert_eq!(
        cut_tokens("é x", &cuts),
        Some(vec![
            (SyntaxKind::WORD, "é".to_string()),
            (SyntaxKind::WHITESPACE, " ".to_string()),
            (SyntaxKind::WORD, "x".to_string()),
        ])
    );
    assert_eq!(cut_tokens("", &vec![]), Some(vec![]));
}

#[test]
fn cut_tokens_refuses_cuts_that_do_not_fit() {
    assert_eq!(cut_tokens("é", &vec![(2, 1), (2, 1)]), None);
    assert_eq!(cut_tokens("ab", &vec![(2, 1)]), None);
    assert_eq!(cut_tokens("ab", &vec![(2, 3)]), None);
    assert_eq!(cut_tokens("ab", &vec![(5, 2)]), None);
    assert_eq!(cut_tokens("ab", &vec![(2, 2), (2, 1)]), None);
    assert_eq!(cut_tokens("", &vec![(2, 0)]), Some(vec![(SyntaxKind::WORD, String::new())]));
}

#[test]
fn sexp_kinds_round_trip_through_their_numbers() {
    for raw in 0u16..=7 {
        let kind = SyntaxKind::from_raw(raw).unwrap();
        assert_eq!(kind.to_raw(), raw);
        assert_eq!(Lang::kind_from_raw(raw), kind);
        assert_eq!(Lang::kind_to_raw(kind), raw);
    }
    assert_eq!(SyntaxKind::from_raw(0), Some(SyntaxKind::L_PAREN));
    assert_eq!(SyntaxKind::from_raw(7), Some(SyntaxKind::ROOT));
    assert_eq!(SyntaxKind::from_raw(8), None);
}

#[test]
fn casts_check_the_kind() {
    let parse = parse("(a)");
    let root = parse.syntax();
    assert!(Root::cast(root.clone()).is_some());
    assert!(List::cast(root.clone()).is_none());
    assert!(Sexp::cast(root.clone()).is_none());
    let list = root.first_child().unwrap();
    assert!(List::cast(list.clone()).is_some());
    assert!(Sexp::cast(list.clone()).is_some());
    assert!(Atom::cast(list.clone()).is_none());
    let atom = list.first_child().unwrap();
    assert!(Atom::cast(atom.clone()).is_some());
    assert!(Sexp::cast(atom).is_some());
}
