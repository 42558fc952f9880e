use lossless_syntax::green::text_fits;
use lossless_syntax::syntax::{
    child_nodes, child_nodes_of_kind, first_child_node, first_child_token, node_text,
};

#[test]
fn node_text_joins_the_leaves() {
    for source in ["", "PROGRAM-ID. A.", "FOO .", "  PROCEDURE DIVISION.\nDISPLAY \"é\" x .\n"] {
        let parse = lossless_syntax::cobol::parse(source);
        let root = parse.syntax();
        assert_eq!(node_text(&root), root.text().to_string());
        assert_eq!(node_text(&root), source);
    }
    for source in ["", "(+ 1 (* 2 3))", ") (a (b", " é\t(日本)"] {
        let parse = lossless_syntax::s_expression::parse(source);
        assert_eq!(node_text(&parse.syntax()), source);
    }
}

#[test]
fn node_text_of_an_inner_node() {
    let parse = lossless_syntax::s_expression::parse("(a (b  c) d)");
    let list = parse.syntax().first_child().unwrap();
    let inner = first_child_node(&list, 5).unwrap();
    assert_eq!(node_text(&inner), "(b  c)");
}

#[test]
fn children_are_found_by_kind() {
    let parse = lossless_syntax::s_expression::parse("(a (b) c (d e))");
    let list = parse.syntax().first_child().unwrap();
    let atoms = child_nodes_of_kind(&list, 6);
    let texts: Vec<String> = atoms.iter().map(node_text).collect();
    assert_eq!(texts, vec!["a".to_string(), "c".to_string()]);
    let lists = child_nodes_of_kind(&list, 5);
    let texts: Vec<String> = lists.iter().map(node_text).collect();
    assert_eq!(texts, vec!["(b)".to_string(), "(d e)".to_string()]);
    assert_eq!(child_nodes(&list).len(), 4);
    assert!(child_nodes_of_kind(&list, 7).is_empty());
    assert_eq!(node_text(&first_child_node(&list, 5).unwrap()), "(b)");
    assert!(first_child_node(&list, 7).is_none());
}

#[test]
fn first_token_of_a_kind() {
    let parse = lossless_syntax::s_expression::parse("( a)");
    let list = parse.syntax().first_child().unwrap();
    assert_eq!(first_child_token(&list, 0), Some("(".to_string()));
    assert_eq!(first_child_token(&list, 3), Some(" ".to_string()));
    assert_eq!(first_child_token(&list, 1), Some(")".to_string()));
    assert_eq!(first_child_token(&list, 2), None);
    assert_eq!(first_child_token(&list, 6), None);
}

#[test]
fn short_texts_fit() {
    assert!(text_fits(""));
    assert!(text_fits("DISPLAY \"é\"."));
}
