use lossless_syntax::feed::TokenFeed;

fn tokens(items: &[(u16, &str)]) -> Vec<(u16, String)> {
    items.iter().map(|(kind, text)| (*kind, text.to_string())).collect()
}

#[test]
fn feed_builds_nested_nodes() {
    let mut feed = TokenFeed::new(tokens(&[(1, "a"), (2, " "), (1, "b")]));
    assert_eq!(feed.current(), Some(1));
    feed.start_node(10);
    feed.bump();
    assert_eq!(feed.current(), Some(2));
    feed.start_node(11);
    feed.bump();
    feed.bump();
    assert_eq!(feed.current(), None);
    feed.finish_node();
    feed.finish_node();
    let (tree, errors) = feed.finish();
    assert!(errors.is_empty());
    assert_eq!(tree.kind().0, 10);
    assert_eq!(tree.to_string(), "a b");
    let root = rowan::cursor::SyntaxNode::new_root(tree);
    let kinds: Vec<u16> = root.children_with_tokens().map(|child| child.kind().0).collect();
    assert_eq!(kinds, vec![1, 11]);
    let inner = root.first_child().unwrap();
    let kinds: Vec<u16> = inner.children_with_tokens().map(|child| child.kind().0).collect();
    assert_eq!(kinds, vec![2, 1]);
    assert_eq!(inner.text().to_string(), " b");
}

#[test]
fn feed_bump_at_the_end_does_nothing() {
    let mut feed = TokenFeed::new(tokens(&[(3, "x")]));
    feed.start_node(7);
    feed.bump();
    feed.bump();
    feed.bump();
    feed.finish_node();
    let (tree, _) = feed.finish();
    assert_eq!(tree.to_string(), "x");
    assert_eq!(tree.children().count(), 1);
}

#[test]
fn feed_keeps_diagnostics_in_order() {
    let mut feed = TokenFeed::new(tokens(&[]));
    feed.start_node(0);
    feed.error("first".to_string());
    feed.error("second".to_string());
    feed.finish_node();
    let (tree, errors) = feed.finish();
    assert_eq!(errors, vec!["first".to_string(), "second".to_string()]);
    assert_eq!(tree.children().count(), 0);
    assert_eq!(tree.to_string(), "");
}

#[test]
fn feed_node_takes_only_what_follows_its_start() {
    let mut feed = TokenFeed::new(tokens(&[(1, "a"), (1, "b"), (1, "c")]));
    feed.start_node(9);
    feed.bump();
    feed.start_node(8);
    feed.bump();
    feed.finish_node();
    feed.bump();
    feed.finish_node();
    let (tree, _) = feed.finish();
    let root = rowan::cursor::SyntaxNode::new_root(tree);
    let kinds: Vec<u16> = root.children_with_tokens().map(|child| child.kind().0).collect();
    assert_eq!(kinds, vec![1, 8, 1]);
    assert_eq!(root.first_child().unwrap().text().to_string(), "b");
}
