use rgt::builder::{BuildError, Builder};
use rgt::green::Green;
use rgt::lang::Language;
use rgt::text::{TextRange, TextSize};

#[derive(Debug, Clone, Copy, PartialEq, Eq)]
enum Kind {
    Root,
    Pair,
    Ident,
    Plus,
}

struct TestLang;

impl Language for TestLang {
    type Kind = Kind;
    type Payload = String;

    fn compose_node(kind: Self::Kind, children: &[Green<Self>]) -> Self::Payload {
        let parts: Vec<String> = children.iter().map(|child| child.payload().clone()).collect();
        format!("{kind:?}({})", parts.join(" "))
    }
}

fn token(kind: Kind, width: u32, payload: &str) -> Green<TestLang> {
    Green::token(kind, TextSize::new(width), payload.to_string())
}

fn sample_tree() -> Green<TestLang> {
    let mut builder = Builder::<TestLang>::new();
    builder.start_node(Kind::Root);
    builder.token(Kind::Ident, TextSize::new(3), "foo".to_string());
    builder.start_node(Kind::Pair);
    builder.token(Kind::Plus, TextSize::new(1), "+".to_string());
    builder.token(Kind::Ident, TextSize::new(3), "bar".to_string());
    builder.finish_node().unwrap();
    builder.finish_node().unwrap();
    builder.finish().unwrap()
}

#[test]
fn builder_constructs_single_root_tree() {
    let root = sample_tree();

    assert_eq!(root.kind(), Kind::Root);
    assert_eq!(root.width(), TextSize::new(7));
    assert_eq!(root.payload(), "Root(foo Pair(+ bar))");
    assert_eq!(root.children().unwrap().len(), 2);
}

#[test]
fn builder_reports_finish_errors() {
    assert!(matches!(Builder::<TestLang>::new().finish(), Err(BuildError::ExpectedSingleRoot)));

    let mut builder = Builder::<TestLang>::new();
    builder.start_node(Kind::Root);

    assert!(matches!(builder.finish(), Err(BuildError::UnclosedNode)));
}

#[test]
fn builder_reports_finish_node_without_open_node() {
    assert_eq!(Builder::<TestLang>::new().finish_node().unwrap_err(), BuildError::NoOpenNode);
}

#[test]
fn green_equality_uses_pointer_identity() {
    let left = sample_tree();
    let left_clone = left.clone();
    let right = sample_tree();

    assert!(left == left_clone);
    assert!(left != right);
}

#[test]
fn debug_tree_dumps_nodes_and_tokens() {
    let root = sample_tree();
    let lines: Vec<(usize, Kind, u32, u32)> = root
        .dump_lines()
        .iter()
        .map(|l| (l.depth, l.green.kind(), l.start.to_u32(), l.end.to_u32()))
        .collect();

    assert_eq!(
        lines,
        vec![
            (0, Kind::Root, 0, 7),
            (1, Kind::Ident, 0, 3),
            (1, Kind::Pair, 3, 7),
            (2, Kind::Plus, 3, 4),
            (2, Kind::Ident, 4, 7),
        ]
    );
}

#[test]
fn debug_tree_with_payload_dumps_nodes_and_tokens() {
    let root = sample_tree();
    let payloads: Vec<String> = root.dump_lines().iter().map(|l| l.green.payload().clone()).collect();

    assert_eq!(payloads, vec!["Root(foo Pair(+ bar))", "foo", "Pair(+ bar)", "+", "bar"]);
}

#[test]
fn token_child_edits_return_none() {
    let node = token(Kind::Ident, 3, "foo");

    assert!(node.remove_child(0).is_none());
    assert!(node.insert_child(0, token(Kind::Plus, 1, "+")).is_none());
    assert!(node.replace_child(0, token(Kind::Ident, 3, "bar")).is_none());
}

#[test]
fn replace_child_recomposes_payload_and_width() {
    let root = sample_tree();

    let replaced = root.replace_child(0, token(Kind::Ident, 5, "hello")).unwrap();
    assert_eq!(replaced.payload(), "Root(hello Pair(+ bar))");
    assert_eq!(replaced.width(), TextSize::new(9));
}

#[test]
fn insert_child_recomposes_payload_and_width() {
    let root = sample_tree();

    let inserted = root.insert_child(1, token(Kind::Plus, 1, "+")).unwrap();
    assert_eq!(inserted.payload(), "Root(foo + Pair(+ bar))");
    assert_eq!(inserted.width(), TextSize::new(8));
}

#[test]
fn remove_child_recomposes_payload_and_width() {
    let root = sample_tree();

    let removed = root.remove_child(1).unwrap();
    assert_eq!(removed.payload(), "Root(foo)");
    assert_eq!(removed.width(), TextSize::new(3));
}

#[test]
fn out_of_bounds_child_edits_return_none() {
    let root = sample_tree();

    assert!(root.replace_child(2, token(Kind::Ident, 1, "x")).is_none());
    assert!(root.remove_child(2).is_none());
    assert!(root.insert_child(3, token(Kind::Ident, 1, "x")).is_none());
    assert!(root.insert_child(2, token(Kind::Ident, 1, "x")).is_some());
    assert!(root.replace_child(usize::MAX, token(Kind::Ident, 1, "x")).is_none());
}

#[test]
fn splice_children_replaces_a_range() {
    let root = sample_tree();

    let spliced = root
        .splice_children(0..2, vec![token(Kind::Ident, 2, "a"), token(Kind::Plus, 1, "+"), token(Kind::Ident, 2, "b")])
        .unwrap();
    assert_eq!(spliced.payload(), "Root(a + b)");
    assert_eq!(spliced.width(), TextSize::new(5));
    assert_eq!(spliced.child_count(), Some(3));
    assert_eq!(spliced.kind(), Kind::Root);

    assert!(root.splice_children(1..3, vec![]).is_none());
    #[allow(clippy::reversed_empty_ranges)]
    let reversed = root.splice_children(2..1, vec![]);
    assert!(reversed.is_none());
    assert!(token(Kind::Ident, 3, "foo").splice_children(0..0, vec![]).is_none());
}

#[test]
fn node_width_is_sum_of_child_widths() {
    let node = Green::<TestLang>::node(Kind::Pair, vec![token(Kind::Ident, 2, "a"), token(Kind::Ident, 5, "b")]);
    assert_eq!(node.width(), TextSize::new(7));
    assert_eq!(node.payload(), "Pair(a b)");
    assert!(!node.is_token());

    let empty = Green::<TestLang>::node(Kind::Pair, vec![]);
    assert_eq!(empty.width(), TextSize::new(0));
    assert_eq!(empty.child_count(), Some(0));
    assert_eq!(empty.children().map(|c| c.len()), Some(0));
    assert!(!empty.is_token());

    let tok = token(Kind::Plus, 1, "+");
    assert!(tok.is_token());
    assert_eq!(tok.child_count(), None);
    assert!(tok.children().is_none());
}

#[test]
fn builder_attaches_top_level_tokens() {
    let mut builder = Builder::<TestLang>::new();
    builder.token(Kind::Ident, TextSize::new(3), "foo".to_string());
    let root = builder.finish().unwrap();
    assert!(root.is_token());
    assert_eq!(root.payload(), "foo");

    let mut builder = Builder::<TestLang>::new();
    builder.token(Kind::Ident, TextSize::new(3), "foo".to_string());
    builder.token(Kind::Ident, TextSize::new(3), "bar".to_string());
    assert!(matches!(builder.finish(), Err(BuildError::ExpectedSingleRoot)));

    let mut builder = Builder::<TestLang>::default();
    builder.start_node(Kind::Root);
    builder.finish_node().unwrap();
    assert_eq!(builder.finish_node(), Err(BuildError::NoOpenNode));
    let root = builder.finish().unwrap();
    assert_eq!(root.payload(), "Root()");
    assert_eq!(root.child_count(), Some(0));
}

#[test]
fn text_range_operations() {
    let r = TextRange::new(TextSize::new(2), TextSize::new(5));
    assert_eq!(r.len(), TextSize::new(3));
    assert!(!r.is_empty());
    assert!(r.contains(TextSize::new(2)));
    assert!(!r.contains(TextSize::new(5)));
    assert!(r.contains_inclusive(TextSize::new(5)));
    assert!(r.contains_range(TextRange::new(TextSize::new(3), TextSize::new(5))));
    assert!(!r.contains_range(TextRange::new(TextSize::new(1), TextSize::new(5))));
    assert_eq!(
        r.intersect(TextRange::new(TextSize::new(4), TextSize::new(9))),
        Some(TextRange::new(TextSize::new(4), TextSize::new(5)))
    );
    assert_eq!(
        r.intersect(TextRange::new(TextSize::new(5), TextSize::new(9))),
        Some(TextRange::new(TextSize::new(5), TextSize::new(5)))
    );
    assert_eq!(r.intersect(TextRange::new(TextSize::new(6), TextSize::new(9))), None);
    assert_eq!(TextRange::at(TextSize::new(3), TextSize::new(4)), TextRange::new(TextSize::new(3), TextSize::new(7)));
    assert_eq!(TextSize::new(u32::MAX).checked_add(TextSize::new(1)), None);
    assert_eq!(TextSize::new(4).checked_add(TextSize::new(1)), Some(TextSize::new(5)));
    assert_eq!(TextSize::new(4).checked_sub(TextSize::new(5)), None);
    assert_eq!(TextSize::new(4).checked_sub(TextSize::new(1)), Some(TextSize::new(3)));
}

#[test]
fn green_hash_follows_identity() {
    let left = sample_tree();
    let right = sample_tree();
    let mut set = std::collections::HashSet::new();
    set.insert(left.clone());

    assert!(set.contains(&left));
    assert!(!set.contains(&right));
}

#[test]
fn removing_an_inserted_child_restores_children_and_width() {
    let root = sample_tree();
    let inserted = root.insert_child(1, token(Kind::Plus, 2, "++")).unwrap();
    assert_eq!(inserted.width(), TextSize::new(9));
    let removed = inserted.remove_child(1).unwrap();

    assert_eq!(removed.width(), root.width());
    assert_eq!(removed.kind(), root.kind());
    assert_eq!(removed.payload(), root.payload());
    let before = root.children().unwrap();
    let after = removed.children().unwrap();
    assert_eq!(before.len(), after.len());
    assert!(before.iter().zip(after.iter()).all(|(a, b)| a == b));
}
