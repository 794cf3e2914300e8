use rgt::builder::Builder;
use rgt::green::Green;
use rgt::lang::Language;
use rgt::red::{AtOffset, AtOffsetIter, Children, Red, WalkEvent};
use rgt::text::{TextRange, TextSize};

#[derive(Debug, Clone, Copy, PartialEq, Eq)]
pub enum Kind {
    Root,
    Pair,
    Ident,
    Plus,
}

pub struct TestLang;

impl Language for TestLang {
    type Kind = Kind;
    type Payload = String;

    fn compose_node(kind: Self::Kind, children: &[Green<Self>]) -> Self::Payload {
        let parts: Vec<String> = children.iter().map(|child| child.payload().clone()).collect();
        format!("{kind:?}({})", parts.join(" "))
    }
}

fn leaf(kind: Kind, width: u32, payload: &str) -> Green<TestLang> {
    Green::token(kind, TextSize::new(width), payload.to_string())
}

fn tree() -> Green<TestLang> {
    let mut builder = Builder::<TestLang>::new();
    builder.start_node(Kind::Root);
    builder.token(Kind::Ident, TextSize::new(3), "foo".to_string());
    builder.start_node(Kind::Pair);
    builder.token(Kind::Plus, TextSize::new(1), "+".to_string());
    builder.token(Kind::Ident, TextSize::new(3), "bar".to_string());
    builder.finish_node().unwrap();
    builder.finish_node().unwrap();
    builder.finish().unwrap()
}

fn root() -> Red<TestLang> {
    Red::new_root(tree())
}

fn range(start: u32, end: u32) -> TextRange {
    TextRange::new(TextSize::new(start), TextSize::new(end))
}

fn drain<T>(mut it: AtOffsetIter<T>) -> Vec<T> {
    let mut out = Vec::new();
    while let Some(x) = it.next() {
        out.push(x);
    }
    out
}

fn kinds_of(mut children: Children<TestLang>) -> Vec<Kind> {
    let mut out = Vec::new();
    while let Some(c) = children.next() {
        out.push(c.kind());
    }
    out
}

#[test]
fn red_root_exposes_green_position_and_payload() {
    let root = root();

    assert!(root.is_root());
    assert!(!root.is_token());
    assert_eq!(root.kind(), Kind::Root);
    assert_eq!(root.offset(), TextSize::new(0));
    assert_eq!(root.width(), TextSize::new(7));
    assert_eq!(root.range(), range(0, 7));
    assert_eq!(root.payload(), "Root(foo Pair(+ bar))");
    assert_eq!(root.child_count(), Some(2));
    assert_eq!(root.root_green().payload(), root.green().payload());
}

#[test]
fn children_have_offsets_parent_and_indices() {
    let root = root();
    let mut children = root.children();
    let first = children.next().unwrap();
    let second = children.next().unwrap();

    assert!(children.next().is_none());
    assert_eq!(first.kind(), Kind::Ident);
    assert_eq!(first.index(), Some(0));
    assert_eq!(first.range(), range(0, 3));
    assert_eq!(first.parent().unwrap().kind(), Kind::Root);

    assert_eq!(second.kind(), Kind::Pair);
    assert_eq!(second.index(), Some(1));
    assert_eq!(second.range(), range(3, 7));
    assert_eq!(second.parent().unwrap().kind(), Kind::Root);

    let mut token_children = first.children();
    assert!(token_children.next().is_none());
    assert!(token_children.next_back().is_none());
}

#[test]
fn child_at_offset_finds_direct_children() {
    let root = root();

    assert_eq!(root.child_at_offset(TextSize::new(0)).unwrap().left_biased().kind(), Kind::Ident);
    assert_eq!(root.child_at_offset(TextSize::new(2)).unwrap().left_biased().kind(), Kind::Ident);

    let AtOffset::Between(left, right) = root.child_at_offset(TextSize::new(3)).unwrap() else {
        panic!("expected an offset between children");
    };
    assert_eq!(left.kind(), Kind::Ident);
    assert_eq!(right.kind(), Kind::Pair);

    assert_eq!(root.child_at_offset(TextSize::new(6)).unwrap().left_biased().kind(), Kind::Pair);
    assert_eq!(root.child_at_offset(TextSize::new(7)).unwrap().right_biased().kind(), Kind::Pair);
}

#[test]
fn at_offset_helpers_cover_single_and_between() {
    let root = root();

    let single = root.child_at_offset(TextSize::new(1)).unwrap();
    assert!(!single.is_between());
    assert_eq!(single.as_ref().left_biased().kind(), Kind::Ident);
    assert_eq!(drain(single.map(|node| node.kind()).into_iter()), vec![Kind::Ident]);

    let between = root.child_at_offset(TextSize::new(3)).unwrap();
    assert!(between.is_between());
    assert_eq!(between.as_ref().left_biased().kind(), Kind::Ident);
    assert_eq!(between.as_ref().right_biased().kind(), Kind::Pair);
    assert_eq!(drain(between.map(|node| node.kind()).into_iter()), vec![Kind::Ident, Kind::Pair]);
}

#[test]
fn token_at_offset_descends_to_leaf() {
    let root = root();

    let plus = root.token_at_offset(TextSize::new(3)).unwrap().right_biased();
    assert_eq!(plus.kind(), Kind::Plus);
    assert!(plus.is_token());
    assert_eq!(plus.child_count(), None);
    assert_eq!(plus.range(), range(3, 4));

    let bar = root.token_at_offset(TextSize::new(6)).unwrap().left_biased();
    assert_eq!(bar.kind(), Kind::Ident);
    assert_eq!(bar.range(), range(4, 7));
}

#[test]
fn token_navigation_walks_leaf_order() {
    let root = root();
    let foo = root.token_at_offset(TextSize::new(1)).unwrap().left_biased();
    let plus = root.token_at_offset(TextSize::new(3)).unwrap().right_biased();
    let bar = root.token_at_offset(TextSize::new(6)).unwrap().left_biased();

    assert!(foo.prev_token().is_none());
    assert_eq!(foo.next_token().unwrap().kind(), Kind::Plus);

    assert_eq!(plus.prev_token().unwrap().kind(), Kind::Ident);
    assert_eq!(plus.next_token().unwrap().kind(), Kind::Ident);

    assert_eq!(bar.prev_token().unwrap().kind(), Kind::Plus);
    assert!(bar.next_token().is_none());
}

#[test]
fn preorder_emits_enter_and_leave_events() {
    let root = root();
    let mut preorder = root.preorder();
    let mut events = Vec::new();
    while let Some(event) = preorder.next() {
        events.push(match event {
            WalkEvent::Enter(node) => ("enter", node.kind()),
            WalkEvent::Leave(node) => ("leave", node.kind()),
        });
    }

    assert_eq!(
        events,
        vec![
            ("enter", Kind::Root),
            ("enter", Kind::Ident),
            ("leave", Kind::Ident),
            ("enter", Kind::Pair),
            ("enter", Kind::Plus),
            ("leave", Kind::Plus),
            ("enter", Kind::Ident),
            ("leave", Kind::Ident),
            ("leave", Kind::Pair),
            ("leave", Kind::Root),
        ]
    );
}

#[test]
fn descendants_are_preorder_and_include_self() {
    let root = root();
    let mut descendants = root.descendants();
    let mut kinds = Vec::new();
    while let Some(node) = descendants.next() {
        kinds.push(node.kind());
    }

    assert_eq!(kinds, vec![Kind::Root, Kind::Ident, Kind::Pair, Kind::Plus, Kind::Ident]);
}

#[test]
fn tokens_filters_descendants_to_leaves() {
    let root = root();
    let tokens: Vec<_> = root.tokens().iter().map(|node| (node.kind(), node.range())).collect();

    assert_eq!(
        tokens,
        vec![(Kind::Ident, range(0, 3)), (Kind::Plus, range(3, 4)), (Kind::Ident, range(4, 7)),]
    );
}

#[test]
fn covering_node_returns_smallest_covering_node() {
    let root = root();

    let foo = root.covering_node(range(1, 2)).unwrap();
    assert_eq!(foo.kind(), Kind::Ident);

    let pair = root.covering_node(range(3, 7)).unwrap();
    assert_eq!(pair.kind(), Kind::Pair);

    let root_cover = root.covering_node(range(2, 5)).unwrap();
    assert_eq!(root_cover.kind(), Kind::Root);
}

#[test]
fn ancestors_walk_to_root() {
    let root = root();
    let bar = root.token_at_offset(TextSize::new(6)).unwrap().left_biased();
    let kinds: Vec<_> = bar.ancestors().iter().map(|node| node.kind()).collect();

    assert_eq!(kinds, vec![Kind::Ident, Kind::Pair, Kind::Root]);
    assert_eq!(bar.root().kind(), Kind::Root);
}

#[test]
fn sibling_navigation_uses_parent_indices() {
    let root = root();
    let pair = root.child(1).unwrap();
    let foo = pair.prev_sibling().unwrap();

    assert_eq!(foo.kind(), Kind::Ident);
    assert!(foo.prev_sibling().is_none());
    assert_eq!(foo.next_sibling().unwrap().kind(), Kind::Pair);

    let sibling_kinds = kinds_of(pair.siblings().unwrap());
    assert_eq!(sibling_kinds, vec![Kind::Ident, Kind::Pair]);
}

#[test]
fn red_replace_with_rebuilds_to_root() {
    let root = root();
    let pair = root.child(1).unwrap();
    let new_pair = Green::node(Kind::Pair, vec![leaf(Kind::Ident, 5, "hello")]);

    let new_root = pair.replace_with(new_pair);
    assert_eq!(new_root.payload(), "Root(foo Pair(hello))");
    assert_eq!(new_root.width(), TextSize::new(8));
}

#[test]
fn red_child_edits_rebuild_to_root() {
    let root = root();
    let pair = root.child(1).unwrap();

    let replaced = pair.replace_child(1, leaf(Kind::Ident, 5, "hello")).unwrap();
    assert_eq!(replaced.payload(), "Root(foo Pair(+ hello))");
    assert_eq!(replaced.width(), TextSize::new(9));

    let removed = pair.remove_self().unwrap();
    assert_eq!(removed.payload(), "Root(foo)");
    assert_eq!(removed.width(), TextSize::new(3));
}

#[test]
fn covering_empty_range_inside_token_returns_token() {
    let root = root();

    let node = root.covering_node(range(5, 5)).unwrap();

    assert_eq!(node.kind(), Kind::Ident);
    assert_eq!(node.range(), range(4, 7));
}

#[test]
fn covering_empty_range_between_root_children_returns_root() {
    let root = root();

    let node = root.covering_node(range(3, 3)).unwrap();

    assert_eq!(node.kind(), Kind::Root);
    assert_eq!(node.range(), range(0, 7));
}

#[test]
fn covering_empty_range_between_nested_children_returns_parent() {
    let root = root();

    let node = root.covering_node(range(4, 4)).unwrap();

    assert_eq!(node.kind(), Kind::Pair);
    assert_eq!(node.range(), range(3, 7));
}

#[test]
fn covering_empty_range_at_tree_start_returns_first_token() {
    let root = root();

    let node = root.covering_node(range(0, 0)).unwrap();

    assert_eq!(node.kind(), Kind::Ident);
    assert_eq!(node.range(), range(0, 3));
}

#[test]
fn covering_empty_range_at_tree_end_returns_last_token() {
    let root = root();

    let node = root.covering_node(range(7, 7)).unwrap();

    assert_eq!(node.kind(), Kind::Ident);
    assert_eq!(node.range(), range(4, 7));
}

#[test]
fn covering_empty_range_outside_node_returns_none() {
    let root = root();

    assert!(root.covering_node(range(8, 8)).is_none());
}

#[test]
fn child_at_offset_outside_range_is_none() {
    let root = root();
    let foo = root.child(0).unwrap();

    assert!(root.child_at_offset(TextSize::new(8)).is_none());
    assert!(foo.child_at_offset(TextSize::new(4)).is_none());
    assert!(foo.child_at_offset(TextSize::new(1)).is_none());
    assert!(root.token_at_offset(TextSize::new(8)).is_none());

    let AtOffset::Single(t) = foo.token_at_offset(TextSize::new(2)).unwrap() else {
        panic!("expected a single token");
    };
    assert_eq!(t.range(), range(0, 3));
}

#[test]
fn empty_children_are_found_by_offset_but_skipped_by_cover() {
    let green = Green::<TestLang>::node(
        Kind::Root,
        vec![leaf(Kind::Ident, 2, "a"), Green::node(Kind::Pair, vec![]), leaf(Kind::Ident, 2, "b")],
    );
    let root = Red::new_root(green);

    let AtOffset::Between(left, right) = root.child_at_offset(TextSize::new(2)).unwrap() else {
        panic!("expected a boundary");
    };
    assert_eq!(left.index(), Some(0));
    assert_eq!(right.index(), Some(1));
    assert_eq!(right.kind(), Kind::Pair);

    let cover = root.covering_node(range(2, 2)).unwrap();
    assert!(cover.is_root());

    let AtOffset::Between(l, r) = root.token_at_offset(TextSize::new(2)).unwrap() else {
        panic!("expected a boundary");
    };
    assert_eq!(l.payload(), "a");
    assert_eq!(r.kind(), Kind::Pair);
    assert_eq!(r.child_count(), Some(0));
}

#[test]
fn token_navigation_skips_nodes_without_children_but_offset_lookup_stops_at_them() {
    let green = Green::<TestLang>::node(
        Kind::Root,
        vec![
            Green::node(Kind::Pair, vec![]),
            leaf(Kind::Ident, 2, "a"),
            Green::node(Kind::Pair, vec![]),
            leaf(Kind::Ident, 3, "b"),
            Green::node(Kind::Pair, vec![]),
        ],
    );
    let root = Red::new_root(green);

    let first = root.first_token();
    assert_eq!(first.payload(), "a");
    assert!(first.is_token());
    let last = root.last_token();
    assert_eq!(last.payload(), "b");
    assert!(last.is_token());

    assert_eq!(first.next_token().unwrap().payload(), "b");
    assert_eq!(last.prev_token().unwrap().payload(), "a");
    assert!(first.prev_token().is_none());
    assert!(last.next_token().is_none());

    let AtOffset::Single(start) = root.token_at_offset(TextSize::new(0)).unwrap() else {
        panic!("expected a single element");
    };
    assert_eq!(start.kind(), Kind::Pair);
    assert_eq!(start.index(), Some(0));
    let AtOffset::Between(before, after) = root.token_at_offset(TextSize::new(5)).unwrap() else {
        panic!("expected a boundary");
    };
    assert_eq!(before.payload(), "b");
    assert_eq!(after.kind(), Kind::Pair);
    assert_eq!(after.index(), Some(4));
}

#[test]
fn subtree_without_tokens_offset_lookup_ends_at_a_node_without_children() {
    let green = Green::<TestLang>::node(
        Kind::Root,
        vec![Green::node(Kind::Pair, vec![Green::node(Kind::Pair, vec![])]), Green::node(Kind::Pair, vec![])],
    );
    let root = Red::new_root(green);
    let AtOffset::Single(found) = root.token_at_offset(TextSize::new(0)).unwrap() else {
        panic!("expected a single element");
    };
    assert_eq!(found.child_count(), Some(0));
    assert_eq!(found.ancestors().len(), 3);
    assert!(root.token_at_offset(TextSize::new(1)).is_none());
    assert!(root.tokens().is_empty());
    let first = root.first_token();
    assert_eq!(first.kind(), Kind::Pair);
    assert_eq!(first.child_count(), Some(0));
    assert_eq!(first.ancestors().len(), 3);
    let last = root.last_token();
    assert_eq!(last.index(), Some(1));
    assert_eq!(last.ancestors().len(), 2);
}

#[test]
fn empty_token_at_a_boundary_is_the_right_side() {
    let green = Green::<TestLang>::node(
        Kind::Root,
        vec![leaf(Kind::Ident, 2, "a"), leaf(Kind::Plus, 0, "e"), leaf(Kind::Ident, 2, "b")],
    );
    let root = Red::new_root(green);
    let AtOffset::Between(l, r) = root.token_at_offset(TextSize::new(2)).unwrap() else {
        panic!("expected a boundary");
    };
    assert_eq!(l.payload(), "a");
    assert_eq!(r.payload(), "e");
    assert_eq!(r.next_token().unwrap().payload(), "b");
}

#[test]
fn tokens_tile_the_node_range() {
    let root = root();
    let tokens = root.tokens();
    assert_eq!(tokens.len(), 3);
    assert_eq!(tokens[0].range().start(), root.range().start());
    assert_eq!(tokens[2].range().end(), root.range().end());
    for pair in tokens.windows(2) {
        assert_eq!(pair[0].range().end(), pair[1].range().start());
    }
    let total: u32 = tokens.iter().map(|t| t.width().to_u32()).sum();
    assert_eq!(total, root.width().to_u32());
    let pair = root.child(1).unwrap();
    let inner: Vec<_> = pair.tokens().iter().map(|t| t.range()).collect();
    assert_eq!(inner, vec![range(3, 4), range(4, 7)]);
}

#[test]
fn first_and_last_tokens_follow_end_children() {
    let root = root();
    assert_eq!(root.first_token().payload(), "foo");
    assert_eq!(root.last_token().payload(), "bar");
    let bar = root.last_token();
    assert_eq!(bar.first_token().range(), bar.range());
    assert_eq!(root.first_child().unwrap().kind(), Kind::Ident);
    assert_eq!(root.last_child().unwrap().kind(), Kind::Pair);
    assert!(bar.first_child().is_none());
}

#[test]
fn red_edits_report_invalid_requests() {
    let root = root();
    let pair = root.child(1).unwrap();
    let plus = pair.child(0).unwrap();

    assert!(root.remove_self().is_none());
    assert!(plus.replace_child(0, leaf(Kind::Ident, 1, "x")).is_none());
    assert!(pair.remove_child(2).is_none());
    assert!(pair.insert_child(3, leaf(Kind::Ident, 1, "x")).is_none());

    let inserted = pair.insert_child(2, leaf(Kind::Plus, 1, "+")).unwrap();
    assert_eq!(inserted.payload(), "Root(foo Pair(+ bar +))");
    assert_eq!(inserted.width(), TextSize::new(8));

    let removed = pair.remove_child(0).unwrap();
    assert_eq!(removed.payload(), "Root(foo Pair(bar))");

    let spliced = pair.splice_children(0..2, vec![leaf(Kind::Ident, 4, "baz")]).unwrap();
    assert_eq!(spliced.payload(), "Root(foo Pair(baz))");
    assert_eq!(spliced.width(), TextSize::new(7));

    let same = root.replace_with(root.green().clone());
    assert!(same == *root.green());
}

#[test]
fn red_equality_follows_green_identity() {
    let root = root();
    let a = root.child(1).unwrap();
    let b = root.child(1).unwrap();
    let c = root.child(0).unwrap();
    assert!(a == b);
    assert!(a != c);
}

#[test]
fn children_match_child_in_both_directions() {
    let root = root();
    let mut forward = root.children();
    let mut i = 0;
    while let Some(c) = forward.next() {
        assert!(c == root.child(i).unwrap());
        assert_eq!(c.index(), Some(i));
        assert!(c.parent().unwrap() == root);
        i += 1;
    }
    assert_eq!(i, 2);
    assert!(root.child(2).is_none());

    let mut backward = root.children();
    let mut seen = Vec::new();
    while let Some(c) = backward.next_back() {
        seen.push((c.index(), c.range()));
    }
    assert_eq!(seen, vec![(Some(1), range(3, 7)), (Some(0), range(0, 3))]);
}

#[test]
fn dump_lines_follow_descendants() {
    let root = root();
    let lines = root.green().dump_lines();
    let mut descendants = root.descendants();
    let mut k = 0;
    while let Some(node) = descendants.next() {
        let line = &lines[k];
        assert_eq!(line.depth, node.ancestors().len() - 1);
        assert!(line.green == *node.green());
        assert_eq!(line.start, node.range().start());
        assert_eq!(line.end, node.range().end());
        k += 1;
    }
    assert_eq!(k, lines.len());
    assert_eq!(k, 5);
}

#[test]
fn token_at_offset_on_a_node_without_children_returns_it() {
    let root = Red::new_root(Green::<TestLang>::node(Kind::Pair, vec![]));
    let AtOffset::Single(found) = root.token_at_offset(TextSize::new(0)).unwrap() else {
        panic!("expected a single element");
    };
    assert!(found == root);
}

#[test]
fn token_at_offset_boundary_takes_last_token_of_left_child() {
    let green = Green::<TestLang>::node(
        Kind::Root,
        vec![
            Green::node(Kind::Pair, vec![leaf(Kind::Ident, 1, "A"), leaf(Kind::Plus, 0, "E")]),
            leaf(Kind::Ident, 1, "B"),
        ],
    );
    let root = Red::new_root(green);
    let AtOffset::Between(l, r) = root.token_at_offset(TextSize::new(1)).unwrap() else {
        panic!("expected a boundary");
    };
    assert_eq!(l.payload(), "E");
    assert_eq!(r.payload(), "B");
}
