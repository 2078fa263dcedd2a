use iced_focus::{Direction, Focus, Enabled, Group, Leaf, Node, State};

fn leaf() -> Node {
    Node::Leaf(Leaf::new())
}

fn leaves(n: usize) -> Vec<Node> {
    (0..n).map(|_| leaf()).collect()
}

fn focused_positions(v: &[Node]) -> Vec<usize> {
    (0..v.len()).filter(|&i| v[i].has_focus()).collect()
}

fn sequence_of(node: &Node) -> &Vec<Node> {
    match node {
        Node::Sequence(v) => v,
        _ => panic!("not a sequence"),
    }
}

#[test]
fn leaf_toggles_regardless_of_direction() {
    let mut l = Leaf::new();
    assert!(!l.has_focus());
    assert_eq!(l.focus(Direction::Backwards), State::Kept);
    assert!(l.has_focus());
    assert!(l.focused);
    assert_eq!(l.focus(Direction::Forwards), State::Returned);
    assert!(!l.has_focus());
}

#[test]
fn has_focus_changes_nothing() {
    let mut v = leaves(3);
    assert_eq!(v.focus(Direction::Forwards), State::Kept);
    for _ in 0..5 {
        assert!(v.has_focus());
        assert_eq!(focused_positions(&v), vec![0]);
    }
}

#[test]
fn fresh_tree_has_no_focus() {
    let inner = Node::Sequence(leaves(2));
    let group = Group::new()
        .with(leaf(), Enabled::Always)
        .with(inner, Enabled::When(true))
        .with(Node::Optional(Some(Box::new(leaf()))), Enabled::Always);
    let root = Node::Group(group);
    assert!(!root.has_focus());
    if let Node::Group(g) = &root {
        for i in 0..g.len() {
            assert!(!g.child(i).has_focus());
        }
        assert!(sequence_of(g.child(1)).iter().all(|n| !n.has_focus()));
    }
}

#[test]
fn forward_pass_over_leaves() {
    for n in 1..6 {
        let mut v = leaves(n);
        for k in 0..n {
            assert_eq!(v.focus(Direction::Forwards), State::Kept);
            assert_eq!(focused_positions(&v), vec![k]);
        }
        assert_eq!(v.focus(Direction::Forwards), State::Returned);
        assert!(!v.has_focus());
    }
}

#[test]
fn backward_pass_over_leaves() {
    for n in 1..6 {
        let mut v = leaves(n);
        for k in (0..n).rev() {
            assert_eq!(v.focus(Direction::Backwards), State::Kept);
            assert_eq!(focused_positions(&v), vec![k]);
        }
        assert_eq!(v.focus(Direction::Backwards), State::Returned);
        assert!(!v.has_focus());
    }
}

#[test]
fn empty_sequence_ignores() {
    let mut v: Vec<Node> = Vec::new();
    assert_eq!(v.focus(Direction::Forwards), State::Ignored);
    assert_eq!(v.focus(Direction::Backwards), State::Ignored);
    assert!(!v.has_focus());
    let mut node = Node::Sequence(Vec::new());
    assert_eq!(node.focus(Direction::Forwards), State::Ignored);
    assert!(!node.has_focus());
}

#[test]
fn absent_optional_ignores() {
    let mut node = Node::Optional(None);
    for _ in 0..3 {
        assert_eq!(node.focus(Direction::Forwards), State::Ignored);
        assert_eq!(node.focus(Direction::Backwards), State::Ignored);
        assert!(!node.has_focus());
        assert!(matches!(node, Node::Optional(None)));
    }
}

#[test]
fn present_optional_deleenablement() {
    let mut node = Node::Optional(Some(Box::new(leaf())));
    assert_eq!(node.focus(Direction::Forwards), State::Kept);
    assert!(node.has_focus());
    assert_eq!(node.focus(Direction::Forwards), State::Returned);
    assert!(!node.has_focus());
}

#[test]
fn group_condition_false_skips_member() {
    let mut g = Group::new().with(leaf(), Enabled::Always).with(leaf(), Enabled::When(false));
    assert_eq!(g.focus(Direction::Forwards), State::Kept);
    assert!(g.child(0).has_focus());
    assert!(!g.child(1).has_focus());
    assert_eq!(g.focus(Direction::Forwards), State::Returned);
    assert!(!g.has_focus());
    assert!(!g.child(0).has_focus());
    assert!(!g.child(1).has_focus());
}

#[test]
fn group_condition_true_visits_member() {
    let mut g = Group::new().with(leaf(), Enabled::Always).with(leaf(), Enabled::When(true));
    assert_eq!(g.focus(Direction::Forwards), State::Kept);
    assert!(g.child(0).has_focus());
    assert_eq!(g.focus(Direction::Forwards), State::Kept);
    assert!(!g.child(0).has_focus());
    assert!(g.child(1).has_focus());
    assert_eq!(g.focus(Direction::Forwards), State::Returned);
    assert!(!g.has_focus());
}

#[test]
fn group_disabled_focused_member_is_not_counted() {
    let mut g = Group::new().with(leaf(), Enabled::Always).with(leaf(), Enabled::When(true));
    assert_eq!(g.focus(Direction::Forwards), State::Kept);
    assert_eq!(g.focus(Direction::Forwards), State::Kept);
    assert!(g.child(1).has_focus());
    g.set_enabled(1, Enabled::When(false));
    assert_eq!(g.enabled(1), Enabled::When(false));
    assert!(!g.has_focus());
    assert!(g.child(1).has_focus());
    g.set_enabled(1, Enabled::When(true));
    assert_eq!(g.focus(Direction::Forwards), State::Returned);
    assert!(!g.has_focus());
    assert!(!g.child(0).has_focus());
    assert!(!g.child(1).has_focus());
}

#[test]
fn group_all_disabled_ignores() {
    let mut g = Group::new().with(leaf(), Enabled::When(false)).with(leaf(), Enabled::When(false));
    assert_eq!(g.focus(Direction::Forwards), State::Ignored);
    assert_eq!(g.focus(Direction::Backwards), State::Ignored);
    assert!(!g.has_focus());
    let mut empty = Group::new();
    assert_eq!(empty.len(), 0);
    assert_eq!(empty.focus(Direction::Forwards), State::Ignored);
}

#[test]
fn nested_sequence_forward_order() {
    let mut root = vec![leaf(), Node::Sequence(leaves(2)), leaf()];
    let expect: [(usize, Option<usize>); 4] = [(0, None), (1, Some(0)), (1, Some(1)), (2, None)];
    for (top, inner) in expect {
        assert_eq!(root.focus(Direction::Forwards), State::Kept);
        assert_eq!(focused_positions(&root), vec![top]);
        let inner_focus = focused_positions(sequence_of(&root[1]));
        assert_eq!(inner_focus, inner.into_iter().collect::<Vec<_>>());
    }
    assert_eq!(root.focus(Direction::Forwards), State::Returned);
    assert!(!root.has_focus());
}

#[test]
fn nested_sequence_backward_order() {
    let mut root = vec![leaf(), Node::Sequence(leaves(2)), leaf()];
    let expect: [(usize, Option<usize>); 4] = [(2, None), (1, Some(1)), (1, Some(0)), (0, None)];
    for (top, inner) in expect {
        assert_eq!(root.focus(Direction::Backwards), State::Kept);
        assert_eq!(focused_positions(&root), vec![top]);
        let inner_focus = focused_positions(sequence_of(&root[1]));
        assert_eq!(inner_focus, inner.into_iter().collect::<Vec<_>>());
    }
    assert_eq!(root.focus(Direction::Backwards), State::Returned);
    assert!(!root.has_focus());
}

#[test]
fn scan_skips_empty_members() {
    let mut root = vec![
        leaf(),
        Node::Optional(None),
        Node::Sequence(Vec::new()),
        leaf(),
    ];
    assert_eq!(root.focus(Direction::Forwards), State::Kept);
    assert_eq!(focused_positions(&root), vec![0]);
    assert_eq!(root.focus(Direction::Forwards), State::Kept);
    assert_eq!(focused_positions(&root), vec![3]);
    assert_eq!(root.focus(Direction::Backwards), State::Kept);
    assert_eq!(focused_positions(&root), vec![0]);
}

#[test]
fn scan_exhausted_gives_ignored() {
    let mut root = vec![leaf(), Node::Optional(None), Node::Sequence(Vec::new())];
    assert_eq!(root.focus(Direction::Forwards), State::Kept);
    assert_eq!(root.focus(Direction::Forwards), State::Ignored);
    assert!(!root.has_focus());
}

#[test]
fn entry_does_not_skip_empty_boundary() {
    let mut root = vec![Node::Optional(None), leaf()];
    assert_eq!(root.focus(Direction::Forwards), State::Ignored);
    assert!(!root.has_focus());
    assert_eq!(root.focus(Direction::Backwards), State::Kept);
    assert_eq!(focused_positions(&root), vec![1]);
}

#[test]
fn group_of_leaf_sequence_leaf() {
    let mut g = Group::new()
        .with(leaf(), Enabled::Always)
        .with(Node::Sequence(leaves(3)), Enabled::Always)
        .with(leaf(), Enabled::Always);
    assert_eq!(g.focus(Direction::Forwards), State::Kept);
    assert!(g.child(0).has_focus());
    for k in 0..3 {
        assert_eq!(g.focus(Direction::Forwards), State::Kept);
        assert!(!g.child(0).has_focus());
        assert_eq!(focused_positions(sequence_of(g.child(1))), vec![k]);
    }
    assert_eq!(g.focus(Direction::Forwards), State::Kept);
    assert!(g.child(2).has_focus());
    assert!(!g.child(1).has_focus());
    assert_eq!(g.focus(Direction::Forwards), State::Returned);
    assert!(!g.has_focus());
}

#[test]
fn group_with_empty_sequence_member() {
    let mut g = Group::new()
        .with(leaf(), Enabled::Always)
        .with(Node::Sequence(Vec::new()), Enabled::Always)
        .with(leaf(), Enabled::Always);
    assert_eq!(g.focus(Direction::Forwards), State::Kept);
    assert!(g.child(0).has_focus());
    assert_eq!(g.focus(Direction::Forwards), State::Kept);
    assert!(g.child(2).has_focus());
    assert_eq!(g.focus(Direction::Forwards), State::Returned);
    assert!(!g.has_focus());
}
