use vstd::prelude::*;

use crate::model::{
    Direction, Enabled, State, Tree, all_on, any_on, at_bound, enabled_mask, entry, focused_below,
    lemma_entry_unique, lemma_focused_below, lemma_holder_unique, list_focused, next, scan,
    step_list,
};

verus! {

broadcast use vstd::seq::axiom_seq_index_decreases;

/// A sequence of `n` leaves in which only the leaf at position `k` is
/// focused (none when `k` is out of range).
pub open spec fn row(n: nat, k: int) -> Tree {
    Tree::Sequence(Seq::new(n, |i: int| Tree::Leaf(i == k)))
}

/// The position of the leaf focused after the `m`-th request in direction
/// `d` on a fresh row of `n` leaves.
pub open spec fn visit(n: nat, d: Direction, m: int) -> int {
    match d {
        Direction::Forwards => m - 1,
        Direction::Backwards => n - m,
    }
}

/// `m` requests in direction `d` one after the other: the tree after the
/// last, and the outcome of each in order.
pub open spec fn steps(t: Tree, d: Direction, m: nat) -> (Tree, Seq<State>)
    decreases m,
{
    if m == 0 {
        (t, Seq::empty())
    } else {
        let (t1, rs) = steps(t, d, (m - 1) as nat);
        let (t2, r) = t1.step(d);
        (t2, rs.push(r))
    }
}

/// Every leaf of a row but the one at `k` is unfocused.
proof fn lemma_row_unfocused_leaf(n: nat, k: int, i: int)
    requires
        0 <= i < n,
        i != k,
    ensures
        !(row(n, k)->Sequence_0[i]).focused(),
{
}

/// The first request on an unfocused row focuses its entry leaf.
proof fn lemma_row_enter(n: nat, d: Direction)
    requires
        n > 0,
    ensures
        row(n, -1).step(d) == (row(n, visit(n, d, 1)), State::Kept),
{
    let cs = row(n, -1)->Sequence_0;
    let on = all_on(n);
    let b = visit(n, d, 1);
    assert(on[b]);
    assert(any_on(on));
    assert(!list_focused(cs, on)) by {
        assert forall|i: int| 0 <= i < cs.len() && on[i] implies !(#[trigger] cs[i]).focused() by {
            lemma_row_unfocused_leaf(n, -1, i);
        }
    }
    lemma_entry_unique(on, d, b);
    assert(entry(on, d) == b);
    let (c, r) = cs[b].step(d);
    assert(cs.update(b, c) =~= row(n, b)->Sequence_0);
    assert(step_list(cs, on, d) == (cs.update(b, c), r));
}

/// A request on a row focused at a position that is not the last in
/// direction `d` moves the focus one position on.
proof fn lemma_row_advance(n: nat, d: Direction, m: int)
    requires
        1 <= m < n,
    ensures
        row(n, visit(n, d, m)).step(d) == (row(n, visit(n, d, m + 1)), State::Kept),
{
    let k = visit(n, d, m);
    let j = visit(n, d, m + 1);
    let cs = row(n, k)->Sequence_0;
    let on = all_on(n);
    assert(next(k, d) == j);
    assert forall|i: int| 0 <= i < k && on[i] implies !(#[trigger] cs[i]).focused() by {
        lemma_row_unfocused_leaf(n, k, i);
    }
    lemma_holder_unique(cs, on, k);
    assert(on[k] && any_on(on));
    assert(on[j]);
    assert(!at_bound(on, k, d));
    let (c, r) = cs[k].step(d);
    assert(r == State::Returned);
    let (cj, rj) = cs[j].step(d);
    assert(rj == State::Kept);
    assert(scan(cs, on, d, j) == (cs.update(j, cj), State::Kept));
    assert(cs.update(j, cj).update(k, c) =~= row(n, j)->Sequence_0);
    assert(step_list(cs, on, d) == (cs.update(j, cj).update(k, c), State::Kept));
}

/// A request on a row focused at its last position in direction `d` hands
/// the focus back and leaves the row unfocused.
proof fn lemma_row_leave(n: nat, d: Direction)
    requires
        n > 0,
    ensures
        row(n, visit(n, d, n as int)).step(d) == (row(n, -1), State::Returned),
{
    let k = visit(n, d, n as int);
    let cs = row(n, k)->Sequence_0;
    let on = all_on(n);
    assert forall|i: int| 0 <= i < k && on[i] implies !(#[trigger] cs[i]).focused() by {
        lemma_row_unfocused_leaf(n, k, i);
    }
    lemma_holder_unique(cs, on, k);
    assert(on[k] && any_on(on));
    assert(at_bound(on, k, d));
    let (c, r) = cs[k].step(d);
    assert(cs.update(k, c) =~= row(n, -1)->Sequence_0);
    assert(step_list(cs, on, d) == (cs.update(k, c), State::Returned));
}

/// The first `m` requests on a fresh row each keep the focus.
proof fn lemma_row_run(n: nat, d: Direction, m: nat)
    requires
        n > 0,
        1 <= m <= n,
    ensures
        steps(row(n, -1), d, m) == (row(n, visit(n, d, m as int)), Seq::new(m, |i: int| State::Kept)),
    decreases m,
{
    if m == 1 {
        lemma_row_enter(n, d);
        assert(steps(row(n, -1), d, 0) == (row(n, -1), Seq::<State>::empty()));
        assert(Seq::<State>::empty().push(State::Kept) =~= Seq::new(1, |i: int| State::Kept));
    } else {
        lemma_row_run(n, d, (m - 1) as nat);
        lemma_row_advance(n, d, m - 1);
        assert(Seq::new((m - 1) as nat, |i: int| State::Kept).push(State::Kept) =~= Seq::new(m, |i: int| State::Kept));
    }
}

/// A row of `n > 0` leaves, none focused, under `n` requests in direction
/// `d`: each keeps the focus, the `m`-th on the `m`-th leaf in the order of
/// travel (from the first leaf forwards, from the last backwards); the next
/// request hands the focus back, after which no leaf of the row is focused.
pub proof fn lemma_row_traversal(n: nat, d: Direction)
    requires
        n > 0,
    ensures
        forall|m: nat| 1 <= m <= n ==> (#[trigger] steps(row(n, -1), d, m)).0 == row(n, visit(n, d, m as int)),
        steps(row(n, -1), d, n + 1) == (row(n, -1), Seq::new(n, |i: int| State::Kept).push(State::Returned)),
        !row(n, -1).focused(),
{
    assert forall|m: nat| 1 <= m <= n implies (#[trigger] steps(row(n, -1), d, m)).0 == row(n, visit(n, d, m as int)) by {
        lemma_row_run(n, d, m);
    }
    lemma_row_run(n, d, n);
    lemma_row_leave(n, d);
    lemma_focused_below(row(n, -1)->Sequence_0, all_on(n), n as int);
}

/// Backwards traversal of a fresh row visits the leaves of the forward
/// traversal in reverse order, with the same outcomes.
pub proof fn lemma_row_reverse(n: nat)
    requires
        n > 0,
    ensures
        forall|m: nat|
            1 <= m <= n ==> (#[trigger] steps(row(n, -1), Direction::Backwards, m)).0 == steps(
                row(n, -1),
                Direction::Forwards,
                (n + 1 - m) as nat,
            ).0,
        steps(row(n, -1), Direction::Backwards, n + 1).1 == steps(row(n, -1), Direction::Forwards, n + 1).1,
{
    lemma_row_traversal(n, Direction::Forwards);
    lemma_row_traversal(n, Direction::Backwards);
    assert forall|m: nat| 1 <= m <= n implies (#[trigger] steps(row(n, -1), Direction::Backwards, m)).0
        == steps(row(n, -1), Direction::Forwards, (n + 1 - m) as nat).0 by {
        assert(1 <= (n + 1 - m) as nat <= n);
    }
}

/// An empty sequence ignores every request and never holds the focus.
pub proof fn lemma_empty_sequence(d: Direction)
    ensures
        Tree::Sequence(Seq::empty()).step(d) == (Tree::Sequence(Seq::empty()), State::Ignored),
        !Tree::Sequence(Seq::empty()).focused(),
{
    let on = all_on(0);
    assert(!any_on(on));
    assert(step_list(Seq::empty(), on, d) == (Seq::<Tree>::empty(), State::Ignored));
    assert(!focused_below(Seq::empty(), on, 0));
}

/// An absent optional ignores every request, stays as it is, and never
/// holds the focus.
pub proof fn lemma_absent_optional(d: Direction)
    ensures
        Tree::Optional(None).step(d) == (Tree::Optional(None), State::Ignored),
        !Tree::Optional(None).focused(),
{
}

/// A group none of whose members is enabled ignores every request, stays
/// as it is, and does not count as holding the focus.
pub proof fn lemma_disabled_group(cs: Seq<Tree>, es: Seq<Enabled>, d: Direction)
    requires
        forall|i: int| 0 <= i < es.len() ==> !(#[trigger] es[i]).spec_holds(),
    ensures
        Tree::Group(cs, es).step(d) == (Tree::Group(cs, es), State::Ignored),
        !Tree::Group(cs, es).focused(),
{
    let on = enabled_mask(cs.len(), es);
    assert(!any_on(on));
    assert(step_list(cs, on, d) == (cs, State::Ignored));
    lemma_focused_below(cs, on, cs.len() as int);
}

impl Tree {
    /// No leaf of the tree is focused, whether it takes part or not.
    pub open spec fn clear(self) -> bool
        decreases self, 1int,
    {
        match self {
            Tree::Leaf(b) => !b,
            Tree::Optional(None) => true,
            Tree::Optional(Some(c)) => c.clear(),
            Tree::Sequence(cs) => clear_below(cs, cs.len() as int),
            Tree::Group(cs, gs) => clear_below(cs, cs.len() as int),
        }
    }
}

/// No child below position `n` has a focused leaf.
pub open spec fn clear_below(cs: Seq<Tree>, n: int) -> bool
    decreases cs, n,
{
    if n <= 0 || n > cs.len() {
        true
    } else {
        clear_below(cs, n - 1) && cs[n - 1].clear()
    }
}

/// Each child of a clear list is clear.
proof fn lemma_clear_below(cs: Seq<Tree>, n: int, i: int)
    requires
        0 <= i < n <= cs.len(),
        clear_below(cs, n),
    ensures
        cs[i].clear(),
    decreases n,
{
    if i < n - 1 {
        lemma_clear_below(cs, n - 1, i);
    }
}

/// A tree none of whose leaves is focused, as every tree is when freshly
/// built, does not hold the focus; its parts are such trees too.
pub proof fn lemma_clear_unfocused(t: Tree)
    requires
        t.clear(),
    ensures
        !t.focused(),
    decreases t,
{
    match t {
        Tree::Leaf(_) => {},
        Tree::Optional(None) => {},
        Tree::Optional(Some(c)) => {
            lemma_clear_unfocused(*c);
        },
        Tree::Sequence(cs) => {
            lemma_clear_children(cs, all_on(cs.len()));
        },
        Tree::Group(cs, gs) => {
            lemma_clear_children(cs, enabled_mask(cs.len(), gs));
        },
    }
}

/// No child of a clear list is focused.
proof fn lemma_clear_children(cs: Seq<Tree>, on: Seq<bool>)
    requires
        clear_below(cs, cs.len() as int),
    ensures
        !focused_below(cs, on, cs.len() as int),
    decreases cs, 0int,
{
    lemma_focused_below(cs, on, cs.len() as int);
    if focused_below(cs, on, cs.len() as int) {
        let i = choose|i: int| 0 <= i < cs.len() && on[i] && #[trigger] cs[i].focused();
        lemma_clear_below(cs, cs.len() as int, i);
        lemma_clear_unfocused(cs[i]);
    }
}

} // verus!
