use vstd::prelude::*;

verus! {

broadcast use vstd::seq::axiom_seq_index_decreases;

/// The direction of a focus request along the focus chain.
#[derive(Clone, Copy, Debug, PartialEq, Eq, Structural)]
pub enum Direction {
    /// Towards the end of each ordered container.
    Forwards,
    /// Towards the start of each ordered container.
    Backwards,
}

/// The outcome of a focus request on a focusable element.
#[derive(Clone, Copy, Debug, PartialEq, Eq, Structural)]
pub enum State {
    /// A descendant holds the focus after the request.
    Kept,
    /// The element held the focus and passed it on past its own boundary.
    Returned,
    /// Nothing could take the focus.
    Ignored,
}

/// Whether a member of a group takes part in traversal.
#[derive(Clone, Copy, Debug, PartialEq, Eq, Structural)]
pub enum Enabled {
    /// The member always takes part.
    Always,
    /// The member takes part while the host's condition holds; the host
    /// keeps the flag current.
    When(bool),
}

impl Enabled {
    /// Whether the member takes part now.
    pub open spec fn spec_holds(self) -> bool {
        match self {
            Enabled::Always => true,
            Enabled::When(b) => b,
        }
    }

    /// Whether the member takes part now.
    pub fn holds(&self) -> (r: bool)
        ensures
            r == self.spec_holds(),
    {
        match self {
            Enabled::Always => true,
            Enabled::When(b) => *b,
        }
    }
}

/// The mathematical shape of a focus tree: what traversal reads and writes.
pub enum Tree {
    /// One element's focused flag.
    Leaf(bool),
    /// Zero or one child.
    Optional(Option<Box<Tree>>),
    /// An ordered list of children, all of which take part.
    Sequence(Seq<Tree>),
    /// An ordered list of children, each with its enablement.
    Group(Seq<Tree>, Seq<Enabled>),
}

/// Every position of a list of `n` children takes part.
pub open spec fn all_on(n: nat) -> Seq<bool> {
    Seq::new(n, |i: int| true)
}

/// The positions of a group that take part: those currently enabled.
pub open spec fn enabled_mask(n: nat, enablement: Seq<Enabled>) -> Seq<bool> {
    Seq::new(n, |i: int| i < enablement.len() && enablement[i].spec_holds())
}

/// Some taking-part position of `cs` holds a focused child.
pub open spec fn list_focused(cs: Seq<Tree>, on: Seq<bool>) -> bool {
    exists|i: int| 0 <= i < cs.len() && on[i] && #[trigger] cs[i].focused()
}

/// Some taking-part position below `n` holds a focused child.
pub open spec fn focused_below(cs: Seq<Tree>, on: Seq<bool>, n: int) -> bool
    decreases cs, n,
{
    if n <= 0 || n > cs.len() {
        false
    } else {
        focused_below(cs, on, n - 1) || (on[n - 1] && cs[n - 1].focused())
    }
}

impl Tree {
    /// What `has_focus` answers: some leaf reachable through taking-part
    /// positions is focused.
    pub open spec fn focused(self) -> bool
        decreases self, 1int,
    {
        match self {
            Tree::Leaf(b) => b,
            Tree::Optional(None) => false,
            Tree::Optional(Some(c)) => c.focused(),
            Tree::Sequence(cs) => focused_below(cs, all_on(cs.len()), cs.len() as int),
            Tree::Group(cs, gs) => focused_below(cs, enabled_mask(cs.len(), gs), cs.len() as int),
        }
    }

    /// What `focus(d)` does: the tree after the request, and its outcome.
    pub open spec fn step(self, d: Direction) -> (Tree, State)
        decreases self, 0int,
    {
        match self {
            Tree::Leaf(b) => if b {
                (Tree::Leaf(false), State::Returned)
            } else {
                (Tree::Leaf(true), State::Kept)
            },
            Tree::Optional(None) => (self, State::Ignored),
            Tree::Optional(Some(c)) => {
                let (c2, r) = c.step(d);
                (Tree::Optional(Some(Box::new(c2))), r)
            },
            Tree::Sequence(cs) => {
                let (cs2, r) = step_list(cs, all_on(cs.len()), d);
                (Tree::Sequence(cs2), r)
            },
            Tree::Group(cs, gs) => {
                let (cs2, r) = step_list(cs, enabled_mask(cs.len(), gs), d);
                (Tree::Group(cs2, gs), r)
            },
        }
    }
}

/// Some position of `on` takes part.
pub open spec fn any_on(on: Seq<bool>) -> bool {
    exists|i: int| 0 <= i < on.len() && #[trigger] on[i]
}

/// No position beyond `i`, in direction `d`, takes part.
pub open spec fn at_bound(on: Seq<bool>, i: int, d: Direction) -> bool {
    match d {
        Direction::Forwards => forall|j: int| i < j < on.len() ==> !#[trigger] on[j],
        Direction::Backwards => forall|j: int| 0 <= j < i ==> !#[trigger] on[j],
    }
}

/// The position through which a request in direction `d` enters: the first
/// taking-part position going forwards, the last going backwards.
pub open spec fn entry(on: Seq<bool>, d: Direction) -> int {
    let opposite = match d {
        Direction::Forwards => Direction::Backwards,
        Direction::Backwards => Direction::Forwards,
    };
    choose|i: int| 0 <= i < on.len() && on[i] && at_bound(on, i, opposite)
}

/// The first taking-part position whose child is focused.
pub open spec fn holder(cs: Seq<Tree>, on: Seq<bool>) -> int {
    choose|i: int|
        0 <= i < cs.len() && on[i] && cs[i].focused() && forall|j: int|
            0 <= j < i && on[j] ==> !(#[trigger] cs[j]).focused()
}

/// The position after `i` in direction `d`.
pub open spec fn next(i: int, d: Direction) -> int {
    match d {
        Direction::Forwards => i + 1,
        Direction::Backwards => i - 1,
    }
}

/// How many positions are left from `j` on, in direction `d`.
pub open spec fn left_from(len: nat, j: int, d: Direction) -> int {
    match d {
        Direction::Forwards => len - j,
        Direction::Backwards => j + 1,
    }
}

/// The scan past a child that returned the focus: from position `j` on, in
/// direction `d`, each taking-part child gets the request until one keeps
/// it (`Kept`); when none does, `Ignored`.
pub open spec fn scan(cs: Seq<Tree>, on: Seq<bool>, d: Direction, j: int) -> (Seq<Tree>, State)
    decreases cs, left_from(cs.len(), j, d),
{
    if j < 0 || j >= cs.len() {
        (cs, State::Ignored)
    } else if !on[j] {
        scan(cs, on, d, next(j, d))
    } else {
        let (c, r) = cs[j].step(d);
        if r == State::Kept {
            (cs.update(j, c), State::Kept)
        } else {
            let (rest, r2) = scan(cs, on, d, next(j, d));
            (rest.update(j, c), r2)
        }
    }
}

/// The ordered-container rule, applied to the taking-part positions of `cs`.
pub open spec fn step_list(cs: Seq<Tree>, on: Seq<bool>, d: Direction) -> (Seq<Tree>, State)
    decreases cs, cs.len() + 2,
    via step_list_decreases
{
    if !any_on(on) || on.len() != cs.len() {
        (cs, State::Ignored)
    } else if !list_focused(cs, on) {
        let b = entry(on, d);
        let (c, r) = cs[b].step(d);
        (cs.update(b, c), r)
    } else {
        let i = holder(cs, on);
        let (c, r) = cs[i].step(d);
        if r != State::Returned {
            (cs.update(i, c), r)
        } else if at_bound(on, i, d) {
            (cs.update(i, c), State::Returned)
        } else {
            let (rest, r2) = scan(cs, on, d, next(i, d));
            (rest.update(i, c), r2)
        }
    }
}

/// The recursive count of focused children agrees with the direct one.
pub proof fn lemma_focused_below(cs: Seq<Tree>, on: Seq<bool>, n: int)
    requires
        0 <= n <= cs.len(),
    ensures
        focused_below(cs, on, n) <==> exists|i: int| 0 <= i < n && on[i] && #[trigger] cs[i].focused(),
    decreases n,
{
    if n > 0 {
        lemma_focused_below(cs, on, n - 1);
        if on[n - 1] && cs[n - 1].focused() {
            assert(0 <= n - 1 < n && on[n - 1] && cs[n - 1].focused());
        }
        if exists|i: int| 0 <= i < n && on[i] && #[trigger] cs[i].focused() {
            let i = choose|i: int| 0 <= i < n && on[i] && #[trigger] cs[i].focused();
            if i < n - 1 {
                assert(focused_below(cs, on, n - 1));
            }
        }
    }
}

/// A sequence or group is focused exactly when one of its taking-part
/// children is.
pub proof fn lemma_focused_list(t: Tree)
    ensures
        t matches Tree::Sequence(cs) ==> t.focused() == list_focused(cs, all_on(cs.len())),
        t matches Tree::Group(cs, gs) ==> t.focused() == list_focused(cs, enabled_mask(cs.len(), gs)),
{
    match t {
        Tree::Sequence(cs) => lemma_focused_below(cs, all_on(cs.len()), cs.len() as int),
        Tree::Group(cs, gs) => lemma_focused_below(cs, enabled_mask(cs.len(), gs), cs.len() as int),
        _ => {},
    }
}

/// The entry and holder positions lie inside the list.
#[via_fn]
proof fn step_list_decreases(cs: Seq<Tree>, on: Seq<bool>, d: Direction) {
    if any_on(on) && on.len() == cs.len() {
        if !list_focused(cs, on) {
            lemma_entry_exists(on, d);
        } else {
            lemma_holder_exists(cs, on);
        }
    }
}

/// A property that holds somewhere in `0..=n` holds first somewhere.
proof fn lemma_least(p: spec_fn(int) -> bool, n: int)
    requires
        0 <= n,
        p(n),
    ensures
        exists|i: int| 0 <= i <= n && #[trigger] p(i) && forall|j: int| 0 <= j < i ==> !#[trigger] p(j),
    decreases n,
{
    if exists|j: int| 0 <= j < n && #[trigger] p(j) {
        let j = choose|j: int| 0 <= j < n && #[trigger] p(j);
        lemma_least(p, j);
    }
}

/// A property that holds somewhere in `n..len` holds last somewhere.
proof fn lemma_greatest(p: spec_fn(int) -> bool, n: int, len: int)
    requires
        0 <= n < len,
        p(n),
    ensures
        exists|i: int| n <= i < len && #[trigger] p(i) && forall|j: int| i < j < len ==> !#[trigger] p(j),
    decreases len - n,
{
    if exists|j: int| n < j < len && #[trigger] p(j) {
        let j = choose|j: int| n < j < len && #[trigger] p(j);
        lemma_greatest(p, j, len);
    }
}

/// When some position takes part, the entry position is one, and none
/// takes part before it in the direction of travel.
proof fn lemma_entry_exists(on: Seq<bool>, d: Direction)
    requires
        any_on(on),
    ensures
        0 <= entry(on, d) < on.len(),
        on[entry(on, d)],
        d == Direction::Forwards ==> at_bound(on, entry(on, d), Direction::Backwards),
        d == Direction::Backwards ==> at_bound(on, entry(on, d), Direction::Forwards),
{
    let k = choose|k: int| 0 <= k < on.len() && on[k];
    let p = |i: int| 0 <= i < on.len() && on[i];
    match d {
        Direction::Forwards => {
            lemma_least(p, k);
            let i = choose|i: int| 0 <= i <= k && #[trigger] p(i) && forall|j: int| 0 <= j < i ==> !#[trigger] p(j);
            assert(at_bound(on, i, Direction::Backwards)) by {
                assert forall|j: int| 0 <= j < i implies !#[trigger] on[j] by {
                    assert(!p(j));
                }
            }
        },
        Direction::Backwards => {
            lemma_greatest(p, k, on.len() as int);
            let i = choose|i: int| k <= i < on.len() && #[trigger] p(i) && forall|j: int| i < j < on.len() ==> !#[trigger] p(j);
            assert(at_bound(on, i, Direction::Forwards)) by {
                assert forall|j: int| i < j < on.len() implies !#[trigger] on[j] by {
                    assert(!p(j));
                }
            }
        },
    }
}

/// The scan keeps the number of children.
proof fn lemma_scan_len(cs: Seq<Tree>, on: Seq<bool>, d: Direction, j: int)
    ensures
        scan(cs, on, d, j).0.len() == cs.len(),
    decreases left_from(cs.len(), j, d),
{
    if 0 <= j < cs.len() {
        lemma_scan_len(cs, on, d, next(j, d));
    }
}

/// The scan from `j` never touches a position behind `j`: changing one
/// before the scan changes the scan's outcome at that position alone.
pub proof fn lemma_scan_frame(cs: Seq<Tree>, on: Seq<bool>, d: Direction, j: int, k: int, x: Tree)
    requires
        0 <= k < cs.len(),
        d == Direction::Forwards ==> k < j,
        d == Direction::Backwards ==> j < k,
    ensures
        scan(cs.update(k, x), on, d, j) == (scan(cs, on, d, j).0.update(k, x), scan(cs, on, d, j).1),
    decreases left_from(cs.len(), j, d),
{
    let cs1 = cs.update(k, x);
    if j < 0 || j >= cs.len() {
    } else if !on[j] {
        lemma_scan_frame(cs, on, d, next(j, d), k, x);
    } else {
        assert(cs1[j] == cs[j]);
        let (c, r) = cs[j].step(d);
        if r == State::Kept {
            assert(cs1.update(j, c) =~= cs.update(j, c).update(k, x));
        } else {
            lemma_scan_frame(cs, on, d, next(j, d), k, x);
            lemma_scan_len(cs, on, d, next(j, d));
            let rest = scan(cs, on, d, next(j, d)).0;
            assert(rest.update(k, x).update(j, c) =~= rest.update(j, c).update(k, x));
        }
    }
}

/// A taking-part position with none before it in the direction of travel
/// is the entry position.
pub proof fn lemma_entry_unique(on: Seq<bool>, d: Direction, b: int)
    requires
        0 <= b < on.len(),
        on[b],
        d == Direction::Forwards ==> at_bound(on, b, Direction::Backwards),
        d == Direction::Backwards ==> at_bound(on, b, Direction::Forwards),
    ensures
        entry(on, d) == b,
{
    lemma_entry_exists(on, d);
    let e = entry(on, d);
    assert(on[e]);
    assert(on[b]);
}

/// The first taking-part focused position is the holder.
pub proof fn lemma_holder_unique(cs: Seq<Tree>, on: Seq<bool>, i: int)
    requires
        0 <= i < cs.len(),
        on[i],
        cs[i].focused(),
        forall|j: int| 0 <= j < i && on[j] ==> !(#[trigger] cs[j]).focused(),
    ensures
        list_focused(cs, on),
        holder(cs, on) == i,
{
    assert(on[i] && cs[i].focused());
    lemma_holder_exists(cs, on);
    let h = holder(cs, on);
    assert(on[h] && cs[h].focused());
}

/// When some taking-part child is focused, the holder is the first such.
pub proof fn lemma_holder_exists(cs: Seq<Tree>, on: Seq<bool>)
    requires
        list_focused(cs, on),
    ensures
        0 <= holder(cs, on) < cs.len(),
        on[holder(cs, on)],
        cs[holder(cs, on)].focused(),
        forall|j: int| 0 <= j < holder(cs, on) && on[j] ==> !(#[trigger] cs[j]).focused(),
{
    assert(exists|k: int| 0 <= k < cs.len() && on[k] && #[trigger] cs[k].focused());
    let k = choose|k: int| 0 <= k < cs.len() && on[k] && #[trigger] cs[k].focused();
    let p = |i: int| 0 <= i < cs.len() && on[i] && cs[i].focused();
    lemma_least(p, k);
    let i = choose|i: int| 0 <= i <= k && #[trigger] p(i) && forall|j: int| 0 <= j < i ==> !#[trigger] p(j);
    assert forall|j: int| 0 <= j < i && on[j] implies !(#[trigger] cs[j]).focused() by {
        assert(!p(j));
    }
}

} // verus!
