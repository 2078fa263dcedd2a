use vstd::prelude::*;

use crate::model::{
    Direction, Enabled, State, Tree, all_on, any_on, at_bound, enabled_mask, entry, holder,
    lemma_entry_unique, lemma_focused_list, lemma_holder_exists, lemma_scan_frame, list_focused,
    next, scan, step_list,
};

verus! {

broadcast use vstd::std_specs::vec::axiom_vec_index_decreases;

/// An element of the application's state that takes part in the focus chain.
pub trait Focus {
    /// The element as a focus tree.
    spec fn tree(&self) -> Tree;

    /// Requests the focus in the given direction.
    fn focus(&mut self, direction: Direction) -> (r: State)
        ensures
            (final(self).tree(), r) == old(self).tree().step(direction),
    ;

    /// Whether this element holds the focus.
    fn has_focus(&self) -> (r: bool)
        ensures
            r == self.tree().focused(),
    ;
}

/// One interactive element's focused flag.
pub struct Leaf {
    /// Whether the element holds the focus.
    pub focused: bool,
}

impl Leaf {
    /// A leaf that does not hold the focus.
    pub fn new() -> (r: Leaf)
        ensures
            r.tree() == Tree::Leaf(false),
    {
        Leaf { focused: false }
    }
}

impl Focus for Leaf {
    open spec fn tree(&self) -> Tree {
        Tree::Leaf(self.focused)
    }

    fn focus(&mut self, _direction: Direction) -> (r: State) {
        if self.focused {
            self.focused = false;
            State::Returned
        } else {
            self.focused = true;
            State::Kept
        }
    }

    fn has_focus(&self) -> (r: bool) {
        self.focused
    }
}

/// A fixed, ordered list of children, each with its enablement.
pub struct Group {
    children: Vec<Node>,
    enablement: Vec<Enabled>,
}

/// A node of a focus tree.
pub enum Node {
    /// One element's focused flag.
    Leaf(Leaf),
    /// Zero or one child.
    Optional(Option<Box<Node>>),
    /// An ordered list of children, all of which take part.
    Sequence(Vec<Node>),
    /// A fixed list of children, each taking part while it is enabled.
    Group(Group),
}

impl Node {
    /// The node as a focus tree.
    pub open spec fn model(&self) -> Tree
        decreases self, 1int,
    {
        match self {
            Node::Leaf(l) => Tree::Leaf(l.focused),
            Node::Optional(None) => Tree::Optional(None),
            Node::Optional(Some(c)) => Tree::Optional(Some(Box::new(c.model()))),
            Node::Sequence(v) => Tree::Sequence(
                Seq::new(v.len() as nat, |i: int| if 0 <= i < v.len() { v[i].model() } else { Tree::Leaf(false) }),
            ),
            Node::Group(g) => g.model(),
        }
    }
}

impl Group {
    /// The group as a focus tree.
    pub closed spec fn model(&self) -> Tree
        decreases self, 0int,
    {
        Tree::Group(
            Seq::new(
                self.children.len() as nat,
                |i: int| if 0 <= i < self.children.len() { self.children[i].model() } else { Tree::Leaf(false) },
            ),
            self.enablement@,
        )
    }
}

/// The models of a list of nodes.
pub open spec fn models(v: Seq<Node>) -> Seq<Tree> {
    Seq::new(v.len(), |i: int| v[i].model())
}

/// A sequence node's tree lists its children's trees.
proof fn lemma_sequence_model(v: &Vec<Node>)
    ensures
        Node::Sequence(*v).model() == Tree::Sequence(models(v@)),
{
    assert(Node::Sequence(*v).model()->Sequence_0 =~= models(v@));
}

/// A group's tree lists its children's trees and their enablement.
proof fn lemma_group_model(g: &Group)
    ensures
        g.model() == Tree::Group(models(g.children@), g.enablement@),
{
    assert(g.model()->Group_0 =~= models(g.children@));
}

/// The taking-part positions of a list of `n` children: all of them for a
/// sequence, the currently enabled ones for a group.
pub open spec fn on_of(n: nat, enablement: Option<&Vec<Enabled>>) -> Seq<bool> {
    match enablement {
        None => all_on(n),
        Some(gs) => enabled_mask(n, gs@),
    }
}

/// Whether position `i` of a list of `n` children takes part.
fn takes_part(enablement: Option<&Vec<Enabled>>, n: usize, i: usize) -> (r: bool)
    requires
        i < n,
    ensures
        r == on_of(n as nat, enablement)[i as int],
{
    match enablement {
        None => true,
        Some(g) => i < g.len() && g[i].holds(),
    }
}

/// Whether some leaf reachable through taking-part positions is focused.
fn node_has_focus(node: &Node) -> (r: bool)
    ensures
        r == node.model().focused(),
    decreases node,
{
    match node {
        Node::Leaf(l) => l.focused,
        Node::Optional(None) => false,
        Node::Optional(Some(c)) => node_has_focus(c),
        Node::Sequence(v) => {
            proof {
                lemma_sequence_model(v);
                lemma_focused_list(Tree::Sequence(models(v@)));
            }
            first_focused(v, None).is_some()
        },
        Node::Group(g) => {
            proof {
                lemma_group_model(g);
                lemma_focused_list(Tree::Group(models(g.children@), g.enablement@));
            }
            first_focused(&g.children, Some(&g.enablement)).is_some()
        },
    }
}

/// The first taking-part position whose child holds the focus, if any.
fn first_focused(children: &Vec<Node>, enablement: Option<&Vec<Enabled>>) -> (r: Option<usize>)
    ensures
        r is None <==> !list_focused(models(children@), on_of(children.len() as nat, enablement)),
        r matches Some(i) ==> i < children.len() && i == holder(
            models(children@),
            on_of(children.len() as nat, enablement),
        ),
    decreases children,
{
    let ghost on = on_of(children.len() as nat, enablement);
    let ghost cs = models(children@);
    let n = children.len();
    let mut i: usize = 0;
    while i < n
        invariant
            n == children.len(),
            i <= n,
            on == on_of(n as nat, enablement),
            cs == models(children@),
            forall|j: int| 0 <= j < i && on[j] ==> !(#[trigger] cs[j]).focused(),
        decreases n - i,
    {
        if takes_part(enablement, n, i) && node_has_focus(&children[i]) {
            assert(on[i as int] && cs[i as int].focused());
            proof {
                lemma_holder_exists(cs, on);
            }
            return Some(i);
        }
        i += 1;
    }
    None
}

/// The position through which a request in direction `d` enters, if any
/// position takes part.
fn entry_position(n: usize, enablement: Option<&Vec<Enabled>>, d: Direction) -> (r: Option<usize>)
    ensures
        r is None <==> !any_on(on_of(n as nat, enablement)),
        r matches Some(b) ==> b < n && b == entry(on_of(n as nat, enablement), d),
{
    let ghost on = on_of(n as nat, enablement);
    match d {
        Direction::Forwards => {
            let mut i: usize = 0;
            while i < n
                invariant
                    i <= n,
                    on == on_of(n as nat, enablement),
                    d == Direction::Forwards,
                    forall|j: int| 0 <= j < i ==> !#[trigger] on[j],
                decreases n - i,
            {
                if takes_part(enablement, n, i) {
                    assert(on[i as int]);
                    proof {
                        lemma_entry_unique(on, d, i as int);
                    }
                    return Some(i);
                }
                i += 1;
            }
        },
        Direction::Backwards => {
            let mut i: usize = n;
            while i > 0
                invariant
                    i <= n,
                    on == on_of(n as nat, enablement),
                    d == Direction::Backwards,
                    forall|j: int| i <= j < n ==> !#[trigger] on[j],
                decreases i,
            {
                i -= 1;
                if takes_part(enablement, n, i) {
                    assert(on[i as int]);
                    proof {
                        lemma_entry_unique(on, d, i as int);
                    }
                    return Some(i);
                }
            }
        },
    }
    None
}

/// Whether no position beyond `i`, in direction `d`, takes part.
fn is_at_bound(n: usize, enablement: Option<&Vec<Enabled>>, i: usize, d: Direction) -> (r: bool)
    requires
        i < n,
    ensures
        r == at_bound(on_of(n as nat, enablement), i as int, d),
{
    let ghost on = on_of(n as nat, enablement);
    let (start, end) = match d {
        Direction::Forwards => (i + 1, n),
        Direction::Backwards => (0, i),
    };
    let mut j: usize = start;
    while j < end
        invariant
            start <= j <= end <= n,
            d == Direction::Forwards ==> start == i + 1 && end == n,
            d == Direction::Backwards ==> start == 0 && end == i,
            on == on_of(n as nat, enablement),
            forall|k: int| start <= k < j ==> !#[trigger] on[k],
        decreases end - j,
    {
        if takes_part(enablement, n, j) {
            assert(on[j as int]);
            return false;
        }
        j += 1;
    }
    true
}

/// Replacing one node replaces its model alone.
proof fn lemma_models_update(v: Seq<Node>, i: int, x: Node)
    requires
        0 <= i < v.len(),
    ensures
        models(v.update(i, x)) == models(v).update(i, x.model()),
{
    assert(models(v.update(i, x)) =~= models(v).update(i, x.model()));
}

/// Routes a request to the node's variant.
fn focus_node(node: &mut Node, d: Direction) -> (r: State)
    ensures
        (final(node).model(), r) == old(node).model().step(d),
    decreases *old(node), 2int,
{
    match node {
        Node::Leaf(l) => l.focus(d),
        Node::Optional(None) => State::Ignored,
        Node::Optional(Some(c)) => focus_node(c, d),
        Node::Sequence(v) => {
            proof {
                lemma_sequence_model(v);
            }
            let r = focus_list(v, None, d);
            proof {
                lemma_sequence_model(v);
            }
            r
        },
        Node::Group(g) => {
            proof {
                lemma_group_model(g);
            }
            let r = focus_list(&mut g.children, Some(&g.enablement), d);
            proof {
                lemma_group_model(g);
            }
            r
        },
    }
}

/// The ordered-container rule on a list of children; with `enablement`,
/// only the currently enabled children take part.
fn focus_list(children: &mut Vec<Node>, enablement: Option<&Vec<Enabled>>, d: Direction) -> (r: State)
    ensures
        (models(final(children)@), r) == step_list(
            models(old(children)@),
            on_of(old(children).len() as nat, enablement),
            d,
        ),
    decreases *old(children), 2int,
{
    match first_focused(children, enablement) {
        None => enter_list(children, enablement, d),
        Some(i) => pass_from(children, enablement, d, i),
    }
}

/// A request on a list none of whose taking-part children holds the focus.
fn enter_list(children: &mut Vec<Node>, enablement: Option<&Vec<Enabled>>, d: Direction) -> (r: State)
    requires
        !list_focused(models(old(children)@), on_of(old(children).len() as nat, enablement)),
    ensures
        (models(final(children)@), r) == step_list(
            models(old(children)@),
            on_of(old(children).len() as nat, enablement),
            d,
        ),
    decreases *old(children), 0int,
{
    let ghost orig = children@;
    let ghost orig_vec = *children;
    let n = children.len();
    match entry_position(n, enablement, d) {
        None => State::Ignored,
        Some(b) => {
            assert(decreases_to!(orig_vec => orig_vec[b as int]));
            let r = focus_node(&mut children[b], d);
            proof {
                lemma_models_update(orig, b as int, children@[b as int]);
            }
            r
        },
    }
}

/// A request on a list whose first focused taking-part child is at `i`.
fn pass_from(children: &mut Vec<Node>, enablement: Option<&Vec<Enabled>>, d: Direction, i: usize) -> (r: State)
    requires
        i < old(children).len(),
        list_focused(models(old(children)@), on_of(old(children).len() as nat, enablement)),
        i == holder(models(old(children)@), on_of(old(children).len() as nat, enablement)),
    ensures
        (models(final(children)@), r) == step_list(
            models(old(children)@),
            on_of(old(children).len() as nat, enablement),
            d,
        ),
    decreases *old(children), 1int,
{
    let ghost cs = models(children@);
    let ghost on = on_of(children.len() as nat, enablement);
    let ghost orig = children@;
    let ghost orig_vec = *children;
    let n = children.len();
    proof {
        lemma_holder_exists(cs, on);
    }
    assert(decreases_to!(orig_vec => orig_vec[i as int]));
    let r = focus_node(&mut children[i], d);
    proof {
        lemma_models_update(orig, i as int, children@[i as int]);
    }
    if r != State::Returned {
        return r;
    }
    if is_at_bound(n, enablement, i, d) {
        return State::Returned;
    }
    let ghost c = children@[i as int].model();
    proof {
        lemma_scan_frame(cs, on, d, next(i as int, d), i as int, c);
    }
    scan_children(children, enablement, d, i, Ghost(orig_vec))
}

/// The scan past position `i`, on children of which those still to be
/// visited are as they were in `orig`.
fn scan_children(
    children: &mut Vec<Node>,
    enablement: Option<&Vec<Enabled>>,
    d: Direction,
    i: usize,
    Ghost(orig): Ghost<Vec<Node>>,
) -> (r: State)
    requires
        i < old(children).len() == orig.len(),
        d == Direction::Forwards ==> forall|k: int| i < k < orig.len() ==> old(children)@[k] == orig@[k],
        d == Direction::Backwards ==> forall|k: int| 0 <= k < i ==> old(children)@[k] == orig@[k],
    ensures
        (models(final(children)@), r) == scan(
            models(old(children)@),
            on_of(old(children).len() as nat, enablement),
            d,
            next(i as int, d),
        ),
    decreases orig, 0int,
{
    let ghost on = on_of(children.len() as nat, enablement);
    let ghost goal = scan(models(children@), on, d, next(i as int, d));
    let n = children.len();
    match d {
        Direction::Forwards => {
            let mut j: usize = i + 1;
            while j < n
                invariant
                    d == Direction::Forwards,
                    i < j <= n,
                    n == children.len() == orig.len() == old(children).len(),
                    on == on_of(n as nat, enablement),
                    goal == scan(models(old(children)@), on, d, next(i as int, d)),
                    scan(models(children@), on, d, j as int) == goal,
                    forall|k: int| j <= k < n ==> children@[k] == orig@[k],
                decreases n - j,
            {
                if takes_part(enablement, n, j) {
                    let ghost before = children@;
                    assert(decreases_to!(orig => orig[j as int]));
                    let r = focus_node(&mut children[j], d);
                    proof {
                        lemma_models_update(before, j as int, children@[j as int]);
                        lemma_scan_frame(models(before), on, d, j as int + 1, j as int, children@[j as int].model());
                    }
                    if r == State::Kept {
                        return State::Kept;
                    }
                }
                j += 1;
            }
        },
        Direction::Backwards => {
            let mut j: usize = i;
            while j > 0
                invariant
                    d == Direction::Backwards,
                    j <= i < n,
                    n == children.len() == orig.len() == old(children).len(),
                    on == on_of(n as nat, enablement),
                    goal == scan(models(old(children)@), on, d, next(i as int, d)),
                    scan(models(children@), on, d, j as int - 1) == goal,
                    forall|k: int| 0 <= k < j ==> children@[k] == orig@[k],
                decreases j,
            {
                j -= 1;
                if takes_part(enablement, n, j) {
                    let ghost before = children@;
                    assert(decreases_to!(orig => orig[j as int]));
                    let r = focus_node(&mut children[j], d);
                    proof {
                        lemma_models_update(before, j as int, children@[j as int]);
                        lemma_scan_frame(models(before), on, d, j as int - 1, j as int, children@[j as int].model());
                    }
                    if r == State::Kept {
                        return State::Kept;
                    }
                }
            }
        },
    }
    State::Ignored
}

impl Focus for Node {
    open spec fn tree(&self) -> Tree {
        self.model()
    }

    fn focus(&mut self, direction: Direction) -> (r: State) {
        focus_node(self, direction)
    }

    fn has_focus(&self) -> (r: bool) {
        node_has_focus(self)
    }
}

impl Focus for Vec<Node> {
    open spec fn tree(&self) -> Tree {
        Tree::Sequence(models(self@))
    }

    fn focus(&mut self, direction: Direction) -> (r: State) {
        focus_list(self, None, direction)
    }

    fn has_focus(&self) -> (r: bool) {
        proof {
            lemma_focused_list(Tree::Sequence(models(self@)));
        }
        first_focused(self, None).is_some()
    }
}

impl Group {

    /// A group without members.
    pub fn new() -> (r: Group)
        ensures
            r.model() == Tree::Group(Seq::empty(), Seq::empty()),
    {
        let r = Group { children: Vec::new(), enablement: Vec::new() };
        proof {
            lemma_group_model(&r);
        }
        assert(models(r.children@) =~= Seq::empty());
        r
    }

    /// The group with `child`, enabled as `enabled` says, added as its last
    /// member.
    pub fn with(self, child: Node, enabled: Enabled) -> (r: Group)
        ensures
            r.model() == Tree::Group(
                self.model()->Group_0.push(child.model()),
                self.model()->Group_1.push(enabled),
            ),
    {
        proof {
            lemma_group_model(&self);
        }
        let Group { mut children, mut enablement } = self;
        let ghost before = children@;
        children.push(child);
        enablement.push(enabled);
        assert(models(children@) =~= models(before).push(child.model()));
        let r = Group { children, enablement };
        proof {
            lemma_group_model(&r);
        }
        r
    }

    /// The number of members.
    pub fn len(&self) -> (r: usize)
        ensures
            r == self.model()->Group_0.len(),
    {
        self.children.len()
    }

    /// The member at position `i`.
    pub fn child(&self, i: usize) -> (r: &Node)
        requires
            i < self.model()->Group_0.len(),
        ensures
            r.model() == self.model()->Group_0[i as int],
    {
        &self.children[i]
    }

    /// The enablement of the member at position `i`.
    pub fn enabled(&self, i: usize) -> (r: Enabled)
        requires
            i < self.model()->Group_1.len(),
        ensures
            r == self.model()->Group_1[i as int],
    {
        self.enablement[i]
    }

    /// Sets the enablement of the member at position `i`; the host calls this
    /// whenever the condition behind a member changes.
    pub fn set_enabled(&mut self, i: usize, enabled: Enabled)
        requires
            i < old(self).model()->Group_1.len(),
        ensures
            final(self).model() == Tree::Group(
                old(self).model()->Group_0,
                old(self).model()->Group_1.update(i as int, enabled),
            ),
    {
        self.enablement.set(i, enabled);
    }
}

impl Focus for Group {
    open spec fn tree(&self) -> Tree {
        self.model()
    }

    fn focus(&mut self, direction: Direction) -> (r: State) {
        proof {
            lemma_group_model(self);
        }
        let r = focus_list(&mut self.children, Some(&self.enablement), direction);
        proof {
            lemma_group_model(self);
        }
        r
    }

    fn has_focus(&self) -> (r: bool) {
        proof {
            lemma_group_model(self);
            lemma_focused_list(Tree::Group(models(self.children@), self.enablement@));
        }
        first_focused(&self.children, Some(&self.enablement)).is_some()
    }
}

} // verus!
