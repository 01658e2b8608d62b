//! The arena octree: nodes addressed by index, position 0 the root, and the
//! eight children of a node stored contiguously after every older node.

use vstd::prelude::*;
use vstd::seq_lib::lemma_concat_associative;
use crate::geometry::{Bounds, Point};
use crate::sums::{
    sum_to,
    lemma_sum_ext,
    lemma_sum_point,
    lemma_sum_sub,
    lemma_sum_term,
    lemma_sum_zero_range,
    lemma_sum_mono,
    lemma_sum_block8,
};

verus! {

/// Magnitude bound of a grid coordinate: `|c| <= 2^31`.
pub open spec fn coord_bound() -> int {
    0x8000_0000
}

/// Each axis of `mo` lies within `mass` times the largest coordinate.
pub open spec fn moment_within(mo: Moment, mass: int) -> bool {
    let b = mass * coord_bound();
    &&& -b <= mo.x <= b
    &&& -b <= mo.y <= b
    &&& -b <= mo.z <= b
}

/// A mass-weighted sum of positions. The center of mass of a node is its
/// moment divided by its mass.
#[derive(Clone, Copy, Debug, PartialEq, Eq, Structural)]
pub struct Moment {
    pub x: i128,
    pub y: i128,
    pub z: i128,
}

pub open spec fn zero_moment() -> Moment {
    Moment { x: 0, y: 0, z: 0 }
}

/// The moment of one body of mass `m` at `p`.
pub open spec fn body_moment(p: Point, m: u64) -> Moment {
    Moment { x: (m * p.x) as i128, y: (m * p.y) as i128, z: (m * p.z) as i128 }
}

pub open spec fn add_moment(a: Moment, b: Moment) -> Moment {
    Moment { x: (a.x + b.x) as i128, y: (a.y + b.y) as i128, z: (a.z + b.z) as i128 }
}

/// One slot of the arena. `children` is `None` for a leaf and otherwise the
/// index of the first of eight contiguous children. A leaf keeps the position
/// of the body it holds in `point`.
#[derive(Clone, Copy, Debug)]
pub struct Node {
    pub bounds: Bounds,
    pub children: Option<usize>,
    pub mass: u64,
    pub point: Point,
    pub moment: Moment,
}

impl Node {
    pub open spec fn leaf(self) -> bool {
        self.children is None
    }

    /// Index of the first child (meaningful for an internal node).
    pub open spec fn first_child(self) -> int {
        match self.children {
            Some(c) => c as int,
            None => 0,
        }
    }

    /// The moment stays within the mass times the largest coordinate.
    pub open spec fn moment_bounded(self) -> bool {
        moment_within(self.moment, self.mass as int)
    }

    pub open spec fn empty_spec(b: Bounds) -> Node {
        Node {
            bounds: b,
            children: None,
            mass: 0,
            point: Point { x: 0, y: 0, z: 0 },
            moment: zero_moment(),
        }
    }

    pub fn empty(b: Bounds) -> (r: Node)
        ensures
            r == Node::empty_spec(b),
    {
        Node {
            bounds: b,
            children: None,
            mass: 0,
            point: Point { x: 0, y: 0, z: 0 },
            moment: Moment { x: 0, y: 0, z: 0 },
        }
    }

    pub fn is_leaf(&self) -> (r: bool)
        ensures
            r == self.leaf(),
    {
        self.children.is_none()
    }

    pub fn is_empty(&self) -> (r: bool)
        ensures
            r == (self.mass == 0),
    {
        self.mass == 0
    }
}

/// The mass that a node holds as a leaf; internal nodes count nothing.
pub open spec fn leaf_mass(n: Node) -> int {
    if n.leaf() {
        n.mass as int
    } else {
        0
    }
}

/// Axis `k` (1, 2 or 3 for x, y, z) of a moment.
pub open spec fn moment_axis(mo: Moment, k: int) -> int {
    if k == 1 {
        mo.x as int
    } else if k == 2 {
        mo.y as int
    } else {
        mo.z as int
    }
}

/// Component `k` of what a node carries: its mass for `k == 0`, otherwise
/// axis `k` of its moment.
pub open spec fn field(n: Node, k: int) -> int {
    if k == 0 {
        n.mass as int
    } else {
        moment_axis(n.moment, k)
    }
}

/// Component `k` that a node holds as a leaf; internal nodes hold nothing.
pub open spec fn leaf_field(n: Node, k: int) -> int {
    if n.leaf() {
        field(n, k)
    } else {
        0
    }
}

/// Component `k` summed over the leaves of an arena.
pub open spec fn leaf_sum(s: Seq<Node>, k: int) -> int {
    sum_to(|j: int| leaf_field(s[j], k), s.len() as int)
}

/// Total mass held by the leaves of an arena.
pub open spec fn leaf_total(s: Seq<Node>) -> int {
    sum_to(|j: int| leaf_mass(s[j]), s.len() as int)
}

/// The children of node `i`, if any, come after it, fit in the arena, are the
/// octants of its cube in code order, and name `i` as their parent.
pub open spec fn children_ok(s: Seq<Node>, par: Seq<int>, i: int) -> bool {
    !s[i].leaf() ==> {
        let c = s[i].first_child();
        &&& i < c
        &&& c + 8 <= s.len()
        &&& s[i].bounds.splittable()
        &&& forall|k: int| 0 <= k < 8 ==> #[trigger] s[c + k].bounds == s[i].bounds.octant_bounds(k)
        &&& forall|k: int| 0 <= k < 8 ==> #[trigger] par[c + k] == i
    }
}

/// Every node but the root lies in the child block of an earlier internal node.
pub open spec fn parent_ok(s: Seq<Node>, par: Seq<int>, j: int) -> bool {
    j >= 1 ==> {
        let p = par[j];
        &&& 0 <= p < j
        &&& !s[p].leaf()
        &&& s[p].first_child() <= j < s[p].first_child() + 8
    }
}

pub open spec fn node_ok(s: Seq<Node>, par: Seq<int>, i: int) -> bool {
    &&& s[i].bounds.wf()
    &&& s[i].moment_bounded()
    &&& children_ok(s, par, i)
    &&& parent_ok(s, par, i)
}

/// The arena is a tree rooted at 0 whose cubes are nested octants of `world`.
pub open spec fn arena_ok(s: Seq<Node>, par: Seq<int>, world: Bounds) -> bool {
    &&& 1 <= s.len()
    &&& par.len() == s.len()
    &&& world.wf()
    &&& s[0].bounds == world
    &&& forall|i: int| 0 <= i < s.len() ==> #[trigger] node_ok(s, par, i)
    &&& leaf_total(s) <= u64::MAX
}

/// The leaf that a search for `p` reaches from node `i`, following the octant
/// code of `p` at every internal node.
pub open spec fn descend(s: Seq<Node>, i: int, p: Point) -> int
    decreases s.len() - i,
{
    if 0 <= i < s.len() && !s[i].leaf() && i < s[i].first_child() && s[i].first_child() + 8
        <= s.len() {
        descend(s, s[i].first_child() + s[i].bounds.octant_spec(p), p)
    } else {
        i
    }
}


/// Two arenas with the same cubes and child links.
pub open spec fn same_shape(s: Seq<Node>, t: Seq<Node>) -> bool {
    &&& s.len() == t.len()
    &&& forall|j: int|
        0 <= j < s.len() ==> (#[trigger] t[j]).children == s[j].children && t[j].bounds
            == s[j].bounds
}

/// The search for `p` ends in a leaf of the arena.
pub proof fn lemma_descend_leaf(s: Seq<Node>, par: Seq<int>, w: Bounds, i: int, p: Point)
    requires
        arena_ok(s, par, w),
        0 <= i < s.len(),
    ensures
        0 <= descend(s, i, p) < s.len(),
        s[descend(s, i, p)].leaf(),
    decreases s.len() - i,
{
    assert(node_ok(s, par, i));
    if !s[i].leaf() {
        let o = s[i].bounds.octant_spec(p);
        lemma_descend_leaf(s, par, w, s[i].first_child() + o, p);
    }
}

/// The search depends only on cubes and child links.
pub proof fn lemma_descend_frame(s: Seq<Node>, t: Seq<Node>, i: int, p: Point)
    requires
        same_shape(s, t),
    ensures
        descend(s, i, p) == descend(t, i, p),
    decreases s.len() - i,
{
    if 0 <= i < s.len() {
        assert(t[i].children == s[i].children);
        if !s[i].leaf() && i < s[i].first_child() && s[i].first_child() + 8 <= s.len() {
            lemma_descend_frame(s, t, s[i].first_child() + s[i].bounds.octant_spec(p), p);
        }
    }
}

/// When the search from `i` ends at leaf `x` and only `x` changes shape (the
/// arena may also grow), the new search from `i` passes through `x`.
pub proof fn lemma_descend_reroute(s: Seq<Node>, t: Seq<Node>, i: int, p: Point, x: int)
    requires
        0 <= i < s.len() <= t.len(),
        descend(s, i, p) == x,
        0 <= x < s.len(),
        s[x].leaf(),
        forall|j: int|
            0 <= j < s.len() && j != x ==> (#[trigger] t[j]).children == s[j].children
                && t[j].bounds == s[j].bounds,
    ensures
        descend(t, i, p) == descend(t, x, p),
    decreases s.len() - i,
{
    if i != x {
        assert(t[i].children == s[i].children);
        lemma_descend_reroute(s, t, s[i].first_child() + s[i].bounds.octant_spec(p), p, x);
    }
}

/// Leaf `l` is where a body at `p` stays put: empty, at `p`, or too small to split.
pub open spec fn settled(s: Seq<Node>, l: int, p: Point) -> bool {
    &&& 0 <= l < s.len()
    &&& s[l].leaf()
    &&& (s[l].mass == 0 || s[l].point == p || !s[l].bounds.splittable())
}

/// How many times a cube of half-size `n` can be halved while it stays at
/// least 2: an upper bound on the splits below a cube.
pub open spec fn levels(n: int) -> nat
    decreases n,
{
    if n < 2 {
        0
    } else {
        1 + levels(n / 2)
    }
}

/// The leaf that holds the body: mass `m` at `p`, in its own cube.
pub open spec fn holds_body(n: Node, p: Point, m: int, mo: Moment) -> bool {
    &&& n.leaf()
    &&& n.mass == m
    &&& n.point == p
    &&& n.moment == mo
}

/// What inserting a body of mass `m` at `p` does to the arena `s`, giving `t`.
/// The search for `p` reaches leaf `l`, holding `lf`.
/// - An empty leaf takes the body; a leaf at `p`, or one too small to split,
///   absorbs it.
/// - Any other leaf `l` is split: it becomes internal without mass, and
///   below it a chain of split nodes, each with eight new children, ends
///   where `p` and `lf.point` fall in different octants. There `p` gets a
///   leaf of its own with the new body and `lf.point` one with the old body.
///   Only when the chain reaches a cube too small to split do both bodies
///   share one leaf, with the summed mass and moment.
/// - In every case the leaves gain exactly mass `m` and moment
///   `body_moment(p, m)`, no older node but `l` changes, and the search for
///   `p` ends at a settled leaf.
pub open spec fn inserted(s: Seq<Node>, t: Seq<Node>, p: Point, m: u64) -> bool {
    let l = descend(s, 0, p);
    let lf = s[l];
    &&& leaf_total(t) == leaf_total(s) + m
    &&& forall|k: int|
        1 <= k < 4 ==> #[trigger] leaf_sum(t, k) == leaf_sum(s, k) + moment_axis(
            body_moment(p, m),
            k,
        )
    &&& s.len() <= t.len()
    &&& forall|j: int| 0 <= j < s.len() && j != l ==> #[trigger] t[j] == s[j]
    &&& (lf.mass == 0 ==> t == s.update(
        l,
        Node { bounds: lf.bounds, children: None, mass: m, point: p, moment: body_moment(p, m) },
    ))
    &&& (lf.mass != 0 && (lf.point == p || !lf.bounds.splittable()) ==> t[l].mass == lf.mass + m)
    &&& (lf.mass != 0 && (lf.point == p || !lf.bounds.splittable()) ==> t == s.update(
        l,
        Node {
            bounds: lf.bounds,
            children: None,
            mass: (lf.mass + m) as u64,
            point: lf.point,
            moment: add_moment(lf.moment, body_moment(p, m)),
        },
    ))
    &&& (lf.mass != 0 && lf.point != p && lf.bounds.splittable()) ==> {
        let a = descend(t, l, p);
        let b = descend(t, l, lf.point);
        &&& t[l] == split_node(lf, s.len() as int)
        &&& descend(t, 0, p) == a
        &&& s.len() < t.len() <= s.len() + 8 * levels(lf.bounds.size as int)
        &&& (t.len() - s.len()) % 8 == 0
        &&& s.len() <= a < t.len()
        &&& s.len() <= b < t.len()
        &&& (a == b ==> holds_body(
            t[a],
            lf.point,
            lf.mass + m,
            add_moment(lf.moment, body_moment(p, m)),
        ) && !t[a].bounds.splittable())
        &&& (a != b ==> holds_body(t[a], p, m as int, body_moment(p, m)) && holds_body(
            t[b],
            lf.point,
            lf.mass as int,
            lf.moment,
        ))
        &&& forall|j: int|
            s.len() <= j < t.len() && j != a && j != b ==> (#[trigger] t[j]).mass == 0
                && t[j].moment == zero_moment()
    }
    &&& settled(t, descend(t, 0, p), p)
    &&& (m > 0 ==> t[descend(t, 0, p)].mass > 0)
}

proof fn lemma_body_moment_bounded(p: Point, m: u64)
    ensures
        moment_within(body_moment(p, m), m as int),
        body_moment(p, m).x == m * p.x,
        body_moment(p, m).y == m * p.y,
        body_moment(p, m).z == m * p.z,
        -0x8000_0000_0000_0000_0000_0000 < m * p.x < 0x8000_0000_0000_0000_0000_0000,
        -0x8000_0000_0000_0000_0000_0000 < m * p.y < 0x8000_0000_0000_0000_0000_0000,
        -0x8000_0000_0000_0000_0000_0000 < m * p.z < 0x8000_0000_0000_0000_0000_0000,
{
    let b = m * coord_bound();
    assert(-b <= m * p.x <= b && -b <= m * p.y <= b && -b <= m * p.z <= b) by (nonlinear_arith)
        requires
            b == m * 0x8000_0000,
            -0x8000_0000 <= p.x <= 0x8000_0000,
            -0x8000_0000 <= p.y <= 0x8000_0000,
            -0x8000_0000 <= p.z <= 0x8000_0000,
            m >= 0,
    ;
}

fn moment_of(p: Point, m: u64) -> (r: Moment)
    ensures
        r == body_moment(p, m),
{
    proof {
        lemma_body_moment_bounded(p, m);
    }
    Moment { x: m as i128 * p.x as i128, y: m as i128 * p.y as i128, z: m as i128 * p.z as i128 }
}

/// Sum of two moments whose masses add up to at most `u64::MAX`.
fn sum_moment(a: Moment, ma: u64, b: Moment, mb: u64) -> (r: Moment)
    requires
        ma + mb <= u64::MAX,
        moment_within(a, ma as int),
        moment_within(b, mb as int),
    ensures
        r == add_moment(a, b),
        r.x == a.x + b.x,
        r.y == a.y + b.y,
        r.z == a.z + b.z,
        moment_within(r, ma + mb),
{
    Moment { x: a.x + b.x, y: a.y + b.y, z: a.z + b.z }
}

/// Replacing node `l` by one with the same cube and child link keeps the
/// arena a tree, keeps its shape, and moves the leaf total by the change of
/// leaf mass.
proof fn lemma_node_update(s: Seq<Node>, par: Seq<int>, w: Bounds, l: int, n: Node)
    requires
        arena_ok(s, par, w),
        0 <= l < s.len(),
        n.children == s[l].children,
        n.bounds == s[l].bounds,
        n.moment_bounded(),
        leaf_total(s) - leaf_mass(s[l]) + leaf_mass(n) <= u64::MAX,
    ensures
        arena_ok(s.update(l, n), par, w),
        same_shape(s, s.update(l, n)),
        leaf_total(s.update(l, n)) == leaf_total(s) - leaf_mass(s[l]) + leaf_mass(n),
        forall|k: int|
            #[trigger] leaf_sum(s.update(l, n), k) == leaf_sum(s, k) - leaf_field(s[l], k)
                + leaf_field(n, k),
{
    assert forall|k: int|
        #[trigger] leaf_sum(s.update(l, n), k) == leaf_sum(s, k) - leaf_field(s[l], k) + leaf_field(
            n,
            k,
        ) by {
        let t = s.update(l, n);
        lemma_sum_point(|j: int| leaf_field(s[j], k), |j: int| leaf_field(t[j], k), s.len() as int, l);
    }
    let t = s.update(l, n);
    assert forall|i: int| 0 <= i < t.len() implies #[trigger] node_ok(t, par, i) by {
        assert(node_ok(s, par, i));
        if i >= 1 {
            let pi = par[i];
            assert(node_ok(s, par, pi));
        }
        if !s[i].leaf() {
            let c = s[i].first_child();
            assert forall|k: int| 0 <= k < 8 implies #[trigger] t[c + k].bounds
                == t[i].bounds.octant_bounds(k) by {
                assert(s[c + k].bounds == s[i].bounds.octant_bounds(k));
            }
            assert forall|k: int| 0 <= k < 8 implies #[trigger] par[c + k] == i by {
                assert(par[c + k] == i);
            }
        }
    }
    lemma_sum_point(|j: int| leaf_mass(s[j]), |j: int| leaf_mass(t[j]), s.len() as int, l);
}

/// `f(c) + f(c + 1) + ... + f(c + 7)`.
pub open spec fn sum8(f: spec_fn(int) -> int, c: int) -> int {
    f(c) + f(c + 1) + f(c + 2) + f(c + 3) + f(c + 4) + f(c + 5) + f(c + 6) + f(c + 7)
}

/// Internal node `j` holds the sum of its children's masses and moments.
pub open spec fn sums_children(t: Seq<Node>, j: int) -> bool {
    forall|k: int|
        0 <= k < 4 ==> #[trigger] field(t[j], k) == sum8(|i: int| field(t[i], k), t[j].first_child())
}

/// What aggregation does to the arena `s`, giving `t`: the shape, every
/// leaf and every point are kept, each internal node holds the sums over its
/// children, and the root holds the whole mass and moment of the leaves.
pub open spec fn aggregated(s: Seq<Node>, t: Seq<Node>) -> bool {
    &&& same_shape(s, t)
    &&& forall|j: int| 0 <= j < s.len() && s[j].leaf() ==> #[trigger] t[j] == s[j]
    &&& forall|j: int| 0 <= j < s.len() ==> #[trigger] t[j].point == s[j].point
    &&& forall|j: int| 0 <= j < t.len() && !t[j].leaf() ==> #[trigger] sums_children(t, j)
    &&& t[0].mass == leaf_total(s)
    &&& forall|k: int| 1 <= k < 4 ==> #[trigger] moment_axis(t[0].moment, k) == leaf_sum(s, k)
}

/// During aggregation from the last index down to `cur`, node `j` still
/// counts when no parent of it has been aggregated yet.
spec fn live(par: Seq<int>, cur: int, j: int) -> bool {
    j == 0 || par[j] < cur
}

/// Component `k` that node `j` carries: leaves and aggregated nodes their
/// own, the internal nodes not reached yet nothing.
spec fn carried(s: Seq<Node>, cur: int, j: int, k: int) -> int {
    if s[j].leaf() || j >= cur {
        field(s[j], k)
    } else {
        0
    }
}

spec fn frontier_term(s: Seq<Node>, par: Seq<int>, cur: int, k: int) -> spec_fn(int) -> int {
    |j: int|
        if live(par, cur, j) {
            carried(s, cur, j, k)
        } else {
            0
        }
}

/// Component `k` carried by the nodes that still count.
spec fn frontier(s: Seq<Node>, par: Seq<int>, cur: int, k: int) -> int {
    sum_to(frontier_term(s, par, cur, k), s.len() as int)
}

proof fn lemma_leaf_total_is_sum(s: Seq<Node>)
    ensures
        leaf_total(s) == leaf_sum(s, 0),
{
    lemma_sum_ext(|j: int| leaf_mass(s[j]), |j: int| leaf_field(s[j], 0), s.len() as int);
}

proof fn lemma_frontier_start(s: Seq<Node>, par: Seq<int>, w: Bounds, k: int)
    requires
        arena_ok(s, par, w),
    ensures
        frontier(s, par, s.len() as int, k) == leaf_sum(s, k),
{
    let f = frontier_term(s, par, s.len() as int, k);
    let g = |j: int| leaf_field(s[j], k);
    assert forall|j: int| 0 <= j < s.len() implies #[trigger] f(j) == g(j) by {
        assert(node_ok(s, par, j));
    }
    lemma_sum_ext(f, g, s.len() as int);
}

proof fn lemma_frontier_end(s: Seq<Node>, par: Seq<int>, w: Bounds, k: int)
    requires
        arena_ok(s, par, w),
    ensures
        frontier(s, par, 0, k) == field(s[0], k),
{
    let f = frontier_term(s, par, 0, k);
    assert forall|j: int| 1 <= j < s.len() implies #[trigger] f(j) == 0 by {
        assert(node_ok(s, par, j));
    }
    lemma_sum_zero_range(f, 1, s.len() as int);
    reveal_with_fuel(sum_to, 2);
}

proof fn lemma_frontier_leaf(s: Seq<Node>, par: Seq<int>, w: Bounds, i: int, k: int)
    requires
        arena_ok(s, par, w),
        0 <= i < s.len(),
        s[i].leaf(),
    ensures
        frontier(s, par, i, k) == frontier(s, par, i + 1, k),
{
    let f = frontier_term(s, par, i + 1, k);
    let g = frontier_term(s, par, i, k);
    assert forall|j: int| 0 <= j < s.len() implies #[trigger] f(j) == g(j) by {
        assert(node_ok(s, par, j));
    }
    lemma_sum_ext(f, g, s.len() as int);
}

/// The children of the next node to aggregate carry no more mass than the
/// frontier.
proof fn lemma_frontier_bound(s: Seq<Node>, par: Seq<int>, w: Bounds, i: int)
    requires
        arena_ok(s, par, w),
        0 <= i < s.len(),
        !s[i].leaf(),
    ensures
        sum8(|j: int| s[j].mass as int, s[i].first_child()) <= frontier(s, par, i + 1, 0),
{
    let f = frontier_term(s, par, i + 1, 0);
    let c = s[i].first_child();
    assert(node_ok(s, par, i));
    assert forall|k: int| 0 <= k < 8 implies #[trigger] f(c + k) == s[c + k].mass by {
        assert(par[c + k] == i);
    }
    assert forall|j: int| 0 <= j < s.len() implies #[trigger] f(j) >= 0 by {}
    lemma_sum_mono(f, c, c + 8);
    lemma_sum_mono(f, c + 8, s.len() as int);
    lemma_sum_block8(f, c);
    assert(f(c) == s[c + 0].mass);
}

/// Aggregating internal node `i` moves its children's component `k` into
/// it and leaves the frontier unchanged.
proof fn lemma_frontier_step(s: Seq<Node>, par: Seq<int>, w: Bounds, i: int, n: Node, k: int)
    requires
        arena_ok(s, par, w),
        0 <= i < s.len(),
        !s[i].leaf(),
        n.children == s[i].children,
        field(n, k) == sum8(|j: int| field(s[j], k), s[i].first_child()),
    ensures
        frontier(s.update(i, n), par, i, k) == frontier(s, par, i + 1, k),
{
    let t = s.update(i, n);
    let f = frontier_term(s, par, i + 1, k);
    let g = frontier_term(t, par, i, k);
    let d = |j: int| g(j) - f(j);
    let c = s[i].first_child();
    assert(node_ok(s, par, i));
    lemma_sum_sub(f, g, s.len() as int);
    assert forall|j: int| 0 <= j < s.len() && j != i && !(c <= j < c + 8) implies #[trigger] d(j)
        == 0 by {
        assert(node_ok(s, par, j));
    }
    assert forall|q: int| 0 <= q < 8 implies #[trigger] d(c + q) == -field(s[c + q], k) by {
        assert(par[c + q] == i);
    }
    assert(d(i) == field(n, k)) by {
        assert(node_ok(s, par, i));
    }
    lemma_sum_zero_range(d, c + 8, s.len() as int);
    lemma_sum_block8(d, c);
    lemma_sum_zero_range(d, i + 1, c);
    lemma_sum_zero_range(d, 0, i);
    reveal_with_fuel(sum_to, 2);
    assert(sum_to(d, i + 1) == sum_to(d, i) + d(i));
    assert(d(c) == -field(s[c + 0], k));
}

/// The sums of the masses and moments of the eight nodes from index `c`.
fn sum_block(nodes: &Vec<Node>, c: usize) -> (r: (u64, Moment))
    requires
        c + 8 <= nodes@.len(),
        sum8(|i: int| nodes@[i].mass as int, c as int) <= u64::MAX,
        forall|k: int| 0 <= k < 8 ==> (#[trigger] nodes@[c + k]).moment_bounded(),
    ensures
        r.0 == sum8(|i: int| nodes@[i].mass as int, c as int),
        r.1.x == sum8(|i: int| nodes@[i].moment.x as int, c as int),
        r.1.y == sum8(|i: int| nodes@[i].moment.y as int, c as int),
        r.1.z == sum8(|i: int| nodes@[i].moment.z as int, c as int),
        moment_within(r.1, r.0 as int),
{
    let count = nodes.len();
    assert(c + 8 <= count);
    let a0 = nodes[c];
    let a1 = nodes[c + 1];
    let a2 = nodes[c + 2];
    let a3 = nodes[c + 3];
    let a4 = nodes[c + 4];
    let a5 = nodes[c + 5];
    let a6 = nodes[c + 6];
    let a7 = nodes[c + 7];
    proof {
        assert(nodes@[c + 0].moment_bounded());
        assert(nodes@[c + 1].moment_bounded());
        assert(nodes@[c + 2].moment_bounded());
        assert(nodes@[c + 3].moment_bounded());
        assert(nodes@[c + 4].moment_bounded());
        assert(nodes@[c + 5].moment_bounded());
        assert(nodes@[c + 6].moment_bounded());
        assert(nodes@[c + 7].moment_bounded());
    }
    let mass = a0.mass + a1.mass + a2.mass + a3.mass + a4.mass + a5.mass + a6.mass + a7.mass;
    let x = a0.moment.x + a1.moment.x + a2.moment.x + a3.moment.x + a4.moment.x + a5.moment.x
        + a6.moment.x + a7.moment.x;
    let y = a0.moment.y + a1.moment.y + a2.moment.y + a3.moment.y + a4.moment.y + a5.moment.y
        + a6.moment.y + a7.moment.y;
    let z = a0.moment.z + a1.moment.z + a2.moment.z + a3.moment.z + a4.moment.z + a5.moment.z
        + a6.moment.z + a7.moment.z;
    (mass, Moment { x, y, z })
}

/// Aggregating node `i` keeps the sums already taken at later indices.
proof fn lemma_sums_children_kept(s: Seq<Node>, par: Seq<int>, w: Bounds, i: int, n: Node)
    requires
        arena_ok(s, par, w),
        0 <= i < s.len(),
        !s[i].leaf(),
        n.children == s[i].children,
        sums_children(s.update(i, n), i),
        forall|j: int| i < j < s.len() && !s[j].leaf() ==> #[trigger] sums_children(s, j),
    ensures
        forall|j: int|
            i <= j < s.len() && !s.update(i, n)[j].leaf() ==> #[trigger] sums_children(
                s.update(i, n),
                j,
            ),
{
    let t = s.update(i, n);
    assert forall|j: int| i <= j < s.len() && !t[j].leaf() implies #[trigger] sums_children(t, j) by {
        if j != i {
            assert(sums_children(s, j));
            assert(node_ok(s, par, j));
            let cj = s[j].first_child();
            assert(t[cj + 0] == s[cj + 0]);
            assert(t[cj + 1] == s[cj + 1]);
            assert(t[cj + 2] == s[cj + 2]);
            assert(t[cj + 3] == s[cj + 3]);
            assert(t[cj + 4] == s[cj + 4]);
            assert(t[cj + 5] == s[cj + 5]);
            assert(t[cj + 6] == s[cj + 6]);
            assert(t[cj + 7] == s[cj + 7]);
        }
    }
}

/// One body or cluster that a query interacts with: its mass and moment.
#[derive(Clone, Copy, Debug, PartialEq, Eq, Structural)]
pub struct Term {
    pub mass: u64,
    pub moment: Moment,
}

pub open spec fn term_of(n: Node) -> Term {
    Term { mass: n.mass, moment: n.moment }
}

/// Squared distance between two points.
pub open spec fn dist2(a: Point, b: Point) -> int {
    (a.x - b.x) * (a.x - b.x) + (a.y - b.y) * (a.y - b.y) + (a.z - b.z) * (a.z - b.z)
}

/// Whether a query at `q` opens internal node `n` rather than taking it as
/// one cluster: its cube contains `q`, or the ratio of its size to the
/// distance from its center to `q` exceeds theta `num / den`
/// (`size / dist > num / den`, squared to stay in integers).
pub open spec fn opens(n: Node, q: Point, num: u32, den: u32) -> bool {
    n.bounds.contains_spec(q) || (n.bounds.size * n.bounds.size) * (den * den) > (num * num)
        * dist2(n.bounds.center, q)
}

/// The node has eight children inside the arena, after it.
pub open spec fn has_children(s: Seq<Node>, i: int) -> bool {
    !s[i].leaf() && i < s[i].first_child() && s[i].first_child() + 8 <= s.len()
}

/// The terms of the subtree at `i`, in depth-first order: a non-empty leaf
/// is one term, an opened internal node the terms of its children in octant
/// order, and any other non-empty internal node one term for its cluster.
pub open spec fn terms(s: Seq<Node>, i: int, q: Point, num: u32, den: u32) -> Seq<Term>
    decreases s.len() - i,
{
    if !(0 <= i < s.len()) {
        seq![]
    } else if has_children(s, i) && opens(s[i], q, num, den) {
        let c = s[i].first_child();
        terms(s, c, q, num, den) + terms(s, c + 1, q, num, den) + terms(s, c + 2, q, num, den)
            + terms(s, c + 3, q, num, den) + terms(s, c + 4, q, num, den) + terms(
            s,
            c + 5,
            q,
            num,
            den,
        ) + terms(s, c + 6, q, num, den) + terms(s, c + 7, q, num, den)
    } else if s[i].mass > 0 {
        seq![term_of(s[i])]
    } else {
        seq![]
    }
}

/// Terms of the pending nodes of a stack, top (last) first.
pub open spec fn pending(s: Seq<Node>, stack: Seq<usize>, q: Point, num: u32, den: u32) -> Seq<
    Term,
>
    decreases stack.len(),
{
    if stack.len() == 0 {
        seq![]
    } else {
        terms(s, stack.last() as int, q, num, den) + pending(s, stack.drop_last(), q, num, den)
    }
}

/// Number of nodes in the subtree at `i`.
pub open spec fn weight(s: Seq<Node>, i: int) -> nat
    decreases s.len() - i,
{
    if !(0 <= i < s.len()) {
        1
    } else if has_children(s, i) {
        let c = s[i].first_child();
        1 + weight(s, c) + weight(s, c + 1) + weight(s, c + 2) + weight(s, c + 3) + weight(s, c + 4)
            + weight(s, c + 5) + weight(s, c + 6) + weight(s, c + 7)
    } else {
        1
    }
}

pub open spec fn stack_weight(s: Seq<Node>, stack: Seq<usize>) -> nat
    decreases stack.len(),
{
    if stack.len() == 0 {
        0
    } else {
        weight(s, stack.last() as int) + stack_weight(s, stack.drop_last())
    }
}

proof fn lemma_square_below(v: int)
    requires
        -0x1_0000_0000 < v < 0x1_0000_0000,
    ensures
        0 <= v * v < 0x1_0000_0000_0000_0000,
{
    assert(0 <= v * v < 0x1_0000_0000_0000_0000) by (nonlinear_arith)
        requires
            -0x1_0000_0000 < v < 0x1_0000_0000,
    ;
}

/// Whether `n2 * d < lhs`, computed without forming the product.
fn below(n2: u128, d: u128, lhs: u128) -> (r: bool)
    ensures
        r == (n2 * d < lhs),
{
    if lhs == 0 {
        proof {
            assert(n2 * d >= 0) by (nonlinear_arith)
                requires
                    n2 >= 0,
                    d >= 0,
            ;
        }
        false
    } else if n2 == 0 {
        assert(n2 * d == 0);
        true
    } else {
        let q = (lhs - 1) / n2;
        proof {
            let a = lhs as int - 1;
            let b = n2 as int;
            let qi = q as int;
            let rem = a % b;
            assert(a == b * qi + rem && 0 <= rem < b) by (nonlinear_arith)
                requires
                    b > 0,
                    qi == a / b,
                    rem == a % b,
            ;
            if d <= q {
                assert(b * d <= b * qi) by (nonlinear_arith)
                    requires
                        d <= qi,
                        b > 0,
                ;
            } else {
                assert(b * d >= b * qi + b) by (nonlinear_arith)
                    requires
                        d >= qi + 1,
                        b > 0,
                ;
            }
        }
        d <= q
    }
}

fn opens_exec(n: &Node, q: Point, num: u32, den: u32) -> (r: bool)
    requires
        n.bounds.wf(),
    ensures
        r == opens(*n, q, num, den),
{
    if n.bounds.contains(q) {
        return true;
    }
    let c = n.bounds.center;
    let dx = c.x as i128 - q.x as i128;
    let dy = c.y as i128 - q.y as i128;
    let dz = c.z as i128 - q.z as i128;
    let size = n.bounds.size as u128;
    let den = den as u128;
    let num = num as u128;
    proof {
        lemma_square_below(dx as int);
        lemma_square_below(dy as int);
        lemma_square_below(dz as int);
        lemma_square_below(size as int);
        lemma_square_below(den as int);
        lemma_square_below(num as int);
    }
    let d = (dx * dx) as u128 + (dy * dy) as u128 + (dz * dz) as u128;
    let den2 = den * den;
    let num2 = num * num;
    let size2 = size * size;
    proof {
        assert(size2 * den2 < 0x1_0000_0000_0000_0000_0000_0000_0000_0000) by (nonlinear_arith)
            requires
                size2 < 0x1_0000_0000_0000_0000,
                den2 < 0x1_0000_0000_0000_0000,
                den2 >= 0,
                size2 >= 0,
        ;
    }
    let lhs = size2 * den2;
    below(num2, d, lhs)
}

proof fn lemma_pending_push(s: Seq<Node>, stack: Seq<usize>, x: usize, q: Point, num: u32, den: u32)
    ensures
        pending(s, stack.push(x), q, num, den) == terms(s, x as int, q, num, den) + pending(
            s,
            stack,
            q,
            num,
            den,
        ),
        stack_weight(s, stack.push(x)) == weight(s, x as int) + stack_weight(s, stack),
{
    assert(stack.push(x).drop_last() =~= stack);
}

/// Replacing the top of a stack by the eight children of that node, first
/// child on top, keeps the pending terms and lowers the weight by one.
proof fn lemma_pending_open(
    s: Seq<Node>,
    rest: Seq<usize>,
    i: int,
    c: usize,
    q: Point,
    num: u32,
    den: u32,
)
    requires
        0 <= i < s.len() <= usize::MAX,
        has_children(s, i),
        opens(s[i], q, num, den),
        s[i].first_child() == c,
    ensures
        pending(
            s,
            rest.push((c + 7) as usize).push((c + 6) as usize).push((c + 5) as usize).push(
                (c + 4) as usize,
            ).push((c + 3) as usize).push((c + 2) as usize).push((c + 1) as usize).push(c),
            q,
            num,
            den,
        ) == terms(s, i, q, num, den) + pending(s, rest, q, num, den),
        stack_weight(
            s,
            rest.push((c + 7) as usize).push((c + 6) as usize).push((c + 5) as usize).push(
                (c + 4) as usize,
            ).push((c + 3) as usize).push((c + 2) as usize).push((c + 1) as usize).push(c),
        ) + 1 == weight(s, i) + stack_weight(s, rest),
{
    let s7 = rest.push((c + 7) as usize);
    let s6 = s7.push((c + 6) as usize);
    let s5 = s6.push((c + 5) as usize);
    let s4 = s5.push((c + 4) as usize);
    let s3 = s4.push((c + 3) as usize);
    let s2 = s3.push((c + 2) as usize);
    let s1 = s2.push((c + 1) as usize);
    let s0 = s1.push(c);
    lemma_pending_push(s, rest, (c + 7) as usize, q, num, den);
    lemma_pending_push(s, s7, (c + 6) as usize, q, num, den);
    lemma_pending_push(s, s6, (c + 5) as usize, q, num, den);
    lemma_pending_push(s, s5, (c + 4) as usize, q, num, den);
    lemma_pending_push(s, s4, (c + 3) as usize, q, num, den);
    lemma_pending_push(s, s3, (c + 2) as usize, q, num, den);
    lemma_pending_push(s, s2, (c + 1) as usize, q, num, den);
    lemma_pending_push(s, s1, c, q, num, den);
    let p = pending(s, rest, q, num, den);
    let t = |k: int| terms(s, c + k, q, num, den);
    assert(terms(s, i, q, num, den) == t(0) + t(1) + t(2) + t(3) + t(4) + t(5) + t(6) + t(7));
    let p7 = t(7) + p;
    let p6 = t(6) + p7;
    let p5 = t(5) + p6;
    let p4 = t(4) + p5;
    let p3 = t(3) + p4;
    let p2 = t(2) + p3;
    let p1 = t(1) + p2;
    assert(pending(s, s0, q, num, den) == t(0) + p1);
    lemma_concat_associative(t(0), t(1), p2);
    lemma_concat_associative(t(0) + t(1), t(2), p3);
    lemma_concat_associative(t(0) + t(1) + t(2), t(3), p4);
    lemma_concat_associative(t(0) + t(1) + t(2) + t(3), t(4), p5);
    lemma_concat_associative(t(0) + t(1) + t(2) + t(3) + t(4), t(5), p6);
    lemma_concat_associative(t(0) + t(1) + t(2) + t(3) + t(4) + t(5), t(6), p7);
    lemma_concat_associative(t(0) + t(1) + t(2) + t(3) + t(4) + t(5) + t(6), t(7), p);
}

/// Leaf `n` after a split: internal with children from `c`, without mass.
pub open spec fn split_node(n: Node, c: int) -> Node {
    Node { bounds: n.bounds, children: Some(c as usize), mass: 0, point: n.point, moment: zero_moment() }
}

/// Appending eight empty octant leaves after arena `s` and linking them
/// below leaf `node` keeps the arena a tree; the leaves lose what `node` held.
proof fn lemma_split_ok(s: Seq<Node>, par: Seq<int>, w: Bounds, node: int, t: Seq<Node>, new_par: Seq<int>)
    requires
        arena_ok(s, par, w),
        0 <= node < s.len(),
        s[node].leaf(),
        s[node].bounds.splittable(),
        s.len() + 8 <= usize::MAX,
        t.len() == s.len() + 8,
        forall|j: int| 0 <= j < s.len() && j != node ==> #[trigger] t[j] == s[j],
        t[node] == split_node(s[node], s.len() as int),
        forall|k: int|
            0 <= k < 8 ==> #[trigger] t[s.len() + k] == Node::empty_spec(
                s[node].bounds.octant_bounds(k),
            ),
        new_par == par + Seq::new(8, |k: int| node),
    ensures
        arena_ok(t, new_par, w),
        leaf_total(t) == leaf_total(s) - s[node].mass,
        forall|k: int| #[trigger] leaf_sum(t, k) == leaf_sum(s, k) - leaf_field(s[node], k),
{
    let r = s.len() as int;
    assert(node_ok(s, par, node));
    assert forall|i: int| 0 <= i < t.len() implies #[trigger] node_ok(t, new_par, i) by {
        if i < r {
            assert(node_ok(s, par, i));
            if i >= 1 {
                let pi = par[i];
                assert(node_ok(s, par, pi));
            }
            if i != node && !s[i].leaf() {
                let c = s[i].first_child();
                assert forall|k: int| 0 <= k < 8 implies #[trigger] t[c + k].bounds
                    == t[i].bounds.octant_bounds(k) by {
                    assert(s[c + k].bounds == s[i].bounds.octant_bounds(k));
                }
                assert forall|k: int| 0 <= k < 8 implies #[trigger] new_par[c + k] == i by {
                    assert(par[c + k] == i);
                }
            }
            if i == node {
                assert forall|k: int| 0 <= k < 8 implies #[trigger] new_par[r + k] == i by {
                    assert(new_par[r + k] == node);
                }
                assert forall|k: int| 0 <= k < 8 implies #[trigger] t[r + k].bounds
                    == t[i].bounds.octant_bounds(k) by {
                    assert(t[r + k] == Node::empty_spec(s[node].bounds.octant_bounds(k)));
                }
            }
        } else {
            let k = i - r;
            assert(t[r + k] == Node::empty_spec(s[node].bounds.octant_bounds(k)));
            assert(new_par[i] == node);
        }
    }
    let f = |j: int| leaf_mass(s[j]);
    let g = |j: int| leaf_mass(t[j]);
    lemma_sum_point(f, g, r, node);
    assert forall|j: int| r <= j < r + 8 implies #[trigger] g(j) == 0 by {
        assert(t[r + (j - r)] == Node::empty_spec(s[node].bounds.octant_bounds(j - r)));
    }
    lemma_sum_zero_range(g, r, r + 8);
    lemma_sum_term(f, r, node);
    assert forall|k: int| #[trigger] leaf_sum(t, k) == leaf_sum(s, k) - leaf_field(s[node], k) by {
        let fk = |j: int| leaf_field(s[j], k);
        let gk = |j: int| leaf_field(t[j], k);
        lemma_sum_point(fk, gk, r, node);
        assert forall|j: int| r <= j < r + 8 implies #[trigger] gk(j) == 0 by {
            assert(t[r + (j - r)] == Node::empty_spec(s[node].bounds.octant_bounds(j - r)));
        }
        lemma_sum_zero_range(gk, r, r + 8);
    }
}

/// A non-empty leaf `j` whose point lies in the world cube is where the
/// search for that point ends, and its own cube contains the point.
pub open spec fn leaf_placed(s: Seq<Node>, w: Bounds, j: int) -> bool {
    (0 <= j < s.len() && s[j].leaf() && s[j].mass > 0 && w.contains_spec(s[j].point)) ==> (
    descend(s, 0, s[j].point) == j && s[j].bounds.contains_spec(s[j].point))
}

/// A search that starts in a cube containing `p` ends in one containing it.
proof fn lemma_descend_contains(s: Seq<Node>, par: Seq<int>, w: Bounds, i: int, p: Point)
    requires
        arena_ok(s, par, w),
        0 <= i < s.len(),
        s[i].bounds.contains_spec(p),
    ensures
        s[descend(s, i, p)].bounds.contains_spec(p),
    decreases s.len() - i,
{
    assert(node_ok(s, par, i));
    if !s[i].leaf() {
        let b = s[i].bounds;
        let o = b.octant_spec(p);
        crate::geometry::lemma_octants_tile(b, p);
        assert(s[s[i].first_child() + o].bounds == b.octant_bounds(o));
        lemma_descend_contains(s, par, w, s[i].first_child() + o, p);
    }
}

/// A search from `i` that does not end at leaf `x` is unchanged when only
/// `x` changes shape and the arena grows.
proof fn lemma_descend_avoid(s: Seq<Node>, par: Seq<int>, w: Bounds, t: Seq<Node>, i: int, q: Point, x: int)
    requires
        arena_ok(s, par, w),
        0 <= i < s.len() <= t.len(),
        0 <= x < s.len(),
        s[x].leaf(),
        descend(s, i, q) != x,
        forall|j: int|
            0 <= j < s.len() && j != x ==> (#[trigger] t[j]).children == s[j].children
                && t[j].bounds == s[j].bounds,
    ensures
        descend(t, i, q) == descend(s, i, q),
    decreases s.len() - i,
{
    assert(node_ok(s, par, i));
    assert(t[i].children == s[i].children);
    if !s[i].leaf() {
        lemma_descend_avoid(s, par, w, t, s[i].first_child() + s[i].bounds.octant_spec(q), q, x);
    }
}

/// Leaves other than `l` that keep their place in an arena that only changed
/// at `l` and grew stay placed.
proof fn lemma_placed_kept(s: Seq<Node>, par: Seq<int>, w: Bounds, t: Seq<Node>, l: int)
    requires
        arena_ok(s, par, w),
        0 <= l < s.len() <= t.len(),
        s[l].leaf(),
        forall|j: int| #[trigger] leaf_placed(s, w, j),
        forall|j: int| 0 <= j < s.len() && j != l ==> #[trigger] t[j] == s[j],
    ensures
        forall|j: int| 0 <= j < s.len() && j != l ==> #[trigger] leaf_placed(t, w, j),
{
    assert forall|j: int| 0 <= j < s.len() && j != l implies #[trigger] leaf_placed(t, w, j) by {
        assert(leaf_placed(s, w, j));
        if t[j].leaf() && t[j].mass > 0 && w.contains_spec(t[j].point) {
            lemma_descend_avoid(s, par, w, t, 0, s[j].point, l);
        }
    }
}

/// Nodes from `lo` on that were empty and that only `a` and `b` changed stay empty.
proof fn lemma_rest_empty(s: Seq<Node>, t: Seq<Node>, lo: int, a: int, b: int)
    requires
        0 <= lo,
        t.len() == s.len(),
        forall|j: int|
            lo <= j < s.len() ==> (#[trigger] s[j]).mass == 0 && s[j].moment == zero_moment(),
        forall|j: int| 0 <= j < s.len() && j != a && j != b ==> #[trigger] t[j] == s[j],
    ensures
        forall|j: int|
            lo <= j < t.len() && j != a && j != b ==> (#[trigger] t[j]).mass == 0 && t[j].moment
                == zero_moment(),
{
    assert forall|j: int| lo <= j < t.len() && j != a && j != b implies (#[trigger] t[j]).mass == 0
        && t[j].moment == zero_moment() by {
        assert(t[j] == s[j]);
    }
}

pub struct Octree {
    nodes: Vec<Node>,
    center: Point,
    size: u32,
    total: u64,
    parent: Ghost<Seq<int>>,
}

impl Octree {
    /// The arena.
    pub closed spec fn nodes(&self) -> Seq<Node> {
        self.nodes@
    }

    /// The world cube fixed at construction.
    pub closed spec fn world(&self) -> Bounds {
        Bounds { center: self.center, size: self.size }
    }

    /// Total mass inserted since construction or the last clear.
    pub closed spec fn total_mass(&self) -> int {
        self.total as int
    }

    pub closed spec fn wf(&self) -> bool {
        &&& arena_ok(self.nodes@, self.parent@, self.world())
        &&& self.total == leaf_total(self.nodes@)
        &&& forall|j: int| #[trigger] leaf_placed(self.nodes@, self.world(), j)
    }

    pub fn new(center: Point, size: u32) -> (r: Octree)
        requires
            (Bounds { center, size }).wf(),
        ensures
            r.wf(),
            r.world() == (Bounds { center, size }),
            r.nodes() == seq![Node::empty_spec(Bounds { center, size })],
            r.total_mass() == 0,
    {
        let root = Node::empty(Bounds { center, size });
        let ghost par = seq![0int];
        let r = Octree { nodes: vec![root], center, size, total: 0, parent: Ghost(par) };
        proof {
            assert(r.nodes@ == seq![root]);
            reveal_with_fuel(sum_to, 2);
            assert(node_ok(r.nodes@, r.parent@, 0));
        }
        r
    }

    pub fn clear(&mut self)
        requires
            old(self).wf(),
        ensures
            final(self).wf(),
            final(self).world() == old(self).world(),
            final(self).nodes() == seq![Node::empty_spec(old(self).world())],
            final(self).total_mass() == 0,
    {
        let root = Node::empty(Bounds { center: self.center, size: self.size });
        self.nodes.clear();
        self.nodes.push(root);
        self.total = 0;
        let ghost par = seq![0int];
        self.parent = Ghost(par);
        proof {
            assert(self.nodes@ == seq![root]);
            reveal_with_fuel(sum_to, 2);
            assert(node_ok(self.nodes@, self.parent@, 0));
        }
    }

    /// Appends eight empty leaves, one per octant of the cube of `node`, in
    /// code order, each recording `node` as its parent; the caller links them.
    /// Returns the index of the first.
    fn subdivide(&mut self, node: usize) -> (r: usize)
        requires
            node < old(self).nodes@.len(),
            old(self).parent@.len() == old(self).nodes@.len(),
            old(self).nodes@[node as int].bounds.wf(),
            old(self).nodes@[node as int].bounds.splittable(),
        ensures
            r == old(self).nodes@.len(),
            final(self).nodes@.len() == r + 8,
            final(self).nodes@.len() <= usize::MAX,
            final(self).center == old(self).center,
            final(self).size == old(self).size,
            final(self).total == old(self).total,
            final(self).nodes@.subrange(0, r as int) == old(self).nodes@,
            forall|k: int|
                0 <= k < 8 ==> #[trigger] final(self).nodes@[r + k] == Node::empty_spec(
                    old(self).nodes@[node as int].bounds.octant_bounds(k),
                ),
            final(self).parent@ == old(self).parent@ + Seq::new(8, |k: int| node as int),
    {
        let ghost s = self.nodes@;
        let r = self.nodes.len();
        let octs = self.nodes[node].bounds.into_octants();
        self.nodes.push(Node::empty(octs[0]));
        self.nodes.push(Node::empty(octs[1]));
        self.nodes.push(Node::empty(octs[2]));
        self.nodes.push(Node::empty(octs[3]));
        self.nodes.push(Node::empty(octs[4]));
        self.nodes.push(Node::empty(octs[5]));
        self.nodes.push(Node::empty(octs[6]));
        self.nodes.push(Node::empty(octs[7]));
        let ghost new_par = self.parent@ + Seq::new(8, |k: int| node as int);
        self.parent = Ghost(new_par);
        let count = self.nodes.len();
        proof {
            let t = self.nodes@;
            assert(count == t.len());
            assert(t.subrange(0, r as int) =~= s);
            assert(forall|k: int|
                0 <= k < 8 ==> #[trigger] t[r + k] == Node::empty_spec(
                    s[node as int].bounds.octant_bounds(k),
                )) by {
                assert(t[r + 0] == Node::empty_spec(octs@[0]));
            }
        }
        r
    }

    /// Turns leaf `node` into an internal node without mass whose children
    /// start at `c`.
    fn link(&mut self, node: usize, c: usize)
        requires
            node < old(self).nodes@.len(),
        ensures
            final(self).nodes@ == old(self).nodes@.update(
                node as int,
                split_node(old(self).nodes@[node as int], c as int),
            ),
            final(self).center == old(self).center,
            final(self).size == old(self).size,
            final(self).total == old(self).total,
            final(self).parent == old(self).parent,
    {
        let n = self.nodes[node];
        let internal = Node {
            bounds: n.bounds,
            children: Some(c),
            mass: 0,
            point: n.point,
            moment: Moment { x: 0, y: 0, z: 0 },
        };
        self.nodes.set(node, internal);
    }

    /// Inserts a body of mass `mass` at `position`.
    #[verifier::rlimit(60)]
    pub fn insert(&mut self, position: Point, mass: u64)
        requires
            old(self).wf(),
            old(self).total_mass() + mass <= u64::MAX,
        ensures
            final(self).wf(),
            final(self).world() == old(self).world(),
            final(self).total_mass() == old(self).total_mass() + mass,
            inserted(old(self).nodes(), final(self).nodes(), position, mass),
    {
        let ghost s0 = self.nodes@;
        let ghost par0 = self.parent@;
        let count = self.nodes.len();
        let mut node: usize = 0;
        while self.nodes[node].children.is_some()
            invariant
                count == s0.len(),
                self.wf(),
                self.nodes@ == s0,
                self.parent@ == par0,
                node < s0.len(),
                descend(s0, 0, position) == descend(s0, node as int, position),
            decreases s0.len() - node,
        {
            let c = self.nodes[node].children.unwrap();
            proof {
                assert(node_ok(s0, par0, node as int));
            }
            node = c + self.nodes[node].bounds.get_octant(&position);
        }
        let ghost l = node as int;
        let leaf = self.nodes[node];
        proof {
            assert(descend(s0, l, position) == l);
            lemma_sum_term(|j: int| leaf_mass(s0[j]), s0.len() as int, l);
            assert(node_ok(s0, par0, l));
            lemma_body_moment_bounded(position, mass);
        }
        if leaf.mass == 0 {
            let n = Node {
                bounds: leaf.bounds,
                children: None,
                mass,
                point: position,
                moment: moment_of(position, mass),
            };
            self.nodes.set(node, n);
            self.total = self.total + mass;
            proof {
                lemma_node_update(s0, par0, self.world(), l, n);
                lemma_descend_frame(s0, self.nodes@, 0, position);
                lemma_placed_kept(s0, par0, self.world(), self.nodes@, l);
                assert(leaf_placed(s0, self.world(), l));
                if self.world().contains_spec(position) {
                    lemma_descend_contains(s0, par0, self.world(), 0, position);
                }
                lemma_descend_frame(s0, self.nodes@, 0, n.point);
                assert forall|j: int| #[trigger] leaf_placed(self.nodes@, self.world(), j) by {
                    if j == l {
                    }
                }
            }
            return;
        }
        if leaf.point == position || !leaf.bounds.can_split() {
            let n = Node {
                bounds: leaf.bounds,
                children: None,
                mass: leaf.mass + mass,
                point: leaf.point,
                moment: sum_moment(leaf.moment, leaf.mass, moment_of(position, mass), mass),
            };
            self.nodes.set(node, n);
            self.total = self.total + mass;
            proof {
                lemma_node_update(s0, par0, self.world(), l, n);
                lemma_descend_frame(s0, self.nodes@, 0, position);
                lemma_placed_kept(s0, par0, self.world(), self.nodes@, l);
                assert(leaf_placed(s0, self.world(), l));
                if self.world().contains_spec(position) {
                    lemma_descend_contains(s0, par0, self.world(), 0, position);
                }
                lemma_descend_frame(s0, self.nodes@, 0, n.point);
                assert forall|j: int| #[trigger] leaf_placed(self.nodes@, self.world(), j) by {
                    if j == l {
                    }
                }
            }
            return;
        }
        let p = leaf.point;
        let m0 = leaf.mass;
        let mom0 = leaf.moment;
        let ghost lf = s0[l];
        proof {
            assert(lf.moment == zero_moment() || lf.mass > 0);
        }
        let mut c = self.subdivide(node);
        let ghost s1 = self.nodes@;
        self.link(node, c);
        proof {
            let t = self.nodes@;
            assert forall|j: int| 0 <= j < s0.len() && j != l implies #[trigger] t[j] == s0[j] by {
                assert(s1[j] == s1.subrange(0, s0.len() as int)[j]);
            }
            assert forall|j: int| s0.len() <= j < t.len() implies (#[trigger] t[j]).mass == 0
                && t[j].moment == zero_moment() by {
                assert(s1[c + (j - c)] == Node::empty_spec(lf.bounds.octant_bounds(j - c)));
            }
            lemma_split_ok(s0, par0, self.world(), l, self.nodes@, self.parent@);
            lemma_descend_reroute(s0, self.nodes@, 0, position, l);
            assert(leaf_placed(s0, self.world(), l));
            if self.world().contains_spec(p) {
                lemma_descend_reroute(s0, self.nodes@, 0, p, l);
            }
        }
        let ghost mut splits: int = 1;
        let mut o1 = self.nodes[node].bounds.get_octant(&position);
        let mut o2 = self.nodes[node].bounds.get_octant(&p);
        while o1 == o2 && self.nodes[c + o1].bounds.can_split()
            invariant
                arena_ok(self.nodes@, self.parent@, self.world()),
                self.center == old(self).center,
                self.size == old(self).size,
                self.total == old(self).total,
                self.total == leaf_total(s0),
                leaf_total(self.nodes@) == leaf_total(s0) - m0,
                forall|k: int| #[trigger] leaf_sum(self.nodes@, k) == leaf_sum(s0, k) - leaf_field(lf, k),
                lf == s0[l],
                lf.leaf(),
                lf.mass == m0,
                lf.point == p,
                lf.moment == mom0,
                lf.bounds.splittable(),
                0 <= l < s0.len(),
                0 < m0 <= leaf_total(s0),
                moment_within(mom0, m0 as int),
                node < self.nodes@.len(),
                self.nodes@.len() <= usize::MAX,
                !self.nodes@[node as int].leaf(),
                self.nodes@[node as int].first_child() == c,
                c + 8 <= self.nodes@.len(),
                c >= s0.len(),
                node == l || node >= s0.len(),
                self.nodes@[l] == split_node(lf, s0.len() as int),
                splits >= 1,
                self.nodes@.len() == s0.len() + 8 * splits,
                splits + levels(self.nodes@[node as int].bounds.size as int) <= levels(
                    lf.bounds.size as int,
                ) + 1,
                forall|j: int|
                    0 <= j < s0.len() && j != l ==> #[trigger] self.nodes@[j] == s0[j],
                forall|j: int|
                    s0.len() <= j < self.nodes@.len() ==> (#[trigger] self.nodes@[j]).mass == 0
                        && self.nodes@[j].moment == zero_moment(),
                forall|k: int|
                    0 <= k < 8 ==> #[trigger] self.nodes@[c + k] == Node::empty_spec(
                        self.nodes@[node as int].bounds.octant_bounds(k),
                    ),
                o1 == self.nodes@[node as int].bounds.octant_spec(position),
                o2 == self.nodes@[node as int].bounds.octant_spec(p),
                o1 < 8,
                o2 < 8,
                descend(self.nodes@, 0, position) == descend(self.nodes@, node as int, position),
                descend(self.nodes@, l, position) == descend(self.nodes@, node as int, position),
                descend(self.nodes@, l, p) == descend(self.nodes@, node as int, p),
                self.world().contains_spec(p) ==> descend(self.nodes@, 0, p) == descend(
                    self.nodes@,
                    l,
                    p,
                ),
            decreases self.nodes@[node as int].bounds.size,
        {
            let ghost sb = self.nodes@;
            let ghost pb = self.parent@;
            let ghost old_node = node as int;
            proof {
                assert(node_ok(sb, pb, node as int));
                assert(sb[c + o1] == Node::empty_spec(sb[node as int].bounds.octant_bounds(o1 as int)));
                assert(descend(sb, c + o1, position) == c + o1);
                assert(descend(sb, c + o1, p) == c + o1);
                assert(descend(sb, node as int, position) == descend(sb, c + o1, position));
                assert(descend(sb, node as int, p) == descend(sb, c + o1, p));
                assert(node_ok(sb, pb, c + o1));
            }
            node = c + o1;
            c = self.subdivide(node);
            self.link(node, c);
            proof {
                let t = self.nodes@;
                assert forall|j: int| 0 <= j < sb.len() && j != node implies #[trigger] t[j] == sb[j] by {
                    assert(t[j] == t.subrange(0, sb.len() as int)[j]);
                }
                assert(sb[node as int].leaf());
                lemma_split_ok(sb, pb, self.world(), node as int, t, self.parent@);
                lemma_descend_reroute(sb, t, 0, position, node as int);
                lemma_descend_reroute(sb, t, l, position, node as int);
                lemma_descend_reroute(sb, t, l, p, node as int);
                if self.world().contains_spec(p) {
                    lemma_descend_reroute(sb, t, 0, p, node as int);
                }
                let sz = sb[old_node].bounds.size as int;
                assert(levels(sz) == 1 + levels(sz / 2));
                assert forall|j: int| s0.len() <= j < t.len() implies (#[trigger] t[j]).mass == 0
                    && t[j].moment == zero_moment() by {
                    if j < sb.len() && j != node {
                        assert(t[j] == sb[j]);
                    } else if j >= sb.len() {
                        assert(t[c + (j - c)] == Node::empty_spec(
                            sb[node as int].bounds.octant_bounds(j - c),
                        ));
                    }
                }
                assert(t[l] == sb[l]);
                splits = splits + 1;
            }
            o1 = self.nodes[node].bounds.get_octant(&position);
            o2 = self.nodes[node].bounds.get_octant(&p);
        }
        let ghost sp = self.nodes@;
        proof {
            assert(node_ok(sp, self.parent@, node as int));
            assert(sp[c + o1] == Node::empty_spec(sp[node as int].bounds.octant_bounds(o1 as int)));
            assert(sp[c + o2] == Node::empty_spec(sp[node as int].bounds.octant_bounds(o2 as int)));
            assert(descend(sp, c + o1, position) == c + o1);
            assert(descend(sp, c + o2, p) == c + o2);
            assert(descend(sp, node as int, position) == descend(sp, c + o1, position));
            assert(descend(sp, node as int, p) == descend(sp, c + o2, p));
            assert(levels(sp[node as int].bounds.size as int) >= 1);
        }
        let t = c + o1;
        if o1 == o2 {
            let b = self.nodes[t].bounds;
            let n = Node {
                bounds: b,
                children: None,
                mass: m0 + mass,
                point: p,
                moment: sum_moment(mom0, m0, moment_of(position, mass), mass),
            };
            self.nodes.set(t, n);
            proof {
                lemma_node_update(sp, self.parent@, self.world(), t as int, n);
                lemma_descend_frame(sp, self.nodes@, 0, position);
                lemma_descend_frame(sp, self.nodes@, l, position);
                lemma_descend_frame(sp, self.nodes@, l, p);
                lemma_descend_frame(sp, self.nodes@, 0, p);
                lemma_rest_empty(sp, self.nodes@, s0.len() as int, t as int, t as int);
            }
        } else {
            let b1 = self.nodes[t].bounds;
            let n1 = Node {
                bounds: b1,
                children: None,
                mass,
                point: position,
                moment: moment_of(position, mass),
            };
            self.nodes.set(t, n1);
            let ghost sq = self.nodes@;
            proof {
                lemma_node_update(sp, self.parent@, self.world(), t as int, n1);
                lemma_descend_frame(sp, sq, 0, position);
                lemma_descend_frame(sp, sq, l, position);
                lemma_descend_frame(sp, sq, l, p);
                lemma_descend_frame(sp, sq, 0, p);
            }
            let u = c + o2;
            let b2 = self.nodes[u].bounds;
            let n2 = Node { bounds: b2, children: None, mass: m0, point: p, moment: mom0 };
            self.nodes.set(u, n2);
            proof {
                lemma_node_update(sq, self.parent@, self.world(), u as int, n2);
                lemma_descend_frame(sq, self.nodes@, 0, position);
                lemma_descend_frame(sq, self.nodes@, l, position);
                lemma_descend_frame(sq, self.nodes@, l, p);
                lemma_descend_frame(sq, self.nodes@, 0, p);
                assert forall|j: int| 0 <= j < sp.len() && j != t && j != u implies #[trigger] self.nodes@[j] == sp[j] by {
                    assert(sq[j] == sp[j]);
                }
                lemma_rest_empty(sp, self.nodes@, s0.len() as int, t as int, u as int);
            }
        }
        self.total = self.total + mass;
        proof {
            let tf = self.nodes@;
            let a = descend(tf, l, position);
            let b = descend(tf, l, p);
            assert(leaf_total(tf) == leaf_total(s0) + mass);
            assert(forall|j: int| 0 <= j < s0.len() && j != l ==> #[trigger] tf[j] == s0[j]);
            assert(tf[l] == split_node(lf, s0.len() as int));
            assert(descend(tf, 0, position) == a);
            assert(s0.len() < tf.len() <= s0.len() + 8 * levels(lf.bounds.size as int));
            assert((tf.len() - s0.len()) % 8 == 0);
            assert(s0.len() <= a < tf.len());
            assert(s0.len() <= b < tf.len());
            assert(a == c + o1);
            assert(b == c + o2);
            lemma_placed_kept(s0, par0, self.world(), tf, l);
            if self.world().contains_spec(position) {
                lemma_descend_contains(tf, self.parent@, self.world(), 0, position);
            }
            if self.world().contains_spec(p) {
                lemma_descend_contains(tf, self.parent@, self.world(), 0, p);
            }
            assert forall|j: int| #[trigger] leaf_placed(tf, self.world(), j) by {
                if s0.len() <= j < tf.len() && j != a && j != b {
                    assert(tf[j].mass == 0);
                }
            }
            if a == b {
                assert(holds_body(tf[a], p, m0 + mass, add_moment(mom0, body_moment(position, mass))));
            } else {
                assert(holds_body(tf[a], position, mass as int, body_moment(position, mass)));
                assert(holds_body(tf[b], p, m0 as int, mom0));
            }
            if mass > 0 {
                assert(tf[descend(tf, 0, position)].mass > 0);
            }
            assert(inserted(s0, tf, position, mass));
            assert(settled(tf, descend(tf, 0, position), position));
            assert(forall|k: int|
                1 <= k < 4 ==> #[trigger] leaf_sum(tf, k) == leaf_sum(s0, k) + moment_axis(
                    body_moment(position, mass),
                    k,
                ));
        }
    }

    /// Aggregates bottom-up: walking the arena from its last index to the
    /// root, each internal node takes the sums of its children's masses and
    /// moments. Leaves are left as they are.
    pub fn backpropagate(&mut self)
        requires
            old(self).wf(),
        ensures
            final(self).wf(),
            final(self).world() == old(self).world(),
            final(self).total_mass() == old(self).total_mass(),
            aggregated(old(self).nodes(), final(self).nodes()),
            final(self).nodes()[0].mass == old(self).total_mass(),
    {
        let ghost s0 = self.nodes@;
        let ghost par = self.parent@;
        let count = self.nodes.len();
        let mut cur: usize = count;
        proof {
            lemma_leaf_total_is_sum(s0);
            assert forall|k: int| 0 <= k < 4 implies #[trigger] frontier(s0, par, count as int, k)
                == leaf_sum(s0, k) by {
                lemma_frontier_start(s0, par, self.world(), k);
            }
        }
        while cur > 0
            invariant
                count == self.nodes@.len(),
                arena_ok(self.nodes@, par, self.world()),
                self.parent@ == par,
                self.center == old(self).center,
                self.size == old(self).size,
                self.total == old(self).total,
                self.total == leaf_total(s0),
                leaf_total(s0) == leaf_sum(s0, 0),
                leaf_total(self.nodes@) == leaf_total(s0),
                cur <= self.nodes@.len(),
                same_shape(s0, self.nodes@),
                forall|j: int| 0 <= j < s0.len() && s0[j].leaf() ==> #[trigger] self.nodes@[j] == s0[j],
                forall|j: int| 0 <= j < s0.len() ==> #[trigger] self.nodes@[j].point == s0[j].point,
                forall|j: int|
                    cur <= j < self.nodes@.len() && !self.nodes@[j].leaf() ==> #[trigger] sums_children(
                        self.nodes@,
                        j,
                    ),
                forall|k: int|
                    0 <= k < 4 ==> #[trigger] frontier(self.nodes@, par, cur as int, k) == leaf_sum(
                        s0,
                        k,
                    ),
            decreases cur,
        {
            cur = cur - 1;
            let ghost sb = self.nodes@;
            let n = self.nodes[cur];
            match n.children {
                None => {
                    proof {
                        assert forall|k: int| 0 <= k < 4 implies #[trigger] frontier(sb, par, cur as int, k)
                            == leaf_sum(s0, k) by {
                            lemma_frontier_leaf(sb, par, self.world(), cur as int, k);
                        }
                    }
                },
                Some(c) => {
                    proof {
                        assert(node_ok(sb, par, cur as int));
                        lemma_frontier_bound(sb, par, self.world(), cur as int);
                        assert forall|k: int| 0 <= k < 8 implies (#[trigger] sb[c + k]).moment_bounded() by {
                            assert(node_ok(sb, par, c + k));
                        }
                    }
                    let (mass, moment) = sum_block(&self.nodes, c);
                    let agg = Node {
                        bounds: n.bounds,
                        children: n.children,
                        mass,
                        point: n.point,
                        moment,
                    };
                    self.nodes.set(cur, agg);
                    proof {
                        let t = self.nodes@;
                        assert(field(agg, 0) == sum8(|j: int| field(sb[j], 0), c as int));
                        assert(field(agg, 1) == sum8(|j: int| field(sb[j], 1), c as int));
                        assert(field(agg, 2) == sum8(|j: int| field(sb[j], 2), c as int));
                        assert(field(agg, 3) == sum8(|j: int| field(sb[j], 3), c as int));
                        assert forall|k: int| 0 <= k < 4 implies #[trigger] frontier(t, par, cur as int, k)
                            == leaf_sum(s0, k) by {
                            lemma_frontier_step(sb, par, self.world(), cur as int, agg, k);
                        }
                        assert(t[c + 0] == sb[c + 0]);
                        assert(t[c + 1] == sb[c + 1]);
                        assert(t[c + 2] == sb[c + 2]);
                        assert(t[c + 3] == sb[c + 3]);
                        assert(t[c + 4] == sb[c + 4]);
                        assert(t[c + 5] == sb[c + 5]);
                        assert(t[c + 6] == sb[c + 6]);
                        assert(t[c + 7] == sb[c + 7]);
                        assert(sums_children(t, cur as int));
                        lemma_node_update(sb, par, self.world(), cur as int, agg);
                        lemma_sums_children_kept(sb, par, self.world(), cur as int, agg);
                    }
                },
            }
        }
        proof {
            assert forall|k: int| 0 <= k < 4 implies #[trigger] field(self.nodes@[0], k) == leaf_sum(s0, k) by {
                lemma_frontier_end(self.nodes@, par, self.world(), k);
            }
            assert forall|k: int| 1 <= k < 4 implies #[trigger] moment_axis(self.nodes@[0].moment, k)
                == leaf_sum(s0, k) by {
                assert(field(self.nodes@[0], k) == leaf_sum(s0, k));
            }
            assert(field(self.nodes@[0], 0) == leaf_sum(s0, 0));
            assert(self.nodes@[0].mass == leaf_total(s0));
            let tf = self.nodes@;
            assert forall|j: int| #[trigger] leaf_placed(tf, self.world(), j) by {
                assert(leaf_placed(s0, self.world(), j));
                if 0 <= j < tf.len() && tf[j].leaf() {
                    assert(tf[j] == s0[j]);
                    lemma_descend_frame(s0, tf, 0, tf[j].point);
                }
            }
            assert(forall|j: int|
                0 <= j < self.nodes@.len() && !self.nodes@[j].leaf() ==> #[trigger] sums_children(
                    self.nodes@,
                    j,
                ));
        }
    }

    /// The terms that the force on a body at `point` is summed over, for the
    /// opening threshold theta = `theta_num / theta_den`. The tree is walked
    /// depth-first with an explicit stack of pending nodes: a non-empty leaf
    /// gives its body, an internal node is opened when `opens` holds and
    /// otherwise gives its aggregated cluster.
    pub fn interaction_list(&self, point: Point, theta_num: u32, theta_den: u32) -> (r: Vec<Term>)
        requires
            self.wf(),
        ensures
            r@ == terms(self.nodes(), 0, point, theta_num, theta_den),
    {
        let ghost s = self.nodes@;
        let ghost par = self.parent@;
        let count = self.nodes.len();
        let mut out: Vec<Term> = Vec::new();
        let mut stack: Vec<usize> = Vec::new();
        stack.push(0);
        proof {
            lemma_pending_push(s, Seq::<usize>::empty(), 0, point, theta_num, theta_den);
            assert(Seq::<usize>::empty().push(0) =~= stack@);
            assert(out@ + pending(s, stack@, point, theta_num, theta_den) =~= terms(s, 0, point, theta_num, theta_den));
        }
        while stack.len() > 0
            invariant
                self.wf(),
                self.nodes@ == s,
                self.parent@ == par,
                count == s.len(),
                forall|j: int| 0 <= j < stack@.len() ==> #[trigger] stack@[j] < count,
                out@ + pending(s, stack@, point, theta_num, theta_den) == terms(
                    s,
                    0,
                    point,
                    theta_num,
                    theta_den,
                ),
            decreases stack_weight(s, stack@),
        {
            let ghost st = stack@;
            let i = stack.pop().unwrap();
            let ghost rest = stack@;
            proof {
                assert(rest =~= st.drop_last());
                assert(node_ok(s, par, i as int));
                assert(weight(s, i as int) >= 1);
            }
            let n = self.nodes[i];
            let mut opened = false;
            if let Some(c) = n.children {
                if opens_exec(&n, point, theta_num, theta_den) {
                    opened = true;
                    stack.push(c + 7);
                    stack.push(c + 6);
                    stack.push(c + 5);
                    stack.push(c + 4);
                    stack.push(c + 3);
                    stack.push(c + 2);
                    stack.push(c + 1);
                    stack.push(c);
                    proof {
                        lemma_pending_open(s, rest, i as int, c, point, theta_num, theta_den);
                        assert(out@ + (terms(s, i as int, point, theta_num, theta_den) + pending(s, rest, point, theta_num, theta_den)) =~= out@ + terms(s, i as int, point, theta_num, theta_den) + pending(s, rest, point, theta_num, theta_den));
                    }
                }
            }
            if !opened {
                let ghost before = out@;
                if n.mass > 0 {
                    out.push(Term { mass: n.mass, moment: n.moment });
                }
                proof {
                    assert(before + (terms(s, i as int, point, theta_num, theta_den) + pending(s, rest, point, theta_num, theta_den)) =~= out@ + pending(s, rest, point, theta_num, theta_den));
                }
            }
        }
        proof {
            assert(out@ =~= out@ + pending(s, stack@, point, theta_num, theta_den));
        }
        out
    }

    /// Number of nodes in the arena.
    pub fn node_count(&self) -> (r: usize)
        ensures
            r == self.nodes().len(),
    {
        self.nodes.len()
    }

    /// The node at index `i`.
    pub fn node(&self, i: usize) -> (r: Node)
        requires
            i < self.nodes().len(),
        ensures
            r == self.nodes()[i as int],
    {
        self.nodes[i]
    }

    /// The total mass inserted since construction or the last clear.
    pub fn total(&self) -> (r: u64)
        ensures
            r == self.total_mass(),
    {
        self.total
    }
}

} // verus!

verus! {

/// Sum of the masses of a list of bodies.
pub open spec fn body_mass_sum(bodies: Seq<(Point, u64)>) -> int
    decreases bodies.len(),
{
    if bodies.len() == 0 {
        0
    } else {
        body_mass_sum(bodies.drop_last()) + bodies.last().1
    }
}

/// Axis `k` of the summed moments of a list of bodies: the mass-weighted
/// sum of their positions.
pub open spec fn body_moment_sum(bodies: Seq<(Point, u64)>, k: int) -> int
    decreases bodies.len(),
{
    if bodies.len() == 0 {
        0
    } else {
        body_moment_sum(bodies.drop_last(), k) + moment_axis(
            body_moment(bodies.last().0, bodies.last().1),
            k,
        )
    }
}

/// Sum of the masses of a list of terms.
pub open spec fn term_mass_sum(ts: Seq<Term>) -> int
    decreases ts.len(),
{
    if ts.len() == 0 {
        0
    } else {
        term_mass_sum(ts.drop_last()) + ts.last().mass
    }
}

/// Component `k` (mass for 0, otherwise a moment axis) summed over terms.
pub open spec fn term_sum(ts: Seq<Term>, k: int) -> int
    decreases ts.len(),
{
    if ts.len() == 0 {
        0
    } else {
        term_sum(ts.drop_last(), k) + (if k == 0 {
            ts.last().mass as int
        } else {
            moment_axis(ts.last().moment, k)
        })
    }
}

proof fn lemma_term_sum_concat(a: Seq<Term>, b: Seq<Term>, k: int)
    ensures
        term_sum(a + b, k) == term_sum(a, k) + term_sum(b, k),
    decreases b.len(),
{
    if b.len() > 0 {
        assert((a + b).drop_last() =~= a + b.drop_last());
        lemma_term_sum_concat(a, b.drop_last(), k);
    }
}

proof fn lemma_terms_sum_subtree(
    s: Seq<Node>,
    par: Seq<int>,
    w: Bounds,
    i: int,
    q: Point,
    num: u32,
    den: u32,
    k: int,
)
    requires
        arena_ok(s, par, w),
        forall|j: int| 0 <= j < s.len() && !s[j].leaf() ==> #[trigger] sums_children(s, j),
        0 <= i < s.len(),
        0 <= k < 4,
    ensures
        term_sum(terms(s, i, q, num, den), k) == field(s[i], k),
    decreases s.len() - i,
{
    assert(node_ok(s, par, i));
    if has_children(s, i) && opens(s[i], q, num, den) {
        let c = s[i].first_child();
        assert(sums_children(s, i));
        assert(field(s[i], k) == sum8(|j: int| field(s[j], k), c));
        let t = |x: int| terms(s, c + x, q, num, den);
        lemma_terms_sum_subtree(s, par, w, c, q, num, den, k);
        lemma_terms_sum_subtree(s, par, w, c + 1, q, num, den, k);
        lemma_terms_sum_subtree(s, par, w, c + 2, q, num, den, k);
        lemma_terms_sum_subtree(s, par, w, c + 3, q, num, den, k);
        lemma_terms_sum_subtree(s, par, w, c + 4, q, num, den, k);
        lemma_terms_sum_subtree(s, par, w, c + 5, q, num, den, k);
        lemma_terms_sum_subtree(s, par, w, c + 6, q, num, den, k);
        lemma_terms_sum_subtree(s, par, w, c + 7, q, num, den, k);
        lemma_term_sum_concat(t(0), t(1), k);
        lemma_term_sum_concat(t(0) + t(1), t(2), k);
        lemma_term_sum_concat(t(0) + t(1) + t(2), t(3), k);
        lemma_term_sum_concat(t(0) + t(1) + t(2) + t(3), t(4), k);
        lemma_term_sum_concat(t(0) + t(1) + t(2) + t(3) + t(4), t(5), k);
        lemma_term_sum_concat(t(0) + t(1) + t(2) + t(3) + t(4) + t(5), t(6), k);
        lemma_term_sum_concat(t(0) + t(1) + t(2) + t(3) + t(4) + t(5) + t(6), t(7), k);
    } else {
        reveal_with_fuel(term_sum, 2);
        if s[i].mass == 0 {
            assert(s[i].moment_bounded());
        }
    }
}

/// Once aggregated, the terms of a query carry the whole mass and moment of
/// the tree, whatever the threshold: each body is counted once, alone or
/// within one cluster, and the clusters keep the center of mass.
pub proof fn lemma_terms_conserve_moment(t: &Octree, q: Point, num: u32, den: u32)
    requires
        t.wf(),
        forall|j: int|
            0 <= j < t.nodes().len() && !t.nodes()[j].leaf() ==> #[trigger] sums_children(
                t.nodes(),
                j,
            ),
    ensures
        forall|k: int|
            1 <= k < 4 ==> #[trigger] term_sum(terms(t.nodes(), 0, q, num, den), k) == moment_axis(
                t.nodes()[0].moment,
                k,
            ),
{
    assert forall|k: int| 1 <= k < 4 implies #[trigger] term_sum(terms(t.nodes(), 0, q, num, den), k)
        == moment_axis(t.nodes()[0].moment, k) by {
        lemma_terms_sum_subtree(t.nodes(), t.parent@, t.world(), 0, q, num, den, k);
    }
}

proof fn lemma_term_mass_concat(a: Seq<Term>, b: Seq<Term>)
    ensures
        term_mass_sum(a + b) == term_mass_sum(a) + term_mass_sum(b),
    decreases b.len(),
{
    if b.len() > 0 {
        assert((a + b).drop_last() =~= a + b.drop_last());
        lemma_term_mass_concat(a, b.drop_last());
    }
}

proof fn lemma_prefix_total(w: Bounds, arenas: Seq<Seq<Node>>, bodies: Seq<(Point, u64)>, k: int)
    requires
        arenas.len() == bodies.len() + 1,
        arenas[0] == seq![Node::empty_spec(w)],
        forall|j: int|
            0 <= j < bodies.len() ==> inserted(
                #[trigger] arenas[j],
                arenas[j + 1],
                bodies[j].0,
                bodies[j].1,
            ),
        0 <= k <= bodies.len(),
    ensures
        leaf_total(arenas[k]) == body_mass_sum(bodies.take(k)),
        forall|a: int| 1 <= a < 4 ==> #[trigger] leaf_sum(arenas[k], a) == body_moment_sum(bodies.take(k), a),
    decreases k,
{
    if k == 0 {
        reveal_with_fuel(sum_to, 2);
    } else {
        lemma_prefix_total(w, arenas, bodies, k - 1);
        assert(inserted(arenas[k - 1], arenas[k], bodies[k - 1].0, bodies[k - 1].1));
        assert(bodies.take(k).drop_last() =~= bodies.take(k - 1));
    }
}

/// Starting from a single empty root, inserting `bodies` one after the
/// other (`arenas[k + 1]` is `arenas[k]` after inserting `bodies[k]`) and
/// then aggregating leaves the sum of the inserted masses at the root, and
/// the sum of their moments: the root's center of mass is the mass-weighted
/// mean of the inserted positions.
pub proof fn lemma_root_mass_sums_insertions(
    w: Bounds,
    arenas: Seq<Seq<Node>>,
    bodies: Seq<(Point, u64)>,
    agg: Seq<Node>,
)
    requires
        arenas.len() == bodies.len() + 1,
        arenas[0] == seq![Node::empty_spec(w)],
        forall|k: int|
            0 <= k < bodies.len() ==> inserted(
                #[trigger] arenas[k],
                arenas[k + 1],
                bodies[k].0,
                bodies[k].1,
            ),
        aggregated(arenas.last(), agg),
    ensures
        agg[0].mass == body_mass_sum(bodies),
        forall|a: int| 1 <= a < 4 ==> #[trigger] moment_axis(agg[0].moment, a) == body_moment_sum(bodies, a),
{
    lemma_prefix_total(w, arenas, bodies, bodies.len() as int);
    assert(bodies.take(bodies.len() as int) =~= bodies);
}

/// Inserting twice at the same position never subdivides the second time:
/// the arena keeps its length, the search for `p` reaches the same leaf, and
/// that leaf gains the second mass.
pub proof fn lemma_same_position_merges(
    s: Seq<Node>,
    t: Seq<Node>,
    u: Seq<Node>,
    p: Point,
    m1: u64,
    m2: u64,
)
    requires
        inserted(s, t, p, m1),
        inserted(t, u, p, m2),
    ensures
        u.len() == t.len(),
        descend(u, 0, p) == descend(t, 0, p),
        u[descend(t, 0, p)].mass == t[descend(t, 0, p)].mass + m2,
{
    lemma_descend_frame(t, u, 0, p);
}

/// The eight children of every internal node tile its cube: a point of the
/// node's cube lies in the child its octant code names, a point of a child
/// lies in the node's cube, and two children share only points on a
/// dividing plane.
pub proof fn lemma_children_tile(t: &Octree, i: int, p: Point)
    requires
        t.wf(),
        0 <= i < t.nodes().len(),
        !t.nodes()[i].leaf(),
    ensures
        ({
            let s = t.nodes();
            let b = s[i].bounds;
            let c = s[i].first_child();
            &&& b.contains_spec(p) ==> s[c + b.octant_spec(p)].bounds.contains_spec(p)
            &&& forall|k: int|
                0 <= k < 8 && (#[trigger] s[c + k]).bounds.contains_spec(p) ==> b.contains_spec(p)
            &&& forall|k: int, l: int|
                0 <= k < l < 8 && (#[trigger] s[c + k]).bounds.contains_spec(p) && (#[trigger] s[c
                    + l]).bounds.contains_spec(p) ==> p.x == b.center.x || p.y == b.center.y || p.z
                    == b.center.z
        }),
{
    let s = t.nodes();
    assert(node_ok(s, t.parent@, i));
    let b = s[i].bounds;
    let c = s[i].first_child();
    crate::geometry::lemma_octants_tile(b, p);
    assert forall|k: int| 0 <= k < 8 implies (#[trigger] s[c + k]).bounds == b.octant_bounds(k) by {}
}

/// The bodies of the subtree at `i`: its non-empty leaves in depth-first
/// octant order, each as one term.
pub open spec fn leaf_terms(s: Seq<Node>, i: int) -> Seq<Term>
    decreases s.len() - i,
{
    if !(0 <= i < s.len()) {
        seq![]
    } else if has_children(s, i) {
        let c = s[i].first_child();
        leaf_terms(s, c) + leaf_terms(s, c + 1) + leaf_terms(s, c + 2) + leaf_terms(s, c + 3)
            + leaf_terms(s, c + 4) + leaf_terms(s, c + 5) + leaf_terms(s, c + 6) + leaf_terms(
            s,
            c + 7,
        )
    } else if s[i].mass > 0 {
        seq![term_of(s[i])]
    } else {
        seq![]
    }
}

proof fn lemma_theta_zero_subtree(s: Seq<Node>, par: Seq<int>, w: Bounds, i: int, q: Point, den: u32)
    requires
        arena_ok(s, par, w),
        0 <= i < s.len(),
        den > 0,
    ensures
        terms(s, i, q, 0, den) == leaf_terms(s, i),
    decreases s.len() - i,
{
    assert(node_ok(s, par, i));
    if has_children(s, i) {
        let c = s[i].first_child();
        let size = s[i].bounds.size as int;
        let d = den as int;
        assert(size * size * (d * d) > 0) by (nonlinear_arith)
            requires
                size >= 2,
                d >= 1,
        ;
        let dd = dist2(s[i].bounds.center, q);
        assert((0u32 * 0u32) * dd == 0);
        assert(opens(s[i], q, 0, den));
        lemma_theta_zero_subtree(s, par, w, c, q, den);
        lemma_theta_zero_subtree(s, par, w, c + 1, q, den);
        lemma_theta_zero_subtree(s, par, w, c + 2, q, den);
        lemma_theta_zero_subtree(s, par, w, c + 3, q, den);
        lemma_theta_zero_subtree(s, par, w, c + 4, q, den);
        lemma_theta_zero_subtree(s, par, w, c + 5, q, den);
        lemma_theta_zero_subtree(s, par, w, c + 6, q, den);
        lemma_theta_zero_subtree(s, par, w, c + 7, q, den);
    }
}

/// With theta zero every internal node is opened, so the query interacts
/// with every body of the tree one by one: the exact pairwise sum.
pub proof fn lemma_theta_zero_is_exact(t: &Octree, q: Point, den: u32)
    requires
        t.wf(),
        den > 0,
    ensures
        terms(t.nodes(), 0, q, 0, den) == leaf_terms(t.nodes(), 0),
{
    lemma_theta_zero_subtree(t.nodes(), t.parent@, t.world(), 0, q, den);
}

proof fn lemma_terms_mass_subtree(
    s: Seq<Node>,
    par: Seq<int>,
    w: Bounds,
    i: int,
    q: Point,
    num: u32,
    den: u32,
)
    requires
        arena_ok(s, par, w),
        forall|j: int| 0 <= j < s.len() && !s[j].leaf() ==> #[trigger] sums_children(s, j),
        0 <= i < s.len(),
    ensures
        term_mass_sum(terms(s, i, q, num, den)) == s[i].mass,
    decreases s.len() - i,
{
    assert(node_ok(s, par, i));
    if has_children(s, i) && opens(s[i], q, num, den) {
        let c = s[i].first_child();
        assert(sums_children(s, i));
        assert(field(s[i], 0) == sum8(|j: int| field(s[j], 0), c));
        let t = |k: int| terms(s, c + k, q, num, den);
        lemma_terms_mass_subtree(s, par, w, c, q, num, den);
        lemma_terms_mass_subtree(s, par, w, c + 1, q, num, den);
        lemma_terms_mass_subtree(s, par, w, c + 2, q, num, den);
        lemma_terms_mass_subtree(s, par, w, c + 3, q, num, den);
        lemma_terms_mass_subtree(s, par, w, c + 4, q, num, den);
        lemma_terms_mass_subtree(s, par, w, c + 5, q, num, den);
        lemma_terms_mass_subtree(s, par, w, c + 6, q, num, den);
        lemma_terms_mass_subtree(s, par, w, c + 7, q, num, den);
        lemma_term_mass_concat(t(0), t(1));
        lemma_term_mass_concat(t(0) + t(1), t(2));
        lemma_term_mass_concat(t(0) + t(1) + t(2), t(3));
        lemma_term_mass_concat(t(0) + t(1) + t(2) + t(3), t(4));
        lemma_term_mass_concat(t(0) + t(1) + t(2) + t(3) + t(4), t(5));
        lemma_term_mass_concat(t(0) + t(1) + t(2) + t(3) + t(4) + t(5), t(6));
        lemma_term_mass_concat(t(0) + t(1) + t(2) + t(3) + t(4) + t(5) + t(6), t(7));
    } else {
        reveal_with_fuel(term_mass_sum, 2);
    }
}

/// Once aggregated, the terms of a query carry the whole mass of the tree,
/// whatever the threshold: each body is counted once, alone or within one
/// cluster.
pub proof fn lemma_terms_conserve_mass(t: &Octree, q: Point, num: u32, den: u32)
    requires
        t.wf(),
        forall|j: int|
            0 <= j < t.nodes().len() && !t.nodes()[j].leaf() ==> #[trigger] sums_children(
                t.nodes(),
                j,
            ),
    ensures
        term_mass_sum(terms(t.nodes(), 0, q, num, den)) == t.nodes()[0].mass,
{
    lemma_terms_mass_subtree(t.nodes(), t.parent@, t.world(), 0, q, num, den);
}

} // verus!

verus! {

/// A non-empty leaf whose point lies in the world cube holds it in its own
/// cube, and the search for that point ends at it.
pub proof fn lemma_leaf_point_in_cube(t: &Octree, j: int)
    requires
        t.wf(),
        0 <= j < t.nodes().len(),
        t.nodes()[j].leaf(),
        t.nodes()[j].mass > 0,
        t.world().contains_spec(t.nodes()[j].point),
    ensures
        t.nodes()[j].bounds.contains_spec(t.nodes()[j].point),
        descend(t.nodes(), 0, t.nodes()[j].point) == j,
{
    assert(leaf_placed(t.nodes(), t.world(), j));
}

/// Two distinct non-empty leaves never hold the same point of the world cube.
pub proof fn lemma_leaf_points_distinct(t: &Octree, i: int, j: int)
    requires
        t.wf(),
        0 <= i < t.nodes().len(),
        0 <= j < t.nodes().len(),
        i != j,
        t.nodes()[i].leaf(),
        t.nodes()[j].leaf(),
        t.nodes()[i].mass > 0,
        t.nodes()[j].mass > 0,
        t.world().contains_spec(t.nodes()[i].point),
    ensures
        t.nodes()[i].point != t.nodes()[j].point,
{
    assert(leaf_placed(t.nodes(), t.world(), i));
    assert(leaf_placed(t.nodes(), t.world(), j));
}

} // verus!
