use vstd::prelude::*;
use vstd::set_lib::*;
use vstd::string::*;

use crate::config::{Alignment, Relation};
use crate::point::Point;
use crate::arith::{clamp_i32, sat_add, sat_sub};
use crate::text::str_eq;

verus! {

/// An output as seen by the layout: its name, its position and its size in
/// the global (logical) space.
pub struct Node {
    pub name: String,
    pub position: Point,
    pub width: i32,
    pub height: i32,
}

pub struct NodeView {
    pub name: Seq<char>,
    pub position: Point,
    pub width: i32,
    pub height: i32,
}

impl View for Node {
    type V = NodeView;

    open spec fn view(&self) -> NodeView {
        NodeView { name: self.name@, position: self.position, width: self.width, height: self.height }
    }
}

impl Node {
    pub fn clone_node(&self) -> (r: Node)
        ensures
            r@ == self@,
    {
        Node {
            name: self.name.clone(),
            position: self.position,
            width: self.width,
            height: self.height,
        }
    }
}

/// A directed placement constraint: `target` is placed `relation` the node the
/// edge leaves from, lined up by `alignment`.
pub struct Edge<T> {
    pub relation: Relation,
    pub alignment: Alignment,
    pub target: T,
}

pub struct EdgeView<T> {
    pub relation: Relation,
    pub alignment: Alignment,
    pub target: T,
}

impl<T: View> View for Edge<T> {
    type V = EdgeView<T::V>;

    open spec fn view(&self) -> EdgeView<T::V> {
        EdgeView { relation: self.relation, alignment: self.alignment, target: self.target@ }
    }
}


/// The placement graph: a set of named nodes, and for each node the set of
/// edges leaving it (in the order they were first added).
pub struct LayoutGraph {
    nodes: Vec<Node>,
    edges: Vec<Vec<Edge<String>>>,
}

pub struct LayoutView {
    pub nodes: Seq<NodeView>,
    pub edges: Seq<Seq<EdgeView<Seq<char>>>>,
}

impl View for LayoutGraph {
    type V = LayoutView;

    closed spec fn view(&self) -> LayoutView {
        view_of(self.nodes@, self.edges@)
    }
}

/// The graph that the node and edge vectors of a [`LayoutGraph`] stand for.
closed spec fn view_of(nodes: Seq<Node>, edges: Seq<Vec<Edge<String>>>) -> LayoutView {
    LayoutView {
        nodes: Seq::new(nodes.len(), |i: int| nodes[i]@),
        edges: Seq::new(edges.len(), |i: int| Seq::new(edges[i]@.len(), |k: int| edges[i]@[k]@)),
    }
}

impl LayoutGraph {
    /// Node names are unique, and so are the edges leaving each node.
    #[verifier::type_invariant]
    closed spec fn well_formed(self) -> bool {
        self@.wf()
    }
}

/// Number of edges of `es` that point at `t`.
pub open spec fn count_target(es: Seq<EdgeView<Seq<char>>>, t: Seq<char>) -> nat
    decreases es.len(),
{
    if es.len() == 0 {
        0
    } else {
        count_target(es.drop_last(), t) + (if es.last().target == t { 1nat } else { 0nat })
    }
}

impl LayoutView {
    pub open spec fn len(self) -> int {
        self.nodes.len() as int
    }

    pub open spec fn name(self, i: int) -> Seq<char> {
        self.nodes[i].name
    }

    pub open spec fn has_node(self, name: Seq<char>) -> bool {
        exists|i: int| #![trigger self.nodes[i]] 0 <= i < self.nodes.len() && self.nodes[i].name == name
    }

    /// Node names are unique, and so are the edges leaving each node.
    pub open spec fn wf(self) -> bool {
        &&& self.nodes.len() == self.edges.len()
        &&& forall|i: int, j: int|
            #![trigger self.nodes[i], self.nodes[j]]
            0 <= i < self.nodes.len() && 0 <= j < self.nodes.len() && i != j ==> self.nodes[i].name
                != self.nodes[j].name
        &&& forall|i: int| 0 <= i < self.edges.len() ==> (#[trigger] self.edges[i]).no_duplicates()
    }

    /// Every edge points at a node of the graph.
    pub open spec fn targets_closed(self) -> bool {
        forall|i: int, k: int|
            #![trigger self.edges[i][k]]
            0 <= i < self.edges.len() && 0 <= k < self.edges[i].len() ==> self.has_node(
                self.edges[i][k].target,
            )
    }

    /// Edges pointing at `t` that leave one of the first `m` nodes, except
    /// those leaving a node whose index is in `done`.
    pub open spec fn in_count(self, t: Seq<char>, done: Set<int>, m: int) -> nat
        decreases m,
    {
        if m <= 0 {
            0
        } else {
            self.in_count(t, done, m - 1) + (if done.contains(m - 1) {
                0nat
            } else {
                count_target(self.edges[m - 1], t)
            })
        }
    }

    /// Number of edges pointing at the node named `t`.
    pub open spec fn in_degree(self, t: Seq<char>) -> nat {
        self.in_count(t, Set::empty(), self.len())
    }

    /// Every in-degree fits the `u32` counters used to sort the graph.
    pub open spec fn degrees_fit(self) -> bool {
        forall|i: int| 0 <= i < self.len() ==> #[trigger] self.in_degree(self.name(i)) <= u32::MAX
    }

    /// At most one node has no incoming edge.
    pub open spec fn at_most_one_root(self) -> bool {
        forall|i: int, j: int|
            #![trigger self.nodes[i], self.nodes[j]]
            0 <= i < self.len() && 0 <= j < self.len() && self.in_degree(self.name(i)) == 0
                && self.in_degree(self.name(j)) == 0 ==> i == j
    }

    /// `s` lists every node name exactly once, and every edge points forward in `s`.
    pub open spec fn is_topo_order(self, s: Seq<Seq<char>>) -> bool {
        &&& s.len() == self.len()
        &&& s.no_duplicates()
        &&& forall|a: int| 0 <= a < s.len() ==> self.has_node(#[trigger] s[a])
        &&& forall|i: int| 0 <= i < self.len() ==> s.contains(#[trigger] self.nodes[i].name)
        &&& forall|a: int, b: int, i: int, k: int|
            #![trigger s[a], s[b], self.edges[i][k]]
            0 <= a < s.len() && 0 <= b < s.len() && 0 <= i < self.len() && 0 <= k
                < self.edges[i].len() && self.nodes[i].name == s[a] && self.edges[i][k].target
                == s[b] ==> a < b
    }

    /// The graph has no cycle: its nodes can be ordered so that every edge points forward.
    pub open spec fn has_topo_order(self) -> bool {
        exists|s: Seq<Seq<char>>| self.is_topo_order(s)
    }
}

// ----------------------------------------------------------------------------
// Lemmas on edge counting
// ----------------------------------------------------------------------------

proof fn lemma_count_target_take(es: Seq<EdgeView<Seq<char>>>, t: Seq<char>, k: int)
    requires
        0 <= k < es.len(),
    ensures
        count_target(es.take(k + 1), t) == count_target(es.take(k), t) + (if es[k].target == t {
            1nat
        } else {
            0nat
        }),
{
    assert(es.take(k + 1).drop_last() =~= es.take(k));
}

proof fn lemma_count_target_le(es: Seq<EdgeView<Seq<char>>>, t: Seq<char>, k: int)
    requires
        0 <= k <= es.len(),
    ensures
        count_target(es.take(k), t) <= count_target(es, t),
    decreases es.len() - k,
{
    if k < es.len() {
        lemma_count_target_take(es, t, k);
        lemma_count_target_le(es, t, k + 1);
    } else {
        assert(es.take(k) =~= es);
    }
}

proof fn lemma_count_target_pos(es: Seq<EdgeView<Seq<char>>>, t: Seq<char>)
    requires
        count_target(es, t) > 0,
    ensures
        exists|k: int| 0 <= k < es.len() && es[k].target == t,
    decreases es.len(),
{
    if es.last().target == t {
        assert(es[es.len() - 1].target == t);
    } else {
        lemma_count_target_pos(es.drop_last(), t);
        let k = choose|k: int| 0 <= k < es.drop_last().len() && es.drop_last()[k].target == t;
        assert(es[k].target == t);
    }
}

proof fn lemma_count_target_has(es: Seq<EdgeView<Seq<char>>>, t: Seq<char>, k: int)
    requires
        0 <= k < es.len(),
        es[k].target == t,
    ensures
        count_target(es, t) > 0,
    decreases es.len(),
{
    if k < es.len() - 1 {
        lemma_count_target_has(es.drop_last(), t, k);
    }
}

proof fn lemma_in_count_insert(g: LayoutView, t: Seq<char>, done: Set<int>, u: int, m: int)
    requires
        0 <= u,
        !done.contains(u),
    ensures
        g.in_count(t, done.insert(u), m) + (if u < m {
            count_target(g.edges[u], t)
        } else {
            0nat
        }) == g.in_count(t, done, m),
    decreases m,
{
    if m > 0 {
        lemma_in_count_insert(g, t, done, u, m - 1);
    }
}

proof fn lemma_in_count_le(g: LayoutView, t: Seq<char>, done: Set<int>, m1: int, m2: int)
    requires
        m1 <= m2,
    ensures
        g.in_count(t, done, m1) <= g.in_count(t, done, m2),
    decreases m2 - m1,
{
    if m1 < m2 {
        lemma_in_count_le(g, t, done, m1, m2 - 1);
    }
}

proof fn lemma_in_count_pos(g: LayoutView, t: Seq<char>, done: Set<int>, m: int)
    requires
        g.in_count(t, done, m) > 0,
    ensures
        exists|u: int, k: int|
            0 <= u < m && !done.contains(u) && 0 <= k < g.edges[u].len() && g.edges[u][k].target
                == t,
    decreases m,
{
    if g.in_count(t, done, m - 1) > 0 {
        lemma_in_count_pos(g, t, done, m - 1);
        let (u, k) = choose|u: int, k: int|
            0 <= u < m - 1 && !done.contains(u) && 0 <= k < g.edges[u].len()
                && g.edges[u][k].target == t;
        assert(0 <= u < m && !done.contains(u) && 0 <= k < g.edges[u].len() && g.edges[u][k].target
            == t);
    } else {
        lemma_count_target_pos(g.edges[m - 1], t);
    }
}

proof fn lemma_in_count_zero(g: LayoutView, t: Seq<char>, done: Set<int>, m: int, u: int, k: int)
    requires
        g.in_count(t, done, m) == 0,
        0 <= u < m,
        0 <= k < g.edges[u].len(),
        g.edges[u][k].target == t,
    ensures
        done.contains(u),
    decreases m,
{
    if u < m - 1 {
        lemma_in_count_zero(g, t, done, m - 1, u, k);
    } else if !done.contains(u) {
        lemma_count_target_has(g.edges[u], t, k);
    }
}

/// If some node is outside `done` and every node outside `done` has an edge
/// coming from outside `done`, the graph has a cycle.
proof fn lemma_no_topo_order(g: LayoutView, done: Set<int>, v: int)
    requires
        g.wf(),
        0 <= v < g.len(),
        !done.contains(v),
        forall|w: int|
            0 <= w < g.len() && !done.contains(w) ==> #[trigger] g.in_count(g.name(w), done, g.len())
                > 0,
    ensures
        !g.has_topo_order(),
{
    if g.has_topo_order() {
        let s = choose|s: Seq<Seq<char>>| g.is_topo_order(s);
        lemma_topo_prefix_done(g, done, s, s.len() as int);
        assert(s.contains(g.nodes[v].name));
        let a = choose|a: int| 0 <= a < s.len() && s[a] == g.nodes[v].name;
        assert(done.contains(v));
    }
}

proof fn lemma_topo_prefix_done(g: LayoutView, done: Set<int>, s: Seq<Seq<char>>, m: int)
    requires
        g.wf(),
        g.is_topo_order(s),
        0 <= m <= s.len(),
        forall|w: int|
            0 <= w < g.len() && !done.contains(w) ==> #[trigger] g.in_count(g.name(w), done, g.len())
                > 0,
    ensures
        forall|a: int, w: int|
            #![trigger s[a], g.nodes[w]]
            0 <= a < m && 0 <= w < g.len() && g.nodes[w].name == s[a] ==> done.contains(w),
    decreases m,
{
    if m > 0 {
        lemma_topo_prefix_done(g, done, s, m - 1);
        assert forall|a: int, w: int|
            #![trigger s[a], g.nodes[w]]
            0 <= a < m && 0 <= w < g.len() && g.nodes[w].name == s[a] implies done.contains(w) by {
            if a == m - 1 && !done.contains(w) {
                assert(g.in_count(g.name(w), done, g.len()) > 0);
                lemma_in_count_pos(g, g.name(w), done, g.len());
                let (u, k) = choose|u: int, k: int|
                    0 <= u < g.len() && !done.contains(u) && 0 <= k < g.edges[u].len()
                        && g.edges[u][k].target == g.name(w);
                assert(s.contains(g.nodes[u].name));
                let au = choose|au: int| 0 <= au < s.len() && s[au] == g.nodes[u].name;
                assert(g.edges[u][k] == g.edges[u][k]);
                assert(au < a);
                assert(done.contains(u));
            }
        }
    }
}

// ----------------------------------------------------------------------------
// Sets of indices
// ----------------------------------------------------------------------------

/// Distinct indices below `n` are at most `n`, and exactly `n` of them cover every index.
proof fn lemma_distinct_indices(q: Seq<usize>, n: int)
    requires
        0 <= n <= usize::MAX,
        q.no_duplicates(),
        forall|a: int| 0 <= a < q.len() ==> q[a] < n,
    ensures
        q.len() <= n,
        q.len() == n ==> forall|v: usize| v < n ==> #[trigger] q.contains(v),
        q.len() < n ==> exists|v: usize| v < n && !q.contains(v),
{
    let qs = Set::new(|x: int| exists|a: int| 0 <= a < q.len() && q[a] as int == x);
    let qi = Seq::new(q.len(), |a: int| q[a] as int);
    assert(qi.no_duplicates());
    qi.unique_seq_to_set();
    assert forall|x: int| qi.to_set().contains(x) <==> qs.contains(x) by {
        if qs.contains(x) {
            let a = choose|a: int| 0 <= a < q.len() && q[a] as int == x;
            assert(qi[a] == x);
        }
        if qi.to_set().contains(x) {
            let a = choose|a: int| 0 <= a < qi.len() && qi[a] == x;
            assert(q[a] as int == x);
        }
    }
    assert(qi.to_set() =~= qs);
    lemma_int_range(0, n);
    assert(qs.subset_of(set_int_range(0, n)));
    lemma_len_subset(qs, set_int_range(0, n));
    if q.len() == n {
        assert forall|v: usize| v < n implies #[trigger] q.contains(v) by {
            if !qs.contains(v as int) {
                qs.lemma_subset_not_in_lt(set_int_range(0, n), v as int);
            }
            let a = choose|a: int| 0 <= a < q.len() && q[a] as int == v as int;
            assert(q[a] == v);
        }
    }
    if q.len() < n {
        if forall|v: usize| v < n ==> #[trigger] q.contains(v) {
            assert(set_int_range(0, n).subset_of(qs)) by {
                assert forall|v: int| set_int_range(0, n).contains(v) implies qs.contains(v) by {
                    assert(q.contains(v as usize));
                    let a = choose|a: int| 0 <= a < q.len() && q[a] == v as usize;
                    assert(q[a] as int == v);
                }
            }
            lemma_len_subset(set_int_range(0, n), qs);
        }
    }
}

/// The names of the nodes at the indices `q`, in order.
pub open spec fn names_at(g: LayoutView, q: Seq<usize>) -> Seq<Seq<char>> {
    Seq::new(q.len(), |a: int| g.name(q[a] as int))
}

/// Names of distinct nodes, listed in an order where every edge points forward,
/// form a topological order when every node is listed.
proof fn lemma_queue_topo_order(g: LayoutView, q: Seq<usize>)
    requires
        g.wf(),
        g.len() <= usize::MAX,
        q.len() == g.len(),
        q.no_duplicates(),
        forall|a: int| 0 <= a < q.len() ==> q[a] < g.len(),
        forall|b: int, i: int, k: int|
            #![trigger q[b], g.edges[i][k]]
            0 <= b < q.len() && 0 <= i < g.len() && 0 <= k < g.edges[i].len() && g.edges[i][k].target
                == g.name(q[b] as int) ==> exists|a: int| 0 <= a < b && q[a] == i,
    ensures
        g.is_topo_order(names_at(g, q)),
{
    let s = names_at(g, q);
    lemma_distinct_indices(q, g.len());
    assert forall|a: int, b: int| 0 <= a < s.len() && 0 <= b < s.len() && a != b implies s[a] != s[b] by {
        assert(q[a] != q[b]);
        assert(g.nodes[q[a] as int] == g.nodes[q[a] as int]);
        assert(g.nodes[q[b] as int] == g.nodes[q[b] as int]);
    }
    assert forall|a: int| 0 <= a < s.len() implies g.has_node(#[trigger] s[a]) by {
        assert(g.nodes[q[a] as int].name == s[a]);
    }
    assert forall|i: int| 0 <= i < g.len() implies s.contains(#[trigger] g.nodes[i].name) by {
        assert(q.contains(i as usize));
        let a = choose|a: int| 0 <= a < q.len() && q[a] == i as usize;
        assert(q[a] as int == i);
        assert(s[a] == g.nodes[i].name);
    }
    assert forall|a: int, b: int, i: int, k: int|
        #![trigger s[a], s[b], g.edges[i][k]]
        0 <= a < s.len() && 0 <= b < s.len() && 0 <= i < g.len() && 0 <= k < g.edges[i].len()
            && g.nodes[i].name == s[a] && g.edges[i][k].target == s[b] implies a < b by {
        assert(q[b] == q[b]);
        let a2 = choose|a2: int| 0 <= a2 < b && q[a2] == i;
        assert(s[a2] == g.nodes[i].name);
        assert(g.nodes[q[a] as int] == g.nodes[q[a] as int]);
        if q[a] as int != i {
            assert(g.nodes[i] == g.nodes[i]);
        }
        assert(a2 == a);
    }
}


/// Where `child` goes when it is placed `relation` to a parent at
/// `parent_position` of size `parent_width` x `parent_height`, lined up by
/// `alignment` (all arithmetic saturates at the bounds of `i32`). The relation
/// decides the coordinate across the shared edge; the alignment then overrides
/// the coordinate it governs.
pub open spec fn placed(
    parent_position: Point,
    parent_width: i32,
    parent_height: i32,
    child: NodeView,
    relation: Relation,
    alignment: Alignment,
) -> Point {
    let p = match relation {
        Relation::LeftOf => Point(clamp_i32(parent_position.0 - child.width) as i32, child.position.1),
        Relation::RightOf => Point(clamp_i32(parent_position.0 + parent_width) as i32, child.position.1),
        Relation::TopOf => Point(child.width, clamp_i32(parent_position.1 - child.height) as i32),
        Relation::BottomOf => Point(child.width, clamp_i32(parent_position.1 + parent_height) as i32),
    };
    match alignment {
        Alignment::AlignBottom => Point(
            p.0,
            clamp_i32(parent_position.1 + clamp_i32(parent_height - child.height)) as i32,
        ),
        Alignment::AlignTop => Point(p.0, parent_position.1),
        Alignment::AlignRight => Point(
            clamp_i32(parent_position.0 + clamp_i32(parent_width - child.width)) as i32,
            p.1,
        ),
        Alignment::AlignLeft => Point(parent_position.0, p.1),
    }
}

/// `h` is `g` with only the node positions changed: nodes without incoming
/// edges keep their position, and every other node is placed against one of the
/// nodes pointing at it, at that node's new position.
pub open spec fn is_applied(g: LayoutView, h: LayoutView) -> bool {
    &&& h.nodes.len() == g.nodes.len()
    &&& h.edges == g.edges
    &&& forall|i: int|
        #![trigger h.nodes[i]]
        0 <= i < g.len() ==> h.nodes[i].name == g.nodes[i].name && h.nodes[i].width
            == g.nodes[i].width && h.nodes[i].height == g.nodes[i].height
    &&& forall|i: int|
        #![trigger h.nodes[i]]
        0 <= i < g.len() && g.in_degree(g.name(i)) == 0 ==> h.nodes[i].position == g.nodes[i].position
    &&& forall|i: int|
        #![trigger h.nodes[i]]
        0 <= i < g.len() && g.in_degree(g.name(i)) > 0 ==> exists|p: int, k: int|
            0 <= p < g.len() && 0 <= k < g.edges[p].len() && g.edges[p][k].target == g.name(i)
                && h.nodes[i].position == placed(
                h.nodes[p].position,
                h.nodes[p].width,
                h.nodes[p].height,
                g.nodes[i],
                g.edges[p][k].relation,
                g.edges[p][k].alignment,
            )
}

/// Smallest first (`x`) coordinate among the first `m` nodes.
pub open spec fn min_x(nodes: Seq<NodeView>, m: int) -> i32
    decreases m,
{
    if m <= 1 {
        nodes[0].position.0
    } else {
        let r = min_x(nodes, m - 1);
        if nodes[m - 1].position.0 < r { nodes[m - 1].position.0 } else { r }
    }
}

/// Smallest second (`y`) coordinate among the first `m` nodes.
pub open spec fn min_y(nodes: Seq<NodeView>, m: int) -> i32
    decreases m,
{
    if m <= 1 {
        nodes[0].position.1
    } else {
        let r = min_y(nodes, m - 1);
        if nodes[m - 1].position.1 < r { nodes[m - 1].position.1 } else { r }
    }
}

/// Two graphs with the same names and edges have the same topological orders.
proof fn lemma_same_shape_topo(g: LayoutView, h: LayoutView, s: Seq<Seq<char>>)
    requires
        h.nodes.len() == g.nodes.len(),
        h.edges == g.edges,
        forall|i: int| 0 <= i < g.len() ==> #[trigger] h.nodes[i].name == g.nodes[i].name,
        g.is_topo_order(s),
    ensures
        h.is_topo_order(s),
{
    assert forall|a: int| 0 <= a < s.len() implies h.has_node(#[trigger] s[a]) by {
        let i = choose|i: int| #![trigger g.nodes[i]] 0 <= i < g.nodes.len() && g.nodes[i].name == s[a];
        assert(h.nodes[i].name == s[a]);
    }
    assert forall|i: int| 0 <= i < h.len() implies s.contains(#[trigger] h.nodes[i].name) by {
        assert(s.contains(g.nodes[i].name));
    }
    assert forall|a: int, b: int, i: int, k: int|
        #![trigger s[a], s[b], h.edges[i][k]]
        0 <= a < s.len() && 0 <= b < s.len() && 0 <= i < h.len() && 0 <= k < h.edges[i].len()
            && h.nodes[i].name == s[a] && h.edges[i][k].target == s[b] implies a < b by {
        assert(g.nodes[i].name == s[a]);
        assert(g.edges[i][k] == h.edges[i][k]);
    }
}

proof fn lemma_in_count_same_edges(g: LayoutView, h: LayoutView, t: Seq<char>, done: Set<int>, m: int)
    requires
        h.edges == g.edges,
    ensures
        h.in_count(t, done, m) == g.in_count(t, done, m),
    decreases m,
{
    if m > 0 {
        lemma_in_count_same_edges(g, h, t, done, m - 1);
    }
}

/// The first name of a topological order has no incoming edge.
proof fn lemma_topo_first_is_root(g: LayoutView, s: Seq<Seq<char>>, r: int)
    requires
        g.wf(),
        g.is_topo_order(s),
        s.len() > 0,
        0 <= r < g.len(),
        g.name(r) == s[0],
    ensures
        g.in_degree(g.name(r)) == 0,
{
    if g.in_degree(g.name(r)) > 0 {
        lemma_in_count_pos(g, g.name(r), Set::empty(), g.len());
        let (u, k) = choose|u: int, k: int|
            0 <= u < g.len() && !Set::<int>::empty().contains(u) && 0 <= k < g.edges[u].len()
                && g.edges[u][k].target == g.name(r);
        assert(s.contains(g.nodes[u].name));
        let a = choose|a: int| 0 <= a < s.len() && s[a] == g.nodes[u].name;
        assert(g.edges[u][k] == g.edges[u][k]);
        assert(a < 0);
    }
}

/// Total number of edges leaving the first `m` nodes.
pub open spec fn edge_total(edges: Seq<Seq<EdgeView<Seq<char>>>>, m: int) -> nat
    decreases m,
{
    if m <= 0 {
        0
    } else {
        edge_total(edges, m - 1) + edges[m - 1].len()
    }
}

proof fn lemma_count_target_bound(es: Seq<EdgeView<Seq<char>>>, t: Seq<char>)
    ensures
        count_target(es, t) <= es.len(),
    decreases es.len(),
{
    if es.len() > 0 {
        lemma_count_target_bound(es.drop_last(), t);
    }
}

proof fn lemma_in_count_bound(g: LayoutView, t: Seq<char>, done: Set<int>, m: int)
    ensures
        g.in_count(t, done, m) <= edge_total(g.edges, m),
    decreases m,
{
    if m > 0 {
        lemma_in_count_bound(g, t, done, m - 1);
        lemma_count_target_bound(g.edges[m - 1], t);
    }
}

/// A graph with no more edges than a `u32` counts has every in-degree in a `u32`.
pub proof fn lemma_degrees_fit(g: LayoutView)
    requires
        edge_total(g.edges, g.len()) <= u32::MAX,
    ensures
        g.degrees_fit(),
{
    assert forall|i: int| 0 <= i < g.len() implies #[trigger] g.in_degree(g.name(i)) <= u32::MAX by {
        lemma_in_count_bound(g, g.name(i), Set::empty(), g.len());
    }
}

// ----------------------------------------------------------------------------
// The graph
// ----------------------------------------------------------------------------

impl LayoutGraph {
    /// An empty graph.
    pub fn new() -> (r: LayoutGraph)
        ensures
            r@.wf(),
            r@.targets_closed(),
            r@.nodes.len() == 0,
            r@.edges.len() == 0,
    {
        let r = LayoutGraph { nodes: Vec::new(), edges: Vec::new() };
        assert(r@.nodes =~= Seq::<NodeView>::empty());
        assert(r@.edges =~= Seq::<Seq<EdgeView<Seq<char>>>>::empty());
        r
    }

    /// Number of nodes.
    pub fn len(&self) -> (r: usize)
        ensures
            r == self@.len(),
    {
        self.nodes.len()
    }

    fn find_index(&self, name: &str) -> (r: Option<usize>)
        ensures
            match r {
                Some(i) => i < self@.len() && self@.name(i as int) == name@,
                None => !self@.has_node(name@),
            },
    {
        proof {
            use_type_invariant(self);
        }
        let mut i: usize = 0;
        while i < self.nodes.len()
            invariant
                self@.wf(),
                i <= self.nodes@.len(),
                forall|k: int| 0 <= k < i ==> self@.name(k) != name@,
            decreases self.nodes@.len() - i,
        {
            if str_eq(self.nodes[i].name.as_str(), name) {
                assert(self@.nodes[i as int] == self.nodes@[i as int]@);
                return Some(i);
            }
            assert(self@.nodes[i as int] == self.nodes@[i as int]@);
            i = i + 1;
        }
        assert(!self@.has_node(name@)) by {
            if self@.has_node(name@) {
                let j = choose|j: int| 0 <= j < self@.nodes.len() && #[trigger] self@.nodes[j].name == name@;
                assert(self@.name(j) != name@);
            }
        }
        None
    }

    /// Whether a node named `name` is in the graph.
    pub fn contains(&self, name: &str) -> (r: bool)
        ensures
            r == self@.has_node(name@),
    {
        proof {
            use_type_invariant(self);
        }
        self.find_index(name).is_some()
    }

    /// The node named `name`, if any.
    pub fn get_node(&self, name: &str) -> (r: Option<&Node>)
        ensures
            match r {
                Some(n) => self@.has_node(name@) && n@.name == name@ && exists|i: int|
                    0 <= i < self@.len() && self@.nodes[i] == n@,
                None => !self@.has_node(name@),
            },
    {
        proof {
            use_type_invariant(self);
        }
        match self.find_index(name) {
            Some(i) => {
                assert(self@.nodes[i as int] == self.nodes@[i as int]@);
                Some(&self.nodes[i])
            },
            None => None,
        }
    }

    /// The edges leaving the node named `name`, if it is in the graph and has any.
    pub fn get_edges_for_node(&self, name: &str) -> (r: Option<&Vec<Edge<String>>>)
        ensures
            match r {
                Some(es) => exists|i: int|
                    0 <= i < self@.len() && self@.name(i) == name@ && self@.edges[i]
                        =~= es@.map_values(|e: Edge<String>| e@) && self@.edges[i].len() > 0,
                None => forall|i: int|
                    0 <= i < self@.len() && self@.name(i) == name@ ==> self@.edges[i].len() == 0,
            },
    {
        proof {
            use_type_invariant(self);
        }
        match self.find_index(name) {
            Some(i) => {
                if self.edges[i].len() > 0 {
                    Some(&self.edges[i])
                } else {
                    None
                }
            },
            None => None,
        }
    }

    /// Adds `node` unless a node with its name is already in the graph, in which
    /// case the graph is left as it is.
    pub fn ensure_node(&mut self, node: Node)
        ensures
            final(self)@.wf(),
            old(self)@.has_node(node@.name) ==> final(self)@ == old(self)@,
            !old(self)@.has_node(node@.name) ==> final(self)@.nodes == old(self)@.nodes.push(node@)
                && final(self)@.edges == old(self)@.edges.push(Seq::empty()),
    {
        proof {
            use_type_invariant(&*self);
        }
        if self.find_index(node.name.as_str()).is_none() {
            let ghost g0 = self@;
            let ghost nv = node@;
            let mut taken = LayoutGraph::new();
            std::mem::swap(self, &mut taken);
            let LayoutGraph { mut nodes, mut edges } = taken;
            nodes.push(node);
            edges.push(Vec::new());
            proof {
                let v = view_of(nodes@, edges@);
                assert(v.nodes =~= g0.nodes.push(nv));
                assert(v.edges[v.len() - 1] =~= Seq::<EdgeView<Seq<char>>>::empty());
                assert forall|j: int| 0 <= j < g0.len() implies v.edges[j] =~= g0.edges[j] by {}
                assert(v.edges =~= g0.edges.push(Seq::empty()));
                assert forall|i: int, j: int|
                    #![trigger v.nodes[i], v.nodes[j]]
                    0 <= i < v.nodes.len() && 0 <= j < v.nodes.len() && i != j implies v.nodes[i].name
                        != v.nodes[j].name by {
                    if i == g0.len() {
                        assert(g0.nodes[j] == v.nodes[j]);
                    } else if j == g0.len() {
                        assert(g0.nodes[i] == v.nodes[i]);
                    }
                }
            }
            *self = LayoutGraph { nodes, edges };
        }
    }

    /// Adds the edge `reference -> target` to the node named `reference`; does
    /// nothing if there is no such node or the same edge is already there.
    pub fn add_edge(&mut self, reference_name: &str, target: &str, relation: Relation, alignment: Alignment)
        ensures
            final(self)@.wf(),
            final(self)@.nodes == old(self)@.nodes,
            final(self)@.edges.len() == old(self)@.edges.len(),
            forall|i: int|
                0 <= i < old(self)@.len() ==> (#[trigger] final(self)@.edges[i]) == (if old(self)@.name(i)
                    == reference_name@ && !old(self)@.edges[i].contains(
                    EdgeView { relation, alignment, target: target@ },
                ) {
                    old(self)@.edges[i].push(EdgeView { relation, alignment, target: target@ })
                } else {
                    old(self)@.edges[i]
                }),
    {
        proof {
            use_type_invariant(&*self);
        }
        let ghost g0 = self@;
        let ghost ev = EdgeView { relation, alignment, target: target@ };
        match self.find_index(reference_name) {
            Some(i) => {
                let mut found = false;
                let mut k: usize = 0;
                let n = self.edges[i].len();
                while k < n
                    invariant
                        n == self.edges@[i as int]@.len(),
                        i < self.edges@.len(),
                        self@ == g0,
                        ev == (EdgeView { relation, alignment, target: target@ }),
                        k <= n,
                        !found ==> forall|j: int| 0 <= j < k ==> g0.edges[i as int][j] != ev,
                        found ==> g0.edges[i as int].contains(ev),
                    decreases n - k,
                {
                    let e = &self.edges[i][k];
                    assert(g0.edges[i as int][k as int] == e@);
                    let same_rel = e.relation == relation;
                    let same_align = e.alignment == alignment;
                    let same_target = str_eq(e.target.as_str(), target);
                    assert(same_rel == (e.relation == relation));
                    assert(same_target == (e@.target == target@));
                    if same_rel && same_align && same_target {
                        assert(e@.relation == ev.relation);
                        assert(e@.alignment == ev.alignment);
                        assert(e@.target == ev.target);
                        assert(g0.edges[i as int][k as int] == ev);
                        found = true;
                    } else {
                        assert(g0.edges[i as int][k as int] != ev);
                    }
                    k = k + 1;
                }
                if !found {
                    let t = String::from_str(target);
                    let mut taken = LayoutGraph::new();
                    std::mem::swap(self, &mut taken);
                    let LayoutGraph { nodes, mut edges } = taken;
                    let mut es = Vec::new();
                    std::mem::swap(&mut es, &mut edges[i]);
                    es.push(Edge { relation, alignment, target: t });
                    edges.set(i, es);
                    proof {
                        let v = view_of(nodes@, edges@);
                        assert forall|j: int| 0 <= j < g0.len() implies (#[trigger] v.edges[j]) == (if g0.name(j)
                            == reference_name@ && !g0.edges[j].contains(ev) {
                            g0.edges[j].push(ev)
                        } else {
                            g0.edges[j]
                        }) by {
                            if j == i {
                                assert(v.edges[j] =~= g0.edges[j].push(ev));
                            } else {
                                assert(g0.name(j) != reference_name@);
                                assert(v.edges[j] =~= g0.edges[j]);
                            }
                        }
                        assert(v.nodes =~= g0.nodes);
                        assert forall|j: int| 0 <= j < v.edges.len() implies (#[trigger] v.edges[j]).no_duplicates() by {
                            if j == i {
                                assert(g0.edges[j].no_duplicates());
                            }
                        }
                    }
                    *self = LayoutGraph { nodes, edges };
                } else {
                    assert forall|j: int| 0 <= j < g0.len() implies (#[trigger] self@.edges[j]) == (if g0.name(j)
                        == reference_name@ && !g0.edges[j].contains(ev) {
                        g0.edges[j].push(ev)
                    } else {
                        g0.edges[j]
                    }) by {
                        if j != i {
                            assert(g0.name(j) != reference_name@);
                        }
                    }
                }
            },
            None => {
                assert forall|j: int| 0 <= j < g0.len() implies (#[trigger] self@.edges[j]) == (if g0.name(j)
                    == reference_name@ && !g0.edges[j].contains(ev) {
                    g0.edges[j].push(ev)
                } else {
                    g0.edges[j]
                }) by {
                    assert(g0.nodes[j] == g0.nodes[j]);
                }
            },
        }
    }

    /// Adds the edge `reference -> target` (see [`LayoutGraph::add_edge`]), then
    /// adds the `target` node (see [`LayoutGraph::ensure_node`]).
    pub fn add_edge_with_target(
        &mut self,
        reference_name: &str,
        target: Node,
        relation: Relation,
        alignment: Alignment,
    )
        ensures
            final(self)@.wf(),
            final(self)@.nodes == (if old(self)@.has_node(target@.name) {
                old(self)@.nodes
            } else {
                old(self)@.nodes.push(target@)
            }),
            final(self)@.edges.len() == final(self)@.nodes.len(),
            forall|i: int|
                0 <= i < old(self)@.len() ==> (#[trigger] final(self)@.edges[i]) == (if old(self)@.name(i)
                    == reference_name@ && !old(self)@.edges[i].contains(
                    EdgeView { relation, alignment, target: target@.name },
                ) {
                    old(self)@.edges[i].push(EdgeView { relation, alignment, target: target@.name })
                } else {
                    old(self)@.edges[i]
                }),
            !old(self)@.has_node(target@.name) ==> final(self)@.edges[old(self)@.len()] == Seq::<
                EdgeView<Seq<char>>,
            >::empty(),
    {
        proof {
            use_type_invariant(&*self);
        }
        let name = target.name.clone();
        self.add_edge(reference_name, name.as_str(), relation, alignment);
        let ghost g1 = self@;
        self.ensure_node(target);
        proof {
            assert(g1.has_node(target@.name) == old(self)@.has_node(target@.name)) by {
                if g1.has_node(target@.name) {
                    let j = choose|j: int| #![trigger g1.nodes[j]] 0 <= j < g1.nodes.len() && g1.nodes[j].name == target@.name;
                    assert(old(self)@.nodes[j] == g1.nodes[j]);
                }
                if old(self)@.has_node(target@.name) {
                    let j = choose|j: int| #![trigger old(self)@.nodes[j]] 0 <= j < old(self)@.nodes.len() && old(self)@.nodes[j].name == target@.name;
                    assert(old(self)@.nodes[j] == g1.nodes[j]);
                }
            }
        }
    }

    /// Orders the node names so that every edge points forward (Kahn's algorithm),
    /// or reports that the edges form a cycle.
    pub fn topological_sort(&self) -> (r: Result<Vec<String>, String>)
        requires
            self@.targets_closed(),
            self@.degrees_fit(),
        ensures
            match r {
                Ok(s) => self@.is_topo_order(s@.map_values(|x: String| x@)),
                Err(e) => !self@.has_topo_order() && e@ == "cyclic dependency detected"@,
            },
    {
        proof {
            use_type_invariant(self);
        }
        let n = self.nodes.len();
        let ghost g = self@;
        let indeg = self.in_degrees();
        // The nodes nothing points at.
        let mut queue: Vec<usize> = Vec::new();
        let mut v: usize = 0;
        while v < n
            invariant
                g == self@,
                n == g.len(),
                v <= n,
                indeg@.len() == n,
                forall|w: int| 0 <= w < n ==> #[trigger] indeg@[w] == g.in_count(g.name(w), Set::empty(), n as int),
                queue@.no_duplicates(),
                forall|a: int| 0 <= a < queue@.len() ==> queue@[a] < v,
                forall|w: usize| w < v ==> (#[trigger] queue@.contains(w) <==> indeg@[w as int] == 0),
                forall|b: int| 0 <= b < queue@.len() ==> #[trigger] indeg@[queue@[b] as int] == 0,
            decreases n - v,
        {
            if indeg[v] == 0 {
                let ghost qb = queue@;
                queue.push(v);
                proof {
                    assert forall|w: usize| w < v + 1 implies (#[trigger] queue@.contains(w) <==> indeg@[w as int] == 0) by {
                        if w == v {
                            assert(queue@[qb.len() as int] == v);
                        } else if queue@.contains(w) {
                            let a = choose|a: int| 0 <= a < queue@.len() && queue@[a] == w;
                            if a < qb.len() {
                                assert(qb[a] == w);
                            }
                        } else if qb.contains(w) {
                            let a = choose|a: int| 0 <= a < qb.len() && qb[a] == w;
                            assert(queue@[a] == w);
                        }
                    }
                }
            }
            v = v + 1;
        }
        let mut indeg = indeg;
        let mut head: usize = 0;
        let ghost mut done: Set<int> = Set::empty();
        proof {
            lemma_distinct_indices(queue@, n as int);
            assert forall|b: int, i: int, k: int|
                #![trigger queue@[b], g.edges[i][k]]
                0 <= b < queue@.len() && 0 <= i < g.len() && 0 <= k < g.edges[i].len()
                    && g.edges[i][k].target == g.name(queue@[b] as int) implies exists|a: int|
                    0 <= a < b && queue@[a] == i by {
                assert(indeg@[queue@[b] as int] == 0);
                lemma_in_count_zero(g, g.name(queue@[b] as int), Set::empty(), n as int, i, k);
            }
        }
        while head < queue.len()
            invariant
                g == self@,
                g.wf(),
                g.targets_closed(),
                n == g.len(),
                indeg@.len() == n,
                head <= queue@.len() <= n,
                queue@.no_duplicates(),
                forall|a: int| 0 <= a < queue@.len() ==> queue@[a] < n,
                forall|x: int| #[trigger] done.contains(x) <==> exists|a: int| 0 <= a < head && queue@[a] as int == x,
                forall|w: int| 0 <= w < n ==> #[trigger] indeg@[w] == g.in_count(g.name(w), done, n as int),
                forall|w: usize| w < n ==> (#[trigger] queue@.contains(w) <==> indeg@[w as int] == 0),
                forall|b: int, i: int, k: int|
                    #![trigger queue@[b], g.edges[i][k]]
                    0 <= b < queue@.len() && 0 <= i < g.len() && 0 <= k < g.edges[i].len()
                        && g.edges[i][k].target == g.name(queue@[b] as int) ==> exists|a: int|
                        0 <= a < b && queue@[a] == i,
            decreases n - head,
        {
            let u = queue[head];
            let m = self.edges[u].len();
            let ghost q0 = queue@;
            assert(!done.contains(u as int)) by {
                if done.contains(u as int) {
                    let a = choose|a: int| 0 <= a < head && queue@[a] as int == u as int;
                    assert(queue@[a] == queue@[head as int]);
                }
            }
            let mut k: usize = 0;
            while k < m
                invariant
                    g == self@,
                    g.wf(),
                    g.targets_closed(),
                    n == g.len(),
                    indeg@.len() == n,
                    head < q0.len(),
                    u == q0[head as int],
                    u < n,
                    m == g.edges[u as int].len(),
                    k <= m,
                    !done.contains(u as int),
                    q0.len() <= queue@.len() <= n,
                    forall|a: int| 0 <= a < q0.len() ==> queue@[a] == q0[a],
                    queue@.no_duplicates(),
                    forall|a: int| 0 <= a < queue@.len() ==> queue@[a] < n,
                    forall|x: int| #[trigger] done.contains(x) <==> exists|a: int| 0 <= a < head && q0[a] as int == x,
                    forall|w: int|
                        0 <= w < n ==> #[trigger] indeg@[w] + count_target(g.edges[u as int].take(k as int), g.name(w))
                            == g.in_count(g.name(w), done, n as int),
                    forall|w: usize| w < n ==> (#[trigger] queue@.contains(w) <==> indeg@[w as int] == 0),
                    forall|b: int, i: int, k2: int|
                        #![trigger queue@[b], g.edges[i][k2]]
                        0 <= b < queue@.len() && 0 <= i < g.len() && 0 <= k2 < g.edges[i].len()
                            && g.edges[i][k2].target == g.name(queue@[b] as int) ==> exists|a: int|
                            0 <= a < b && queue@[a] == i,
                decreases m - k,
            {
                let t = &self.edges[u][k].target;
                assert(g.edges[u as int][k as int] == self.edges@[u as int]@[k as int]@);
                assert(g.has_node(g.edges[u as int][k as int].target));
                let vi = self.find_index(t.as_str()).unwrap();
                let ghost tn = g.name(vi as int);
                proof {
                    lemma_count_target_take(g.edges[u as int], tn, k as int);
                    lemma_count_target_le(g.edges[u as int], tn, k as int + 1);
                    lemma_in_count_insert(g, tn, done, u as int, n as int);
                }
                let d = indeg[vi] - 1;
                let ghost ib = indeg@;
                indeg.set(vi, d);
                proof {
                    assert forall|w: int|
                        0 <= w < n implies #[trigger] indeg@[w] + count_target(g.edges[u as int].take(k + 1), g.name(w))
                            == g.in_count(g.name(w), done, n as int) by {
                        lemma_count_target_take(g.edges[u as int], g.name(w), k as int);
                        if w != vi as int {
                            assert(g.nodes[w] == g.nodes[w]);
                            assert(g.nodes[vi as int] == g.nodes[vi as int]);
                        }
                    }
                }
                if d == 0 {
                    let ghost qb = queue@;
                    queue.push(vi);
                    proof {
                        assert(!qb.contains(vi));
                        lemma_distinct_indices(queue@, n as int);
                        assert(g.in_count(tn, done.insert(u as int), n as int) == 0);
                        assert forall|b: int, i: int, k2: int|
                            #![trigger queue@[b], g.edges[i][k2]]
                            0 <= b < queue@.len() && 0 <= i < g.len() && 0 <= k2 < g.edges[i].len()
                                && g.edges[i][k2].target == g.name(queue@[b] as int) implies exists|a: int|
                                0 <= a < b && queue@[a] == i by {
                            if b == qb.len() {
                                lemma_in_count_zero(g, tn, done.insert(u as int), n as int, i, k2);
                                if i == u as int {
                                    assert(queue@[head as int] == i);
                                } else {
                                    assert(done.contains(i));
                                    let a = choose|a: int| 0 <= a < head && q0[a] as int == i;
                                    assert(queue@[a] == i);
                                }
                            } else {
                                assert(queue@[b] == qb[b]);
                                let a = choose|a: int| 0 <= a < b && qb[a] == i;
                                assert(queue@[a] == i);
                            }
                        }
                        assert forall|w: usize| w < n implies (#[trigger] queue@.contains(w) <==> indeg@[w as int] == 0) by {
                            if w == vi {
                                assert(queue@[qb.len() as int] == vi);
                            } else {
                                assert(indeg@[w as int] == ib[w as int]);
                                assert(qb.contains(w) <==> ib[w as int] == 0);
                                if queue@.contains(w) {
                                    let a = choose|a: int| 0 <= a < queue@.len() && queue@[a] == w;
                                    if a < qb.len() {
                                        assert(qb[a] == w);
                                    }
                                }
                                if qb.contains(w) {
                                    let a = choose|a: int| 0 <= a < qb.len() && qb[a] == w;
                                    assert(queue@[a] == w);
                                }
                            }
                        }
                    }
                } else {
                    proof {
                        assert(!queue@.contains(vi));
                    }
                }
                k = k + 1;
            }
            proof {
                assert(g.edges[u as int].take(m as int) =~= g.edges[u as int]);
                assert forall|w: int| 0 <= w < n implies #[trigger] indeg@[w] == g.in_count(
                    g.name(w),
                    done.insert(u as int),
                    n as int,
                ) by {
                    lemma_in_count_insert(g, g.name(w), done, u as int, n as int);
                }
                done = done.insert(u as int);
                assert forall|x: int| #[trigger] done.contains(x) <==> exists|a: int| 0 <= a < head + 1 && queue@[a] as int == x by {
                    if done.contains(x) && x != u as int {
                        let a = choose|a: int| 0 <= a < head && q0[a] as int == x;
                        assert(queue@[a] as int == x);
                    }
                    if exists|a: int| 0 <= a < head + 1 && queue@[a] as int == x {
                        let a = choose|a: int| 0 <= a < head + 1 && queue@[a] as int == x;
                        if a < head {
                            assert(q0[a] as int == x);
                        }
                    }
                }
            }
            head = head + 1;
        }
        proof {
            lemma_distinct_indices(queue@, n as int);
        }
        if queue.len() == n {
            let mut out: Vec<String> = Vec::new();
            let mut a: usize = 0;
            while a < n
                invariant
                    g == self@,
                    n == g.len(),
                    queue@.len() == n,
                    forall|b: int| 0 <= b < queue@.len() ==> queue@[b] < n,
                    a <= n,
                    out@.len() == a,
                    forall|b: int| 0 <= b < a ==> (#[trigger] out@[b])@ == g.name(queue@[b] as int),
                decreases n - a,
            {
                let name = self.nodes[queue[a]].name.clone();
                assert(g.nodes[queue@[a as int] as int] == self.nodes@[queue@[a as int] as int]@);
                out.push(name);
                a = a + 1;
            }
            proof {
                lemma_queue_topo_order(g, queue@);
                assert(out@.map_values(|x: String| x@) =~= names_at(g, queue@));
            }
            Ok(out)
        } else {
            proof {
                let v = choose|v: usize| v < n && !queue@.contains(v);
                assert forall|w: int|
                    0 <= w < g.len() && !done.contains(w) implies #[trigger] g.in_count(g.name(w), done, g.len()) > 0 by {
                    if queue@.contains(w as usize) {
                        let a = choose|a: int| 0 <= a < queue@.len() && queue@[a] == w as usize;
                        assert(done.contains(w));
                    }
                }
                assert(!done.contains(v as int)) by {
                    if done.contains(v as int) {
                        let a = choose|a: int| 0 <= a < head && queue@[a] as int == v as int;
                        assert(queue@.contains(v));
                    }
                }
                lemma_no_topo_order(g, done, v as int);
            }
            Err(String::from_str("cyclic dependency detected"))
        }
    }

    /// The number of edges pointing at each node.
    fn in_degrees(&self) -> (r: Vec<u32>)
        requires
            self@.targets_closed(),
            self@.degrees_fit(),
        ensures
            r@.len() == self@.len(),
            forall|w: int| 0 <= w < self@.len() ==> #[trigger] r@[w] == self@.in_count(self@.name(w), Set::empty(), self@.len()),
    {
        proof {
            use_type_invariant(self);
        }
        let n = self.nodes.len();
        let ghost g = self@;
        let ghost e: Set<int> = Set::empty();
        let mut indeg: Vec<u32> = Vec::new();
        let mut v: usize = 0;
        while v < n
            invariant
                indeg@.len() == v,
                v <= n,
                forall|w: int| 0 <= w < v ==> #[trigger] indeg@[w] == 0,
            decreases n - v,
        {
            indeg.push(0);
            v = v + 1;
        }
        let mut u: usize = 0;
        while u < n
            invariant
                g == self@,
                g.wf(),
                g.targets_closed(),
                g.degrees_fit(),
                n == g.len(),
                e == Set::<int>::empty(),
                u <= n,
                indeg@.len() == n,
                forall|w: int| 0 <= w < n ==> #[trigger] indeg@[w] == g.in_count(g.name(w), e, u as int),
            decreases n - u,
        {
            let m = self.edges[u].len();
            let mut k: usize = 0;
            while k < m
                invariant
                    g == self@,
                    g.wf(),
                    g.targets_closed(),
                    g.degrees_fit(),
                    n == g.len(),
                    e == Set::<int>::empty(),
                    u < n,
                    m == g.edges[u as int].len(),
                    k <= m,
                    indeg@.len() == n,
                    forall|w: int|
                        0 <= w < n ==> #[trigger] indeg@[w] == g.in_count(g.name(w), e, u as int) + count_target(
                            g.edges[u as int].take(k as int),
                            g.name(w),
                        ),
                decreases m - k,
            {
                let t = &self.edges[u][k].target;
                assert(g.edges[u as int][k as int] == self.edges@[u as int]@[k as int]@);
                assert(g.has_node(g.edges[u as int][k as int].target));
                let vi = self.find_index(t.as_str()).unwrap();
                let ghost tn = g.name(vi as int);
                proof {
                    lemma_count_target_take(g.edges[u as int], tn, k as int);
                    lemma_count_target_le(g.edges[u as int], tn, k as int + 1);
                    lemma_in_count_le(g, tn, e, u as int + 1, n as int);
                    assert(g.in_degree(g.name(vi as int)) <= u32::MAX);
                }
                let d = indeg[vi] + 1;
                indeg.set(vi, d);
                proof {
                    assert forall|w: int|
                        0 <= w < n implies #[trigger] indeg@[w] == g.in_count(g.name(w), e, u as int) + count_target(
                            g.edges[u as int].take(k + 1),
                            g.name(w),
                        ) by {
                        lemma_count_target_take(g.edges[u as int], g.name(w), k as int);
                        if w != vi as int {
                            assert(g.nodes[w] == g.nodes[w]);
                            assert(g.nodes[vi as int] == g.nodes[vi as int]);
                        }
                    }
                }
                k = k + 1;
            }
            assert(g.edges[u as int].take(m as int) =~= g.edges[u as int]);
            u = u + 1;
        }
        indeg
    }

    /// Where `child` goes when placed against a parent at `parent_position` of
    /// size `parent_width` x `parent_height` (see [`placed`]).
    fn place(
        parent_position: Point,
        parent_width: i32,
        parent_height: i32,
        child: &Node,
        relation: Relation,
        alignment: Alignment,
    ) -> (r: Point)
        ensures
            r == placed(parent_position, parent_width, parent_height, child@, relation, alignment),
    {
        let mut position = match relation {
            Relation::LeftOf => Point(sat_sub(parent_position.0, child.width), child.position.1),
            Relation::RightOf => Point(sat_add(parent_position.0, parent_width), child.position.1),
            Relation::TopOf => Point(child.width, sat_sub(parent_position.1, child.height)),
            Relation::BottomOf => Point(child.width, sat_add(parent_position.1, parent_height)),
        };
        match alignment {
            Alignment::AlignBottom => {
                let delta = sat_sub(parent_height, child.height);
                position.1 = sat_add(parent_position.1, delta);
            },
            Alignment::AlignTop => {
                position.1 = parent_position.1;
            },
            Alignment::AlignRight => {
                let delta = sat_sub(parent_width, child.width);
                position.0 = sat_add(parent_position.0, delta);
            },
            Alignment::AlignLeft => {
                position.0 = parent_position.0;
            },
        }
        position
    }

    /// Positions every node against the node pointing at it, starting from the
    /// first node of a topological order, which keeps its position. Fails when
    /// the edges form a cycle.
    pub fn apply(self) -> (r: Result<LayoutGraph, String>)
        requires
            self@.targets_closed(),
            self@.degrees_fit(),
            self@.has_topo_order() ==> self@.at_most_one_root(),
        ensures
            match r {
                Ok(h) => {
                    &&& self@.has_topo_order()
                    &&& is_applied(self@, h@)
                    &&& h@.wf()
                    &&& h@.targets_closed()
                    &&& h@.degrees_fit()
                    &&& h@.has_topo_order()
                },
                Err(e) => !self@.has_topo_order() && e@ == "cyclic dependency detected"@,
            },
    {
        proof {
            use_type_invariant(&self);
        }
        let sorted = match self.topological_sort() {
            Ok(s) => s,
            Err(e) => {
                return Err(e);
            },
        };
        let ghost g = self@;
        let ghost s = sorted@.map_values(|x: String| x@);
        let n = self.nodes.len();
        let mut pos: Vec<Option<Point>> = Vec::new();
        let mut v: usize = 0;
        while v < n
            invariant
                pos@.len() == v,
                v <= n,
                forall|w: int| 0 <= w < v ==> #[trigger] pos@[w] is None,
            decreases n - v,
        {
            pos.push(None);
            v = v + 1;
        }
        if n == 0 {
            proof {
                assert(is_applied(g, g));
            }
            return Ok(self);
        }
        assert(sorted@[0]@ == s[0]);
        assert(g.has_node(s[0]));
        let r = self.find_index(sorted[0].as_str()).unwrap();
        proof {
            lemma_topo_first_is_root(g, s, r as int);
        }
        assert(g.nodes[r as int] == self.nodes@[r as int]@);
        pos.set(r, Some(self.nodes[r].position));
        let mut k: usize = 0;
        while k < n
            invariant
                g == self@,
                g.wf(),
                g.targets_closed(),
                g.at_most_one_root(),
                g.is_topo_order(s),
                n == g.len(),
                sorted@.len() == n,
                forall|a: int| 0 <= a < n ==> (#[trigger] sorted@[a])@ == s[a],
                pos@.len() == n,
                k <= n,
                r < n,
                g.name(r as int) == s[0],
                g.in_degree(g.name(r as int)) == 0,
                pos@[r as int] == Some(g.nodes[r as int].position),
                forall|a: int, i: int, kk: int, c: int|
                    #![trigger s[a], g.nodes[i], g.edges[i][kk], g.nodes[c]]
                    0 <= a < k && 0 <= i < n && g.name(i) == s[a] && 0 <= kk < g.edges[i].len() && 0 <= c < n
                        && g.name(c) == g.edges[i][kk].target ==> pos@[c] is Some,
                forall|c: int|
                    #![trigger pos@[c]]
                    0 <= c < n && c != r && pos@[c] is Some ==> exists|p: int, kk: int|
                        0 <= p < n && 0 <= kk < g.edges[p].len() && g.edges[p][kk].target == g.name(c)
                            && pos@[p] is Some && pos@[c]->0 == placed(
                            pos@[p]->0,
                            g.nodes[p].width,
                            g.nodes[p].height,
                            g.nodes[c],
                            g.edges[p][kk].relation,
                            g.edges[p][kk].alignment,
                        ),
            decreases n - k,
        {
            assert(g.has_node(s[k as int]));
            let u = self.find_index(sorted[k].as_str()).unwrap();
            proof {
                if k == 0 {
                    assert(u == r) by {
                        if u != r {
                            assert(g.nodes[u as int] == g.nodes[u as int]);
                            assert(g.nodes[r as int] == g.nodes[r as int]);
                        }
                    }
                } else if u != r {
                    if g.in_degree(g.name(u as int)) == 0 {
                        assert(g.nodes[u as int] == g.nodes[u as int]);
                        assert(g.nodes[r as int] == g.nodes[r as int]);
                        assert(false);
                    }
                    lemma_in_count_pos(g, g.name(u as int), Set::empty(), n as int);
                    let (p, kk) = choose|p: int, kk: int|
                        0 <= p < n && !Set::<int>::empty().contains(p) && 0 <= kk < g.edges[p].len()
                            && g.edges[p][kk].target == g.name(u as int);
                    assert(s.contains(g.nodes[p].name));
                    let a = choose|a: int| 0 <= a < s.len() && s[a] == g.nodes[p].name;
                    assert(g.edges[p][kk] == g.edges[p][kk]);
                    assert(a < k);
                    assert(g.nodes[u as int] == g.nodes[u as int]);
                    assert(pos@[u as int] is Some);
                }
            }
            let parent_position = pos[u].unwrap();
            let parent_width = self.nodes[u].width;
            let parent_height = self.nodes[u].height;
            assert(g.nodes[u as int] == self.nodes@[u as int]@);
            let m = self.edges[u].len();
            let mut kk: usize = 0;
            while kk < m
                invariant
                    g == self@,
                    g.wf(),
                    g.targets_closed(),
                    n == g.len(),
                    pos@.len() == n,
                    k < n,
                    u < n,
                    r < n,
                    g.name(u as int) == s[k as int],
                    pos@[u as int] == Some(parent_position),
                    parent_width == g.nodes[u as int].width,
                    parent_height == g.nodes[u as int].height,
                    m == g.edges[u as int].len(),
                    kk <= m,
                    pos@[r as int] == Some(g.nodes[r as int].position),
                    forall|a: int, i: int, k2: int, c: int|
                        #![trigger s[a], g.nodes[i], g.edges[i][k2], g.nodes[c]]
                        0 <= a < k && 0 <= i < n && g.name(i) == s[a] && 0 <= k2 < g.edges[i].len() && 0 <= c < n
                            && g.name(c) == g.edges[i][k2].target ==> pos@[c] is Some,
                    forall|k2: int, c: int|
                        #![trigger g.edges[u as int][k2], g.nodes[c]]
                        0 <= k2 < kk && 0 <= c < n && g.name(c) == g.edges[u as int][k2].target ==> pos@[c] is Some,
                    forall|c: int|
                        #![trigger pos@[c]]
                        0 <= c < n && c != r && pos@[c] is Some ==> exists|p: int, k2: int|
                            0 <= p < n && 0 <= k2 < g.edges[p].len() && g.edges[p][k2].target == g.name(c)
                                && pos@[p] is Some && pos@[c]->0 == placed(
                                pos@[p]->0,
                                g.nodes[p].width,
                                g.nodes[p].height,
                                g.nodes[c],
                                g.edges[p][k2].relation,
                                g.edges[p][k2].alignment,
                            ),
                decreases m - kk,
            {
                let e = &self.edges[u][kk];
                assert(g.edges[u as int][kk as int] == e@);
                assert(g.has_node(g.edges[u as int][kk as int].target));
                let c = self.find_index(e.target.as_str()).unwrap();
                if pos[c].is_none() {
                    assert(g.nodes[c as int] == self.nodes@[c as int]@);
                    let p = Self::place(
                        parent_position,
                        parent_width,
                        parent_height,
                        &self.nodes[c],
                        e.relation,
                        e.alignment,
                    );
                    let ghost pb = pos@;
                    pos.set(c, Some(p));
                    proof {
                        assert(c != r);
                        assert forall|c2: int|
                            #![trigger pos@[c2]]
                            0 <= c2 < n && c2 != r && pos@[c2] is Some implies exists|p2: int, k2: int|
                                0 <= p2 < n && 0 <= k2 < g.edges[p2].len() && g.edges[p2][k2].target == g.name(c2)
                                    && pos@[p2] is Some && pos@[c2]->0 == placed(
                                    pos@[p2]->0,
                                    g.nodes[p2].width,
                                    g.nodes[p2].height,
                                    g.nodes[c2],
                                    g.edges[p2][k2].relation,
                                    g.edges[p2][k2].alignment,
                                ) by {
                            if c2 == c as int {
                                assert(g.edges[u as int][kk as int] == g.edges[u as int][kk as int]);
                                assert(pos@[u as int] == pb[u as int]);
                            } else {
                                assert(pos@[c2] == pb[c2]);
                                let (p2, k2) = choose|p2: int, k2: int|
                                    0 <= p2 < n && 0 <= k2 < g.edges[p2].len() && g.edges[p2][k2].target == g.name(c2)
                                        && pb[p2] is Some && pb[c2]->0 == placed(
                                        pb[p2]->0,
                                        g.nodes[p2].width,
                                        g.nodes[p2].height,
                                        g.nodes[c2],
                                        g.edges[p2][k2].relation,
                                        g.edges[p2][k2].alignment,
                                    );
                                assert(pos@[p2] == pb[p2]);
                            }
                        }
                    }
                }
                proof {
                    assert forall|k2: int, c2: int|
                        #![trigger g.edges[u as int][k2], g.nodes[c2]]
                        0 <= k2 < kk + 1 && 0 <= c2 < n && g.name(c2) == g.edges[u as int][k2].target implies pos@[c2] is Some by {
                        if k2 == kk as int {
                            if c2 != c as int {
                                assert(g.nodes[c as int] == g.nodes[c as int]);
                                assert(g.nodes[c2] == g.nodes[c2]);
                            }
                        }
                    }
                }
                kk = kk + 1;
            }
            proof {
                assert forall|a: int, i: int, k2: int, c: int|
                    #![trigger s[a], g.nodes[i], g.edges[i][k2], g.nodes[c]]
                    0 <= a < k + 1 && 0 <= i < n && g.name(i) == s[a] && 0 <= k2 < g.edges[i].len() && 0 <= c < n
                        && g.name(c) == g.edges[i][k2].target implies pos@[c] is Some by {
                    if a == k as int {
                        if i != u as int {
                            assert(g.nodes[u as int] == g.nodes[u as int]);
                        }
                    }
                }
            }
            k = k + 1;
        }
        // Every node has been placed.
        proof {
            assert forall|c: int| 0 <= c < n implies #[trigger] pos@[c] is Some by {
                if c != r as int {
                    if g.in_degree(g.name(c)) == 0 {
                        assert(g.nodes[c] == g.nodes[c]);
                        assert(g.nodes[r as int] == g.nodes[r as int]);
                        assert(false);
                    }
                    lemma_in_count_pos(g, g.name(c), Set::empty(), n as int);
                    let (p, kk) = choose|p: int, kk: int|
                        0 <= p < n && !Set::<int>::empty().contains(p) && 0 <= kk < g.edges[p].len()
                            && g.edges[p][kk].target == g.name(c);
                    assert(s.contains(g.nodes[p].name));
                    let a = choose|a: int| 0 <= a < s.len() && s[a] == g.nodes[p].name;
                    assert(g.edges[p][kk] == g.edges[p][kk]);
                    assert(g.nodes[c] == g.nodes[c]);
                }
            }
        }
        let mut nodes: Vec<Node> = Vec::new();
        let mut i: usize = 0;
        while i < n
            invariant
                g == self@,
                n == g.len(),
                pos@.len() == n,
                forall|c: int| 0 <= c < n ==> #[trigger] pos@[c] is Some,
                i <= n,
                nodes@.len() == i,
                forall|c: int|
                    #![trigger nodes@[c]]
                    0 <= c < i ==> nodes@[c]@ == (NodeView {
                        name: g.nodes[c].name,
                        position: pos@[c]->0,
                        width: g.nodes[c].width,
                        height: g.nodes[c].height,
                    }),
            decreases n - i,
        {
            assert(pos@[i as int] is Some);
            let p = pos[i].unwrap();
            let name = self.nodes[i].name.clone();
            assert(g.nodes[i as int] == self.nodes@[i as int]@);
            nodes.push(Node { name, position: p, width: self.nodes[i].width, height: self.nodes[i].height });
            i = i + 1;
        }
        proof {
            let v = view_of(nodes@, self.edges@);
            assert(v.edges =~= g.edges);
            assert forall|i2: int, j2: int|
                #![trigger v.nodes[i2], v.nodes[j2]]
                0 <= i2 < v.nodes.len() && 0 <= j2 < v.nodes.len() && i2 != j2 implies v.nodes[i2].name
                    != v.nodes[j2].name by {
                assert(v.nodes[i2] == nodes@[i2]@);
                assert(v.nodes[j2] == nodes@[j2]@);
                assert(g.nodes[i2] == g.nodes[i2]);
                assert(g.nodes[j2] == g.nodes[j2]);
            }
            assert(v.wf());
        }
        let h = LayoutGraph { nodes, edges: self.edges };
        proof {
            assert(h@.edges =~= g.edges);
            assert forall|c: int| #![trigger h@.nodes[c]] 0 <= c < n implies h@.nodes[c] == (NodeView {
                name: g.nodes[c].name,
                position: pos@[c]->0,
                width: g.nodes[c].width,
                height: g.nodes[c].height,
            }) by {
                assert(h@.nodes[c] == nodes@[c]@);
            }
            assert forall|i2: int, j2: int|
                #![trigger h@.nodes[i2], h@.nodes[j2]]
                0 <= i2 < h@.nodes.len() && 0 <= j2 < h@.nodes.len() && i2 != j2 implies h@.nodes[i2].name
                    != h@.nodes[j2].name by {
                assert(g.nodes[i2] == g.nodes[i2]);
                assert(g.nodes[j2] == g.nodes[j2]);
            }
            assert forall|i2: int, k2: int|
                #![trigger h@.edges[i2][k2]]
                0 <= i2 < h@.edges.len() && 0 <= k2 < h@.edges[i2].len() implies h@.has_node(h@.edges[i2][k2].target) by {
                assert(g.edges[i2][k2] == h@.edges[i2][k2]);
                assert(g.has_node(g.edges[i2][k2].target));
                let j = choose|j: int| #![trigger g.nodes[j]] 0 <= j < g.nodes.len() && g.nodes[j].name == g.edges[i2][k2].target;
                assert(h@.nodes[j].name == g.nodes[j].name);
            }
            assert forall|i2: int| 0 <= i2 < h@.len() implies #[trigger] h@.in_degree(h@.name(i2)) <= u32::MAX by {
                lemma_in_count_same_edges(g, h@, h@.name(i2), Set::empty(), n as int);
                assert(h@.nodes[i2].name == g.nodes[i2].name);
                assert(g.in_degree(g.name(i2)) <= u32::MAX);
            }
            assert forall|i2: int| 0 <= i2 < g.len() implies #[trigger] h@.nodes[i2].name == g.nodes[i2].name by {
                assert(h@.nodes[i2] == h@.nodes[i2]);
            }
            lemma_same_shape_topo(g, h@, s);
            assert forall|i2: int|
                #![trigger h@.nodes[i2]]
                0 <= i2 < g.len() && g.in_degree(g.name(i2)) == 0 implies h@.nodes[i2].position == g.nodes[i2].position by {
                assert(g.nodes[i2] == g.nodes[i2]);
                assert(g.nodes[r as int] == g.nodes[r as int]);
            }
            assert forall|i2: int|
                #![trigger h@.nodes[i2]]
                0 <= i2 < g.len() && g.in_degree(g.name(i2)) > 0 implies exists|p: int, k2: int|
                    0 <= p < g.len() && 0 <= k2 < g.edges[p].len() && g.edges[p][k2].target == g.name(i2)
                        && h@.nodes[i2].position == placed(
                        h@.nodes[p].position,
                        h@.nodes[p].width,
                        h@.nodes[p].height,
                        g.nodes[i2],
                        g.edges[p][k2].relation,
                        g.edges[p][k2].alignment,
                    ) by {
                assert(i2 != r as int);
                assert(pos@[i2] is Some);
                let (p, k2) = choose|p: int, k2: int|
                    0 <= p < n && 0 <= k2 < g.edges[p].len() && g.edges[p][k2].target == g.name(i2)
                        && pos@[p] is Some && pos@[i2]->0 == placed(
                        pos@[p]->0,
                        g.nodes[p].width,
                        g.nodes[p].height,
                        g.nodes[i2],
                        g.edges[p][k2].relation,
                        g.edges[p][k2].alignment,
                    );
                assert(h@.nodes[p] == h@.nodes[p]);
            }
        }
        Ok(h)
    }

    /// Moves every node into the positive quadrant: the smallest coordinates
    /// among the nodes become zero. Returns the offset that was taken off every
    /// position. Fails, changing nothing, when the edges form a cycle.
    pub fn normalize_space(&mut self) -> (r: Result<Point, String>)
        requires
            old(self)@.targets_closed(),
            old(self)@.degrees_fit(),
        ensures
            final(self)@.edges == old(self)@.edges,
            final(self)@.nodes.len() == old(self)@.nodes.len(),
            match r {
                Err(e) => !old(self)@.has_topo_order() && e@ == "cyclic dependency detected"@ && final(self)@
                    == old(self)@,
                Ok(offset) => {
                    &&& old(self)@.has_topo_order()
                    &&& old(self)@.len() == 0 ==> offset == Point(0, 0)
                    &&& old(self)@.len() > 0 ==> offset == Point(
                        min_x(old(self)@.nodes, old(self)@.len()),
                        min_y(old(self)@.nodes, old(self)@.len()),
                    )
                    &&& forall|i: int|
                        #![trigger final(self)@.nodes[i]]
                        0 <= i < old(self)@.len() ==> final(self)@.nodes[i] == (NodeView {
                            name: old(self)@.nodes[i].name,
                            position: Point(
                                clamp_i32(old(self)@.nodes[i].position.0 - offset.0) as i32,
                                clamp_i32(old(self)@.nodes[i].position.1 - offset.1) as i32,
                            ),
                            width: old(self)@.nodes[i].width,
                            height: old(self)@.nodes[i].height,
                        })
                },
            },
    {
        proof {
            use_type_invariant(&*self);
        }
        let sorted = match self.topological_sort() {
            Ok(s) => s,
            Err(e) => {
                return Err(e);
            },
        };
        let ghost g = self@;
        let n = self.nodes.len();
        if n == 0 {
            return Ok(Point(0, 0));
        }
        assert(g.nodes[0] == self.nodes@[0]@);
        let mut offset = self.nodes[0].position;
        let mut i: usize = 1;
        while i < n
            invariant
                g == self@,
                n == g.len(),
                1 <= i <= n,
                offset == Point(min_x(g.nodes, i as int), min_y(g.nodes, i as int)),
            decreases n - i,
        {
            assert(g.nodes[i as int] == self.nodes@[i as int]@);
            let p = self.nodes[i].position;
            if p.0 < offset.0 {
                offset.0 = p.0;
            }
            if p.1 < offset.1 {
                offset.1 = p.1;
            }
            i = i + 1;
        }
        let mut nodes: Vec<Node> = Vec::new();
        let mut j: usize = 0;
        while j < n
            invariant
                g == self@,
                n == g.len(),
                j <= n,
                nodes@.len() == j,
                forall|c: int|
                    #![trigger nodes@[c]]
                    0 <= c < j ==> nodes@[c]@ == (NodeView {
                        name: g.nodes[c].name,
                        position: Point(
                            clamp_i32(g.nodes[c].position.0 - offset.0) as i32,
                            clamp_i32(g.nodes[c].position.1 - offset.1) as i32,
                        ),
                        width: g.nodes[c].width,
                        height: g.nodes[c].height,
                    }),
            decreases n - j,
        {
            assert(g.nodes[j as int] == self.nodes@[j as int]@);
            let node = &self.nodes[j];
            let position = Point(sat_sub(node.position.0, offset.0), sat_sub(node.position.1, offset.1));
            nodes.push(Node { name: node.name.clone(), position, width: node.width, height: node.height });
            j = j + 1;
        }
        self.nodes = nodes;
        proof {
            assert forall|c: int| #![trigger self@.nodes[c]] 0 <= c < n implies self@.nodes[c] == self.nodes@[c]@ by {}
            assert(self@.edges =~= g.edges);
        }
        Ok(offset)
    }
}

impl LayoutGraph {
    /// Whether at most one node has no incoming edge.
    pub fn single_root(&self) -> (r: bool)
        requires
            self@.targets_closed(),
            self@.degrees_fit(),
        ensures
            r == self@.at_most_one_root(),
    {
        proof {
            use_type_invariant(self);
        }
        let ghost g = self@;
        let n = self.nodes.len();
        let indeg = self.in_degrees();
        let mut first: Option<usize> = None;
        let mut v: usize = 0;
        while v < n
            invariant
                g == self@,
                n == g.len(),
                v <= n,
                indeg@.len() == n,
                forall|w: int| 0 <= w < n ==> #[trigger] indeg@[w] == g.in_degree(g.name(w)),
                match first {
                    Some(w) => w < v && g.in_degree(g.name(w as int)) == 0 && forall|x: int|
                        0 <= x < v && g.in_degree(#[trigger] g.name(x)) == 0 ==> x == w,
                    None => forall|x: int| 0 <= x < v ==> g.in_degree(#[trigger] g.name(x)) != 0,
                },
            decreases n - v,
        {
            if indeg[v] == 0 {
                if first.is_some() {
                    let w = first.unwrap();
                    assert(!g.at_most_one_root()) by {
                        assert(g.nodes[w as int] == g.nodes[w as int]);
                        assert(g.nodes[v as int] == g.nodes[v as int]);
                    }
                    return false;
                }
                first = Some(v);
            }
            v = v + 1;
        }
        assert(g.at_most_one_root()) by {
            assert forall|i: int, j: int|
                #![trigger g.nodes[i], g.nodes[j]]
                0 <= i < g.len() && 0 <= j < g.len() && g.in_degree(g.name(i)) == 0 && g.in_degree(
                    g.name(j),
                ) == 0 implies i == j by {}
        }
        true
    }
}

/// Walks the nodes of a graph, each with the edges leaving it.
pub struct GraphIterator<'a> {
    graph: &'a LayoutGraph,
    index: usize,
}

impl<'a> GraphIterator<'a> {
    /// The graph being walked.
    pub closed spec fn graph(self) -> LayoutView {
        self.graph@
    }

    /// How many nodes have been handed out.
    pub closed spec fn index(self) -> int {
        self.index as int
    }

    /// Starts at the first node of `graph`.
    pub fn new(graph: &'a LayoutGraph) -> (r: GraphIterator<'a>)
        ensures
            r.graph() == graph@,
            r.graph().wf(),
            r.index() == 0,
    {
        proof {
            use_type_invariant(graph);
        }
        GraphIterator { graph, index: 0 }
    }

    /// The next node and its edges, if any are left.
    pub fn next(&mut self) -> (r: Option<(&'a Node, &'a Vec<Edge<String>>)>)
        ensures
            final(self).graph() == old(self).graph(),
            old(self).index() < old(self).graph().len() ==> match r {
                Some((node, edges)) => {
                    &&& node@ == old(self).graph().nodes[old(self).index()]
                    &&& edges@.map_values(|e: Edge<String>| e@) == old(self).graph().edges[old(
                        self,
                    ).index()]
                    &&& final(self).index() == old(self).index() + 1
                },
                None => false,
            },
            old(self).index() >= old(self).graph().len() ==> r is None && final(self).index() == old(
                self,
            ).index(),
    {
        proof {
            use_type_invariant(self.graph);
        }
        if self.index < self.graph.nodes.len() && self.index < self.graph.edges.len() {
            let i = self.index;
            let node = &self.graph.nodes[i];
            let edges = &self.graph.edges[i];
            assert(edges@.map_values(|e: Edge<String>| e@) =~= self.graph@.edges[i as int]);
            self.index = i + 1;
            Some((node, edges))
        } else {
            None
        }
    }
}

} // verus!
