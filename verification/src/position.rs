use vstd::prelude::*;
use vstd::string::*;

use crate::arith::{clamp_i32, sat_sub};
use crate::config::{Config, PositionView, Target, TargetView};
use crate::error::{ClientError, ClientErrorView};
use crate::heads::{corrected_size, first_match, head_matches, lemma_first_match, Head, HeadView, Heads};
use crate::layout::{
    edge_total, is_applied, lemma_degrees_fit, min_x, min_y, EdgeView, GraphIterator, LayoutGraph,
    LayoutView, Node, NodeView,
};
use crate::point::Point;
use crate::request::{placement_request, HeadUpdateRequest, UpdateRequest};

verus! {

/// The node standing for `head` in a layout: its name, position and logical
/// size; a head without a current mode has none.
pub open spec fn node_of(head: HeadView) -> Result<NodeView, ClientErrorView> {
    match head.current_mode {
        Some(m) => {
            let size = corrected_size(m, head.scale, head.transform);
            Ok(NodeView { name: head.name, position: head.position, width: size.0, height: size.1 })
        },
        None => Err(ClientErrorView::General("output has no current mode"@)),
    }
}

impl Node {
    /// The node standing for `head` (see [`node_of`]).
    pub fn try_from_head(head: &Head) -> (r: Result<Node, ClientError>)
        ensures
            match r {
                Ok(n) => node_of(head@) == Ok::<NodeView, ClientErrorView>(n@),
                Err(e) => node_of(head@) == Err::<NodeView, ClientErrorView>(e@),
            },
    {
        match head.scaled_corrected_size() {
            Ok(size) => Ok(
                Node { name: head.name.clone(), position: head.position, width: size.0, height: size.1 },
            ),
            Err(e) => Err(e),
        }
    }
}

/// A graph with no node and no edge.
pub open spec fn empty_layout() -> LayoutView {
    LayoutView { nodes: Seq::empty(), edges: Seq::empty() }
}

/// `g` with the node `n` added, unless a node of that name is already there.
pub open spec fn with_node(g: LayoutView, n: NodeView) -> LayoutView {
    if g.has_node(n.name) {
        g
    } else {
        LayoutView { nodes: g.nodes.push(n), edges: g.edges.push(Seq::empty()) }
    }
}

/// `g` with the edge `e` added to the node named `reference`, unless it is
/// already there.
pub open spec fn with_edge(g: LayoutView, reference: Seq<char>, e: EdgeView<Seq<char>>) -> LayoutView {
    LayoutView {
        nodes: g.nodes,
        edges: Seq::new(
            g.edges.len(),
            |i: int|
                if g.name(i) == reference && !g.edges[i].contains(e) {
                    g.edges[i].push(e)
                } else {
                    g.edges[i]
                },
        ),
    }
}

/// One target added to the layout built so far: its reference and itself are
/// looked up among the heads (reference first, by name, serial number or part
/// of the make) and added as nodes, with an edge from the node of the output
/// that the reference picks to the target. A target without a position adds
/// nothing.
pub open spec fn layout_step(
    acc: Result<LayoutView, ClientErrorView>,
    heads: Seq<(Seq<char>, HeadView)>,
    t: TargetView,
) -> Result<LayoutView, ClientErrorView> {
    match acc {
        Err(e) => Err(e),
        Ok(g) => match t.position {
            None => Ok(g),
            Some(p) => match first_match(heads, p.reference) {
                None => Err(ClientErrorView::General("reference output does not exist"@)),
                Some(ri) => match node_of(heads[ri].1) {
                    Err(e) => Err(e),
                    Ok(rn) => match first_match(heads, t.name) {
                        None => Err(ClientErrorView::General("target output does not exist"@)),
                        Some(ti) => match node_of(heads[ti].1) {
                            Err(e) => Err(e),
                            Ok(tn) => Ok(
                                with_node(
                                    with_edge(
                                        with_node(g, rn),
                                        rn.name,
                                        EdgeView {
                                            relation: p.relation,
                                            alignment: p.alignment,
                                            target: tn.name,
                                        },
                                    ),
                                    tn,
                                ),
                            ),
                        },
                    },
                },
            },
        },
    }
}

/// The layout graph that the targets describe, or the first failure.
pub open spec fn layout_of(heads: Seq<(Seq<char>, HeadView)>, targets: Seq<TargetView>) -> Result<
    LayoutView,
    ClientErrorView,
>
    decreases targets.len(),
{
    if targets.len() == 0 {
        Ok(empty_layout())
    } else {
        layout_step(layout_of(heads, targets.drop_last()), heads, targets.last())
    }
}

/// `name` is the name of one of the heads.
pub open spec fn is_head_name(heads: Seq<(Seq<char>, HeadView)>, name: Seq<char>) -> bool {
    exists|j: int| 0 <= j < heads.len() && #[trigger] heads[j].1.name == name
}

/// Every node of `g` is named after one of the heads.
pub open spec fn named_after_heads(g: LayoutView, heads: Seq<(Seq<char>, HeadView)>) -> bool {
    forall|i: int| 0 <= i < g.len() ==> is_head_name(heads, #[trigger] g.nodes[i].name)
}

/// How far the nodes of `h` are moved so that the smallest coordinates become zero.
pub open spec fn layout_offset(h: LayoutView) -> Point {
    if h.len() == 0 {
        Point(0, 0)
    } else {
        Point(min_x(h.nodes, h.len()), min_y(h.nodes, h.len()))
    }
}

/// `p` moved back by `offset` (saturating).
pub open spec fn shifted(p: Point, offset: Point) -> Point {
    Point(clamp_i32(p.0 - offset.0) as i32, clamp_i32(p.1 - offset.1) as i32)
}

/// One request per node of the laid out graph `h`, in node order: the head
/// picked by the node's name goes where the node is, once the layout is moved
/// into the positive quadrant.
pub open spec fn node_requests(heads: Seq<(Seq<char>, HeadView)>, h: LayoutView) -> Seq<HeadUpdateRequest> {
    Seq::new(
        h.nodes.len(),
        |i: int|
            placement_request(
                heads[first_match(heads, h.name(i))->0].1.id,
                shifted(h.nodes[i].position, layout_offset(h)),
            ),
    )
}

/// One request for each of the first `m` heads that is not in the layout `h`
/// (in head order): it keeps its place relative to the moved layout.
pub open spec fn shifted_requests(heads: Seq<(Seq<char>, HeadView)>, h: LayoutView, m: int) -> Seq<
    HeadUpdateRequest,
>
    decreases m,
{
    if m <= 0 {
        Seq::empty()
    } else {
        let prev = shifted_requests(heads, h, m - 1);
        let head = heads[m - 1].1;
        if h.has_node(head.name) {
            prev
        } else {
            prev.push(placement_request(head.id, shifted(head.position, layout_offset(h))))
        }
    }
}

/// The requests that put every head where the laid out graph `h` says.
pub open spec fn position_requests(heads: Seq<(Seq<char>, HeadView)>, h: LayoutView) -> Seq<
    HeadUpdateRequest,
> {
    node_requests(heads, h) + shifted_requests(heads, h, heads.len() as int)
}

/// What positioning the heads after `targets` gives for the configuration
/// `serial`: the graph is built ([`layout_of`]), laid out ([`is_applied`]), moved
/// into the positive quadrant, and every head gets a position.
pub open spec fn position_outcome(
    heads: Seq<(Seq<char>, HeadView)>,
    targets: Seq<TargetView>,
    serial: u32,
    r: Result<UpdateRequest, ClientError>,
) -> bool {
    match r {
        Ok(req) => {
            &&& req.serial == serial
            &&& layout_of(heads, targets) is Ok
            &&& layout_of(heads, targets)->Ok_0.has_topo_order()
            &&& exists|h: LayoutView|
                is_applied(layout_of(heads, targets)->Ok_0, h) && req.head_requests@
                    == position_requests(heads, h)
        },
        Err(e) => match layout_of(heads, targets) {
            Err(e2) => e@ == e2,
            Ok(g) => !g.has_topo_order() && e@ == ClientErrorView::General(
                "cyclic dependency detected"@,
            ),
        },
    }
}

// ----------------------------------------------------------------------------
// Lemmas on building the graph
// ----------------------------------------------------------------------------

proof fn lemma_has_node_push(g: LayoutView, n: NodeView, name: Seq<char>)
    ensures
        g.has_node(name) ==> with_node(g, n).has_node(name),
        with_node(g, n).has_node(n.name),
{
    if g.has_node(name) && !g.has_node(n.name) {
        let i = choose|i: int| #![trigger g.nodes[i]] 0 <= i < g.nodes.len() && g.nodes[i].name == name;
        assert(with_node(g, n).nodes[i] == g.nodes[i]);
    }
    if !g.has_node(n.name) {
        assert(with_node(g, n).nodes[g.nodes.len() as int] == n);
    }
}

proof fn lemma_edge_total_push_empty(edges: Seq<Seq<EdgeView<Seq<char>>>>, m: int)
    requires
        0 <= m <= edges.len(),
    ensures
        edge_total(edges.push(Seq::empty()), m) == edge_total(edges, m),
        edge_total(edges.push(Seq::empty()), edges.len() + 1int) == edge_total(edges, edges.len() as int),
    decreases m,
{
    if m > 0 {
        lemma_edge_total_push_empty(edges, m - 1);
    }
    lemma_edge_total_prefix(edges, edges.push(Seq::empty()), edges.len() as int);
}

proof fn lemma_edge_total_prefix(a: Seq<Seq<EdgeView<Seq<char>>>>, b: Seq<Seq<EdgeView<Seq<char>>>>, m: int)
    requires
        0 <= m <= a.len(),
        m <= b.len(),
        forall|i: int| 0 <= i < m ==> #[trigger] a[i] == b[i],
    ensures
        edge_total(a, m) == edge_total(b, m),
    decreases m,
{
    if m > 0 {
        lemma_edge_total_prefix(a, b, m - 1);
    }
}

proof fn lemma_with_node(g: LayoutView, n: NodeView)
    requires
        g.wf(),
    ensures
        with_node(g, n).wf(),
        g.targets_closed() ==> with_node(g, n).targets_closed(),
        edge_total(with_node(g, n).edges, with_node(g, n).len()) == edge_total(g.edges, g.len()),
        forall|name: Seq<char>| g.has_node(name) ==> #[trigger] with_node(g, n).has_node(name),
        with_node(g, n).has_node(n.name),
        forall|i: int|
            0 <= i < with_node(g, n).len() ==> (#[trigger] with_node(g, n).nodes[i] == n || (i < g.len()
                && with_node(g, n).nodes[i] == g.nodes[i])),
{
    let h = with_node(g, n);
    assert forall|name: Seq<char>| g.has_node(name) implies #[trigger] h.has_node(name) by {
        lemma_has_node_push(g, n, name);
    }
    lemma_has_node_push(g, n, n.name);
    if !g.has_node(n.name) {
        lemma_edge_total_push_empty(g.edges, g.len());
        if g.targets_closed() {
            assert forall|i: int, k: int|
                #![trigger h.edges[i][k]]
                0 <= i < h.edges.len() && 0 <= k < h.edges[i].len() implies h.has_node(h.edges[i][k].target) by {
                assert(i < g.edges.len());
                assert(h.edges[i] == g.edges[i]);
                assert(g.has_node(g.edges[i][k].target));
            }
        }
        assert forall|i: int, j: int|
            #![trigger h.nodes[i], h.nodes[j]]
            0 <= i < h.nodes.len() && 0 <= j < h.nodes.len() && i != j implies h.nodes[i].name
                != h.nodes[j].name by {
            if i == g.len() {
                assert(g.nodes[j] == h.nodes[j]);
            } else if j == g.len() {
                assert(g.nodes[i] == h.nodes[i]);
            }
        }
        assert forall|i: int| 0 <= i < h.edges.len() implies (#[trigger] h.edges[i]).no_duplicates() by {
            if i < g.len() {
                assert(h.edges[i] == g.edges[i]);
            }
        }
    }
}

proof fn lemma_edge_total_with_edge(g: LayoutView, reference: Seq<char>, e: EdgeView<Seq<char>>, m: int)
    requires
        g.wf(),
        0 <= m <= g.len(),
    ensures
        edge_total(with_edge(g, reference, e).edges, m) <= edge_total(g.edges, m) + (if exists|i: int|
            0 <= i < m && g.name(i) == reference {
            1int
        } else {
            0int
        }),
    decreases m,
{
    let h = with_edge(g, reference, e);
    if m > 0 {
        lemma_edge_total_with_edge(g, reference, e, m - 1);
        if g.name(m - 1) == reference {
            assert(exists|i: int| 0 <= i < m && g.name(i) == reference) by {
                assert(g.name(m - 1) == reference);
            }
            if exists|i: int| 0 <= i < m - 1 && g.name(i) == reference {
                let i = choose|i: int| 0 <= i < m - 1 && g.name(i) == reference;
                assert(g.nodes[i] == g.nodes[i]);
                assert(g.nodes[m - 1] == g.nodes[m - 1]);
                assert(false);
            }
        } else {
            assert(h.edges[m - 1] == g.edges[m - 1]);
            if exists|i: int| 0 <= i < m - 1 && g.name(i) == reference {
                let i = choose|i: int| 0 <= i < m - 1 && g.name(i) == reference;
                assert(0 <= i < m && g.name(i) == reference);
            }
        }
    }
}

proof fn lemma_with_edge(g: LayoutView, reference: Seq<char>, e: EdgeView<Seq<char>>)
    requires
        g.wf(),
        g.targets_closed(),
    ensures
        with_edge(g, reference, e).nodes == g.nodes,
        edge_total(with_edge(g, reference, e).edges, g.len()) <= edge_total(g.edges, g.len()) + 1,
        forall|i: int, k: int|
            #![trigger with_edge(g, reference, e).edges[i][k]]
            0 <= i < g.len() && 0 <= k < with_edge(g, reference, e).edges[i].len() ==> (g.has_node(
                with_edge(g, reference, e).edges[i][k].target,
            ) || with_edge(g, reference, e).edges[i][k] == e),
{
    lemma_edge_total_with_edge(g, reference, e, g.len());
    let h = with_edge(g, reference, e);
    assert forall|i: int, k: int|
        #![trigger h.edges[i][k]]
        0 <= i < g.len() && 0 <= k < h.edges[i].len() implies (g.has_node(h.edges[i][k].target)
            || h.edges[i][k] == e) by {
        if g.name(i) == reference && !g.edges[i].contains(e) {
            if k < g.edges[i].len() {
                assert(h.edges[i][k] == g.edges[i][k]);
            }
        }
    }
}

/// Adding a target keeps the graph well formed, closed, and its edges counted
/// by the targets.
proof fn lemma_layout_step(
    g: LayoutView,
    heads: Seq<(Seq<char>, HeadView)>,
    t: TargetView,
    k: int,
)
    requires
        g.wf(),
        g.targets_closed(),
        edge_total(g.edges, g.len()) <= k,
        named_after_heads(g, heads),
        layout_step(Ok(g), heads, t) is Ok,
    ensures
        layout_step(Ok(g), heads, t)->Ok_0.targets_closed(),
        edge_total(layout_step(Ok(g), heads, t)->Ok_0.edges, layout_step(Ok(g), heads, t)->Ok_0.len())
            <= k + 1,
        named_after_heads(layout_step(Ok(g), heads, t)->Ok_0, heads),
{
    match t.position {
        None => {},
        Some(p) => {
            let ri = first_match(heads, p.reference)->0;
            let ti = first_match(heads, t.name)->0;
            lemma_first_match(heads, p.reference);
            lemma_first_match(heads, t.name);
            let rn = node_of(heads[ri].1)->Ok_0;
            let tn = node_of(heads[ti].1)->Ok_0;
            let e = EdgeView { relation: p.relation, alignment: p.alignment, target: tn.name };
            let g1 = with_node(g, rn);
            lemma_with_node(g, rn);
            let g2 = with_edge(g1, rn.name, e);
            lemma_with_edge(g1, rn.name, e);
            assert(g2.wf()) by {
                assert forall|i: int| 0 <= i < g2.edges.len() implies (#[trigger] g2.edges[i]).no_duplicates() by {
                    assert(g1.edges[i].no_duplicates());
                    if g1.name(i) == rn.name && !g1.edges[i].contains(e) {
                        assert forall|a: int, b: int| 0 <= a < b < g2.edges[i].len() implies g2.edges[i][a]
                            != g2.edges[i][b] by {
                            if b == g1.edges[i].len() {
                                assert(g1.edges[i][a] == g2.edges[i][a]);
                            } else {
                                assert(g1.edges[i][a] == g2.edges[i][a]);
                                assert(g1.edges[i][b] == g2.edges[i][b]);
                            }
                        }
                    }
                }
            }
            let g3 = with_node(g2, tn);
            lemma_with_node(g2, tn);
            assert(g3.targets_closed()) by {
                assert forall|i: int, k2: int|
                    #![trigger g3.edges[i][k2]]
                    0 <= i < g3.edges.len() && 0 <= k2 < g3.edges[i].len() implies g3.has_node(
                        g3.edges[i][k2].target,
                    ) by {
                    assert(i < g2.len());
                    assert(g3.edges[i] == g2.edges[i]);
                    let x = g2.edges[i][k2].target;
                    if g1.has_node(x) {
                        let j = choose|j: int| #![trigger g1.nodes[j]] 0 <= j < g1.nodes.len() && g1.nodes[j].name == x;
                        assert(g2.nodes[j] == g1.nodes[j]);
                        assert(g2.has_node(x));
                    } else {
                        assert(g2.edges[i][k2] == e);
                    }
                }
            }
            assert(named_after_heads(g3, heads)) by {
                assert forall|i: int| 0 <= i < g3.len() implies is_head_name(heads, #[trigger] g3.nodes[i].name) by {
                    if g3.nodes[i] == tn {
                        assert(heads[ti].1.name == g3.name(i));
                    } else {
                        assert(g3.nodes[i] == g2.nodes[i]);
                        if g1.nodes[i] == rn {
                            assert(heads[ri].1.name == g3.name(i));
                        } else {
                            assert(g1.nodes[i] == g.nodes[i]);
                            assert(is_head_name(heads, g.nodes[i].name));
                        }
                    }
                }
            }
        },
    }
}

/// Once a target fails, the whole layout fails with the same error.
proof fn lemma_layout_err_sticks(heads: Seq<(Seq<char>, HeadView)>, ts: Seq<TargetView>, k: int, e: ClientErrorView)
    requires
        0 <= k <= ts.len(),
        layout_of(heads, ts.take(k)) == Err::<LayoutView, ClientErrorView>(e),
    ensures
        layout_of(heads, ts) == Err::<LayoutView, ClientErrorView>(e),
    decreases ts.len() - k,
{
    if k == ts.len() {
        assert(ts.take(k) =~= ts);
    } else {
        assert(ts.take(k + 1).drop_last() =~= ts.take(k));
        lemma_layout_err_sticks(heads, ts, k + 1, e);
    }
}

/// What [`LayoutGraph::ensure_node`] promises is [`with_node`].
proof fn lemma_is_with_node(g: LayoutView, h: LayoutView, n: NodeView)
    requires
        g.has_node(n.name) ==> h == g,
        !g.has_node(n.name) ==> h.nodes == g.nodes.push(n) && h.edges == g.edges.push(Seq::empty()),
    ensures
        h == with_node(g, n),
{
}

/// What [`LayoutGraph::add_edge_with_target`] promises is [`with_edge`] followed
/// by [`with_node`].
proof fn lemma_is_edge_then_node(g: LayoutView, h: LayoutView, reference: Seq<char>, e: EdgeView<Seq<char>>, n: NodeView)
    requires
        e.target == n.name,
        h.nodes == (if g.has_node(n.name) {
            g.nodes
        } else {
            g.nodes.push(n)
        }),
        h.edges.len() == h.nodes.len(),
        g.edges.len() == g.nodes.len(),
        forall|i: int|
            0 <= i < g.len() ==> (#[trigger] h.edges[i]) == (if g.name(i) == reference
                && !g.edges[i].contains(e) {
                g.edges[i].push(e)
            } else {
                g.edges[i]
            }),
        !g.has_node(n.name) ==> h.edges[g.len()] == Seq::<EdgeView<Seq<char>>>::empty(),
    ensures
        h == with_node(with_edge(g, reference, e), n),
{
    let g2 = with_edge(g, reference, e);
    assert(g2.nodes == g.nodes);
    assert(g2.has_node(n.name) == g.has_node(n.name)) by {
        if g.has_node(n.name) {
            let i = choose|i: int| #![trigger g.nodes[i]] 0 <= i < g.nodes.len() && g.nodes[i].name == n.name;
            assert(g2.nodes[i] == g.nodes[i]);
        }
        if g2.has_node(n.name) {
            let i = choose|i: int| #![trigger g2.nodes[i]] 0 <= i < g2.nodes.len() && g2.nodes[i].name == n.name;
            assert(g2.nodes[i] == g.nodes[i]);
        }
    }
    if g.has_node(n.name) {
        assert(h.edges =~= g2.edges);
    } else {
        assert(h.edges =~= g2.edges.push(Seq::empty()));
    }
}

/// The layout graph that `config` describes over `heads` (see [`layout_of`]):
/// for each target with a position, its reference and then itself are looked
/// up and added, with an edge from the output the reference picks to the
/// target.
pub fn build_layout(config: &Config, heads: &Heads) -> (r: Result<LayoutGraph, ClientError>)
    requires
        config@.len() <= u32::MAX,
    ensures
        match r {
            Ok(g) => {
                &&& layout_of(heads@, config@) == Ok::<LayoutView, ClientErrorView>(g@)
                &&& g@.wf()
                &&& g@.targets_closed()
                &&& g@.degrees_fit()
                &&& named_after_heads(g@, heads@)
            },
            Err(e) => layout_of(heads@, config@) == Err::<LayoutView, ClientErrorView>(e@),
        },
{
    let targets = config.targets();
    let ghost ts = config@;
    let mut graph = LayoutGraph::new();
    proof {
        assert(ts.take(0) =~= Seq::<TargetView>::empty());
        assert(graph@ == empty_layout()) by {
            assert(graph@.nodes =~= Seq::<NodeView>::empty());
            assert(graph@.edges =~= Seq::<Seq<EdgeView<Seq<char>>>>::empty());
        }
    }
    let mut k: usize = 0;
    while k < targets.len()
        invariant
            targets@.map_values(|t: Target| t@) == ts,
            ts == config@,
            ts.len() <= u32::MAX,
            k <= ts.len(),
            layout_of(heads@, ts.take(k as int)) == Ok::<LayoutView, ClientErrorView>(graph@),
            graph@.wf(),
            graph@.targets_closed(),
            edge_total(graph@.edges, graph@.len()) <= k,
            named_after_heads(graph@, heads@),
        decreases ts.len() - k,
    {
        let target = &targets[k];
        let ghost g0 = graph@;
        proof {
            assert(targets@.map_values(|t: Target| t@)[k as int] == target@);
            assert(ts.take(k + 1).drop_last() =~= ts.take(k as int));
            assert(ts.take(k + 1).last() == ts[k as int]);
        }
        match &target.position {
            None => {},
            Some(position) => {
                let ghost p = position@;
                let ref_head = match heads.find(position.reference.as_str()) {
                    Some(h) => h,
                    None => {
                        let e = ClientError::from_message("reference output does not exist");
                        proof {
                            lemma_layout_err_sticks(heads@, ts, k + 1, e@);
                        }
                        return Err(e);
                    },
                };
                let ref_node = match Node::try_from_head(ref_head) {
                    Ok(n) => n,
                    Err(e) => {
                        proof {
                            lemma_layout_err_sticks(heads@, ts, k + 1, e@);
                        }
                        return Err(e);
                    },
                };
                let ghost rn = ref_node@;
                graph.ensure_node(ref_node);
                proof {
                    lemma_is_with_node(g0, graph@, rn);
                }
                let ghost g1 = graph@;
                let target_head = match heads.find(target.name.as_str()) {
                    Some(h) => h,
                    None => {
                        let e = ClientError::from_message("target output does not exist");
                        proof {
                            lemma_layout_err_sticks(heads@, ts, k + 1, e@);
                        }
                        return Err(e);
                    },
                };
                let target_node = match Node::try_from_head(target_head) {
                    Ok(n) => n,
                    Err(e) => {
                        proof {
                            lemma_layout_err_sticks(heads@, ts, k + 1, e@);
                        }
                        return Err(e);
                    },
                };
                let ghost tn = target_node@;
                let ghost e = EdgeView { relation: p.relation, alignment: p.alignment, target: tn.name };
                graph.add_edge_with_target(ref_head.name.as_str(), target_node, position.relation, position.alignment);
                proof {
                    lemma_is_edge_then_node(g1, graph@, rn.name, e, tn);
                }
            },
        }
        proof {
            lemma_layout_step(g0, heads@, ts[k as int], k as int);
        }
        k = k + 1;
    }
    proof {
        assert(ts.take(ts.len() as int) =~= ts);
        lemma_degrees_fit(graph@);
    }
    Ok(graph)
}

/// Two graphs with the same node names, in order, and the same edges.
proof fn lemma_same_names(g: LayoutView, h: LayoutView, heads: Seq<(Seq<char>, HeadView)>)
    requires
        g.wf(),
        h.nodes.len() == g.nodes.len(),
        h.edges == g.edges,
        forall|i: int| 0 <= i < g.nodes.len() ==> #[trigger] h.nodes[i].name == g.nodes[i].name,
    ensures
        h.wf(),
        forall|name: Seq<char>| #[trigger] h.has_node(name) == g.has_node(name),
        named_after_heads(g, heads) ==> named_after_heads(h, heads),
{
    assert forall|i: int, j: int|
        #![trigger h.nodes[i], h.nodes[j]]
        0 <= i < h.nodes.len() && 0 <= j < h.nodes.len() && i != j implies h.nodes[i].name
            != h.nodes[j].name by {
        assert(g.nodes[i] == g.nodes[i]);
        assert(g.nodes[j] == g.nodes[j]);
    }
    assert forall|name: Seq<char>| #[trigger] h.has_node(name) == g.has_node(name) by {
        if h.has_node(name) {
            let i = choose|i: int| #![trigger h.nodes[i]] 0 <= i < h.nodes.len() && h.nodes[i].name == name;
            assert(g.nodes[i].name == name);
        }
        if g.has_node(name) {
            let i = choose|i: int| #![trigger g.nodes[i]] 0 <= i < g.nodes.len() && g.nodes[i].name == name;
            assert(h.nodes[i].name == name);
        }
    }
    if named_after_heads(g, heads) {
        assert forall|i: int| 0 <= i < h.len() implies is_head_name(heads, #[trigger] h.nodes[i].name) by {
            assert(is_head_name(heads, g.nodes[i].name));
        }
    }
}

/// A name that is the name of a head picks a head.
proof fn lemma_name_picks(heads: Seq<(Seq<char>, HeadView)>, j: int)
    requires
        0 <= j < heads.len(),
    ensures
        first_match(heads, heads[j].1.name) is Some,
        0 <= first_match(heads, heads[j].1.name)->0 < heads.len(),
{
    lemma_first_match(heads, heads[j].1.name);
    assert(head_matches(heads[j].1, heads[j].1.name));
}

/// Positions the heads as `config` says (see [`position_outcome`]): the targets
/// become a graph, which is laid out from its root and moved into the positive
/// quadrant; every head in the graph goes where its node is, and every other
/// head is moved along with the layout.
pub fn plan_position(config: &Config, heads: &Heads, serial: u32) -> (r: Result<UpdateRequest, ClientError>)
    requires
        config@.len() <= u32::MAX,
        layout_of(heads@, config@) is Ok && layout_of(heads@, config@)->Ok_0.has_topo_order()
            ==> layout_of(heads@, config@)->Ok_0.at_most_one_root(),
    ensures
        position_outcome(heads@, config@, serial, r),
{
    let graph = match build_layout(config, heads) {
        Ok(g) => g,
        Err(e) => {
            return Err(e);
        },
    };
    let ghost g = graph@;
    let applied = match graph.apply() {
        Ok(h) => h,
        Err(e) => {
            return Err(ClientError::general(e));
        },
    };
    let ghost h = applied@;
    let mut layout = applied;
    let offset = match layout.normalize_space() {
        Ok(o) => o,
        Err(e) => {
            return Err(ClientError::general(e));
        },
    };
    let ghost nh = layout@;
    proof {
        lemma_same_names(g, h, heads@);
        lemma_same_names(h, nh, heads@);
        assert(offset == layout_offset(h));
    }
    let mut requests: Vec<HeadUpdateRequest> = Vec::new();
    let mut it = GraphIterator::new(&layout);
    loop
        invariant_except_break
            it.graph() == nh,
            0 <= it.index() <= nh.len(),
        invariant
            nh.wf(),
            nh.len() == h.len(),
            named_after_heads(h, heads@),
            offset == layout_offset(h),
            forall|c: int|
                #![trigger nh.nodes[c]]
                0 <= c < h.len() ==> nh.nodes[c] == (NodeView {
                    name: h.nodes[c].name,
                    position: shifted(h.nodes[c].position, offset),
                    width: h.nodes[c].width,
                    height: h.nodes[c].height,
                }),
            requests@ == node_requests(heads@, h).take(it.index()),
        ensures
            requests@ == node_requests(heads@, h),
        decreases nh.len() - it.index(),
    {
        let ghost c = it.index();
        match it.next() {
            Some((node, _edges)) => {
                proof {
                    assert(node@ == nh.nodes[c]);
                    assert(is_head_name(heads@, h.nodes[c].name));
                    let j = choose|j: int| 0 <= j < heads@.len() && #[trigger] heads@[j].1.name == h.name(c);
                    lemma_name_picks(heads@, j);
                }
                let head = heads.find(node.name.as_str()).unwrap();
                requests.push(HeadUpdateRequest::move_to(head.id, node.position));
                proof {
                    assert(node_requests(heads@, h).take(c + 1) =~= node_requests(heads@, h).take(c).push(
                        node_requests(heads@, h)[c],
                    ));
                }
            },
            None => {
                proof {
                    assert(node_requests(heads@, h).take(it.index()) =~= node_requests(heads@, h));
                }
                break;
            },
        }
    }
    let mut j: usize = 0;
    while j < heads.len()
        invariant
            layout@ == nh,
            nh.wf(),
            forall|name: Seq<char>| #[trigger] nh.has_node(name) == h.has_node(name),
            offset == layout_offset(h),
            j <= heads@.len(),
            requests@ == node_requests(heads@, h) + shifted_requests(heads@, h, j as int),
        decreases heads@.len() - j,
    {
        let head = heads.get(j);
        if !layout.contains(head.name.as_str()) {
            let moved = Point(sat_sub(head.position.0, offset.0), sat_sub(head.position.1, offset.1));
            requests.push(HeadUpdateRequest::move_to(head.id, moved));
        }
        j = j + 1;
    }
    let r = UpdateRequest { serial, head_requests: requests };
    proof {
        assert(is_applied(g, h) && r.head_requests@ == position_requests(heads@, h));
    }
    Ok(r)
}

/// Positions the heads as `config` says ([`plan_position`]), unless the graph
/// that the targets describe has no cycle but more than one node that nothing
/// points at: such a graph cannot be laid out from a single root, and nothing
/// is planned (`None`).
pub fn plan_position_checked(config: &Config, heads: &Heads, serial: u32) -> (r: Option<
    Result<UpdateRequest, ClientError>,
>)
    requires
        config@.len() <= u32::MAX,
    ensures
        r is None <==> (layout_of(heads@, config@) is Ok && layout_of(heads@, config@)->Ok_0.has_topo_order()
            && !layout_of(heads@, config@)->Ok_0.at_most_one_root()),
        match r {
            Some(res) => position_outcome(heads@, config@, serial, res),
            None => true,
        },
{
    match build_layout(config, heads) {
        Ok(graph) => {
            let acyclic = match graph.topological_sort() {
                Ok(sorted) => {
                    assert(graph@.is_topo_order(sorted@.map_values(|x: String| x@)));
                    true
                },
                Err(_) => false,
            };
            if acyclic && !graph.single_root() {
                return None;
            }
        },
        Err(_) => {},
    }
    Some(plan_position(config, heads, serial))
}

} // verus!
