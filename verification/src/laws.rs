use vstd::prelude::*;

use crate::arith::clamp_i32;
use crate::cli;
use crate::config::{alignment_name, alignment_of, relation_name, relation_of, Alignment, Relation};
use crate::config::{position_of, position_text, PositionView, TargetView};
use crate::text::{is_white_space, words};
use crate::error::ClientError;
use crate::heads::{corrected_size, first_match, head_matches, lemma_first_match, HeadView, Mode};
use crate::layout::{count_target, is_applied, min_x, min_y, placed, EdgeView, LayoutView, NodeView};
use crate::point::Point;
use crate::position::{
    empty_layout, layout_of, layout_offset, layout_step, node_of, node_requests, position_outcome,
    position_requests, shifted, with_edge, with_node,
};
use crate::request::UpdateRequest;
use crate::request::HeadUpdateRequest;
use crate::snapshot::OutputView;
use crate::transform::{normalized_angle, rem_trunc, transform_of_angle, Transform};
use crate::writer::{output_from, write_plan_of, HeadAction};

verus! {

/// Reading the spelling of a relation gives the relation back.
pub proof fn law_relation_name_round_trip(r: Relation)
    ensures
        relation_of(relation_name(r)) == Some(r),
{
    reveal_strlit("left-of");
    reveal_strlit("right-of");
    reveal_strlit("top-of");
    reveal_strlit("bottom-of");
    assert("left-of"@.len() == 7 && "right-of"@.len() == 8 && "top-of"@.len() == 6 && "bottom-of"@.len() == 9);
}

/// Reading the spelling of an alignment gives the alignment back.
pub proof fn law_alignment_name_round_trip(a: Alignment)
    ensures
        alignment_of(alignment_name(a)) == Some(a),
{
    reveal_strlit("align-bottom");
    reveal_strlit("align-top");
    reveal_strlit("align-right");
    reveal_strlit("align-left");
    assert("align-bottom"@.len() == 12 && "align-top"@.len() == 9 && "align-right"@.len() == 11
        && "align-left"@.len() == 10);
}

/// A command line is accepted exactly when a side-by-side placement lines up
/// top or bottom edges, or a stacked placement lines up left or right edges.
pub proof fn law_placement_accepted(relation: cli::Relation, alignment: cli::Alignment)
    ensures
        cli::placement_error(relation, alignment) is None <==> ((relation == cli::Relation::LeftOf
            || relation == cli::Relation::RightOf) <==> (alignment == cli::Alignment::AlignTop
            || alignment == cli::Alignment::AlignBottom)),
{
}

/// An output placed against its reference touches it on the side the relation
/// names, and lines up with it on the edge the alignment names, for every
/// placement the command line accepts, as long as no coordinate leaves the
/// range of `i32`.
pub proof fn law_placement_geometry(
    parent_position: Point,
    parent_width: i32,
    parent_height: i32,
    child: NodeView,
    relation: Relation,
    alignment: Alignment,
)
    requires
        (relation == Relation::LeftOf || relation == Relation::RightOf) <==> (alignment == Alignment::AlignTop
            || alignment == Alignment::AlignBottom),
        i32::MIN <= parent_position.0 - child.width <= i32::MAX,
        i32::MIN <= parent_position.0 + parent_width <= i32::MAX,
        i32::MIN <= parent_position.1 - child.height <= i32::MAX,
        i32::MIN <= parent_position.1 + parent_height <= i32::MAX,
        i32::MIN <= parent_height - child.height <= i32::MAX,
        i32::MIN <= parent_width - child.width <= i32::MAX,
        i32::MIN <= parent_position.1 + parent_height - child.height <= i32::MAX,
        i32::MIN <= parent_position.0 + parent_width - child.width <= i32::MAX,
    ensures
        ({
            let q = placed(parent_position, parent_width, parent_height, child, relation, alignment);
            &&& relation == Relation::RightOf ==> q.0 == parent_position.0 + parent_width
            &&& relation == Relation::LeftOf ==> q.0 + child.width == parent_position.0
            &&& relation == Relation::BottomOf ==> q.1 == parent_position.1 + parent_height
            &&& relation == Relation::TopOf ==> q.1 + child.height == parent_position.1
            &&& alignment == Alignment::AlignBottom ==> q.1 + child.height == parent_position.1
                + parent_height
            &&& alignment == Alignment::AlignTop ==> q.1 == parent_position.1
            &&& alignment == Alignment::AlignRight ==> q.0 + child.width == parent_position.0
                + parent_width
            &&& alignment == Alignment::AlignLeft ==> q.0 == parent_position.0
        }),
{
}

proof fn lemma_min_x(nodes: Seq<NodeView>, m: int)
    requires
        1 <= m <= nodes.len(),
    ensures
        forall|i: int| 0 <= i < m ==> min_x(nodes, m) <= #[trigger] nodes[i].position.0,
        exists|i: int| 0 <= i < m && min_x(nodes, m) == #[trigger] nodes[i].position.0,
    decreases m,
{
    if m > 1 {
        lemma_min_x(nodes, m - 1);
        if nodes[m - 1].position.0 >= min_x(nodes, m - 1) {
            let i = choose|i: int| 0 <= i < m - 1 && min_x(nodes, m - 1) == #[trigger] nodes[i].position.0;
            assert(0 <= i < m && min_x(nodes, m) == nodes[i].position.0);
        } else {
            assert(min_x(nodes, m) == nodes[m - 1].position.0);
        }
    } else {
        assert(min_x(nodes, m) == nodes[0].position.0);
    }
}

proof fn lemma_min_y(nodes: Seq<NodeView>, m: int)
    requires
        1 <= m <= nodes.len(),
    ensures
        forall|i: int| 0 <= i < m ==> min_y(nodes, m) <= #[trigger] nodes[i].position.1,
        exists|i: int| 0 <= i < m && min_y(nodes, m) == #[trigger] nodes[i].position.1,
    decreases m,
{
    if m > 1 {
        lemma_min_y(nodes, m - 1);
        if nodes[m - 1].position.1 >= min_y(nodes, m - 1) {
            let i = choose|i: int| 0 <= i < m - 1 && min_y(nodes, m - 1) == #[trigger] nodes[i].position.1;
            assert(0 <= i < m && min_y(nodes, m) == nodes[i].position.1);
        } else {
            assert(min_y(nodes, m) == nodes[m - 1].position.1);
        }
    } else {
        assert(min_y(nodes, m) == nodes[0].position.1);
    }
}

/// Moving the nodes back by their smallest coordinates puts every node in the
/// positive quadrant, with some node on each axis; the distance between two
/// nodes is kept as long as it fits an `i32`.
pub proof fn law_normalized_positive(nodes: Seq<NodeView>)
    requires
        nodes.len() > 0,
    ensures
        ({
            let offset = Point(min_x(nodes, nodes.len() as int), min_y(nodes, nodes.len() as int));
            &&& forall|i: int|
                0 <= i < nodes.len() ==> shifted(#[trigger] nodes[i].position, offset).0 >= 0 && shifted(
                    nodes[i].position,
                    offset,
                ).1 >= 0
            &&& exists|i: int| 0 <= i < nodes.len() && shifted(#[trigger] nodes[i].position, offset).0 == 0
            &&& exists|i: int| 0 <= i < nodes.len() && shifted(#[trigger] nodes[i].position, offset).1 == 0
            &&& forall|i: int, j: int|
                0 <= i < nodes.len() && 0 <= j < nodes.len() && nodes[i].position.0 - offset.0 <= i32::MAX
                    && nodes[j].position.0 - offset.0 <= i32::MAX ==> shifted(#[trigger] nodes[i].position, offset).0
                    - shifted(#[trigger] nodes[j].position, offset).0 == nodes[i].position.0 - nodes[j].position.0
            &&& forall|i: int, j: int|
                0 <= i < nodes.len() && 0 <= j < nodes.len() && nodes[i].position.1 - offset.1 <= i32::MAX
                    && nodes[j].position.1 - offset.1 <= i32::MAX ==> shifted(#[trigger] nodes[i].position, offset).1
                    - shifted(#[trigger] nodes[j].position, offset).1 == nodes[i].position.1 - nodes[j].position.1
        }),
{
    let n = nodes.len() as int;
    lemma_min_x(nodes, n);
    lemma_min_y(nodes, n);
    let offset = Point(min_x(nodes, n), min_y(nodes, n));
    let i = choose|i: int| 0 <= i < n && min_x(nodes, n) == #[trigger] nodes[i].position.0;
    assert(shifted(nodes[i].position, offset).0 == 0);
    let j = choose|j: int| 0 <= j < n && min_y(nodes, n) == #[trigger] nodes[j].position.1;
    assert(shifted(nodes[j].position, offset).1 == 0);
}

/// A rotation is accepted exactly when it is a multiple of 90 degrees.
pub proof fn law_right_angles_accepted(angle: int)
    ensures
        transform_of_angle(angle) is Some <==> angle % 90 == 0,
{
    let r = rem_trunc(angle, 360);
    if angle >= 0 {
        assert(r == angle % 360);
        assert((angle % 360) % 90 == angle % 90) by (nonlinear_arith);
    } else {
        assert(r == -((-angle) % 360));
        assert(((-angle) % 360) % 90 == (-angle) % 90) by (nonlinear_arith);
        assert(((-angle) % 90 == 0) <==> (angle % 90 == 0)) by (nonlinear_arith);
    }
}

/// Turning a full circle more or less gives the same transform.
pub proof fn law_rotation_period(angle: int)
    ensures
        transform_of_angle(angle) == transform_of_angle(angle + 360),
        transform_of_angle(angle) == transform_of_angle(angle - 360),
{
    lemma_normalized_period(angle);
    lemma_normalized_period(angle - 360);
}

proof fn lemma_normalized_period(angle: int)
    ensures
        normalized_angle(angle) == normalized_angle(angle + 360),
{
    if angle >= 0 {
        assert((angle + 360) % 360 == angle % 360) by (nonlinear_arith);
    } else if angle + 360 >= 0 {
        assert(-angle <= 360);
        if -angle == 360 {
            assert((-angle) % 360 == 0);
            assert((angle + 360) % 360 == 0);
        } else {
            assert((-angle) % 360 == -angle);
            assert((angle + 360) % 360 == angle + 360);
        }
    } else {
        assert((-angle) % 360 == (-angle - 360) % 360) by (nonlinear_arith)
            requires
                -angle - 360 > 0,
        ;
    }
}

/// An image rotation turns the output the other way round: rotating the image
/// by `angle` is the counter-clockwise transform of `-angle` (for `angle` a
/// quarter turn, half turn or three quarters, either way).
pub proof fn law_rotation_direction()
    ensures
        transform_of_angle(90) == Some(Transform::_270),
        transform_of_angle(180) == Some(Transform::_180),
        transform_of_angle(270) == Some(Transform::_90),
        transform_of_angle(-90) == Some(Transform::_90),
        transform_of_angle(-180) == Some(Transform::_180),
        transform_of_angle(-270) == Some(Transform::_270),
        transform_of_angle(0) == Some(Transform::Normal),
{
}

/// A request that asks nothing but what an output already is (or turns off an
/// output that is off).
pub open spec fn request_in_effect(o: OutputView, r: HeadUpdateRequest) -> bool {
    if r.enabled == Some(false) {
        !o.enabled
    } else {
        &&& (r.enabled == Some(true) ==> o.enabled)
        &&& (r.position is Some ==> r.position == Some(o.position))
        &&& (r.mode_id is Some ==> o.current_mode == r.mode_id)
        &&& (r.scale is Some ==> r.scale == Some(o.scale))
        &&& (r.rotation is Some ==> r.rotation == Some(o.transform))
    }
}

/// Requests that are all already in effect leave nothing to apply: sending the
/// same configuration again changes nothing.
pub proof fn law_write_idempotent(outputs: Seq<OutputView>, requests: Seq<HeadUpdateRequest>)
    requires
        forall|k: int|
            0 <= k < requests.len() ==> output_from(outputs, (#[trigger] requests[k]).head_id, 0) is Some
                && request_in_effect(outputs[output_from(outputs, requests[k].head_id, 0)->0], requests[k]),
    ensures
        write_plan_of(outputs, requests) is Ok,
        !write_plan_of(outputs, requests)->Ok_0.1,
    decreases requests.len(),
{
    if requests.len() > 0 {
        let rest = requests.drop_last();
        assert forall|k: int|
            0 <= k < rest.len() implies output_from(outputs, (#[trigger] rest[k]).head_id, 0) is Some
                && request_in_effect(outputs[output_from(outputs, rest[k].head_id, 0)->0], rest[k]) by {
            assert(rest[k] == requests[k]);
        }
        law_write_idempotent(outputs, rest);
        let r = requests[requests.len() - 1];
        assert(r == requests.last());
    }
}

/// `v` is at most `2^29` away from zero: sums of three such values fit an `i32`.
pub open spec fn small(v: int) -> bool {
    -0x2000_0000 <= v <= 0x2000_0000
}

/// The graph of a single target placed against its reference.
proof fn lemma_single_layout(heads: Seq<(Seq<char>, HeadView)>, t: TargetView, rn: NodeView, tn: NodeView, e: EdgeView<Seq<char>>)
    requires
        t.position is Some,
        first_match(heads, t.position->0.reference) is Some,
        first_match(heads, t.name) is Some,
        node_of(heads[first_match(heads, t.position->0.reference)->0].1) == Ok::<NodeView, crate::error::ClientErrorView>(rn),
        node_of(heads[first_match(heads, t.name)->0].1) == Ok::<NodeView, crate::error::ClientErrorView>(tn),
        rn.name != tn.name,
        e == (EdgeView { relation: t.position->0.relation, alignment: t.position->0.alignment, target: tn.name }),
    ensures
        layout_of(heads, seq![t]) == Ok::<LayoutView, crate::error::ClientErrorView>(
            LayoutView { nodes: seq![rn, tn], edges: seq![seq![e], Seq::empty()] },
        ),
{
    assert(seq![t].drop_last() =~= Seq::<TargetView>::empty());
    assert(layout_of(heads, Seq::<TargetView>::empty()) == Ok::<LayoutView, crate::error::ClientErrorView>(empty_layout()));
    let g0 = empty_layout();
    assert(!g0.has_node(rn.name));
    let g1 = with_node(g0, rn);
    assert(g1.nodes =~= seq![rn]);
    assert(g1.edges =~= seq![Seq::<EdgeView<Seq<char>>>::empty()]);
    let g2 = with_edge(g1, rn.name, e);
    assert(g1.name(0) == rn.name);
    assert(!g1.edges[0].contains(e));
    assert(g2.edges =~= seq![seq![e]]);
    assert(!g2.has_node(tn.name)) by {
        if g2.has_node(tn.name) {
            let i = choose|i: int| #![trigger g2.nodes[i]] 0 <= i < g2.nodes.len() && g2.nodes[i].name == tn.name;
            assert(i == 0);
        }
    }
    let g3 = with_node(g2, tn);
    assert(g3.nodes =~= seq![rn, tn]);
    assert(g3.edges =~= seq![seq![e], Seq::empty()]);
}

/// Positioning a single output against a reference places it as the relation
/// and the alignment say: in the requests, the target's output touches the
/// reference's output on the side the relation names and lines up with it on
/// the edge the alignment names; the first request goes to the output that the
/// reference's output name picks, the second to the one the target's output
/// name picks. This holds for every placement the command line accepts,
/// whether the reference is given by name, serial number or part of the make,
/// when the reference and the target pick two different outputs that have a
/// current mode, and positions and sizes are within `2^29`.
pub proof fn law_position_places_target(
    heads: Seq<(Seq<char>, HeadView)>,
    t: TargetView,
    serial: u32,
    r: Result<UpdateRequest, ClientError>,
)
    requires
        position_outcome(heads, seq![t], serial, r),
        t.position matches Some(p) && ((p.relation == Relation::LeftOf || p.relation == Relation::RightOf) <==> (
        p.alignment == Alignment::AlignTop || p.alignment == Alignment::AlignBottom)),
        first_match(heads, t.position->0.reference) is Some,
        first_match(heads, t.name) is Some,
        node_of(heads[first_match(heads, t.position->0.reference)->0].1) is Ok,
        node_of(heads[first_match(heads, t.name)->0].1) is Ok,
        node_of(heads[first_match(heads, t.position->0.reference)->0].1)->Ok_0.name != node_of(
            heads[first_match(heads, t.name)->0].1,
        )->Ok_0.name,
        ({
            let rn = node_of(heads[first_match(heads, t.position->0.reference)->0].1)->Ok_0;
            let tn = node_of(heads[first_match(heads, t.name)->0].1)->Ok_0;
            small(rn.position.0 as int) && small(rn.position.1 as int) && 0 <= rn.width <= 0x2000_0000 && 0
                <= rn.height <= 0x2000_0000 && 0 <= tn.width <= 0x2000_0000 && 0 <= tn.height <= 0x2000_0000
        }),
    ensures
        r is Ok,
        r->Ok_0.head_requests@.len() >= 2,
        ({
            let p = t.position->0;
            let rn = node_of(heads[first_match(heads, p.reference)->0].1)->Ok_0;
            let tn = node_of(heads[first_match(heads, t.name)->0].1)->Ok_0;
            let a = r->Ok_0.head_requests@[0].position->0;
            let b = r->Ok_0.head_requests@[1].position->0;
            &&& r->Ok_0.head_requests@[0].head_id == heads[first_match(heads, rn.name)->0].1.id
            &&& r->Ok_0.head_requests@[1].head_id == heads[first_match(heads, tn.name)->0].1.id
            &&& p.relation == Relation::RightOf ==> b.0 == a.0 + rn.width
            &&& p.relation == Relation::LeftOf ==> b.0 + tn.width == a.0
            &&& p.relation == Relation::BottomOf ==> b.1 == a.1 + rn.height
            &&& p.relation == Relation::TopOf ==> b.1 + tn.height == a.1
            &&& p.alignment == Alignment::AlignBottom ==> b.1 + tn.height == a.1 + rn.height
            &&& p.alignment == Alignment::AlignTop ==> b.1 == a.1
            &&& p.alignment == Alignment::AlignRight ==> b.0 + tn.width == a.0 + rn.width
            &&& p.alignment == Alignment::AlignLeft ==> b.0 == a.0
        }),
{
    let p = t.position->0;
    let rn = node_of(heads[first_match(heads, p.reference)->0].1)->Ok_0;
    let tn = node_of(heads[first_match(heads, t.name)->0].1)->Ok_0;
    let e = EdgeView { relation: p.relation, alignment: p.alignment, target: tn.name };
    lemma_single_layout(heads, t, rn, tn, e);
    let g = LayoutView { nodes: seq![rn, tn], edges: seq![seq![e], Seq::empty()] };
    // The only edge goes from the reference to the target.
    assert(count_target(seq![e], rn.name) == 0) by {
        assert(seq![e].drop_last() =~= Seq::<EdgeView<Seq<char>>>::empty());
    }
    assert(count_target(seq![e], tn.name) == 1) by {
        assert(seq![e].drop_last() =~= Seq::<EdgeView<Seq<char>>>::empty());
    }
    assert(g.edges[0] == seq![e]);
    assert(g.edges[1] == Seq::<EdgeView<Seq<char>>>::empty());
    assert(!Set::<int>::empty().contains(0));
    assert(!Set::<int>::empty().contains(1));
    assert(count_target(Seq::<EdgeView<Seq<char>>>::empty(), rn.name) == 0);
    assert(count_target(Seq::<EdgeView<Seq<char>>>::empty(), tn.name) == 0);
    assert(g.in_count(rn.name, Set::empty(), 0) == 0);
    assert(g.in_count(tn.name, Set::empty(), 0) == 0);
    assert(g.in_count(rn.name, Set::empty(), 1) == 0);
    assert(g.in_count(tn.name, Set::empty(), 1) == 1);
    assert(g.in_degree(rn.name) == 0);
    assert(g.in_degree(tn.name) == 1);
    let s = seq![rn.name, tn.name];
    assert(g.is_topo_order(s)) by {
        assert(g.nodes[0].name == s[0]);
        assert(g.nodes[1].name == s[1]);
        assert(s.contains(g.nodes[0].name));
        assert(s.contains(g.nodes[1].name));
        assert forall|a: int| 0 <= a < s.len() implies g.has_node(#[trigger] s[a]) by {
            assert(g.nodes[a].name == s[a]);
        }
    }
    match r {
        Ok(req) => {
            let h = choose|h: LayoutView| is_applied(g, h) && req.head_requests@ == position_requests(heads, h);
            assert(g.name(0) == rn.name && g.name(1) == tn.name);
            assert(h.nodes[0].position == rn.position);
            assert(h.nodes[0].width == rn.width && h.nodes[0].height == rn.height);
            assert(g.in_degree(g.name(1)) > 0);
            let (pp, k) = choose|pp: int, k: int|
                0 <= pp < g.len() && 0 <= k < g.edges[pp].len() && g.edges[pp][k].target == g.name(1)
                    && h.nodes[1].position == placed(
                    h.nodes[pp].position,
                    h.nodes[pp].width,
                    h.nodes[pp].height,
                    g.nodes[1],
                    g.edges[pp][k].relation,
                    g.edges[pp][k].alignment,
                );
            assert(pp == 0 && k == 0);
            let q = h.nodes[1].position;
            law_placement_geometry(rn.position, rn.width, rn.height, tn, p.relation, p.alignment);
            let nr = node_requests(heads, h);
            assert(req.head_requests@[0] == nr[0]);
            assert(req.head_requests@[1] == nr[1]);
            law_normalized_positive(h.nodes);
            assert(h.nodes.len() == 2);
        },
        Err(_) => {
            assert(g.has_topo_order());
        },
    }
}

/// The arithmetic of placing `child` against a parent at `pp` of size
/// `pw` x `ph` stays within `i32`.
pub open spec fn placement_fits(pp: Point, pw: i32, ph: i32, child: NodeView) -> bool {
    &&& i32::MIN <= pp.0 - child.width <= i32::MAX
    &&& i32::MIN <= pp.0 + pw <= i32::MAX
    &&& i32::MIN <= pp.1 - child.height <= i32::MAX
    &&& i32::MIN <= pp.1 + ph <= i32::MAX
    &&& i32::MIN <= ph - child.height <= i32::MAX
    &&& i32::MIN <= pw - child.width <= i32::MAX
    &&& i32::MIN <= pp.1 + ph - child.height <= i32::MAX
    &&& i32::MIN <= pp.0 + pw - child.width <= i32::MAX
}

/// Moving `p` back by `offset` stays within `i32`.
pub open spec fn shift_fits(p: Point, offset: Point) -> bool {
    p.0 - offset.0 <= i32::MAX && p.1 - offset.1 <= i32::MAX
}

/// The command line accepts this pair: a side-by-side placement lines up top
/// or bottom edges, a stacked one left or right edges.
pub open spec fn accepted_pair(relation: Relation, alignment: Alignment) -> bool {
    (relation == Relation::LeftOf || relation == Relation::RightOf) <==> (alignment == Alignment::AlignTop
        || alignment == Alignment::AlignBottom)
}

/// A box at `b` of size `bw` x `bh` touches the box at `a` of size `aw` x `ah`
/// on the side `relation` names and lines up with it on the edge `alignment`
/// names.
pub open spec fn sits_against(
    a: Point,
    aw: int,
    ah: int,
    b: Point,
    bw: int,
    bh: int,
    relation: Relation,
    alignment: Alignment,
) -> bool {
    &&& relation == Relation::RightOf ==> b.0 == a.0 + aw
    &&& relation == Relation::LeftOf ==> b.0 + bw == a.0
    &&& relation == Relation::BottomOf ==> b.1 == a.1 + ah
    &&& relation == Relation::TopOf ==> b.1 + bh == a.1
    &&& alignment == Alignment::AlignBottom ==> b.1 + bh == a.1 + ah
    &&& alignment == Alignment::AlignTop ==> b.1 == a.1
    &&& alignment == Alignment::AlignRight ==> b.0 + bw == a.0 + aw
    &&& alignment == Alignment::AlignLeft ==> b.0 == a.0
}

/// Positioning any number of targets places each output that some target
/// points at against one of the outputs pointing at it: in the requests, the
/// output's request comes at its node's index, goes to the output its name
/// picks, and its box touches the box of that parent on the side the edge's
/// relation names and lines up with it on the edge the alignment names. This
/// holds for every placement the command line accepts, as long as placing the
/// output and moving both boxes into the positive quadrant stay within `i32`
/// (placement saturates at the bounds of `i32`).
pub proof fn law_position_places_targets(
    heads: Seq<(Seq<char>, HeadView)>,
    targets: Seq<TargetView>,
    serial: u32,
    r: Result<UpdateRequest, ClientError>,
)
    requires
        position_outcome(heads, targets, serial, r),
        r is Ok,
    ensures
        ({
            let g = layout_of(heads, targets)->Ok_0;
            let req = r->Ok_0.head_requests@;
            exists|h: LayoutView|
                #![trigger is_applied(g, h)]
                {
                    &&& is_applied(g, h)
                    &&& req == position_requests(heads, h)
                    &&& forall|i: int|
                        0 <= i < g.len() ==> (#[trigger] req[i]).head_id == heads[first_match(
                            heads,
                            g.name(i),
                        )->0].1.id
                    &&& forall|i: int|
                        #![trigger req[i]]
                        0 <= i < g.len() && g.in_degree(g.name(i)) > 0 ==> exists|p: int, k: int|
                            #![trigger g.edges[p][k]]
                            0 <= p < g.len() && 0 <= k < g.edges[p].len() && g.edges[p][k].target
                                == g.name(i) && (accepted_pair(g.edges[p][k].relation, g.edges[p][k].alignment)
                                && placement_fits(h.nodes[p].position, g.nodes[p].width, g.nodes[p].height, g.nodes[i])
                                && shift_fits(h.nodes[p].position, layout_offset(h)) && shift_fits(
                                h.nodes[i].position,
                                layout_offset(h),
                            ) ==> sits_against(
                                req[p].position->0,
                                g.nodes[p].width as int,
                                g.nodes[p].height as int,
                                req[i].position->0,
                                g.nodes[i].width as int,
                                g.nodes[i].height as int,
                                g.edges[p][k].relation,
                                g.edges[p][k].alignment,
                            ))
                }
        }),
{
    let g = layout_of(heads, targets)->Ok_0;
    let req = r->Ok_0.head_requests@;
    let h = choose|h: LayoutView| is_applied(g, h) && req == position_requests(heads, h);
    let off = layout_offset(h);
    let nr = node_requests(heads, h);
    assert forall|i: int| 0 <= i < g.len() implies (#[trigger] req[i]) == nr[i] by {}
    assert forall|i: int|
        #![trigger req[i]]
        0 <= i < g.len() && g.in_degree(g.name(i)) > 0 implies exists|p: int, k: int|
            #![trigger g.edges[p][k]]
            0 <= p < g.len() && 0 <= k < g.edges[p].len() && g.edges[p][k].target == g.name(i) && (
            accepted_pair(g.edges[p][k].relation, g.edges[p][k].alignment) && placement_fits(
                h.nodes[p].position,
                g.nodes[p].width,
                g.nodes[p].height,
                g.nodes[i],
            ) && shift_fits(h.nodes[p].position, off) && shift_fits(h.nodes[i].position, off)
                ==> sits_against(
                req[p].position->0,
                g.nodes[p].width as int,
                g.nodes[p].height as int,
                req[i].position->0,
                g.nodes[i].width as int,
                g.nodes[i].height as int,
                g.edges[p][k].relation,
                g.edges[p][k].alignment,
            )) by {
        assert(h.nodes[i] == h.nodes[i]);
        let (p, k) = choose|p: int, k: int|
            0 <= p < g.len() && 0 <= k < g.edges[p].len() && g.edges[p][k].target == g.name(i)
                && h.nodes[i].position == placed(
                h.nodes[p].position,
                h.nodes[p].width,
                h.nodes[p].height,
                g.nodes[i],
                g.edges[p][k].relation,
                g.edges[p][k].alignment,
            );
        assert(h.nodes[p] == h.nodes[p]);
        let e = g.edges[p][k];
        if accepted_pair(e.relation, e.alignment) && placement_fits(
            h.nodes[p].position,
            g.nodes[p].width,
            g.nodes[p].height,
            g.nodes[i],
        ) && shift_fits(h.nodes[p].position, off) && shift_fits(h.nodes[i].position, off) {
            law_placement_geometry(
                h.nodes[p].position,
                h.nodes[p].width,
                h.nodes[p].height,
                g.nodes[i],
                e.relation,
                e.alignment,
            );
            law_normalized_positive(h.nodes);
            assert(req[p] == nr[p]);
            assert(req[i] == nr[i]);
            let a = h.nodes[p].position;
            let b = h.nodes[i].position;
            let sa = shifted(a, off);
            let sb = shifted(b, off);
            assert(sa.0 - sb.0 == a.0 - b.0);
            assert(sa.1 - sb.1 == a.1 - b.1);
            assert(req[p].position->0 == sa);
            assert(req[i].position->0 == sb);
        }
        assert(g.edges[p][k] == e);
    }
    assert(is_applied(g, h));
}

/// A word: some characters, none of them white space.
pub open spec fn is_word(w: Seq<char>) -> bool {
    w.len() > 0 && forall|i: int| 0 <= i < w.len() ==> !is_white_space(#[trigger] w[i])
}

/// A word after nothing or after white space is a new last word.
proof fn lemma_words_append_word(s: Seq<char>, w: Seq<char>)
    requires
        is_word(w),
        s.len() == 0 || is_white_space(s.last()),
    ensures
        words(s + w) == words(s).push(w),
    decreases w.len(),
{
    let x = s + w;
    assert(x.drop_last() =~= s + w.drop_last());
    assert(x.last() == w.last());
    if w.len() == 1 {
        assert(w.drop_last() =~= Seq::<char>::empty());
        assert(s + w.drop_last() =~= s);
        if x.len() >= 2 {
            assert(x[x.len() - 2] == s.last());
        }
        assert(w =~= seq![w.last()]);
    } else {
        let v = w.drop_last();
        assert(is_word(v)) by {
            assert forall|i: int| 0 <= i < v.len() implies !is_white_space(#[trigger] v[i]) by {
                assert(v[i] == w[i]);
            }
        }
        lemma_words_append_word(s, v);
        assert(x[x.len() - 2] == w[w.len() - 2]);
        assert(v.push(w.last()) =~= w);
        assert(words(s).push(v).update(words(s).len() as int, v.push(w.last())) =~= words(s).push(w));
    }
}

/// White space after something ends nothing new.
proof fn lemma_words_append_space(s: Seq<char>, c: char)
    requires
        is_white_space(c),
    ensures
        words(s.push(c)) == words(s),
{
    assert(s.push(c).drop_last() =~= s);
}

proof fn lemma_names_are_words(r: Relation, a: Alignment)
    ensures
        is_word(relation_name(r)),
        is_word(alignment_name(a)),
{
    reveal_strlit("left-of");
    reveal_strlit("right-of");
    reveal_strlit("top-of");
    reveal_strlit("bottom-of");
    reveal_strlit("align-bottom");
    reveal_strlit("align-top");
    reveal_strlit("align-right");
    reveal_strlit("align-left");
}

/// Writing a position and reading it back gives the position, when its
/// reference is one word.
pub proof fn law_position_text_round_trip(p: PositionView)
    requires
        is_word(p.reference),
    ensures
        position_of(position_text(p)) == Ok::<PositionView, Seq<char>>(p),
{
    let rel = relation_name(p.relation);
    let al = alignment_name(p.alignment);
    lemma_names_are_words(p.relation, p.alignment);
    reveal_strlit(" ");
    let sp = " "@;
    assert(sp =~= seq![' ']);
    assert(is_white_space(' '));
    lemma_words_append_word(Seq::empty(), rel);
    assert(Seq::<char>::empty() + rel =~= rel);
    let s1 = rel + sp;
    assert(s1 =~= rel.push(' '));
    lemma_words_append_space(rel, ' ');
    let s2 = s1 + p.reference;
    lemma_words_append_word(s1, p.reference);
    let s3 = s2 + sp;
    assert(s3 =~= s2.push(' '));
    lemma_words_append_space(s2, ' ');
    let s4 = s3 + al;
    lemma_words_append_word(s3, al);
    assert(position_text(p) =~= s4);
    let w = words(s4);
    assert(w =~= seq![rel, p.reference, al]);
    law_relation_name_round_trip(p.relation);
    law_alignment_name_round_trip(p.alignment);
}

/// An output turned a quarter of a turn takes its height as width and its
/// width as height in the layout.
pub proof fn law_rotated_size_swaps(mode: Mode, scale: i32, transform: Transform)
    ensures
        transform.spec_is_vertical() ==> corrected_size(mode, scale, transform) == Point(
            corrected_size(mode, scale, Transform::Normal).1,
            corrected_size(mode, scale, Transform::Normal).0,
        ),
        !transform.spec_is_vertical() ==> corrected_size(mode, scale, transform) == corrected_size(
            mode,
            scale,
            Transform::Normal,
        ),
{
}

/// Any output can be picked by its name, and by its serial number: some output
/// (the first that matches) is found.
pub proof fn law_outputs_can_be_picked(heads: Seq<(Seq<char>, HeadView)>, j: int)
    requires
        0 <= j < heads.len(),
    ensures
        first_match(heads, heads[j].1.name) is Some,
        first_match(heads, heads[j].1.serial_number) is Some,
{
    lemma_first_match(heads, heads[j].1.name);
    lemma_first_match(heads, heads[j].1.serial_number);
    assert(head_matches(heads[j].1, heads[j].1.name));
    assert(head_matches(heads[j].1, heads[j].1.serial_number));
}

/// Once a request changes something, the configuration is applied: the plan
/// of any longer list of requests applies too.
proof fn lemma_dirty_stays(outputs: Seq<OutputView>, requests: Seq<HeadUpdateRequest>, k: int)
    requires
        0 <= k <= requests.len(),
        write_plan_of(outputs, requests.take(k)) is Ok,
        write_plan_of(outputs, requests.take(k))->Ok_0.1,
        write_plan_of(outputs, requests) is Ok,
    ensures
        write_plan_of(outputs, requests)->Ok_0.1,
    decreases requests.len() - k,
{
    if k == requests.len() {
        assert(requests.take(k) =~= requests);
    } else {
        assert(requests.take(k + 1).drop_last() =~= requests.take(k));
        if write_plan_of(outputs, requests.take(k + 1)) is Err {
            lemma_write_err_sticks_law(outputs, requests, k + 1);
        }
        lemma_dirty_stays(outputs, requests, k + 1);
    }
}

proof fn lemma_write_err_sticks_law(outputs: Seq<OutputView>, rs: Seq<HeadUpdateRequest>, k: int)
    requires
        0 <= k <= rs.len(),
        write_plan_of(outputs, rs.take(k)) is Err,
    ensures
        write_plan_of(outputs, rs) is Err,
    decreases rs.len() - k,
{
    if k == rs.len() {
        assert(rs.take(k) =~= rs);
    } else {
        assert(rs.take(k + 1).drop_last() =~= rs.take(k));
        lemma_write_err_sticks_law(outputs, rs, k + 1);
    }
}

/// Turning off an output that is on is always applied.
pub proof fn law_turning_off_applies(outputs: Seq<OutputView>, requests: Seq<HeadUpdateRequest>, k: int)
    requires
        0 <= k < requests.len(),
        requests[k].enabled == Some(false),
        output_from(outputs, requests[k].head_id, 0) is Some,
        outputs[output_from(outputs, requests[k].head_id, 0)->0].enabled,
        write_plan_of(outputs, requests) is Ok,
    ensures
        write_plan_of(outputs, requests)->Ok_0.1,
{
    let prefix = requests.take(k + 1);
    assert(prefix.drop_last() =~= requests.take(k));
    assert(prefix.last() == requests[k]);
    if write_plan_of(outputs, requests.take(k)) is Err {
        lemma_write_err_sticks_law(outputs, requests, k);
    }
    lemma_dirty_stays(outputs, requests, k + 1);
}

/// The actions planned for the first `k` requests come first, unchanged, in
/// the actions planned for all of them.
proof fn lemma_actions_prefix(outputs: Seq<OutputView>, requests: Seq<HeadUpdateRequest>, k: int)
    requires
        0 <= k <= requests.len(),
        write_plan_of(outputs, requests) is Ok,
    ensures
        write_plan_of(outputs, requests.take(k)) is Ok,
        write_plan_of(outputs, requests.take(k))->Ok_0.0.len() <= write_plan_of(outputs, requests)->Ok_0.0.len(),
        forall|j: int|
            0 <= j < write_plan_of(outputs, requests.take(k))->Ok_0.0.len() ==> #[trigger] write_plan_of(
                outputs,
                requests.take(k),
            )->Ok_0.0[j] == write_plan_of(outputs, requests)->Ok_0.0[j],
    decreases requests.len() - k,
{
    if k == requests.len() {
        assert(requests.take(k) =~= requests);
    } else {
        if write_plan_of(outputs, requests.take(k)) is Err {
            lemma_write_err_sticks_law(outputs, requests, k);
        }
        lemma_actions_prefix(outputs, requests, k + 1);
        assert(requests.take(k + 1).drop_last() =~= requests.take(k));
        let a = write_plan_of(outputs, requests.take(k))->Ok_0.0;
        let b = write_plan_of(outputs, requests.take(k + 1))->Ok_0.0;
        assert(b == a || b == a.push(b.last()));
        assert forall|j: int| 0 <= j < a.len() implies #[trigger] a[j] == write_plan_of(outputs, requests)->Ok_0.0[j] by {
            assert(a[j] == b[j]);
        }
    }
}

/// A request that keeps an output on reaches the configuration: some action
/// enables that output and sets exactly the position, mode, scale and rotation
/// it asks for that differ from the output's own; and when it turns the output
/// on or changes any of these, the configuration is applied.
pub proof fn law_requested_changes_applied(outputs: Seq<OutputView>, requests: Seq<HeadUpdateRequest>, k: int)
    requires
        0 <= k < requests.len(),
        requests[k].enabled != Some(false),
        output_from(outputs, requests[k].head_id, 0) is Some,
        write_plan_of(outputs, requests) is Ok,
    ensures
        ({
            let o = outputs[output_from(outputs, requests[k].head_id, 0)->0];
            let r = requests[k];
            let plan = write_plan_of(outputs, requests)->Ok_0;
            &&& exists|j: int|
                0 <= j < plan.0.len() && (#[trigger] plan.0[j]) == HeadAction::Enable {
                    head_id: r.head_id,
                    position: if r.position is Some && r.position != Some(o.position) {
                        r.position
                    } else {
                        None
                    },
                    mode_id: if r.mode_id is Some && r.mode_id != o.current_mode {
                        r.mode_id
                    } else {
                        None
                    },
                    scale: if r.scale is Some && r.scale != Some(o.scale) {
                        r.scale
                    } else {
                        None
                    },
                    transform: if r.rotation is Some && r.rotation != Some(o.transform) {
                        r.rotation
                    } else {
                        None
                    },
                }
            &&& (r.enabled == Some(true) && !o.enabled) || (r.position is Some && r.position != Some(o.position))
                || (r.mode_id is Some && r.mode_id != o.current_mode) || (r.scale is Some && r.scale != Some(
                o.scale,
            )) || (r.rotation is Some && r.rotation != Some(o.transform)) ==> plan.1
        }),
{
    let prefix = requests.take(k + 1);
    assert(prefix.drop_last() =~= requests.take(k));
    assert(prefix.last() == requests[k]);
    lemma_actions_prefix(outputs, requests, k + 1);
    lemma_actions_prefix(outputs, requests, k);
    let o = outputs[output_from(outputs, requests[k].head_id, 0)->0];
    let r = requests[k];
    let pre = write_plan_of(outputs, prefix)->Ok_0;
    let j = pre.0.len() - 1;
    assert(pre.0[j] == write_plan_of(outputs, requests)->Ok_0.0[j]);
    if (r.enabled == Some(true) && !o.enabled) || (r.position is Some && r.position != Some(o.position))
        || (r.mode_id is Some && r.mode_id != o.current_mode) || (r.scale is Some && r.scale != Some(o.scale))
        || (r.rotation is Some && r.rotation != Some(o.transform)) {
        assert(pre.1);
        lemma_dirty_stays(outputs, requests, k + 1);
    }
}

} // verus!
