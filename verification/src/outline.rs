use vstd::prelude::*;

use crate::chain::{chain_segments, chains, chains_are_linked, head, indices, linked, tail, Oriented};
use crate::data::Wall;
use crate::geometry::{Point, Polygon};
use crate::room_graph::RoomGraph;

verus! {

/// The end points of every edge of the graph.
pub open spec fn edge_ends(g: &RoomGraph) -> Seq<(Point, Point)> {
    Seq::new(g.edges@.len(), |i: int| (g.edges@[i].a, g.edges@[i].b))
}

/// The end points of every wall.
pub open spec fn wall_ends(ws: Seq<Wall>) -> Seq<(Point, Point)> {
    Seq::new(ws.len(), |i: int| (ws[i].a, ws[i].b))
}

/// The wall, reversed when the flag is set.
pub open spec fn oriented_wall(w: Wall, rev: bool) -> Wall {
    if rev {
        Wall { id: w.id, a: w.b, b: w.a }
    } else {
        w
    }
}

/// The chains of the graph's edges as polygons: the vertices of a polygon are
/// the start points of its chain's edges, in chain order. `snaps[i]` holds
/// the snapped end points of edge `i`; two ends join when they are equal or
/// their snapped versions are.
pub fn graph_into_polygons(graph: &RoomGraph, snaps: &Vec<(Point, Point)>) -> (r: Vec<Polygon>)
    requires
        snaps@.len() == graph.edges@.len(),
    ensures
        r@.len() == chains(edge_ends(graph), snaps@, indices(graph.edges@.len())).len(),
        forall|i: int|
            0 <= i < r@.len() ==> (#[trigger] r@[i]).vertices@ == chains(
                edge_ends(graph),
                snaps@,
                indices(graph.edges@.len()),
            )[i].map_values(|o: Oriented| head(edge_ends(graph), o)),
{
    let mut ends: Vec<(Point, Point)> = Vec::new();
    for i in 0..graph.edges.len()
        invariant
            ends@ == edge_ends(graph).take(i as int),
    {
        ends.push((graph.edges[i].a, graph.edges[i].b));
        assert(ends@ =~= edge_ends(graph).take(i + 1));
    }
    assert(ends@ =~= edge_ends(graph));
    let cs = chain_segments(&ends, snaps);
    let ghost all = chains(ends@, snaps@, indices(ends@.len()));
    let mut out: Vec<Polygon> = Vec::new();
    for i in 0..cs.len()
        invariant
            ends@ == edge_ends(graph),
            all == chains(ends@, snaps@, indices(ends@.len())),
            cs@.len() == all.len(),
            forall|k: int| 0 <= k < cs@.len() ==> (#[trigger] cs@[k])@ == all[k],
            out@.len() == i,
            forall|k: int|
                0 <= k < i ==> (#[trigger] out@[k]).vertices@ == all[k].map_values(
                    |o: Oriented| head(ends@, o),
                ),
    {
        let c = &cs[i];
        assert(c@ == all[i as int]);
        proof {
            lemma_chain_in_range(ends@, snaps@, i as int);
        }
        let mut vs: Vec<Point> = Vec::new();
        for j in 0..c.len()
            invariant
                ends@ == edge_ends(graph),
                c@ == all[i as int],
                forall|k: int| 0 <= k < c@.len() ==> (#[trigger] c@[k]).0 < ends@.len(),
                vs@ == c@.take(j as int).map_values(|o: Oriented| head(ends@, o)),
        {
            let o = c[j];
            let p = if o.1 {
                ends[o.0].1
            } else {
                ends[o.0].0
            };
            vs.push(p);
            assert(vs@ =~= c@.take(j + 1).map_values(|o: Oriented| head(ends@, o)));
        }
        assert(c@.take(c@.len() as int) =~= c@);
        let ghost old_out = out@;
        out.push(Polygon::new(vs));
        proof {
            assert forall|k: int| 0 <= k < i + 1 implies (#[trigger] out@[k]).vertices@
                == all[k].map_values(|o: Oriented| head(ends@, o)) by {
                if k < i {
                    assert(out@[k] == old_out[k]);
                }
            }
        }
    }
    out
}

/// Every oriented segment of every chain names one of the segments.
pub proof fn lemma_chain_in_range(ends: Seq<(Point, Point)>, snaps: Seq<(Point, Point)>, i: int)
    requires
        0 <= i < chains(ends, snaps, indices(ends.len())).len(),
    ensures
        forall|k: int|
            0 <= k < chains(ends, snaps, indices(ends.len()))[i].len() ==> (#[trigger] chains(
                ends,
                snaps,
                indices(ends.len()),
            )[i][k]).0 < ends.len(),
{
    crate::chain::lemma_indices_in_range(ends.len());
    crate::chain::lemma_chains_in_range(ends, snaps, indices(ends.len()));
    assert(crate::chain::oriented_in_range(chains(ends, snaps, indices(ends.len()))[i], ends.len()));
}

/// The walls cut into chains, each chain given as its walls in chain order,
/// reversed where the chain runs against them. `snaps[i]` holds the snapped
/// end points of wall `i`.
pub fn order_walls_as_polygons(walls: &Vec<Wall>, snaps: &Vec<(Point, Point)>) -> (r: Vec<
    Vec<Wall>,
>)
    requires
        snaps@.len() == walls@.len(),
    ensures
        r@.len() == chains(wall_ends(walls@), snaps@, indices(walls@.len())).len(),
        forall|i: int|
            0 <= i < r@.len() ==> (#[trigger] r@[i])@ == chains(
                wall_ends(walls@),
                snaps@,
                indices(walls@.len()),
            )[i].map_values(|o: Oriented| oriented_wall(walls@[o.0 as int], o.1)),
{
    let mut ends: Vec<(Point, Point)> = Vec::new();
    for i in 0..walls.len()
        invariant
            ends@ == wall_ends(walls@).take(i as int),
    {
        ends.push((walls[i].a, walls[i].b));
        assert(ends@ =~= wall_ends(walls@).take(i + 1));
    }
    assert(ends@ =~= wall_ends(walls@));
    let cs = chain_segments(&ends, snaps);
    let ghost all = chains(ends@, snaps@, indices(ends@.len()));
    let mut out: Vec<Vec<Wall>> = Vec::new();
    for i in 0..cs.len()
        invariant
            ends@ == wall_ends(walls@),
            all == chains(ends@, snaps@, indices(ends@.len())),
            cs@.len() == all.len(),
            forall|k: int| 0 <= k < cs@.len() ==> (#[trigger] cs@[k])@ == all[k],
            out@.len() == i,
            forall|k: int|
                0 <= k < i ==> (#[trigger] out@[k])@ == all[k].map_values(
                    |o: Oriented| oriented_wall(walls@[o.0 as int], o.1),
                ),
    {
        let c = &cs[i];
        assert(c@ == all[i as int]);
        proof {
            lemma_chain_in_range(ends@, snaps@, i as int);
        }
        let mut ws: Vec<Wall> = Vec::new();
        for j in 0..c.len()
            invariant
                ends@ == wall_ends(walls@),
                c@ == all[i as int],
                forall|k: int| 0 <= k < c@.len() ==> (#[trigger] c@[k]).0 < ends@.len(),
                ws@ == c@.take(j as int).map_values(
                    |o: Oriented| oriented_wall(walls@[o.0 as int], o.1),
                ),
        {
            let o = c[j];
            let w = walls[o.0];
            let ow = if o.1 {
                Wall { id: w.id, a: w.b, b: w.a }
            } else {
                w
            };
            ws.push(ow);
            assert(ws@ =~= c@.take(j + 1).map_values(
                |o: Oriented| oriented_wall(walls@[o.0 as int], o.1),
            ));
        }
        assert(c@.take(c@.len() as int) =~= c@);
        let ghost old_out = out@;
        out.push(ws);
        proof {
            assert forall|k: int| 0 <= k < i + 1 implies (#[trigger] out@[k])@ == all[k].map_values(
                |o: Oriented| oriented_wall(walls@[o.0 as int], o.1),
            ) by {
                if k < i {
                    assert(out@[k] == old_out[k]);
                }
            }
        }
    }
    out
}

/// End `second` of segment `e` (the first end when `second` is false).
pub open spec fn end_of_segment(ends: Seq<(Point, Point)>, e: int, second: bool) -> Point {
    if second {
        ends[e].1
    } else {
        ends[e].0
    }
}

/// Vertex `v` is an end of segment `e`, vertex `w` an end of segment `f`, and
/// the other end of `e` joins `w`: they are equal, or their snapped versions are.
pub open spec fn leads_to(
    ends: Seq<(Point, Point)>,
    snaps: Seq<(Point, Point)>,
    e: int,
    v: Point,
    f: int,
    w: Point,
) -> bool {
    exists|se: bool, sf: bool|
        #![trigger end_of_segment(ends, e, se), end_of_segment(ends, f, sf)]
        end_of_segment(ends, e, se) == v && end_of_segment(ends, f, sf) == w && (end_of_segment(
            ends,
            e,
            !se,
        ) == w || end_of_segment(snaps, e, !se) == end_of_segment(snaps, f, sf))
}

/// The outlines that `graph_into_polygons` gives run along the graph's edges:
/// every vertex is an end of its edge, and from each vertex the outline goes
/// along that edge to its other end, where the next vertex is (or a point that
/// snaps to the same place).
pub proof fn outline_vertices_follow_their_edges(
    ends: Seq<(Point, Point)>,
    snaps: Seq<(Point, Point)>,
    i: int,
)
    requires
        0 <= i < chains(ends, snaps, indices(ends.len())).len(),
    ensures
        ({
            let c = chains(ends, snaps, indices(ends.len()))[i];
            let vs = c.map_values(|o: Oriented| head(ends, o));
            &&& forall|k: int|
                0 <= k < c.len() ==> (#[trigger] vs[k] == ends[c[k].0 as int].0 || vs[k] == ends[c[
                    k
                ].0 as int].1)
            &&& forall|k: int|
                0 <= k < c.len() - 1 ==> leads_to(
                    ends,
                    snaps,
                    c[k].0 as int,
                    #[trigger] vs[k],
                    c[k + 1].0 as int,
                    vs[k + 1],
                )
        }),
{
    let c = chains(ends, snaps, indices(ends.len()))[i];
    let vs = c.map_values(|o: Oriented| head(ends, o));
    lemma_chain_in_range(ends, snaps, i);
    chains_are_linked(ends, snaps, indices(ends.len()));
    assert(linked(ends, snaps, c));
    assert forall|k: int| 0 <= k < c.len() - 1 implies leads_to(
        ends,
        snaps,
        c[k].0 as int,
        #[trigger] vs[k],
        c[k + 1].0 as int,
        vs[k + 1],
    ) by {
        let (e, se) = (c[k].0 as int, c[k].1);
        let (f, sf) = (c[k + 1].0 as int, c[k + 1].1);
        assert(vs[k] == head(ends, c[k]));
        assert(vs[k + 1] == head(ends, c[k + 1]));
        assert(tail(ends, c[k]) == end_of_segment(ends, e, !se));
        assert(tail(snaps, c[k]) == end_of_segment(snaps, e, !se));
        assert(end_of_segment(ends, e, se) == vs[k]);
        assert(end_of_segment(ends, f, sf) == vs[k + 1]);
    }
}

} // verus!
