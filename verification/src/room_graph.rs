use vstd::prelude::*;
use std::collections::HashMap;

use crate::data::{Data, Door, Wall};
use crate::geometry::Point;

verus! {

broadcast use vstd::std_specs::hash::group_hash_axioms;

/// `s` with `p` appended unless it already holds it.
pub open spec fn add_point(s: Seq<Point>, p: Point) -> Seq<Point> {
    if s.contains(p) {
        s
    } else {
        s.push(p)
    }
}

/// The distinct wall end points, in the order they first occur
/// (each wall contributes its start, then its end).
pub open spec fn wall_points(ws: Seq<Wall>) -> Seq<Point>
    decreases ws.len(),
{
    if ws.len() == 0 {
        Seq::empty()
    } else {
        add_point(add_point(wall_points(ws.drop_last()), ws.last().a), ws.last().b)
    }
}

/// Whether `es` holds the segment between `a` and `b`, in either direction.
pub open spec fn has_segment(es: Seq<(Point, Point, i64)>, a: Point, b: Point) -> bool {
    exists|i: int|
        0 <= i < es.len() && ((#[trigger] es[i].0 == a && es[i].1 == b) || (es[i].0 == b && es[i].1
            == a))
}

/// One `(start, end, wall id)` per wall whose segment no earlier wall covers,
/// in either direction.
pub open spec fn wall_edges(ws: Seq<Wall>) -> Seq<(Point, Point, i64)>
    decreases ws.len(),
{
    if ws.len() == 0 {
        Seq::empty()
    } else {
        let prev = wall_edges(ws.drop_last());
        let w = ws.last();
        if has_segment(prev, w.a, w.b) {
            prev
        } else {
            prev.push((w.a, w.b, w.id))
        }
    }
}

/// The doors set in wall `id`, in order.
pub open spec fn doors_on(ds: Seq<Door>, id: i64) -> Seq<Door>
    decreases ds.len(),
{
    if ds.len() == 0 {
        Seq::empty()
    } else if ds.last().wall_id == id {
        doors_on(ds.drop_last(), id).push(ds.last())
    } else {
        doors_on(ds.drop_last(), id)
    }
}

/// Node `k` is the `k`-th point of `pts`.
pub open spec fn index_map(pts: Seq<Point>) -> Map<i64, Point> {
    Map::new(|k: i64| 0 <= k < pts.len(), |k: i64| pts[k as int])
}

/// A wall of the room graph with the doors set in it.
#[derive(Clone, Debug)]
pub struct Edge {
    pub a: Point,
    pub b: Point,
    pub doors: Vec<Door>,
}

impl Edge {
    pub fn new(a: Point, b: Point, doors: Vec<Door>) -> (e: Edge)
        ensures
            e.a == a,
            e.b == b,
            e.doors@ == doors@,
    {
        Edge { a, b, doors }
    }
}

/// The walls of a room as a graph: one node per distinct end point, one edge
/// per distinct wall segment.
pub struct RoomGraph {
    pub nodes: HashMap<i64, Point>,
    pub edges: Vec<Edge>,
}

/// `edges` are the segments `es`, each with the doors of `ds` set in its wall.
pub open spec fn edges_match(edges: Seq<Edge>, es: Seq<(Point, Point, i64)>, ds: Seq<Door>) -> bool {
    &&& edges.len() == es.len()
    &&& forall|i: int|
        0 <= i < es.len() ==> {
            &&& (#[trigger] edges[i]).a == es[i].0
            &&& edges[i].b == es[i].1
            &&& edges[i].doors@ == doors_on(ds, es[i].2)
        }
}

/// The doors of `ds` set in wall `id`.
fn doors_in_wall(ds: &Vec<Door>, id: i64) -> (r: Vec<Door>)
    ensures
        r@ == doors_on(ds@, id),
{
    let mut r: Vec<Door> = Vec::new();
    for i in 0..ds.len()
        invariant
            r@ == doors_on(ds@.take(i as int), id),
    {
        assert(ds@.take(i + 1).drop_last() =~= ds@.take(i as int));
        if ds[i].wall_id == id {
            r.push(ds[i]);
        }
    }
    assert(ds@.take(ds@.len() as int) =~= ds@);
    r
}

/// Whether `pts` holds `p`.
fn holds_point(pts: &Vec<Point>, p: Point) -> (r: bool)
    ensures
        r == pts@.contains(p),
{
    for i in 0..pts.len()
        invariant
            forall|j: int| 0 <= j < i ==> pts@[j] != p,
    {
        if pts[i].same(&p) {
            assert(pts@[i as int] == p);
            return true;
        }
    }
    false
}

/// Whether `edges` holds the segment between `a` and `b`, in either direction.
fn holds_segment(
    edges: &Vec<Edge>,
    a: Point,
    b: Point,
    Ghost(es): Ghost<Seq<(Point, Point, i64)>>,
    Ghost(ds): Ghost<Seq<Door>>,
) -> (r: bool)
    requires
        edges_match(edges@, es, ds),
    ensures
        r == has_segment(es, a, b),
{
    for i in 0..edges.len()
        invariant
            edges_match(edges@, es, ds),
            forall|j: int|
                0 <= j < i ==> !((#[trigger] es[j].0 == a && es[j].1 == b) || (es[j].0 == b
                    && es[j].1 == a)),
    {
        let e = &edges[i];
        if (e.a.same(&a) && e.b.same(&b)) || (e.a.same(&b) && e.b.same(&a)) {
            assert(edges@[i as int] == *e);
            assert((es[i as int].0 == a && es[i as int].1 == b) || (es[i as int].0 == b
                && es[i as int].1 == a));
            return true;
        }
    }
    false
}

/// Adds `p` to the points and the node map unless it is there already.
fn record_point(pts: &mut Vec<Point>, nodes: &mut HashMap<i64, Point>, p: Point)
    requires
        old(nodes)@ == index_map(old(pts)@),
        old(pts)@.len() < i64::MAX,
    ensures
        final(pts)@ == add_point(old(pts)@, p),
        final(nodes)@ == index_map(final(pts)@),
{
    if !holds_point(pts, p) {
        let k = pts.len() as i64;
        nodes.insert(k, p);
        pts.push(p);
        assert(nodes@ =~= index_map(pts@));
    }
}

impl RoomGraph {
    pub fn new(nodes: HashMap<i64, Point>, edges: Vec<Edge>) -> (g: RoomGraph)
        ensures
            g.nodes@ == nodes@,
            g.edges@ == edges@,
    {
        RoomGraph { nodes, edges }
    }

    /// Builds the graph of the walls of `data`: node `k` is the `k`-th
    /// distinct wall end point (see `wall_points`), and there is one edge per
    /// distinct segment (see `wall_edges`), carrying the doors set in its wall.
    pub fn from_data(data: &Data) -> (g: RoomGraph)
        requires
            data.walls@.len() < 0x4000_0000_0000_0000,
        ensures
            g.nodes@ == index_map(wall_points(data.walls@)),
            edges_match(g.edges@, wall_edges(data.walls@), data.doors@),
    {
        let mut pts: Vec<Point> = Vec::new();
        let mut nodes: HashMap<i64, Point> = HashMap::new();
        let mut edges: Vec<Edge> = Vec::new();
        proof {
            assert(nodes@ =~= index_map(pts@));
        }
        for i in 0..data.walls.len()
            invariant
                data.walls@.len() < 0x4000_0000_0000_0000,
                pts@ == wall_points(data.walls@.take(i as int)),
                pts@.len() <= 2 * i,
                nodes@ == index_map(pts@),
                edges_match(edges@, wall_edges(data.walls@.take(i as int)), data.doors@),
        {
            let w = data.walls[i];
            let ghost prefix = data.walls@.take(i + 1);
            assert(prefix.drop_last() =~= data.walls@.take(i as int));
            assert(prefix.last() == w);
            record_point(&mut pts, &mut nodes, w.a);
            record_point(&mut pts, &mut nodes, w.b);
            if !holds_segment(
                &edges,
                w.a,
                w.b,
                Ghost(wall_edges(data.walls@.take(i as int))),
                Ghost(data.doors@),
            ) {
                let doors = doors_in_wall(&data.doors, w.id);
                let ghost before = edges@;
                edges.push(Edge::new(w.a, w.b, doors));
                proof {
                    let es = wall_edges(prefix);
                    assert forall|j: int| 0 <= j < es.len() implies {
                        &&& (#[trigger] edges@[j]).a == es[j].0
                        &&& edges@[j].b == es[j].1
                        &&& edges@[j].doors@ == doors_on(data.doors@, es[j].2)
                    } by {
                        if j < before.len() {
                            assert(edges@[j] == before[j]);
                        }
                    }
                }
            }
        }
        assert(data.walls@.take(data.walls@.len() as int) =~= data.walls@);
        RoomGraph { nodes, edges }
    }
}

/// Whether no point occurs twice in `s`.
pub open spec fn distinct_points(s: Seq<Point>) -> bool {
    forall|i: int, j: int| 0 <= i < j < s.len() ==> s[i] != s[j]
}

/// Whether `p` is an end point of one of the walls.
pub open spec fn is_wall_end(ws: Seq<Wall>, p: Point) -> bool {
    exists|i: int| 0 <= i < ws.len() && (#[trigger] ws[i].a == p || ws[i].b == p)
}

proof fn lemma_add_point(s: Seq<Point>, p: Point)
    requires
        distinct_points(s),
    ensures
        distinct_points(add_point(s, p)),
        forall|q: Point| add_point(s, p).contains(q) <==> (s.contains(q) || q == p),
{
    if !s.contains(p) {
        let t = s.push(p);
        assert forall|q: Point| t.contains(q) <==> (s.contains(q) || q == p) by {
            if t.contains(q) {
                let w = choose|w: int| 0 <= w < t.len() && t[w] == q;
                if w < s.len() {
                    assert(s[w] == q);
                }
            }
            if s.contains(q) {
                let w = choose|w: int| 0 <= w < s.len() && s[w] == q;
                assert(t[w] == q);
            }
            if q == p {
                assert(t[s.len() as int] == q);
            }
        }
        assert forall|i: int, j: int| 0 <= i < j < t.len() implies t[i] != t[j] by {
            if j == s.len() {
                assert(t[i] == s[i]);
                assert(s.contains(s[i]));
            } else {
                assert(t[i] == s[i] && t[j] == s[j]);
            }
        }
    }
}

/// The nodes of the room graph are the wall end points, each exactly once.
pub proof fn wall_points_are_the_distinct_ends(ws: Seq<Wall>)
    ensures
        distinct_points(wall_points(ws)),
        forall|p: Point| wall_points(ws).contains(p) <==> is_wall_end(ws, p),
    decreases ws.len(),
{
    if ws.len() > 0 {
        let d = ws.drop_last();
        wall_points_are_the_distinct_ends(d);
        let w = ws.last();
        let s1 = add_point(wall_points(d), w.a);
        lemma_add_point(wall_points(d), w.a);
        lemma_add_point(s1, w.b);
        assert forall|p: Point| wall_points(ws).contains(p) <==> is_wall_end(ws, p) by {
            lemma_wall_end_split(ws, p);
        }
    }
}

proof fn lemma_wall_end_split(ws: Seq<Wall>, p: Point)
    requires
        ws.len() > 0,
    ensures
        is_wall_end(ws, p) <==> (is_wall_end(ws.drop_last(), p) || p == ws.last().a || p
            == ws.last().b),
{
    let d = ws.drop_last();
    if is_wall_end(d, p) {
        let i = choose|i: int| 0 <= i < d.len() && (#[trigger] d[i].a == p || d[i].b == p);
        assert(ws[i] == d[i]);
        assert(ws[i].a == p || ws[i].b == p);
    }
    if p == ws.last().a || p == ws.last().b {
        let i = ws.len() - 1;
        assert(ws[i].a == p || ws[i].b == p);
    }
    if is_wall_end(ws, p) {
        let i = choose|i: int| 0 <= i < ws.len() && (#[trigger] ws[i].a == p || ws[i].b == p);
        if i < d.len() {
            assert(d[i] == ws[i]);
            assert(d[i].a == p || d[i].b == p);
        }
    }
}

/// Every wall's segment is an edge of the room graph, in one direction or
/// the other.
pub proof fn every_wall_has_an_edge(ws: Seq<Wall>)
    ensures
        forall|i: int| 0 <= i < ws.len() ==> has_segment(wall_edges(ws), #[trigger] ws[i].a, ws[i].b),
    decreases ws.len(),
{
    if ws.len() > 0 {
        let d = ws.drop_last();
        every_wall_has_an_edge(d);
        let prev = wall_edges(d);
        let w = ws.last();
        let es = wall_edges(ws);
        assert forall|i: int| 0 <= i < ws.len() implies has_segment(es, #[trigger] ws[i].a, ws[i].b) by {
            if i < d.len() {
                assert(ws[i] == d[i]);
                assert(has_segment(prev, d[i].a, d[i].b));
                let k = choose|k: int|
                    0 <= k < prev.len() && ((#[trigger] prev[k].0 == d[i].a && prev[k].1 == d[i].b)
                        || (prev[k].0 == d[i].b && prev[k].1 == d[i].a));
                assert(es[k] == prev[k]);
                assert(es[k].0 == prev[k].0);
            } else {
                assert(ws[i] == w);
                if !has_segment(prev, w.a, w.b) {
                    assert(es[prev.len() as int] == (w.a, w.b, w.id));
                    assert(es[prev.len() as int].0 == w.a);
                }
            }
        }
    }
}

/// No segment is an edge of the room graph twice, in either direction.
pub proof fn edges_are_distinct_segments(ws: Seq<Wall>)
    ensures
        forall|i: int, j: int|
            0 <= i < j < wall_edges(ws).len() ==> !((#[trigger] wall_edges(ws)[i].0 == #[trigger] wall_edges(ws)[j].0
                && wall_edges(ws)[i].1 == wall_edges(ws)[j].1) || (wall_edges(ws)[i].0 == wall_edges(ws)[j].1
                && wall_edges(ws)[i].1 == wall_edges(ws)[j].0)),
    decreases ws.len(),
{
    if ws.len() > 0 {
        let d = ws.drop_last();
        edges_are_distinct_segments(d);
        let prev = wall_edges(d);
        let w = ws.last();
        let es = wall_edges(ws);
        if !has_segment(prev, w.a, w.b) {
            assert forall|i: int, j: int| 0 <= i < j < es.len() implies !((#[trigger] es[i].0 == #[trigger] es[j].0
                && es[i].1 == es[j].1) || (es[i].0 == es[j].1 && es[i].1 == es[j].0)) by {
                assert(es[i] == prev[i]);
                if j < prev.len() {
                    assert(es[j] == prev[j]);
                } else {
                    assert(es[j] == (w.a, w.b, w.id));
                    if (es[i].0 == es[j].0 && es[i].1 == es[j].1) || (es[i].0 == es[j].1 && es[i].1 == es[j].0) {
                        assert(has_segment(prev, w.a, w.b));
                    }
                }
            }
        }
    }
}

/// The doors that an edge carries are all the doors set in its wall, in the
/// order of the room data: exactly the doors whose wall id is the edge's.
pub proof fn edge_doors_are_all_wall_doors(ds: Seq<Door>, id: i64)
    ensures
        doors_on(ds, id) == ds.filter(|d: Door| d.wall_id == id),
        doors_on(ds, id).len() == ds.filter(|d: Door| d.wall_id == id).len(),
        forall|d: Door| doors_on(ds, id).contains(d) <==> ds.contains(d) && d.wall_id == id,
    decreases ds.len(),
{
    reveal_with_fuel(Seq::filter, 1);
    broadcast use vstd::seq_lib::group_filter_ensures;
    if ds.len() > 0 {
        edge_doors_are_all_wall_doors(ds.drop_last(), id);
        assert(ds.drop_last().filter(|d: Door| d.wall_id == id) == doors_on(ds.drop_last(), id));
    }
    let pred = |d: Door| d.wall_id == id;
    assert(doors_on(ds, id) =~= ds.filter(pred));
    if ds.len() > 0 {
        let init = ds.drop_last();
        assert(ds == init.push(ds.last()));
        assert forall|d: Door| doors_on(ds, id).contains(d) <==> ds.contains(d) && d.wall_id == id by {
            if ds.contains(d) {
                let k = choose|k: int| 0 <= k < ds.len() && ds[k] == d;
                if k < ds.len() - 1 {
                    assert(init[k] == d);
                }
            }
            if init.contains(d) {
                let k = choose|k: int| 0 <= k < init.len() && init[k] == d;
                assert(ds[k] == d);
            }
            if doors_on(ds, id).contains(d) && ds.last().wall_id == id {
                let k = choose|k: int| 0 <= k < doors_on(ds, id).len() && doors_on(ds, id)[k] == d;
                if k < doors_on(init, id).len() {
                    assert(doors_on(init, id)[k] == d);
                }
            }
            if doors_on(init, id).contains(d) && ds.last().wall_id == id {
                let k = choose|k: int| 0 <= k < doors_on(init, id).len() && doors_on(init, id)[k] == d;
                assert(doors_on(ds, id)[k] == d);
            }
            if ds.last().wall_id == id {
                assert(doors_on(ds, id)[doors_on(ds, id).len() - 1] == ds.last());
            }
        }
    }
}

} // verus!
