use vstd::prelude::*;

use crate::funnel::{flat_when_degenerate, funnel_through, turns, Sign};
use crate::geometry::Point;

verus! {

/// Whether both ends of edge `i` of polygon `from` (vertex `i` and the next
/// one, the last vertex joining the first) are vertices of polygon `to`.
pub open spec fn edge_shared(from: Seq<Point>, to: Seq<Point>, i: int) -> bool {
    to.contains(from[i]) && to.contains(from[(i + 1) % (from.len() as int)])
}

/// The first edge of `from`, from edge `i` on, whose two ends are vertices of
/// `to`, as the pair of those ends; `None` when there is none.
pub open spec fn shared_from(from: Seq<Point>, to: Seq<Point>, i: int) -> Option<(Point, Point)>
    decreases from.len() - i,
{
    if i < 0 || i >= from.len() {
        None
    } else if edge_shared(from, to, i) {
        Some((from[i], from[(i + 1) % (from.len() as int)]))
    } else {
        shared_from(from, to, i + 1)
    }
}

fn contains_point(vs: &Vec<Point>, p: Point) -> (r: bool)
    ensures
        r == vs@.contains(p),
{
    let mut k: usize = 0;
    while k < vs.len()
        invariant
            k <= vs@.len(),
            forall|m: int| 0 <= m < k ==> vs@[m] != p,
        decreases vs@.len() - k,
    {
        if vs[k].same(&p) {
            return true;
        }
        k = k + 1;
    }
    false
}

/// The edge that polygon `from` shares with polygon `to`: the first edge of
/// `from` both of whose ends are vertices of `to`.
pub fn shared_edge(from: &Vec<Point>, to: &Vec<Point>) -> (r: Option<(Point, Point)>)
    ensures
        r == shared_from(from@, to@, 0),
{
    let n = from.len();
    let mut i: usize = 0;
    while i < n
        invariant
            n == from@.len(),
            i <= n,
            shared_from(from@, to@, 0) == shared_from(from@, to@, i as int),
        decreases n - i,
    {
        let a = from[i];
        let b = from[(i + 1) % n];
        if contains_point(to, a) && contains_point(to, b) {
            return Some((a, b));
        }
        i = i + 1;
    }
    None
}

/// The portal that leads from polygon `from` into polygon `to`, whose centroid is
/// `c`: the shared edge, left end first, or the centroid taken as a point portal
/// when the two polygons share no edge.
pub open spec fn portal(from: Seq<Point>, to: Seq<Point>, c: Point) -> (Point, Point) {
    match shared_from(from, to, 0) {
        Some((right, left)) => (left, right),
        None => (c, c),
    }
}

/// The portals crossed by a path through the polygons `path`: a point portal at
/// the start, one portal between each two consecutive polygons of the path, and
/// a point portal at the goal.
pub open spec fn portals_of(
    path: Seq<usize>,
    polys: Seq<Seq<Point>>,
    centroids: Seq<Point>,
    start: Point,
    goal: Point,
) -> Seq<(Point, Point)> {
    seq![(start, start)] + Seq::new(
        (if path.len() == 0 { 0 } else { path.len() - 1 }) as nat,
        |k: int|
            portal(
                polys[path[k] as int],
                polys[path[k + 1] as int],
                centroids[path[k + 1] as int],
            ),
    ) + seq![(goal, goal)]
}

/// Builds the portals that the funnel walks along a path of polygons; see
/// `portals_of`.
pub fn build_portals(
    path: &Vec<usize>,
    polys: &Vec<Vec<Point>>,
    centroids: &Vec<Point>,
    start: Point,
    goal: Point,
) -> (r: Vec<(Point, Point)>)
    requires
        centroids@.len() == polys@.len(),
        forall|k: int| 0 <= k < path@.len() ==> #[trigger] path@[k] < polys@.len(),
    ensures
        r@ == portals_of(path@, Seq::new(polys@.len(), |i: int| polys@[i]@), centroids@, start, goal),
{
    let ghost pv = Seq::new(polys@.len(), |i: int| polys@[i]@);
    let ghost mid = Seq::new(
        (if path@.len() == 0 { 0 } else { path@.len() - 1 }) as nat,
        |k: int|
            portal(pv[path@[k] as int], pv[path@[k + 1] as int], centroids@[path@[k + 1] as int]),
    );
    let mut r: Vec<(Point, Point)> = Vec::new();
    r.push((start, start));
    let m = path.len();
    let steps = if m == 0 {
        0
    } else {
        m - 1
    };
    for k in 0..steps
        invariant
            m == path@.len(),
            steps == mid.len(),
            centroids@.len() == polys@.len(),
            forall|q: int| 0 <= q < path@.len() ==> #[trigger] path@[q] < polys@.len(),
            pv == Seq::new(polys@.len(), |i: int| polys@[i]@),
            mid == Seq::new(
                (if path@.len() == 0 { 0 } else { path@.len() - 1 }) as nat,
                |q: int|
                    portal(pv[path@[q] as int], pv[path@[q + 1] as int], centroids@[path@[q + 1] as int]),
            ),
            r@ == seq![(start, start)] + mid.take(k as int),
    {
        let from = path[k];
        let to = path[k + 1];
        let e = match shared_edge(&polys[from], &polys[to]) {
            Some((right, left)) => (left, right),
            None => (centroids[to], centroids[to]),
        };
        r.push(e);
        assert(r@ =~= seq![(start, start)] + mid.take(k + 1));
    }
    r.push((goal, goal));
    assert(mid.take(steps as int) =~= mid);
    assert(r@ =~= seq![(start, start)] + mid + seq![(goal, goal)]);
    r
}

/// The path of nodes that the back-pointers `prev` lead along to `cur`, from
/// the node with no back-pointer to `cur`, following at most `fuel` of them;
/// `None` when that is not enough (the pointers then go round in a cycle when
/// `fuel` is the number of nodes).
pub open spec fn walk_back(prev: Seq<Option<usize>>, cur: usize, fuel: nat) -> Option<Seq<usize>>
    decreases fuel,
{
    match prev[cur as int] {
        None => Some(seq![cur]),
        Some(p) => if fuel == 0 {
            None
        } else {
            match walk_back(prev, p, (fuel - 1) as nat) {
                Some(s) => Some(s.push(cur)),
                None => None,
            }
        },
    }
}

/// `r` with `tail` appended to the path it holds, if any.
pub open spec fn then_path(r: Option<Seq<usize>>, tail: Seq<usize>) -> Option<Seq<usize>> {
    match r {
        Some(s) => Some(s + tail),
        None => None,
    }
}

/// The path the search found to `goal`: the nodes from the start (the node
/// with no back-pointer) to `goal`, by the back-pointers `prev`; see
/// `walk_back`. `None` only when the back-pointers from `goal` go round in a
/// cycle.
pub fn path_to(prev: &Vec<Option<usize>>, goal: usize) -> (r: Option<Vec<usize>>)
    requires
        goal < prev@.len(),
        forall|i: int| 0 <= i < prev@.len() ==> (#[trigger] prev@[i] matches Some(p) ==> p < prev@.len()),
    ensures
        match r {
            Some(v) => walk_back(prev@, goal, prev@.len()) == Some(v@),
            None => walk_back(prev@, goal, prev@.len()) is None,
        },
{
    let n = prev.len();
    let mut back: Vec<usize> = Vec::new();
    let mut cur = goal;
    let mut fuel = n;
    assert(back@.reverse() =~= Seq::<usize>::empty());
    loop
        invariant
            n == prev@.len(),
            cur < n,
            fuel <= n,
            forall|i: int| 0 <= i < prev@.len() ==> (#[trigger] prev@[i] matches Some(p) ==> p < prev@.len()),
            walk_back(prev@, goal, n as nat) == then_path(walk_back(prev@, cur, fuel as nat), back@.reverse()),
        decreases fuel,
    {
        let ghost old_back = back@;
        back.push(cur);
        assert(back@.reverse() =~= seq![cur] + old_back.reverse());
        match prev[cur] {
            None => {
                let mut out: Vec<usize> = Vec::new();
                let mut k = back.len();
                while k > 0
                    invariant
                        k <= back@.len(),
                        out@ == back@.reverse().take((back@.len() - k) as int),
                    decreases k,
                {
                    k = k - 1;
                    out.push(back[k]);
                    assert(out@ =~= back@.reverse().take((back@.len() - k) as int));
                }
                assert(back@.reverse().take(back@.len() as int) =~= back@.reverse());
                assert(seq![cur] + old_back.reverse() =~= back@.reverse());
                return Some(out);
            },
            Some(p) => {
                if fuel == 0 {
                    return None;
                }
                proof {
                    let w = walk_back(prev@, p, (fuel - 1) as nat);
                    match w {
                        Some(s) => {
                            assert(s.push(cur) + old_back.reverse() =~= s + back@.reverse());
                        },
                        None => {},
                    }
                }
                cur = p;
                fuel = fuel - 1;
            },
        }
    }
}

/// A node of the navigation graph: the centroid of a polygon of the mesh.
#[derive(Clone, Copy, Debug, PartialEq, Eq, Structural)]
pub struct NavNode {
    pub centroid: Point,
}

/// An edge of the navigation graph, to node `to`, with a cost (an `f32`
/// bit pattern: the distance between the two centroids).
#[derive(Clone, Copy, Debug, PartialEq, Eq, Structural)]
pub struct NavEdge {
    pub to: usize,
    pub cost: u32,
}

/// The navigation graph: one node per polygon of the navigation mesh, and the
/// edges leaving each node.
pub struct NavGraph {
    pub nodes: Vec<NavNode>,
    pub edges: Vec<Vec<NavEdge>>,
    pub polygons: Vec<Vec<Point>>,
}

/// The segments from each node to the nodes its edges lead to, node after
/// node, as pairs of centroids.
pub open spec fn edge_points(nodes: Seq<NavNode>, edges: Seq<Vec<NavEdge>>) -> Seq<(Point, Point)>
    decreases edges.len(),
{
    if edges.len() == 0 {
        Seq::empty()
    } else {
        let i = edges.len() - 1;
        edge_points(nodes, edges.drop_last()) + Seq::new(
            edges[i]@.len(),
            |k: int| (nodes[i].centroid, nodes[edges[i]@[k].to as int].centroid),
        )
    }
}

/// The vertex lists of the polygons.
pub open spec fn polygon_views(polys: Seq<Vec<Point>>) -> Seq<Seq<Point>> {
    Seq::new(polys.len(), |i: int| polys[i]@)
}

impl NavGraph {
    /// Whether every edge leads to a node, and there is one polygon and one
    /// edge list per node.
    pub open spec fn wf(&self) -> bool {
        &&& self.polygons@.len() == self.nodes@.len()
        &&& self.edges@.len() == self.nodes@.len()
        &&& forall|i: int, k: int|
            0 <= i < self.edges@.len() && 0 <= k < self.edges@[i]@.len() ==> #[trigger] self.edges@[i]@[k].to
                < self.nodes@.len()
    }

    pub fn new(nodes: Vec<NavNode>, edges: Vec<Vec<NavEdge>>, polygons: Vec<Vec<Point>>) -> (g: NavGraph)
        ensures
            g.nodes@ == nodes@,
            g.edges@ == edges@,
            g.polygons@ == polygons@,
    {
        NavGraph { nodes, edges, polygons }
    }

    /// The centroid of every node, in order.
    pub fn get_node_positions(&self) -> (r: Vec<Point>)
        ensures
            r@ == self.nodes@.map_values(|n: NavNode| n.centroid),
    {
        let mut r: Vec<Point> = Vec::new();
        for i in 0..self.nodes.len()
            invariant
                r@ == self.nodes@.take(i as int).map_values(|n: NavNode| n.centroid),
        {
            r.push(self.nodes[i].centroid);
            assert(r@ =~= self.nodes@.take(i + 1).map_values(|n: NavNode| n.centroid));
        }
        assert(self.nodes@.take(self.nodes@.len() as int) =~= self.nodes@);
        r
    }

    /// The vertices of every polygon of the mesh.
    pub fn polygon_vertices(&self) -> (r: Vec<Vec<Point>>)
        ensures
            r@.len() == self.polygons@.len(),
            forall|i: int| 0 <= i < r@.len() ==> (#[trigger] r@[i])@ == self.polygons@[i]@,
    {
        let mut r: Vec<Vec<Point>> = Vec::new();
        for i in 0..self.polygons.len()
            invariant
                r@.len() == i,
                forall|q: int| 0 <= q < i ==> (#[trigger] r@[q])@ == self.polygons@[q]@,
        {
            let mut vs: Vec<Point> = Vec::new();
            let poly = &self.polygons[i];
            for j in 0..poly.len()
                invariant
                    vs@ == poly@.take(j as int),
            {
                vs.push(poly[j]);
                assert(vs@ =~= poly@.take(j + 1));
            }
            assert(poly@.take(poly@.len() as int) =~= poly@);
            r.push(vs);
        }
        r
    }

    /// Every edge as the segment between the centroids of its two nodes; see
    /// `edge_points`.
    pub fn edges_as_points(&self) -> (r: Vec<(Point, Point)>)
        requires
            self.wf(),
        ensures
            r@ == edge_points(self.nodes@, self.edges@),
    {
        let mut r: Vec<(Point, Point)> = Vec::new();
        for i in 0..self.edges.len()
            invariant
                self.wf(),
                r@ == edge_points(self.nodes@, self.edges@.take(i as int)),
        {
            let a = self.nodes[i].centroid;
            let es = &self.edges[i];
            let ghost base = r@;
            let ghost row = Seq::new(
                es@.len(),
                |k: int| (self.nodes@[i as int].centroid, self.nodes@[es@[k].to as int].centroid),
            );
            for k in 0..es.len()
                invariant
                    self.wf(),
                    i < self.edges@.len(),
                    *es == self.edges@[i as int],
                    a == self.nodes@[i as int].centroid,
                    row == Seq::new(
                        es@.len(),
                        |q: int| (self.nodes@[i as int].centroid, self.nodes@[es@[q].to as int].centroid),
                    ),
                    r@ == base + row.take(k as int),
            {
                assert(es@[k as int].to < self.nodes@.len());
                let b = self.nodes[es[k].to].centroid;
                r.push((a, b));
                assert(r@ =~= base + row.take(k + 1));
            }
            assert(row.take(es@.len() as int) =~= row);
            assert(self.edges@.take(i + 1).drop_last() =~= self.edges@.take(i as int));
        }
        assert(self.edges@.take(self.edges@.len() as int) =~= self.edges@);
        r
    }

    /// The edge that polygon `from_idx` shares with polygon `to_idx`; see
    /// `shared_edge`.
    pub fn shared_edge(&self, from_idx: usize, to_idx: usize) -> (r: Option<(Point, Point)>)
        requires
            from_idx < self.polygons@.len(),
            to_idx < self.polygons@.len(),
        ensures
            r == shared_from(self.polygons@[from_idx as int]@, self.polygons@[to_idx as int]@, 0),
    {
        shared_edge(&self.polygons[from_idx], &self.polygons[to_idx])
    }

    /// The portals crossed along the path of nodes `path` from `start` to
    /// `goal`; see `portals_of`.
    pub open spec fn path_portals(&self, path: Seq<usize>, start: Point, goal: Point) -> Seq<(Point, Point)> {
        portals_of(
            path,
            polygon_views(self.polygons@),
            self.nodes@.map_values(|n: NavNode| n.centroid),
            start,
            goal,
        )
    }

    /// Straightens the path of nodes `path` into the points where it turns,
    /// from `start` to `goal`, by the funnel over its portals; `orient` is the
    /// orientation test of three points. A path of fewer than two nodes goes
    /// straight from `start` to `goal`.
    pub fn funnel<F: Fn(Point, Point, Point) -> Sign>(
        &self,
        path: &Vec<usize>,
        start: Point,
        goal: Point,
        orient: F,
    ) -> (r: Vec<Point>)
        requires
            self.wf(),
            forall|k: int| 0 <= k < path@.len() ==> #[trigger] path@[k] < self.nodes@.len(),
            forall|a: Point, b: Point, c: Point| orient.requires((a, b, c)),
            path@.len() >= 2 ==> flat_when_degenerate(self.path_portals(path@, start, goal), orient),
        ensures
            path@.len() < 2 ==> r@ == seq![start, goal],
            path@.len() >= 2 ==> exists|idx: Seq<int>| turns(self.path_portals(path@, start, goal), r@, idx),
    {
        if path.len() < 2 {
            return vec![start, goal];
        }
        let ps = self.portals(path, start, goal);
        funnel_through(&ps, orient)
    }

    /// The portals the funnel walks along the path of nodes `path`; see
    /// `portals_of`.
    pub fn portals(&self, path: &Vec<usize>, start: Point, goal: Point) -> (r: Vec<(Point, Point)>)
        requires
            self.wf(),
            forall|k: int| 0 <= k < path@.len() ==> #[trigger] path@[k] < self.nodes@.len(),
        ensures
            r@ == portals_of(
                path@,
                polygon_views(self.polygons@),
                self.nodes@.map_values(|n: NavNode| n.centroid),
                start,
                goal,
            ),
    {
        let centroids = self.get_node_positions();
        let r = build_portals(path, &self.polygons, &centroids, start, goal);
        assert(Seq::new(self.polygons@.len(), |i: int| self.polygons@[i]@) =~= polygon_views(
            self.polygons@,
        ));
        r
    }
}

} // verus!
