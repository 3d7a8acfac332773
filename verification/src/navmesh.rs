use vstd::prelude::*;

use crate::geometry::{point_lt, Point, Polygon};

verus! {

/// The key under which an edge is grouped: its two end points, the lesser first.
pub open spec fn edge_key(a: Point, b: Point) -> (Point, Point) {
    if point_lt(a, b) {
        (a, b)
    } else {
        (b, a)
    }
}

/// An edge gets the same key from either direction, unless its two ends are
/// different points that the order of ordered floats cannot tell apart (such
/// as two points differing only in the sign of a zero coordinate).
pub proof fn edge_key_is_symmetric(a: Point, b: Point)
    requires
        a == b || point_lt(a, b) || point_lt(b, a),
    ensures
        edge_key(a, b) == edge_key(b, a),
{
}

/// The edges of polygon `i`, whose vertices are `vs`: edge `j` joins vertex `j`
/// to the next one, the last vertex joining the first. Each edge is given by its
/// key and its owner `i`.
pub open spec fn polygon_edges(vs: Seq<Point>, i: usize) -> Seq<((Point, Point), usize)> {
    Seq::new(vs.len(), |j: int| (edge_key(vs[j], vs[(j + 1) % (vs.len() as int)]), i))
}

/// The edges of all polygons, polygon by polygon.
pub open spec fn edge_occurrences(polys: Seq<Seq<Point>>) -> Seq<((Point, Point), usize)>
    decreases polys.len(),
{
    if polys.len() == 0 {
        Seq::empty()
    } else {
        edge_occurrences(polys.drop_last()) + polygon_edges(polys.last(), (polys.len() - 1) as usize)
    }
}

/// The owners of the edges keyed `k`, in order of occurrence.
pub open spec fn owners_of(occ: Seq<((Point, Point), usize)>, k: (Point, Point)) -> Seq<usize>
    decreases occ.len(),
{
    if occ.len() == 0 {
        Seq::empty()
    } else {
        let rest = owners_of(occ.drop_last(), k);
        if occ.last().0 == k {
            rest.push(occ.last().1)
        } else {
            rest
        }
    }
}

/// The keys that occur, each once, in order of first occurrence.
pub open spec fn distinct_keys(occ: Seq<((Point, Point), usize)>) -> Seq<(Point, Point)>
    decreases occ.len(),
{
    if occ.len() == 0 {
        Seq::empty()
    } else {
        let rest = distinct_keys(occ.drop_last());
        if rest.contains(occ.last().0) {
            rest
        } else {
            rest.push(occ.last().0)
        }
    }
}

/// Links the two owners of an edge that exactly two polygons own: each becomes a
/// neighbour of the other. An edge with any other number of owners links nothing.
pub open spec fn link(adj: Seq<Seq<usize>>, own: Seq<usize>) -> Seq<Seq<usize>> {
    if own.len() == 2 {
        let first = adj.update(own[0] as int, adj[own[0] as int].push(own[1]));
        first.update(own[1] as int, first[own[1] as int].push(own[0]))
    } else {
        adj
    }
}

/// The neighbour lists of `n` polygons after linking the owners of the keys
/// `keys`, in order.
pub open spec fn adjacency_of(
    occ: Seq<((Point, Point), usize)>,
    keys: Seq<(Point, Point)>,
    n: nat,
) -> Seq<Seq<usize>>
    decreases keys.len(),
{
    if keys.len() == 0 {
        Seq::new(n, |i: int| Seq::<usize>::empty())
    } else {
        link(adjacency_of(occ, keys.drop_last(), n), owners_of(occ, keys.last()))
    }
}

/// The vertex lists of the polygons.
pub open spec fn vertex_lists(ps: Seq<Polygon>) -> Seq<Seq<Point>> {
    Seq::new(ps.len(), |i: int| ps[i].vertices@)
}

/// The neighbour lists of the polygons: two polygons are neighbours once for
/// every edge (taken without direction) that the two of them, and no other
/// polygon, own.
pub open spec fn navmesh_adjacency(polys: Seq<Seq<Point>>) -> Seq<Seq<usize>> {
    let occ = edge_occurrences(polys);
    adjacency_of(occ, distinct_keys(occ), polys.len())
}

proof fn lemma_occurrences_step(polys: Seq<Seq<Point>>, i: int)
    requires
        0 <= i < polys.len(),
    ensures
        edge_occurrences(polys.take(i + 1)) == edge_occurrences(polys.take(i)) + polygon_edges(
            polys[i],
            i as usize,
        ),
{
    assert(polys.take(i + 1).drop_last() =~= polys.take(i));
}

proof fn lemma_owners_bounded(occ: Seq<((Point, Point), usize)>, k: (Point, Point), n: nat)
    requires
        forall|m: int| 0 <= m < occ.len() ==> (#[trigger] occ[m]).1 < n,
    ensures
        forall|m: int| 0 <= m < owners_of(occ, k).len() ==> #[trigger] owners_of(occ, k)[m] < n,
    decreases occ.len(),
{
    if occ.len() > 0 {
        let d = occ.drop_last();
        assert forall|m: int| 0 <= m < d.len() implies (#[trigger] d[m]).1 < n by {
            assert(d[m] == occ[m]);
        }
        lemma_owners_bounded(d, k, n);
        let r = owners_of(d, k);
        assert(occ.last() == occ[occ.len() - 1]);
        assert forall|m: int| 0 <= m < owners_of(occ, k).len() implies #[trigger] owners_of(occ, k)[m] < n by {
            if occ.last().0 == k {
                if m < r.len() {
                    assert(owners_of(occ, k)[m] == r[m]);
                } else {
                    assert(owners_of(occ, k)[m] == occ.last().1);
                }
            }
        }
    }
}

proof fn lemma_occurrences_bounded(polys: Seq<Seq<Point>>)
    ensures
        forall|m: int|
            0 <= m < edge_occurrences(polys).len() ==> (#[trigger] edge_occurrences(polys)[m]).1
                < polys.len(),
    decreases polys.len(),
{
    if polys.len() > 0 {
        let d = polys.drop_last();
        lemma_occurrences_bounded(d);
        let a = edge_occurrences(d);
        let b = polygon_edges(polys.last(), (polys.len() - 1) as usize);
        assert forall|m: int|
            0 <= m < edge_occurrences(polys).len() implies (#[trigger] edge_occurrences(
            polys,
        )[m]).1 < polys.len() by {
            if m < a.len() {
                assert(edge_occurrences(polys)[m] == a[m]);
            } else {
                assert(edge_occurrences(polys)[m] == b[m - a.len()]);
            }
        }
    }
}

/// Finds the position of `k` among `keys`, or `keys.len()` when it is absent.
fn find_key(keys: &Vec<(Point, Point)>, k: (Point, Point)) -> (t: usize)
    ensures
        t <= keys@.len(),
        t < keys@.len() ==> keys@[t as int] == k,
        t == keys@.len() ==> !keys@.contains(k),
{
    let mut t: usize = 0;
    while t < keys.len()
        invariant
            t <= keys@.len(),
            forall|m: int| 0 <= m < t ==> keys@[m] != k,
        decreases keys@.len() - t,
    {
        let c = keys[t];
        if c.0.same(&k.0) && c.1.same(&k.1) {
            return t;
        }
        t = t + 1;
    }
    t
}

/// The neighbour lists of the polygons of a navigation mesh; see
/// `navmesh_adjacency`. Edges are matched by the bit patterns of their end
/// points, regardless of direction.
pub fn adjacency_from_polygons(polygons: &Vec<Polygon>) -> (adj: Vec<Vec<usize>>)
    ensures
        adj@.len() == polygons@.len(),
        forall|i: int|
            0 <= i < adj@.len() ==> (#[trigger] adj@[i])@ == navmesh_adjacency(
                vertex_lists(polygons@),
            )[i],
{
    let ghost vl = vertex_lists(polygons@);
    let n = polygons.len();
    let mut keys: Vec<(Point, Point)> = Vec::new();
    let mut owners: Vec<Vec<usize>> = Vec::new();
    for i in 0..n
        invariant
            n == polygons@.len(),
            vl == vertex_lists(polygons@),
            keys@ == distinct_keys(edge_occurrences(vl.take(i as int))),
            owners@.len() == keys@.len(),
            forall|t: int|
                0 <= t < keys@.len() ==> (#[trigger] owners@[t])@ == owners_of(
                    edge_occurrences(vl.take(i as int)),
                    keys@[t],
                ),
    {
        let verts = &polygons[i].vertices;
        let m = verts.len();
        let ghost base = edge_occurrences(vl.take(i as int));
        let ghost pe = polygon_edges(vl[i as int], i);
        assert(verts@ == vl[i as int]);
        for j in 0..m
            invariant
                n == polygons@.len(),
                vl == vertex_lists(polygons@),
                i < n,
                m == verts@.len(),
                verts@ == vl[i as int],
                base == edge_occurrences(vl.take(i as int)),
                pe == polygon_edges(vl[i as int], i),
                keys@ == distinct_keys(base + pe.take(j as int)),
                owners@.len() == keys@.len(),
                forall|t: int|
                    0 <= t < keys@.len() ==> (#[trigger] owners@[t])@ == owners_of(
                        base + pe.take(j as int),
                        keys@[t],
                    ),
        {
            let a = verts[j];
            let b = verts[(j + 1) % m];
            let k = if a.less_than(&b) {
                (a, b)
            } else {
                (b, a)
            };
            let ghost before = base + pe.take(j as int);
            let ghost after = base + pe.take(j + 1);
            assert(after =~= before.push((k, i)));
            assert(after.drop_last() =~= before);
            let t = find_key(&keys, k);
            let ghost old_keys = keys@;
            let ghost old_owners = owners@;
            if t < keys.len() {
                owners[t].push(i);
                proof {
                    lemma_distinct_keys_unique(before);
                    assert(after.last() == (k, i));
                    assert(owners@[t as int]@ == old_owners[t as int]@.push(i));
                    assert forall|u: int| 0 <= u < keys@.len() implies (#[trigger] owners@[u])@
                        == owners_of(after, keys@[u]) by {
                        if u != t {
                            assert(owners@[u] == old_owners[u]);
                            assert(keys@[u] != keys@[t as int]);
                        }
                    }
                }
            } else {
                keys.push(k);
                let mut fresh: Vec<usize> = Vec::new();
                fresh.push(i);
                owners.push(fresh);
                proof {
                    assert forall|u: int| 0 <= u < keys@.len() implies (#[trigger] owners@[u])@
                        == owners_of(after, keys@[u]) by {
                        if u < old_keys.len() {
                            assert(owners@[u] == old_owners[u]);
                            assert(keys@[u] == old_keys[u]);
                            assert(keys@[u] != k) by {
                                assert(old_keys.contains(old_keys[u]));
                            }
                        } else {
                            assert(keys@[u] == k);
                            assert(owners_of(before, k) =~= Seq::<usize>::empty()) by {
                                lemma_owners_absent(before, k);
                            }
                        }
                    }
                }
            }
        }
        proof {
            assert(pe.take(m as int) =~= pe);
            lemma_occurrences_step(vl, i as int);
        }
    }
    assert(vl.take(n as int) =~= vl);
    let ghost occ = edge_occurrences(vl);
    let ghost dk = distinct_keys(occ);
    proof {
        lemma_occurrences_bounded(vl);
    }
    let mut adj: Vec<Vec<usize>> = Vec::new();
    for i in 0..n
        invariant
            adj@.len() == i,
            forall|u: int| 0 <= u < i ==> (#[trigger] adj@[u])@ == Seq::<usize>::empty(),
    {
        adj.push(Vec::new());
    }
    assert(dk.take(0).len() == 0);
    assert(adjacency_of(occ, dk.take(0), n as nat) =~= Seq::new(
        n as nat,
        |u: int| adj@[u]@,
    ));
    for t in 0..keys.len()
        invariant
            n == polygons@.len(),
            vl == vertex_lists(polygons@),
            occ == edge_occurrences(vl),
            dk == distinct_keys(occ),
            keys@ == dk,
            owners@.len() == keys@.len(),
            forall|u: int| 0 <= u < keys@.len() ==> (#[trigger] owners@[u])@ == owners_of(occ, keys@[u]),
            forall|mm: int| 0 <= mm < occ.len() ==> (#[trigger] occ[mm]).1 < n,
            adj@.len() == n,
            adjacency_of(occ, dk.take(t as int), n as nat) =~= Seq::new(
                n as nat,
                |u: int| adj@[u]@,
            ),
    {
        let own = &owners[t];
        proof {
            lemma_owners_bounded(occ, keys@[t as int], n as nat);
            assert(dk.take(t + 1).drop_last() =~= dk.take(t as int));
        }
        if own.len() == 2 {
            let p = own[0];
            let q = own[1];
            adj[p].push(q);
            adj[q].push(p);
        }
        proof {
            let prev = adjacency_of(occ, dk.take(t as int), n as nat);
            assert(adjacency_of(occ, dk.take(t + 1), n as nat) == link(prev, owners_of(occ, dk[t as int])));
        }
    }
    assert(dk.take(keys@.len() as int) =~= dk);
    adj
}

/// Whether every neighbour relation of `adj` is mutual.
pub open spec fn symmetric(adj: Seq<Seq<usize>>) -> bool {
    forall|i: usize, j: usize|
        i < adj.len() && j < adj.len() ==> (#[trigger] adj[i as int].contains(j)
            <==> #[trigger] adj[j as int].contains(i))
}

proof fn lemma_link_contains(adj: Seq<Seq<usize>>, own: Seq<usize>, x: usize, y: usize)
    requires
        own.len() == 2,
        own[0] < adj.len(),
        own[1] < adj.len(),
        x < adj.len(),
    ensures
        link(adj, own).len() == adj.len(),
        link(adj, own)[x as int].contains(y) <==> (adj[x as int].contains(y) || (x == own[0] && y
            == own[1]) || (x == own[1] && y == own[0])),
{
    let p = own[0];
    let q = own[1];
    let first = adj.update(p as int, adj[p as int].push(q));
    let second = first.update(q as int, first[q as int].push(p));
    assert(first[x as int].contains(y) <==> (adj[x as int].contains(y) || (x == p && y == q))) by {
        if x == p {
            let l = adj[p as int].push(q);
            if adj[x as int].contains(y) {
                let w = choose|w: int| 0 <= w < adj[x as int].len() && adj[x as int][w] == y;
                assert(l[w] == y);
            }
            if l.contains(y) {
                let w = choose|w: int| 0 <= w < l.len() && l[w] == y;
                if w < adj[x as int].len() {
                    assert(adj[x as int][w] == y);
                }
            }
            if y == q {
                assert(l[adj[p as int].len() as int] == q);
            }
        }
    }
    assert(second[x as int].contains(y) <==> (first[x as int].contains(y) || (x == q && y == p))) by {
        if x == q {
            let l = first[q as int].push(p);
            if first[x as int].contains(y) {
                let w = choose|w: int| 0 <= w < first[x as int].len() && first[x as int][w] == y;
                assert(l[w] == y);
            }
            if l.contains(y) {
                let w = choose|w: int| 0 <= w < l.len() && l[w] == y;
                if w < first[x as int].len() {
                    assert(first[x as int][w] == y);
                }
            }
            if y == p {
                assert(l[first[q as int].len() as int] == p);
            }
        }
    }
}

proof fn lemma_adjacency_of_symmetric(
    occ: Seq<((Point, Point), usize)>,
    keys: Seq<(Point, Point)>,
    n: nat,
)
    requires
        forall|m: int| 0 <= m < occ.len() ==> (#[trigger] occ[m]).1 < n,
    ensures
        adjacency_of(occ, keys, n).len() == n,
        symmetric(adjacency_of(occ, keys, n)),
    decreases keys.len(),
{
    if keys.len() > 0 {
        lemma_adjacency_of_symmetric(occ, keys.drop_last(), n);
        let prev = adjacency_of(occ, keys.drop_last(), n);
        let own = owners_of(occ, keys.last());
        if own.len() == 2 {
            lemma_owners_bounded(occ, keys.last(), n);
            assert(own[0] < n && own[1] < n);
            let next = link(prev, own);
            lemma_link_contains(prev, own, 0, 0);
            assert forall|i: usize, j: usize| i < next.len() && j < next.len() implies (
            #[trigger] next[i as int].contains(j) <==> #[trigger] next[j as int].contains(i)) by {
                lemma_link_contains(prev, own, i, j);
                lemma_link_contains(prev, own, j, i);
            }
        }
    } else {
        let a = adjacency_of(occ, keys, n);
        assert forall|i: usize, j: usize| i < a.len() && j < a.len() implies (
        #[trigger] a[i as int].contains(j) <==> #[trigger] a[j as int].contains(i)) by {
            assert(a[i as int] =~= Seq::<usize>::empty());
            assert(a[j as int] =~= Seq::<usize>::empty());
        }
    }
}

/// Neighbourhood in a navigation mesh is mutual: polygon `j` is among the
/// neighbours of polygon `i` exactly when `i` is among those of `j`.
pub proof fn navmesh_adjacency_is_symmetric(polys: Seq<Seq<Point>>)
    ensures
        navmesh_adjacency(polys).len() == polys.len(),
        symmetric(navmesh_adjacency(polys)),
{
    let occ = edge_occurrences(polys);
    lemma_occurrences_bounded(polys);
    lemma_adjacency_of_symmetric(occ, distinct_keys(occ), polys.len());
}

/// Whether every neighbour relation of `adj` is mutual with the same
/// multiplicity: `j` is listed for `i` as often as `i` is listed for `j`.
pub open spec fn symmetric_counts(adj: Seq<Seq<usize>>) -> bool {
    forall|i: usize, j: usize|
        i < adj.len() && j < adj.len() ==> (#[trigger] adj[i as int].to_multiset().count(j))
            == (#[trigger] adj[j as int].to_multiset().count(i))
}

/// Whether the owners `own` of an edge are exactly the two polygons `i` and
/// `j`, in either order.
pub open spec fn owned_by_pair(own: Seq<usize>, i: usize, j: usize) -> bool {
    own.len() == 2 && ((own[0] == i && own[1] == j) || (own[0] == j && own[1] == i))
}

/// Whether one of the keys `keys` keys an edge owned by exactly `i` and `j`.
pub open spec fn has_pair_edge(
    occ: Seq<((Point, Point), usize)>,
    keys: Seq<(Point, Point)>,
    i: usize,
    j: usize,
) -> bool {
    exists|t: int| 0 <= t < keys.len() && owned_by_pair(owners_of(occ, #[trigger] keys[t]), i, j)
}

proof fn lemma_link_count(adj: Seq<Seq<usize>>, own: Seq<usize>, x: usize, y: usize)
    requires
        own.len() == 2,
        own[0] < adj.len(),
        own[1] < adj.len(),
        x < adj.len(),
    ensures
        link(adj, own)[x as int].to_multiset().count(y) == adj[x as int].to_multiset().count(y) + (
        if x == own[0] && y == own[1] {
            1int
        } else {
            0int
        }) + (if x == own[1] && y == own[0] {
            1int
        } else {
            0int
        }),
{
    broadcast use vstd::seq_lib::group_to_multiset_ensures;
    broadcast use vstd::multiset::group_multiset_axioms;

    let p = own[0];
    let q = own[1];
    let first = adj.update(p as int, adj[p as int].push(q));
    let second = first.update(q as int, first[q as int].push(p));
    assert(first[x as int].to_multiset().count(y) == adj[x as int].to_multiset().count(y) + (if x
        == p && y == q {
        1int
    } else {
        0int
    })) by {
        if x == p {
            assert(adj[p as int].push(q).to_multiset() =~= adj[p as int].to_multiset().insert(q));
        }
    }
    if x == q {
        assert(first[q as int].push(p).to_multiset() =~= first[q as int].to_multiset().insert(p));
    }
}

proof fn lemma_adjacency_of_counts(
    occ: Seq<((Point, Point), usize)>,
    keys: Seq<(Point, Point)>,
    n: nat,
)
    requires
        forall|m: int| 0 <= m < occ.len() ==> (#[trigger] occ[m]).1 < n,
    ensures
        adjacency_of(occ, keys, n).len() == n,
        symmetric_counts(adjacency_of(occ, keys, n)),
        forall|i: usize, j: usize|
            i < n && j < n ==> (#[trigger] adjacency_of(occ, keys, n)[i as int].contains(j)
                <==> has_pair_edge(occ, keys, i, j)),
    decreases keys.len(),
{
    broadcast use vstd::seq_lib::group_to_multiset_ensures;

    let a = adjacency_of(occ, keys, n);
    if keys.len() == 0 {
        assert forall|i: usize, j: usize| i < a.len() && j < a.len() implies (#[trigger] a[i as int].to_multiset().count(j))
            == (#[trigger] a[j as int].to_multiset().count(i)) by {
            assert(a[i as int] =~= Seq::<usize>::empty());
            assert(a[j as int] =~= Seq::<usize>::empty());
        }
        assert forall|i: usize, j: usize| i < n && j < n implies (#[trigger] a[i as int].contains(j)
            <==> has_pair_edge(occ, keys, i, j)) by {
            assert(a[i as int] =~= Seq::<usize>::empty());
        }
    } else {
        let d = keys.drop_last();
        lemma_adjacency_of_counts(occ, d, n);
        let prev = adjacency_of(occ, d, n);
        let own = owners_of(occ, keys.last());
        assert forall|i: usize, j: usize| #![trigger has_pair_edge(occ, keys, i, j)]
            has_pair_edge(occ, keys, i, j) <==> (has_pair_edge(occ, d, i, j) || owned_by_pair(own, i, j)) by {
            if has_pair_edge(occ, d, i, j) {
                let t = choose|t: int| 0 <= t < d.len() && owned_by_pair(owners_of(occ, #[trigger] d[t]), i, j);
                assert(keys[t] == d[t]);
            }
            if owned_by_pair(own, i, j) {
                assert(keys[keys.len() - 1] == keys.last());
            }
            if has_pair_edge(occ, keys, i, j) {
                let t = choose|t: int| 0 <= t < keys.len() && owned_by_pair(owners_of(occ, #[trigger] keys[t]), i, j);
                if t < d.len() {
                    assert(d[t] == keys[t]);
                }
            }
        }
        if own.len() == 2 {
            lemma_owners_bounded(occ, keys.last(), n);
            assert forall|i: usize, j: usize| i < a.len() && j < a.len() implies (#[trigger] a[i as int].to_multiset().count(j))
                == (#[trigger] a[j as int].to_multiset().count(i)) by {
                lemma_link_count(prev, own, i, j);
                lemma_link_count(prev, own, j, i);
            }
            assert forall|i: usize, j: usize| i < n && j < n implies (#[trigger] a[i as int].contains(j)
                <==> has_pair_edge(occ, keys, i, j)) by {
                lemma_link_contains(prev, own, i, j);
            }
        } else {
            assert forall|i: usize, j: usize| i < n && j < n implies (#[trigger] a[i as int].contains(j)
                <==> has_pair_edge(occ, keys, i, j)) by {
                assert(!owned_by_pair(own, i, j));
            }
        }
    }
}

/// Neighbourhood in a navigation mesh is mutual with the same multiplicity,
/// and polygon `j` is a neighbour of polygon `i` exactly when some edge
/// (taken without direction) is owned by these two polygons and no other:
/// `owners_of` of its key lists every polygon edge with that key.
pub proof fn navmesh_links_are_shared_edges(polys: Seq<Seq<Point>>)
    ensures
        navmesh_adjacency(polys).len() == polys.len(),
        symmetric_counts(navmesh_adjacency(polys)),
        forall|i: usize, j: usize|
            i < polys.len() && j < polys.len() ==> (#[trigger] navmesh_adjacency(polys)[i as int].contains(j)
                <==> has_pair_edge(
                edge_occurrences(polys),
                distinct_keys(edge_occurrences(polys)),
                i,
                j,
            )),
{
    let occ = edge_occurrences(polys);
    lemma_occurrences_bounded(polys);
    lemma_adjacency_of_counts(occ, distinct_keys(occ), polys.len());
}

/// Whether polygon `i` has an edge with key `k`, in either direction.
pub open spec fn has_edge(polys: Seq<Seq<Point>>, i: usize, k: (Point, Point)) -> bool {
    exists|j: int|
        0 <= j < polys[i as int].len() && #[trigger] edge_key(
            polys[i as int][j],
            polys[i as int][(j + 1) % (polys[i as int].len() as int)],
        ) == k
}

proof fn lemma_owners_member(occ: Seq<((Point, Point), usize)>, k: (Point, Point), x: usize)
    ensures
        owners_of(occ, k).contains(x) <==> occ.contains((k, x)),
    decreases occ.len(),
{
    if occ.len() > 0 {
        let d = occ.drop_last();
        lemma_owners_member(d, k, x);
        let r = owners_of(d, k);
        if d.contains((k, x)) {
            let m = choose|m: int| 0 <= m < d.len() && d[m] == (k, x);
            assert(occ[m] == (k, x));
        }
        if occ.contains((k, x)) {
            let m = choose|m: int| 0 <= m < occ.len() && occ[m] == (k, x);
            if m < d.len() {
                assert(d[m] == (k, x));
            }
        }
        if occ.last().0 == k {
            let full = r.push(occ.last().1);
            if full.contains(x) {
                let w = choose|w: int| 0 <= w < full.len() && full[w] == x;
                if w < r.len() {
                    assert(r[w] == x);
                } else {
                    assert(occ[occ.len() - 1] == (k, x));
                }
            }
            if r.contains(x) {
                let w = choose|w: int| 0 <= w < r.len() && r[w] == x;
                assert(full[w] == x);
            }
            if occ.last() == (k, x) {
                assert(full[r.len() as int] == x);
            }
        }
    }
}

proof fn lemma_occurrence_member(polys: Seq<Seq<Point>>, k: (Point, Point), i: usize)
    requires
        polys.len() <= usize::MAX,
    ensures
        edge_occurrences(polys).contains((k, i)) <==> (i < polys.len() && has_edge(polys, i, k)),
    decreases polys.len(),
{
    if polys.len() > 0 {
        let d = polys.drop_last();
        let last = (polys.len() - 1) as usize;
        lemma_occurrence_member(d, k, i);
        let a = edge_occurrences(d);
        let b = polygon_edges(polys.last(), last);
        let occ = edge_occurrences(polys);
        assert(occ == a + b);
        if i < d.len() {
            assert(d[i as int] == polys[i as int]);
        }
        if a.contains((k, i)) {
            let m = choose|m: int| 0 <= m < a.len() && a[m] == (k, i);
            assert(occ[m] == (k, i));
        }
        if b.contains((k, i)) {
            let m = choose|m: int| 0 <= m < b.len() && b[m] == (k, i);
            assert(occ[a.len() + m] == (k, i));
            assert(i == last);
            assert(polys[i as int] == polys.last());
            assert(edge_key(polys[i as int][m], polys[i as int][(m + 1) % (polys[i as int].len() as int)]) == k);
        }
        if occ.contains((k, i)) {
            let m = choose|m: int| 0 <= m < occ.len() && occ[m] == (k, i);
            if m < a.len() {
                assert(a[m] == (k, i));
            } else {
                assert(b[m - a.len()] == (k, i));
            }
        }
        if i == last && has_edge(polys, i, k) {
            let j = choose|j: int|
                0 <= j < polys[i as int].len() && #[trigger] edge_key(
                    polys[i as int][j],
                    polys[i as int][(j + 1) % (polys[i as int].len() as int)],
                ) == k;
            assert(polys[i as int] == polys.last());
            assert(b[j] == (k, i));
            assert(occ[a.len() + j] == (k, i));
        }
    }
}

/// The owners of the edges keyed `k` are exactly the polygons that have an
/// edge with key `k`: with `navmesh_links_are_shared_edges`, two polygons are
/// neighbours exactly when they share an edge, in either direction, that no
/// other polygon has (and that neither has twice).
pub proof fn owners_are_edge_holders(polys: Seq<Seq<Point>>, k: (Point, Point))
    requires
        polys.len() <= usize::MAX,
    ensures
        forall|i: usize|
            #[trigger] owners_of(edge_occurrences(polys), k).contains(i) <==> (i < polys.len()
                && has_edge(polys, i, k)),
{
    assert forall|i: usize| #[trigger] owners_of(edge_occurrences(polys), k).contains(i) <==> (i
        < polys.len() && has_edge(polys, i, k)) by {
        lemma_owners_member(edge_occurrences(polys), k, i);
        lemma_occurrence_member(polys, k, i);
    }
}

proof fn lemma_distinct_keys_unique(occ: Seq<((Point, Point), usize)>)
    ensures
        forall|a: int, b: int|
            0 <= a < b < distinct_keys(occ).len() ==> distinct_keys(occ)[a] != distinct_keys(occ)[b],
    decreases occ.len(),
{
    if occ.len() > 0 {
        let d = occ.drop_last();
        lemma_distinct_keys_unique(d);
        let rest = distinct_keys(d);
        if !rest.contains(occ.last().0) {
            let dk = rest.push(occ.last().0);
            assert forall|a: int, b: int| 0 <= a < b < dk.len() implies dk[a] != dk[b] by {
                if b == rest.len() {
                    assert(dk[a] == rest[a]);
                    if dk[a] == dk[b] {
                        assert(rest.contains(occ.last().0));
                    }
                } else {
                    assert(dk[a] == rest[a]);
                    assert(dk[b] == rest[b]);
                }
            }
        }
    }
}

proof fn lemma_owners_absent(occ: Seq<((Point, Point), usize)>, k: (Point, Point))
    requires
        !distinct_keys(occ).contains(k),
    ensures
        owners_of(occ, k).len() == 0,
    decreases occ.len(),
{
    if occ.len() > 0 {
        let d = occ.drop_last();
        let rest = distinct_keys(d);
        if rest.contains(k) {
            let w = choose|x: int| 0 <= x < rest.len() && rest[x] == k;
            if rest.contains(occ.last().0) {
            } else {
                assert(rest.push(occ.last().0)[w] == k);
            }
        }
        lemma_owners_absent(d, k);
        if occ.last().0 == k {
            if rest.contains(occ.last().0) {
            } else {
                assert(rest.push(occ.last().0)[rest.len() as int] == k);
            }
        }
    }
}

/// A polygon of the navigation mesh with the indices of its neighbours.
#[derive(Clone, Debug)]
pub struct NavPolygon {
    pub vertices: Vec<Point>,
    pub neighbours: Vec<usize>,
}

/// The navigation mesh: the walkable polygons and, for each, the indices of
/// the polygons it shares an edge with.
pub struct NavMesh {
    pub polygons: Vec<Polygon>,
    pub adjacency: Vec<Vec<usize>>,
}

impl NavMesh {
    /// The mesh of the given polygons, with their neighbour lists; see
    /// `navmesh_adjacency`.
    pub fn from_polygons(polygons: Vec<Polygon>) -> (m: NavMesh)
        ensures
            m.polygons@ == polygons@,
            m.adjacency@.len() == polygons@.len(),
            forall|i: int|
                0 <= i < m.adjacency@.len() ==> (#[trigger] m.adjacency@[i])@ == navmesh_adjacency(
                    vertex_lists(polygons@),
                )[i],
    {
        let adjacency = adjacency_from_polygons(&polygons);
        NavMesh { polygons, adjacency }
    }
}

} // verus!
