//! The funnel that straightens a path of polygons into a path of points. The
//! orientation of three points is a floating-point test; the caller hands it
//! in, and the funnel's walk over the portals is verified for every test that
//! calls a degenerate triangle flat.
use vstd::prelude::*;

use crate::geometry::Point;

verus! {

/// The sign of a floating-point value as the funnel compares it with zero:
/// `Unordered` is a NaN, for which every comparison is false.
#[derive(Clone, Copy, Debug, PartialEq, Eq, Structural)]
pub enum Sign {
    Negative,
    Zero,
    Positive,
    Unordered,
}

impl Sign {
    /// `value <= 0.0`.
    pub fn at_most_zero(self) -> (r: bool)
        ensures
            r == (self is Negative || self is Zero),
    {
        match self {
            Sign::Negative | Sign::Zero => true,
            _ => false,
        }
    }

    /// `value >= 0.0`.
    pub fn at_least_zero(self) -> (r: bool)
        ensures
            r == (self is Zero || self is Positive),
    {
        match self {
            Sign::Zero | Sign::Positive => true,
            _ => false,
        }
    }
}

/// `a` is an end of portal `j`.
pub open spec fn end_of(ps: Seq<(Point, Point)>, j: int, a: Point) -> bool {
    0 <= j < ps.len() && (a == ps[j].0 || a == ps[j].1)
}

/// `a` is an end of one of the portals.
pub open spec fn on_portal(ps: Seq<(Point, Point)>, a: Point) -> bool {
    exists|j: int| end_of(ps, j, a)
}

/// The orientation test `orient` calls flat every triangle whose first two
/// corners are the same end of a portal.
pub open spec fn flat_when_degenerate<F: Fn(Point, Point, Point) -> Sign>(
    ps: Seq<(Point, Point)>,
    orient: F,
) -> bool {
    forall|a: Point, p: Point, s: Sign|
        on_portal(ps, a) && on_portal(ps, p) && #[trigger] orient.ensures((a, a, p), s) ==> s
            == Sign::Zero
}

/// The turning points `r` of a funnel walk over the portals `ps`, with `idx`
/// the portal of each: the walk starts at the first portal, every later turn
/// is an end of a later portal than the one before, and the walk ends at the
/// first end of the last portal.
pub open spec fn turns(ps: Seq<(Point, Point)>, r: Seq<Point>, idx: Seq<int>) -> bool {
    &&& r.len() >= 2
    &&& idx.len() == r.len()
    &&& r[0] == ps[0].0
    &&& idx[0] == 0
    &&& r[r.len() - 1] == ps[ps.len() - 1].0
    &&& idx[r.len() - 1] == ps.len() - 1
    &&& forall|k: int| 0 < k < r.len() ==> end_of(ps, #[trigger] idx[k], r[k])
    &&& forall|k: int, j: int| 0 <= k < j < r.len() - 1 ==> #[trigger] idx[k] < #[trigger] idx[j]
}

/// The orientation test always gives the same sign for the same three points.
pub open spec fn deterministic<F: Fn(Point, Point, Point) -> Sign>(f: F) -> bool {
    forall|a: Point, b: Point, c: Point, s: Sign, t: Sign|
        #![trigger f.ensures((a, b, c), s), f.ensures((a, b, c), t)]
        f.ensures((a, b, c), s) && f.ensures((a, b, c), t) ==> s == t
}

/// The sign that the orientation test gives for three points.
pub open spec fn orientation_of<F: Fn(Point, Point, Point) -> Sign>(f: F) -> spec_fn(
    Point,
    Point,
    Point,
) -> Sign {
    |a: Point, b: Point, c: Point| choose|s: Sign| f.ensures((a, b, c), s)
}

/// How the funnel's scan over the portals ends: it gets past the last portal,
/// or a side of the funnel would cross the other and the path turns at the
/// other side's end, an end of the given portal.
pub enum ScanEnd {
    Through,
    Turn(Point, int),
}

/// The funnel with apex `apex`, left side ending at `left` (an end of portal
/// `li`) and right side at `right` (of portal `ri`), narrowed by the portals
/// from `i` on, each left end first, by the orientation test `o`: a portal
/// end inside the funnel (or on the apex's side) moves its side there; a
/// right end past the left side, or a left end past the right side, closes
/// the funnel.
pub open spec fn scan(
    ps: Seq<(Point, Point)>,
    o: spec_fn(Point, Point, Point) -> Sign,
    apex: Point,
    left: Point,
    right: Point,
    li: int,
    ri: int,
    i: int,
) -> ScanEnd
    decreases ps.len() - i,
{
    if i < 0 || i >= ps.len() {
        ScanEnd::Through
    } else {
        let pl = ps[i].0;
        let pr = ps[i].1;
        let right_in = o(apex, right, pr) is Negative || o(apex, right, pr) is Zero;
        if right_in && !(apex == right || o(apex, left, pr) is Positive) {
            ScanEnd::Turn(left, li)
        } else {
            let right2 = if right_in { pr } else { right };
            let ri2 = if right_in { i } else { ri };
            let left_in = o(apex, left, pl) is Zero || o(apex, left, pl) is Positive;
            if left_in && !(apex == left || o(apex, right2, pl) is Negative) {
                ScanEnd::Turn(right2, ri2)
            } else {
                let left2 = if left_in { pl } else { left };
                let li2 = if left_in { i } else { li };
                scan(ps, o, apex, left2, right2, li2, ri2, i + 1)
            }
        }
    }
}

/// The last point of a funnel path: the first end of the last portal.
pub open spec fn path_end(ps: Seq<(Point, Point)>) -> (Point, int) {
    (ps[ps.len() - 1].0, ps.len() - 1)
}

/// The turning points, each with its portal, of the funnel path after the
/// apex `apex` at portal `m`: the funnel starts closed at the apex and scans
/// from the next portal; where it closes, the path turns and starts again
/// from the turning point. The path ends at the last portal.
pub open spec fn turns_from(
    ps: Seq<(Point, Point)>,
    o: spec_fn(Point, Point, Point) -> Sign,
    apex: Point,
    m: int,
) -> Seq<(Point, int)>
    decreases ps.len() - m,
{
    match scan(ps, o, apex, apex, apex, m, m, m + 1) {
        ScanEnd::Turn(t, k) => if m < k < ps.len() {
            seq![(t, k)] + turns_from(ps, o, t, k)
        } else {
            seq![path_end(ps)]
        },
        ScanEnd::Through => seq![path_end(ps)],
    }
}

/// The rest of the funnel path from a funnel state: as `turns_from`, from a
/// funnel already narrowed up to portal `i`.
pub open spec fn walk_on(
    ps: Seq<(Point, Point)>,
    o: spec_fn(Point, Point, Point) -> Sign,
    apex: Point,
    m: int,
    left: Point,
    right: Point,
    li: int,
    ri: int,
    i: int,
) -> Seq<(Point, int)> {
    match scan(ps, o, apex, left, right, li, ri, i) {
        ScanEnd::Turn(t, k) => if m < k < ps.len() {
            seq![(t, k)] + turns_from(ps, o, t, k)
        } else {
            seq![path_end(ps)]
        },
        ScanEnd::Through => seq![path_end(ps)],
    }
}

/// The funnel path over the portals `ps` by the orientation test `o`, each
/// point with its portal: it starts at the first portal.
pub open spec fn funnel_walk(ps: Seq<(Point, Point)>, o: spec_fn(Point, Point, Point) -> Sign) -> Seq<
    (Point, int),
> {
    seq![(ps[0].0, 0int)] + turns_from(ps, o, ps[0].0, 0)
}

/// The points of the funnel path.
pub open spec fn funnel_points(ps: Seq<(Point, Point)>, o: spec_fn(Point, Point, Point) -> Sign) -> Seq<
    Point,
> {
    funnel_walk(ps, o).map_values(|t: (Point, int)| t.0)
}

proof fn lemma_call_agrees<F: Fn(Point, Point, Point) -> Sign>(f: F, a: Point, b: Point, c: Point, s: Sign)
    requires
        f.ensures((a, b, c), s),
        deterministic(f),
    ensures
        orientation_of(f)(a, b, c) == s,
{
    let x = choose|x: Sign| f.ensures((a, b, c), x);
    assert(f.ensures((a, b, c), x));
}

/// The funnel walk over the portals `ps`, each given left end first: the apex
/// starts at the first portal; the funnel narrows while each portal's ends
/// stay inside it (by `orient`), and when a side would cross the other, the
/// other side's end becomes the new apex, is added to the path, and the walk
/// starts again after it. The path ends at the last portal.
pub fn funnel_through<F: Fn(Point, Point, Point) -> Sign>(ps: &Vec<(Point, Point)>, orient: F) -> (r: Vec<Point>)
    requires
        ps@.len() >= 1,
        ps@[0].0 == ps@[0].1,
        forall|a: Point, b: Point, c: Point| orient.requires((a, b, c)),
        flat_when_degenerate(ps@, orient),
    ensures
        exists|idx: Seq<int>| turns(ps@, r@, idx),
        deterministic(orient) ==> r@ == funnel_points(ps@, orientation_of(orient)),
{
    let ghost o = orientation_of(orient);
    let n = ps.len();
    let mut result: Vec<Point> = Vec::new();
    let mut apex = ps[0].0;
    result.push(apex);
    let mut left = ps[0].0;
    let mut right = ps[0].1;
    let mut left_idx: usize = 0;
    let mut right_idx: usize = 0;
    let ghost mut apex_idx: int = 0;
    let ghost mut idx: Seq<int> = seq![0int];
    let ghost mut walked: Seq<(Point, int)> = seq![(ps@[0].0, 0int)];
    let mut i: usize = 1;
    while i < n
        invariant
            n == ps@.len(),
            n >= 1,
            ps@[0].0 == ps@[0].1,
            forall|a: Point, b: Point, c: Point| orient.requires((a, b, c)),
            flat_when_degenerate(ps@, orient),
            o == orientation_of(orient),
            1 <= i <= n,
            0 <= apex_idx < i,
            apex_idx <= left_idx < i,
            apex_idx <= right_idx < i,
            i == apex_idx + 1 ==> left == apex && right == apex && left_idx == apex_idx
                && right_idx == apex_idx,
            i > apex_idx + 1 ==> left_idx > apex_idx && right_idx > apex_idx,
            end_of(ps@, apex_idx, apex),
            end_of(ps@, left_idx as int, left),
            end_of(ps@, right_idx as int, right),
            result@.len() == idx.len(),
            result@.len() >= 1,
            result@[0] == ps@[0].0,
            idx[0] == 0,
            result@[result@.len() - 1] == apex,
            idx[idx.len() - 1] == apex_idx,
            forall|k: int| 0 < k < result@.len() ==> end_of(ps@, #[trigger] idx[k], result@[k]),
            forall|k: int, j: int| 0 <= k < j < result@.len() ==> #[trigger] idx[k] < #[trigger] idx[j],
            walked.len() == result@.len(),
            forall|k: int| 0 <= k < walked.len() ==> #[trigger] walked[k] == (result@[k], idx[k]),
            deterministic(orient) ==> walked + walk_on(
                ps@,
                o,
                apex,
                apex_idx,
                left,
                right,
                left_idx as int,
                right_idx as int,
                i as int,
            ) == funnel_walk(ps@, o),
        decreases n - apex_idx, n - i,
    {
        let (pl, pr) = ps[i];
        assert(end_of(ps@, i as int, pl) && end_of(ps@, i as int, pr));
        assert(on_portal(ps@, apex) && on_portal(ps@, pl) && on_portal(ps@, pr));
        let ghost st = walk_on(ps@, o, apex, apex_idx, left, right, left_idx as int, right_idx as int, i as int);
        let ghost sc = scan(ps@, o, apex, left, right, left_idx as int, right_idx as int, i as int);
        let s_right = orient(apex, right, pr);
        proof {
            if deterministic(orient) {
                lemma_call_agrees(orient, apex, right, pr, s_right);
            }
        }
        if s_right.at_most_zero() {
            let keep_right = if apex == right {
                true
            } else {
                let s_lr = orient(apex, left, pr);
                proof {
                    if deterministic(orient) {
                        lemma_call_agrees(orient, apex, left, pr, s_lr);
                    }
                }
                s_lr == Sign::Positive
            };
            if keep_right {
                right = pr;
                right_idx = i;
            } else {
                assert(i > apex_idx + 1);
                proof {
                    if deterministic(orient) {
                        assert(sc == ScanEnd::Turn(left, left_idx as int));
                        assert(st == seq![(left, left_idx as int)] + turns_from(ps@, o, left, left_idx as int));
                        assert(walk_on(ps@, o, left, left_idx as int, left, left, left_idx as int, left_idx as int, left_idx + 1)
                            == turns_from(ps@, o, left, left_idx as int));
                        assert(walked.push((left, left_idx as int)) + turns_from(ps@, o, left, left_idx as int)
                            =~= walked + st);
                    }
                }
                result.push(left);
                proof {
                    idx = idx.push(left_idx as int);
                    walked = walked.push((left, left_idx as int));
                    apex_idx = left_idx as int;
                }
                apex = left;
                right = apex;
                right_idx = left_idx;
                i = left_idx + 1;
                continue;
            }
        }
        assert(on_portal(ps@, right));
        let s_left = orient(apex, left, pl);
        proof {
            if deterministic(orient) {
                lemma_call_agrees(orient, apex, left, pl, s_left);
            }
        }
        if s_left.at_least_zero() {
            let keep_left = if apex == left {
                true
            } else {
                let s_rl = orient(apex, right, pl);
                proof {
                    if deterministic(orient) {
                        lemma_call_agrees(orient, apex, right, pl, s_rl);
                    }
                }
                s_rl == Sign::Negative
            };
            if keep_left {
                left = pl;
                left_idx = i;
            } else {
                assert(i > apex_idx + 1);
                proof {
                    if deterministic(orient) {
                        assert(sc == ScanEnd::Turn(right, right_idx as int));
                        assert(st == seq![(right, right_idx as int)] + turns_from(ps@, o, right, right_idx as int));
                        assert(walk_on(ps@, o, right, right_idx as int, right, right, right_idx as int, right_idx as int, right_idx + 1)
                            == turns_from(ps@, o, right, right_idx as int));
                        assert(walked.push((right, right_idx as int)) + turns_from(ps@, o, right, right_idx as int)
                            =~= walked + st);
                    }
                }
                result.push(right);
                proof {
                    idx = idx.push(right_idx as int);
                    walked = walked.push((right, right_idx as int));
                    apex_idx = right_idx as int;
                }
                apex = right;
                left = apex;
                left_idx = right_idx;
                i = right_idx + 1;
                continue;
            }
        }
        proof {
            if deterministic(orient) {
                assert(sc == scan(ps@, o, apex, left, right, left_idx as int, right_idx as int, i + 1));
            }
        }
        i = i + 1;
    }
    let goal = ps[n - 1].0;
    result.push(goal);
    proof {
        idx = idx.push(n - 1);
        walked = walked.push((goal, n - 1));
        assert(turns(ps@, result@, idx));
        if deterministic(orient) {
            assert(walked =~= funnel_walk(ps@, o));
            assert(result@ =~= funnel_points(ps@, o));
        }
    }
    result
}

/// A scan's end with its portal index moved down by `m`.
pub open spec fn shift_end(e: ScanEnd, m: int) -> ScanEnd {
    match e {
        ScanEnd::Turn(t, k) => ScanEnd::Turn(t, k - m),
        ScanEnd::Through => ScanEnd::Through,
    }
}

/// Turning points with their portal indices moved down by `m`.
pub open spec fn shift_turns(s: Seq<(Point, int)>, m: int) -> Seq<(Point, int)> {
    s.map_values(|x: (Point, int)| (x.0, x.1 - m))
}

/// The portals that are left after portal `m`, behind a point portal at `t`.
pub open spec fn portals_after(ps: Seq<(Point, Point)>, t: Point, m: int) -> Seq<(Point, Point)> {
    seq![(t, t)] + ps.skip(m + 1)
}

proof fn lemma_scan_shift(
    ps: Seq<(Point, Point)>,
    o: spec_fn(Point, Point, Point) -> Sign,
    m: int,
    t: Point,
    apex: Point,
    left: Point,
    right: Point,
    li: int,
    ri: int,
    i: int,
)
    requires
        0 <= m,
        m + 1 <= i,
        m + 1 < ps.len(),
    ensures
        scan(portals_after(ps, t, m), o, apex, left, right, li - m, ri - m, i - m) == shift_end(
            scan(ps, o, apex, left, right, li, ri, i),
            m,
        ),
    decreases ps.len() - i,
{
    let ps2 = portals_after(ps, t, m);
    assert(ps2.len() == ps.len() - m);
    if i < ps.len() {
        assert(ps2[i - m] == ps[i]);
        let pl = ps[i].0;
        let pr = ps[i].1;
        let right_in = o(apex, right, pr) is Negative || o(apex, right, pr) is Zero;
        let right2 = if right_in { pr } else { right };
        let ri2 = if right_in { i } else { ri };
        let left_in = o(apex, left, pl) is Zero || o(apex, left, pl) is Positive;
        let left2 = if left_in { pl } else { left };
        let li2 = if left_in { i } else { li };
        lemma_scan_shift(ps, o, m, t, apex, left2, right2, li2, ri2, i + 1);
        assert((if right_in { i - m } else { ri - m }) == ri2 - m);
        assert((if left_in { i - m } else { li - m }) == li2 - m);
    }
}

proof fn lemma_turns_shift(
    ps: Seq<(Point, Point)>,
    o: spec_fn(Point, Point, Point) -> Sign,
    m: int,
    t: Point,
    a: Point,
    j: int,
)
    requires
        0 <= m <= j,
        m + 1 < ps.len(),
    ensures
        turns_from(portals_after(ps, t, m), o, a, j - m) == shift_turns(turns_from(ps, o, a, j), m),
    decreases ps.len() - j,
{
    let ps2 = portals_after(ps, t, m);
    assert(ps2.len() == ps.len() - m);
    assert(ps2[ps2.len() - 1] == ps[ps.len() - 1]);
    assert(path_end(ps2) == (path_end(ps).0, path_end(ps).1 - m));
    lemma_scan_shift(ps, o, m, t, a, a, a, j, j, j + 1);
    let tf = turns_from(ps, o, a, j);
    match scan(ps, o, a, a, a, j, j, j + 1) {
        ScanEnd::Turn(p, k) => {
            if j < k < ps.len() {
                lemma_turns_shift(ps, o, m, t, p, k);
                assert(shift_turns(tf, m) =~= seq![(p, k - m)] + shift_turns(turns_from(ps, o, p, k), m));
            } else {
                assert(shift_turns(tf, m) =~= seq![path_end(ps2)]);
            }
        },
        ScanEnd::Through => {
            assert(shift_turns(tf, m) =~= seq![path_end(ps2)]);
        },
    }
}

proof fn lemma_turns_suffix(ps: Seq<(Point, Point)>, o: spec_fn(Point, Point, Point) -> Sign, a: Point, j: int, q: int)
    requires
        0 <= q < turns_from(ps, o, a, j).len() - 1,
    ensures
        turns_from(ps, o, a, j)[q].1 > j,
        turns_from(ps, o, a, j).skip(q + 1) == turns_from(
            ps,
            o,
            turns_from(ps, o, a, j)[q].0,
            turns_from(ps, o, a, j)[q].1,
        ),
    decreases ps.len() - j,
{
    let tf = turns_from(ps, o, a, j);
    match scan(ps, o, a, a, a, j, j, j + 1) {
        ScanEnd::Turn(p, k) => {
            if j < k < ps.len() {
                let rest = turns_from(ps, o, p, k);
                assert(tf == seq![(p, k)] + rest);
                if q == 0 {
                    assert(tf.skip(1) =~= rest);
                } else {
                    lemma_turns_suffix(ps, o, p, k, q - 1);
                    assert(tf[q] == rest[q - 1]);
                    assert(tf.skip(q + 1) =~= rest.skip(q));
                }
            }
        },
        ScanEnd::Through => {},
    }
}

/// After each turn, the funnel path goes on exactly as the funnel started
/// afresh at the turning point over the portals that come after the turn's
/// portal: once a new apex is set at portal `m`, the walk resumes at portal
/// `m + 1`, so no portal between two turns is skipped.
pub proof fn funnel_restarts_after_each_turn(ps: Seq<(Point, Point)>, o: spec_fn(Point, Point, Point) -> Sign, k: int)
    requires
        ps.len() >= 1,
        0 < k < funnel_walk(ps, o).len() - 1,
        funnel_walk(ps, o)[k].1 + 1 < ps.len(),
    ensures
        0 < funnel_walk(ps, o)[k].1,
        funnel_points(ps, o).skip(k) == funnel_points(
            portals_after(ps, funnel_walk(ps, o)[k].0, funnel_walk(ps, o)[k].1),
            o,
        ),
{
    let w = funnel_walk(ps, o);
    let tf = turns_from(ps, o, ps[0].0, 0);
    assert(w[k] == tf[k - 1]);
    lemma_turns_suffix(ps, o, ps[0].0, 0, k - 1);
    let t = w[k].0;
    let m = w[k].1;
    let rest = turns_from(ps, o, t, m);
    assert(tf.skip(k) == rest);
    let ps2 = portals_after(ps, t, m);
    lemma_turns_shift(ps, o, m, t, t, m);
    assert(ps2[0].0 == t);
    let w2 = funnel_walk(ps2, o);
    assert(w2 == seq![(t, 0int)] + shift_turns(rest, m));
    let lhs = funnel_points(ps, o).skip(k);
    let rhs = funnel_points(ps2, o);
    assert(lhs.len() == rhs.len());
    assert forall|q: int| 0 <= q < lhs.len() implies lhs[q] == rhs[q] by {
        assert(lhs[q] == w[k + q].0);
        assert(rhs[q] == w2[q].0);
        if q > 0 {
            assert(w[k + q] == tf[k + q - 1]);
            assert(tf[k + q - 1] == tf.skip(k)[q - 1]);
        }
    }
    assert(lhs =~= rhs);
}

} // verus!
