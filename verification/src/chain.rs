use vstd::prelude::*;

use crate::geometry::Point;

verus! {

/// A segment taken in a direction: its index, and whether it is reversed.
pub type Oriented = (usize, bool);

/// The point an oriented segment starts from.
pub open spec fn head(ends: Seq<(Point, Point)>, e: Oriented) -> Point {
    if e.1 {
        ends[e.0 as int].1
    } else {
        ends[e.0 as int].0
    }
}

/// The point an oriented segment ends at.
pub open spec fn tail(ends: Seq<(Point, Point)>, e: Oriented) -> Point {
    if e.1 {
        ends[e.0 as int].0
    } else {
        ends[e.0 as int].1
    }
}

/// Whether segment `i`, taken forward (or reversed when `rev`), continues a
/// chain that ends at `p`, whose snapped version is `sp`: its start is `p`,
/// or its snapped start is `sp`.
pub open spec fn continues(
    ends: Seq<(Point, Point)>,
    snaps: Seq<(Point, Point)>,
    i: int,
    rev: bool,
    p: Point,
    sp: Point,
) -> bool {
    if rev {
        ends[i].1 == p || snaps[i].1 == sp
    } else {
        ends[i].0 == p || snaps[i].0 == sp
    }
}

/// The position in `rem` of the first segment that continues the chain,
/// or `rem.len()` when there is none.
pub open spec fn first_continuing(
    ends: Seq<(Point, Point)>,
    snaps: Seq<(Point, Point)>,
    rem: Seq<usize>,
    rev: bool,
    p: Point,
    sp: Point,
) -> nat
    decreases rem.len(),
{
    if rem.len() == 0 {
        0
    } else if continues(ends, snaps, rem[0] as int, rev, p, sp) {
        0
    } else {
        1 + first_continuing(ends, snaps, rem.drop_first(), rev, p, sp)
    }
}

/// Grows the chain `ord` with segments of `rem` for as long as one continues
/// it: the first one that does when taken forward, otherwise the first one
/// that does when reversed. Gives the chain and the segments left.
pub open spec fn extend(
    ends: Seq<(Point, Point)>,
    snaps: Seq<(Point, Point)>,
    ord: Seq<Oriented>,
    rem: Seq<usize>,
) -> (Seq<Oriented>, Seq<usize>)
    decreases rem.len(),
{
    if ord.len() == 0 {
        (ord, rem)
    } else {
        let last = ord.last();
        let p = tail(ends, last);
        let sp = tail(snaps, last);
        let ka = first_continuing(ends, snaps, rem, false, p, sp);
        if ka < rem.len() {
            extend(ends, snaps, ord.push((rem[ka as int], false)), rem.remove(ka as int))
        } else {
            let kb = first_continuing(ends, snaps, rem, true, p, sp);
            if kb < rem.len() {
                extend(ends, snaps, ord.push((rem[kb as int], true)), rem.remove(kb as int))
            } else {
                (ord, rem)
            }
        }
    }
}

pub proof fn lemma_extend_len(
    ends: Seq<(Point, Point)>,
    snaps: Seq<(Point, Point)>,
    ord: Seq<Oriented>,
    rem: Seq<usize>,
)
    ensures
        extend(ends, snaps, ord, rem).0.len() + extend(ends, snaps, ord, rem).1.len() == ord.len()
            + rem.len(),
        extend(ends, snaps, ord, rem).1.len() <= rem.len(),
    decreases rem.len(),
{
    if ord.len() > 0 {
        let last = ord.last();
        let p = tail(ends, last);
        let sp = tail(snaps, last);
        let ka = first_continuing(ends, snaps, rem, false, p, sp);
        if ka < rem.len() {
            lemma_extend_len(ends, snaps, ord.push((rem[ka as int], false)), rem.remove(ka as int));
        } else {
            let kb = first_continuing(ends, snaps, rem, true, p, sp);
            if kb < rem.len() {
                lemma_extend_len(ends, snaps, ord.push((rem[kb as int], true)), rem.remove(kb as int));
            }
        }
    }
}

/// Cuts the segments `rem` into chains: each chain starts with the first
/// segment left, taken forward, and is grown by `extend`.
pub open spec fn chains(
    ends: Seq<(Point, Point)>,
    snaps: Seq<(Point, Point)>,
    rem: Seq<usize>,
) -> Seq<Seq<Oriented>>
    decreases rem.len(),
{
    if rem.len() == 0 {
        Seq::empty()
    } else {
        let grown = extend(ends, snaps, seq![(rem[0], false)], rem.drop_first());
        proof {
            lemma_extend_len(ends, snaps, seq![(rem[0], false)], rem.drop_first());
        }
        seq![grown.0] + chains(ends, snaps, grown.1)
    }
}

/// The indices `0..n`.
pub open spec fn indices(n: nat) -> Seq<usize> {
    Seq::new(n, |i: int| i as usize)
}

proof fn lemma_first_continuing(
    ends: Seq<(Point, Point)>,
    snaps: Seq<(Point, Point)>,
    rem: Seq<usize>,
    rev: bool,
    p: Point,
    sp: Point,
    k: int,
)
    requires
        0 <= k <= rem.len(),
        forall|j: int| 0 <= j < k ==> !continues(ends, snaps, rem[j] as int, rev, p, sp),
        k < rem.len() ==> continues(ends, snaps, rem[k] as int, rev, p, sp),
    ensures
        first_continuing(ends, snaps, rem, rev, p, sp) == k,
    decreases k,
{
    if k > 0 {
        assert(!continues(ends, snaps, rem[0] as int, rev, p, sp));
        let r2 = rem.drop_first();
        assert forall|j: int| 0 <= j < k - 1 implies !continues(ends, snaps, r2[j] as int, rev, p, sp) by {
            assert(r2[j] == rem[j + 1]);
        }
        lemma_first_continuing(ends, snaps, r2, rev, p, sp, k - 1);
    }
}

/// Finds the position in `rem` of the first segment that continues a chain
/// ending at `p` (snapped: `sp`).
fn find_continuing(
    ends: &Vec<(Point, Point)>,
    snaps: &Vec<(Point, Point)>,
    rem: &Vec<usize>,
    rev: bool,
    p: Point,
    sp: Point,
) -> (k: usize)
    requires
        ends@.len() == snaps@.len(),
        forall|j: int| 0 <= j < rem@.len() ==> rem@[j] < ends@.len(),
    ensures
        k == first_continuing(ends@, snaps@, rem@, rev, p, sp),
{
    let mut k: usize = 0;
    while k < rem.len()
        invariant
            ends@.len() == snaps@.len(),
            forall|j: int| 0 <= j < rem@.len() ==> rem@[j] < ends@.len(),
            0 <= k <= rem@.len(),
            forall|j: int| 0 <= j < k ==> !continues(ends@, snaps@, rem@[j] as int, rev, p, sp),
        decreases rem@.len() - k,
    {
        let i = rem[k];
        let hit = if rev {
            ends[i].1.same(&p) || snaps[i].1.same(&sp)
        } else {
            ends[i].0.same(&p) || snaps[i].0.same(&sp)
        };
        if hit {
            proof {
                lemma_first_continuing(ends@, snaps@, rem@, rev, p, sp, k as int);
            }
            return k;
        }
        k = k + 1;
    }
    proof {
        lemma_first_continuing(ends@, snaps@, rem@, rev, p, sp, k as int);
    }
    k
}

/// Whether every index of `rem` names a segment.
pub open spec fn in_range(rem: Seq<usize>, n: nat) -> bool {
    forall|j: int| 0 <= j < rem.len() ==> rem[j] < n
}

/// Whether every oriented segment of `ord` names a segment.
pub open spec fn oriented_in_range(ord: Seq<Oriented>, n: nat) -> bool {
    forall|j: int| 0 <= j < ord.len() ==> (#[trigger] ord[j]).0 < n
}

proof fn lemma_remove_in_range(rem: Seq<usize>, n: nat, k: int)
    requires
        in_range(rem, n),
        0 <= k < rem.len(),
    ensures
        in_range(rem.remove(k), n),
{
    assert forall|j: int| 0 <= j < rem.remove(k).len() implies rem.remove(k)[j] < n by {
        if j < k {
            assert(rem.remove(k)[j] == rem[j]);
        } else {
            assert(rem.remove(k)[j] == rem[j + 1]);
        }
    }
}

/// Grows the chain `ord` with segments taken from `rem`; see `extend`.
fn extend_chain(
    ends: &Vec<(Point, Point)>,
    snaps: &Vec<(Point, Point)>,
    ord: &mut Vec<Oriented>,
    rem: &mut Vec<usize>,
)
    requires
        ends@.len() == snaps@.len(),
        in_range(old(rem)@, ends@.len()),
        oriented_in_range(old(ord)@, ends@.len()),
    ensures
        (final(ord)@, final(rem)@) == extend(ends@, snaps@, old(ord)@, old(rem)@),
        in_range(final(rem)@, ends@.len()),
        oriented_in_range(final(ord)@, ends@.len()),
    decreases old(rem)@.len(),
{
    let n = ord.len();
    if n == 0 {
        return;
    }
    let last = ord[n - 1];
    let p = if last.1 {
        ends[last.0].0
    } else {
        ends[last.0].1
    };
    let sp = if last.1 {
        snaps[last.0].0
    } else {
        snaps[last.0].1
    };
    let ka = find_continuing(ends, snaps, rem, false, p, sp);
    if ka < rem.len() {
        proof {
            lemma_remove_in_range(rem@, ends@.len(), ka as int);
        }
        let i = rem.remove(ka);
        ord.push((i, false));
        extend_chain(ends, snaps, ord, rem);
        return;
    }
    let kb = find_continuing(ends, snaps, rem, true, p, sp);
    if kb < rem.len() {
        proof {
            lemma_remove_in_range(rem@, ends@.len(), kb as int);
        }
        let i = rem.remove(kb);
        ord.push((i, true));
        extend_chain(ends, snaps, ord, rem);
        return;
    }
}

/// Cuts the segments `ends` into chains; `snaps` holds the snapped end points
/// of each segment. See `chains`.
pub fn chain_segments(ends: &Vec<(Point, Point)>, snaps: &Vec<(Point, Point)>) -> (r: Vec<
    Vec<Oriented>,
>)
    requires
        ends@.len() == snaps@.len(),
    ensures
        r@.len() == chains(ends@, snaps@, indices(ends@.len())).len(),
        forall|i: int|
            0 <= i < r@.len() ==> (#[trigger] r@[i])@ == chains(ends@, snaps@, indices(ends@.len()))[i],
{
    let n = ends.len();
    let mut rem: Vec<usize> = Vec::new();
    for i in 0..n
        invariant
            rem@ == indices(i as nat),
    {
        rem.push(i);
        assert(rem@ =~= indices((i + 1) as nat));
    }
    let ghost all = chains(ends@, snaps@, indices(n as nat));
    let mut out: Vec<Vec<Oriented>> = Vec::new();
    while rem.len() > 0
        invariant
            ends@.len() == snaps@.len(),
            in_range(rem@, ends@.len()),
            all.len() == out@.len() + chains(ends@, snaps@, rem@).len(),
            forall|i: int| 0 <= i < out@.len() ==> (#[trigger] out@[i])@ == all[i],
            forall|i: int|
                0 <= i < chains(ends@, snaps@, rem@).len() ==> #[trigger] all[out@.len() + i]
                    == chains(ends@, snaps@, rem@)[i],
        decreases rem@.len(),
    {
        let ghost before = rem@;
        let ghost rest_chains = chains(ends@, snaps@, before);
        let ghost base = out@.len() as int;
        assert(forall|i: int| 0 <= i < rest_chains.len() ==> all[base + i] == rest_chains[i]);
        let first = rem.remove(0);
        assert(rem@ =~= before.drop_first());
        proof {
            lemma_remove_in_range(before, ends@.len(), 0);
        }
        let mut ord: Vec<Oriented> = Vec::new();
        ord.push((first, false));
        assert(ord@ =~= seq![(before[0], false)]);
        extend_chain(ends, snaps, &mut ord, &mut rem);
        proof {
            lemma_extend_len(ends@, snaps@, seq![(before[0], false)], before.drop_first());
            assert(rest_chains[0] == ord@);
            assert forall|i: int| 0 <= i < chains(ends@, snaps@, rem@).len() implies #[trigger] all[(base + 1) + i]
                == chains(ends@, snaps@, rem@)[i] by {
                assert(rest_chains[i + 1] == chains(ends@, snaps@, rem@)[i]);
                assert(all[base + (i + 1)] == rest_chains[i + 1]);
                assert(base + (i + 1) == (base + 1) + i);
            }
            assert(all[base + 0] == rest_chains[0]);
        }
        let ghost old_out = out@;
        out.push(ord);
        proof {
            assert forall|i: int| 0 <= i < out@.len() implies (#[trigger] out@[i])@ == all[i] by {
                if i < old_out.len() {
                    assert(out@[i] == old_out[i]);
                } else {
                    assert(i == base);
                }
            }
        }
    }
    out
}


/// The chain that `extend` grows, and the segments it leaves, name only
/// segments that `ord` or `rem` named.
pub proof fn lemma_extend_in_range(
    ends: Seq<(Point, Point)>,
    snaps: Seq<(Point, Point)>,
    ord: Seq<Oriented>,
    rem: Seq<usize>,
)
    requires
        in_range(rem, ends.len()),
        oriented_in_range(ord, ends.len()),
    ensures
        in_range(extend(ends, snaps, ord, rem).1, ends.len()),
        oriented_in_range(extend(ends, snaps, ord, rem).0, ends.len()),
    decreases rem.len(),
{
    if ord.len() > 0 {
        let last = ord.last();
        let p = tail(ends, last);
        let sp = tail(snaps, last);
        let ka = first_continuing(ends, snaps, rem, false, p, sp);
        if ka < rem.len() {
            lemma_remove_in_range(rem, ends.len(), ka as int);
            let o2 = ord.push((rem[ka as int], false));
            assert(oriented_in_range(o2, ends.len())) by {
                assert forall|j: int| 0 <= j < o2.len() implies (#[trigger] o2[j]).0 < ends.len() by {
                    if j < ord.len() {
                        assert(o2[j] == ord[j]);
                    }
                }
            }
            lemma_extend_in_range(ends, snaps, o2, rem.remove(ka as int));
        } else {
            let kb = first_continuing(ends, snaps, rem, true, p, sp);
            if kb < rem.len() {
                lemma_remove_in_range(rem, ends.len(), kb as int);
                let o2 = ord.push((rem[kb as int], true));
                assert(oriented_in_range(o2, ends.len())) by {
                    assert forall|j: int| 0 <= j < o2.len() implies (#[trigger] o2[j]).0 < ends.len() by {
                        if j < ord.len() {
                            assert(o2[j] == ord[j]);
                        }
                    }
                }
                lemma_extend_in_range(ends, snaps, o2, rem.remove(kb as int));
            }
        }
    }
}

/// Every chain names only segments of `rem`'s range.
pub proof fn lemma_chains_in_range(
    ends: Seq<(Point, Point)>,
    snaps: Seq<(Point, Point)>,
    rem: Seq<usize>,
)
    requires
        in_range(rem, ends.len()),
    ensures
        forall|i: int|
            0 <= i < chains(ends, snaps, rem).len() ==> oriented_in_range(
                #[trigger] chains(ends, snaps, rem)[i],
                ends.len(),
            ),
    decreases rem.len(),
{
    if rem.len() > 0 {
        let start = seq![(rem[0], false)];
        lemma_remove_in_range(rem, ends.len(), 0);
        assert(rem.remove(0) =~= rem.drop_first());
        lemma_extend_in_range(ends, snaps, start, rem.drop_first());
        lemma_extend_len(ends, snaps, start, rem.drop_first());
        let grown = extend(ends, snaps, start, rem.drop_first());
        lemma_chains_in_range(ends, snaps, grown.1);
        let cs = chains(ends, snaps, rem);
        assert forall|i: int| 0 <= i < cs.len() implies oriented_in_range(#[trigger] cs[i], ends.len()) by {
            if i > 0 {
                assert(cs[i] == chains(ends, snaps, grown.1)[i - 1]);
            }
        }
    }
}

/// The indices `0..n` all name segments.
pub proof fn lemma_indices_in_range(n: nat)
    ensures
        in_range(indices(n), n),
{
}

/// The segments that the oriented segments of `ord` name, in order.
pub open spec fn members(ord: Seq<Oriented>) -> Seq<usize> {
    ord.map_values(|o: Oriented| o.0)
}

/// The segments that the chains name, chain after chain.
pub open spec fn all_members(cs: Seq<Seq<Oriented>>) -> Seq<usize>
    decreases cs.len(),
{
    if cs.len() == 0 {
        Seq::empty()
    } else {
        members(cs[0]) + all_members(cs.drop_first())
    }
}

proof fn lemma_move_one(m: Seq<usize>, rem: Seq<usize>, k: int)
    requires
        0 <= k < rem.len(),
    ensures
        (m.push(rem[k]) + rem.remove(k)).to_multiset() =~= (m + rem).to_multiset(),
{
    broadcast use vstd::seq_lib::group_to_multiset_ensures;
    broadcast use vstd::seq_lib::lemma_multiset_commutative;
    broadcast use vstd::multiset::group_multiset_axioms;

    let x = rem[k];
    assert(rem.to_multiset().count(x) > 0) by {
        assert(rem.contains(x));
    }
    assert((m.push(x) + rem.remove(k)).to_multiset() =~= m.to_multiset().insert(x).add(
        rem.to_multiset().remove(x),
    ));
    assert((m + rem).to_multiset() =~= m.to_multiset().add(rem.to_multiset()));
}

proof fn lemma_extend_members(
    ends: Seq<(Point, Point)>,
    snaps: Seq<(Point, Point)>,
    ord: Seq<Oriented>,
    rem: Seq<usize>,
)
    ensures
        (members(extend(ends, snaps, ord, rem).0) + extend(ends, snaps, ord, rem).1).to_multiset()
            =~= (members(ord) + rem).to_multiset(),
    decreases rem.len(),
{
    if ord.len() > 0 {
        let last = ord.last();
        let p = tail(ends, last);
        let sp = tail(snaps, last);
        let ka = first_continuing(ends, snaps, rem, false, p, sp);
        if ka < rem.len() {
            let o2 = ord.push((rem[ka as int], false));
            lemma_extend_members(ends, snaps, o2, rem.remove(ka as int));
            assert(members(o2) =~= members(ord).push(rem[ka as int]));
            lemma_move_one(members(ord), rem, ka as int);
        } else {
            let kb = first_continuing(ends, snaps, rem, true, p, sp);
            if kb < rem.len() {
                let o2 = ord.push((rem[kb as int], true));
                lemma_extend_members(ends, snaps, o2, rem.remove(kb as int));
                assert(members(o2) =~= members(ord).push(rem[kb as int]));
                lemma_move_one(members(ord), rem, kb as int);
            }
        }
    }
}

/// The chains cut from the segments `rem` name, all together, each segment of
/// `rem` as often as `rem` does: no segment is lost or doubled.
pub proof fn chains_partition(
    ends: Seq<(Point, Point)>,
    snaps: Seq<(Point, Point)>,
    rem: Seq<usize>,
)
    ensures
        all_members(chains(ends, snaps, rem)).to_multiset() =~= rem.to_multiset(),
    decreases rem.len(),
{
    broadcast use vstd::seq_lib::lemma_multiset_commutative;

    if rem.len() > 0 {
        let start = seq![(rem[0], false)];
        let grown = extend(ends, snaps, start, rem.drop_first());
        lemma_extend_len(ends, snaps, start, rem.drop_first());
        lemma_extend_members(ends, snaps, start, rem.drop_first());
        chains_partition(ends, snaps, grown.1);
        let cs = chains(ends, snaps, rem);
        assert(cs[0] == grown.0);
        assert(cs.drop_first() =~= chains(ends, snaps, grown.1));
        assert(members(start) + rem.drop_first() =~= rem);
        assert(all_members(cs) == members(grown.0) + all_members(chains(ends, snaps, grown.1)));
        assert((members(grown.0) + all_members(chains(ends, snaps, grown.1))).to_multiset() =~= members(
            grown.0,
        ).to_multiset().add(all_members(chains(ends, snaps, grown.1)).to_multiset()));
        assert((members(grown.0) + grown.1).to_multiset() =~= members(grown.0).to_multiset().add(
            grown.1.to_multiset(),
        ));
        let a = members(grown.0).to_multiset();
        assert(all_members(chains(ends, snaps, grown.1)).to_multiset() == grown.1.to_multiset());
        assert(all_members(cs).to_multiset() == a.add(grown.1.to_multiset()));
        assert(a.add(grown.1.to_multiset()) == (members(start) + rem.drop_first()).to_multiset());
        assert(all_members(cs).to_multiset() == rem.to_multiset());
    } else {
        assert(all_members(chains(ends, snaps, rem)) =~= rem);
    }
}

/// Whether each oriented segment of `ord` continues the one before it: its
/// start is the previous one's end, or the snapped versions of the two are
/// equal.
pub open spec fn linked(ends: Seq<(Point, Point)>, snaps: Seq<(Point, Point)>, ord: Seq<Oriented>) -> bool {
    forall|k: int, m: int|
        0 <= k && m == k + 1 && m < ord.len() ==> continues(
            ends,
            snaps,
            (#[trigger] ord[m]).0 as int,
            ord[m].1,
            tail(ends, #[trigger] ord[k]),
            tail(snaps, ord[k]),
        )
}

proof fn lemma_first_continuing_hits(
    ends: Seq<(Point, Point)>,
    snaps: Seq<(Point, Point)>,
    rem: Seq<usize>,
    rev: bool,
    p: Point,
    sp: Point,
)
    ensures
        first_continuing(ends, snaps, rem, rev, p, sp) <= rem.len(),
        first_continuing(ends, snaps, rem, rev, p, sp) < rem.len() ==> continues(
            ends,
            snaps,
            rem[first_continuing(ends, snaps, rem, rev, p, sp) as int] as int,
            rev,
            p,
            sp,
        ),
    decreases rem.len(),
{
    if rem.len() > 0 && !continues(ends, snaps, rem[0] as int, rev, p, sp) {
        lemma_first_continuing_hits(ends, snaps, rem.drop_first(), rev, p, sp);
        let f = first_continuing(ends, snaps, rem.drop_first(), rev, p, sp);
        if f < rem.drop_first().len() {
            assert(rem.drop_first()[f as int] == rem[f as int + 1]);
        }
    }
}

proof fn lemma_push_linked(
    ends: Seq<(Point, Point)>,
    snaps: Seq<(Point, Point)>,
    ord: Seq<Oriented>,
    e: Oriented,
)
    requires
        ord.len() > 0,
        linked(ends, snaps, ord),
        continues(ends, snaps, e.0 as int, e.1, tail(ends, ord.last()), tail(snaps, ord.last())),
    ensures
        linked(ends, snaps, ord.push(e)),
{
    let o2 = ord.push(e);
    assert forall|k: int, m: int| 0 <= k && m == k + 1 && m < o2.len() implies continues(
        ends,
        snaps,
        (#[trigger] o2[m]).0 as int,
        o2[m].1,
        tail(ends, #[trigger] o2[k]),
        tail(snaps, o2[k]),
    ) by {
        assert(o2[k] == ord[k]);
        if m < ord.len() {
            assert(o2[m] == ord[m]);
        } else {
            assert(o2[m] == e);
        }
    }
}

proof fn lemma_extend_linked(
    ends: Seq<(Point, Point)>,
    snaps: Seq<(Point, Point)>,
    ord: Seq<Oriented>,
    rem: Seq<usize>,
)
    requires
        linked(ends, snaps, ord),
    ensures
        linked(ends, snaps, extend(ends, snaps, ord, rem).0),
    decreases rem.len(),
{
    if ord.len() > 0 {
        let last = ord.last();
        let p = tail(ends, last);
        let sp = tail(snaps, last);
        let ka = first_continuing(ends, snaps, rem, false, p, sp);
        lemma_first_continuing_hits(ends, snaps, rem, false, p, sp);
        if ka < rem.len() {
            lemma_push_linked(ends, snaps, ord, (rem[ka as int], false));
            lemma_extend_linked(ends, snaps, ord.push((rem[ka as int], false)), rem.remove(ka as int));
        } else {
            let kb = first_continuing(ends, snaps, rem, true, p, sp);
            lemma_first_continuing_hits(ends, snaps, rem, true, p, sp);
            if kb < rem.len() {
                lemma_push_linked(ends, snaps, ord, (rem[kb as int], true));
                lemma_extend_linked(ends, snaps, ord.push((rem[kb as int], true)), rem.remove(kb as int));
            }
        }
    }
}

/// In every chain, each segment starts where the one before it ends (or at a
/// point that snaps to the same place), taken in the chain's direction.
pub proof fn chains_are_linked(ends: Seq<(Point, Point)>, snaps: Seq<(Point, Point)>, rem: Seq<usize>)
    ensures
        forall|i: int|
            0 <= i < chains(ends, snaps, rem).len() ==> linked(
                ends,
                snaps,
                #[trigger] chains(ends, snaps, rem)[i],
            ),
    decreases rem.len(),
{
    if rem.len() > 0 {
        let start = seq![(rem[0], false)];
        let grown = extend(ends, snaps, start, rem.drop_first());
        lemma_extend_len(ends, snaps, start, rem.drop_first());
        lemma_extend_linked(ends, snaps, start, rem.drop_first());
        chains_are_linked(ends, snaps, grown.1);
        let cs = chains(ends, snaps, rem);
        assert forall|i: int| 0 <= i < cs.len() implies linked(ends, snaps, #[trigger] cs[i]) by {
            if i > 0 {
                assert(cs[i] == chains(ends, snaps, grown.1)[i - 1]);
            }
        }
    }
}

} // verus!
