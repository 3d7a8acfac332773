use vstd::prelude::*;

verus! {

/// The positions of `ids` that hold `id`, in increasing order.
pub open spec fn positions_of(ids: Seq<usize>, id: usize) -> Seq<usize>
    decreases ids.len(),
{
    if ids.len() == 0 {
        Seq::empty()
    } else {
        let rest = positions_of(ids.drop_last(), id);
        if ids.last() == id {
            rest.push((ids.len() - 1) as usize)
        } else {
            rest
        }
    }
}

/// Whether the tag `id` was observed, and at least `min` times.
pub open spec fn kept(ids: Seq<usize>, id: usize, min: usize) -> bool {
    ids.contains(id) && positions_of(ids, id).len() >= min
}

/// Whether no value occurs twice in `s`.
pub open spec fn no_duplicates(s: Seq<usize>) -> bool {
    forall|a: int, b: int| 0 <= a < b < s.len() ==> s[a] != s[b]
}

fn contains_id(s: &Vec<usize>, id: usize) -> (r: bool)
    ensures
        r == s@.contains(id),
{
    let mut k: usize = 0;
    while k < s.len()
        invariant
            k <= s@.len(),
            forall|m: int| 0 <= m < k ==> s@[m] != id,
        decreases s@.len() - k,
    {
        if s[k] == id {
            return true;
        }
        k = k + 1;
    }
    false
}

/// The positions of `ids` that hold `id`; see `positions_of`.
pub fn positions(ids: &Vec<usize>, id: usize) -> (r: Vec<usize>)
    ensures
        r@ == positions_of(ids@, id),
{
    let mut r: Vec<usize> = Vec::new();
    for k in 0..ids.len()
        invariant
            r@ == positions_of(ids@.take(k as int), id),
    {
        assert(ids@.take(k + 1).drop_last() =~= ids@.take(k as int));
        if ids[k] == id {
            r.push(k);
        }
    }
    assert(ids@.take(ids@.len() as int) =~= ids@);
    r
}

/// The distinct values of `ids`.
fn distinct_ids(ids: &Vec<usize>) -> (d: Vec<usize>)
    ensures
        no_duplicates(d@),
        forall|x: usize| d@.contains(x) <==> ids@.contains(x),
{
    let mut d: Vec<usize> = Vec::new();
    for k in 0..ids.len()
        invariant
            no_duplicates(d@),
            forall|x: usize| d@.contains(x) <==> ids@.take(k as int).contains(x),
    {
        let x = ids[k];
        let ghost old_d = d@;
        let ghost t0 = ids@.take(k as int);
        let ghost t1 = ids@.take(k + 1);
        assert forall|y: usize| t1.contains(y) <==> (t0.contains(y) || y == x) by {
            if t1.contains(y) {
                let w = choose|w: int| 0 <= w < t1.len() && t1[w] == y;
                if w < k {
                    assert(t0[w] == y);
                }
            }
            if t0.contains(y) {
                let w = choose|w: int| 0 <= w < t0.len() && t0[w] == y;
                assert(t1[w] == y);
            }
            if y == x {
                assert(t1[k as int] == y);
            }
        }
        if !contains_id(&d, x) {
            d.push(x);
            assert forall|y: usize| d@.contains(y) <==> (old_d.contains(y) || y == x) by {
                if d@.contains(y) {
                    let w = choose|w: int| 0 <= w < d@.len() && d@[w] == y;
                    if w < old_d.len() {
                        assert(old_d[w] == y);
                    }
                }
                if old_d.contains(y) {
                    let w = choose|w: int| 0 <= w < old_d.len() && old_d[w] == y;
                    assert(d@[w] == y);
                }
                if y == x {
                    assert(d@[old_d.len() as int] == y);
                }
            }
        }
        assert forall|y: usize| d@.contains(y) <==> t1.contains(y) by {
            assert(t1.contains(y) <==> (t0.contains(y) || y == x));
            assert(old_d.contains(y) <==> t0.contains(y));
        }
    }
    assert(ids@.take(ids@.len() as int) =~= ids@);
    d
}

/// The observations of each tag, for the tags observed at least
/// `min_observations` times: each entry holds a tag id and the positions of
/// `tag_ids` that hold it, in order. The entries come by increasing tag id.
pub fn group_observations(tag_ids: &Vec<usize>, min_observations: usize) -> (r: Vec<
    (usize, Vec<usize>),
>)
    ensures
        forall|g: int|
            0 <= g < r@.len() ==> (#[trigger] r@[g]).1@ == positions_of(tag_ids@, r@[g].0) && kept(
                tag_ids@,
                r@[g].0,
                min_observations,
            ),
        forall|a: int, b: int| 0 <= a < b < r@.len() ==> r@[a].0 < r@[b].0,
        forall|id: usize|
            kept(tag_ids@, id, min_observations) ==> exists|g: int|
                0 <= g < r@.len() && (#[trigger] r@[g]).0 == id,
{
    let ids = tag_ids;
    let mut rest = distinct_ids(ids);
    let mut r: Vec<(usize, Vec<usize>)> = Vec::new();
    while rest.len() > 0
        invariant
            no_duplicates(rest@),
            forall|x: usize| rest@.contains(x) ==> ids@.contains(x),
            forall|x: usize|
                ids@.contains(x) && !rest@.contains(x) && kept(ids@, x, min_observations)
                    ==> exists|g: int| 0 <= g < r@.len() && (#[trigger] r@[g]).0 == x,
            forall|g: int, x: int| 0 <= g < r@.len() && 0 <= x < rest@.len() ==> (#[trigger] r@[g]).0 < #[trigger] rest@[x],
            forall|a: int, b: int| 0 <= a < b < r@.len() ==> r@[a].0 < r@[b].0,
            forall|g: int|
                0 <= g < r@.len() ==> (#[trigger] r@[g]).1@ == positions_of(ids@, r@[g].0) && kept(
                    ids@,
                    r@[g].0,
                    min_observations,
                ),
        decreases rest@.len(),
    {
        let mut best: usize = 0;
        for k in 1..rest.len()
            invariant
                best < rest@.len(),
                forall|q: int| 0 <= q < k ==> rest@[best as int] <= rest@[q],
        {
            if rest[k] < rest[best] {
                best = k;
            }
        }
        let ghost old_rest = rest@;
        let ghost old_r = r@;
        let m = rest.remove(best);
        assert(old_rest.contains(m)) by {
            assert(old_rest[best as int] == m);
        }
        assert forall|x: int| 0 <= x < rest@.len() implies m < #[trigger] rest@[x] by {
            if x < best {
                assert(rest@[x] == old_rest[x]);
            } else {
                assert(rest@[x] == old_rest[x + 1]);
            }
        }
        assert forall|x: usize| #[trigger] rest@.contains(x) implies old_rest.contains(x) && x != m by {
            let w = choose|w: int| 0 <= w < rest@.len() && rest@[w] == x;
            if w < best {
                assert(old_rest[w] == x);
            } else {
                assert(old_rest[w + 1] == x);
            }
        }
        assert forall|x: usize| old_rest.contains(x) && x != m implies #[trigger] rest@.contains(x) by {
            let w = choose|w: int| 0 <= w < old_rest.len() && old_rest[w] == x;
            if w < best {
                assert(rest@[w] == x);
            } else {
                assert(w != best);
                assert(rest@[w - 1] == x);
            }
        }
        assert(no_duplicates(rest@)) by {
            assert forall|a: int, b: int| 0 <= a < b < rest@.len() implies rest@[a] != rest@[b] by {
                let a2 = if a < best { a } else { a + 1 };
                let b2 = if b < best { b } else { b + 1 };
                assert(rest@[a] == old_rest[a2]);
                assert(rest@[b] == old_rest[b2]);
            }
        }
        let ps = positions(ids, m);
        if ps.len() >= min_observations {
            r.push((m, ps));
            assert forall|g: int, x: int| 0 <= g < r@.len() && 0 <= x < rest@.len() implies (
            #[trigger] r@[g]).0 < #[trigger] rest@[x] by {
                if g < old_r.len() {
                    assert(r@[g] == old_r[g]);
                    let x2 = if x < best { x } else { x + 1 };
                    assert(rest@[x] == old_rest[x2]);
                }
            }
            assert forall|a: int, b: int| 0 <= a < b < r@.len() implies r@[a].0 < r@[b].0 by {
                if b == old_r.len() {
                    assert(r@[a] == old_r[a]);
                    assert(old_r[a].0 < old_rest[best as int]);
                } else {
                    assert(r@[a] == old_r[a]);
                    assert(r@[b] == old_r[b]);
                }
            }
            assert forall|g: int| 0 <= g < r@.len() implies (#[trigger] r@[g]).1@ == positions_of(
                ids@,
                r@[g].0,
            ) && kept(ids@, r@[g].0, min_observations) by {
                if g < old_r.len() {
                    assert(r@[g] == old_r[g]);
                }
            }
            assert forall|x: usize|
                ids@.contains(x) && !rest@.contains(x) && kept(
                    ids@,
                    x,
                    min_observations,
                ) implies exists|g: int| 0 <= g < r@.len() && (#[trigger] r@[g]).0 == x by {
                if x == m {
                    assert(r@[old_r.len() as int].0 == x);
                } else {
                    let g = choose|g: int| 0 <= g < old_r.len() && (#[trigger] old_r[g]).0 == x;
                    assert(r@[g] == old_r[g]);
                }
            }
        } else {
            assert forall|g: int, x: int| 0 <= g < r@.len() && 0 <= x < rest@.len() implies (
            #[trigger] r@[g]).0 < #[trigger] rest@[x] by {
                let x2 = if x < best { x } else { x + 1 };
                assert(rest@[x] == old_rest[x2]);
            }
        }
    }
    r
}

proof fn lemma_position(ids: Seq<usize>, id: usize, m: usize)
    requires
        ids.len() <= usize::MAX,
    ensures
        positions_of(ids, id).contains(m) <==> (m < ids.len() && ids[m as int] == id),
    decreases ids.len(),
{
    if ids.len() == 0 {
        assert(positions_of(ids, id).len() == 0);
    } else {
        let d = ids.drop_last();
        let n = (ids.len() - 1) as usize;
        lemma_position(d, id, m);
        let r = positions_of(d, id);
        if m < n {
            assert(d[m as int] == ids[m as int]);
        }
        if ids.last() == id {
            let full = r.push(n);
            assert(positions_of(ids, id) == full);
            if full.contains(m) {
                let w = choose|w: int| 0 <= w < full.len() && full[w] == m;
                if w < r.len() {
                    assert(r[w] == m);
                    assert(r.contains(m));
                }
            }
            if m < ids.len() && ids[m as int] == id {
                if m < n {
                    assert(r.contains(m));
                    let w = choose|w: int| 0 <= w < r.len() && r[w] == m;
                    assert(full[w] == m);
                } else {
                    assert(full[r.len() as int] == m);
                }
            }
        } else {
            assert(positions_of(ids, id) == r);
            if m == n {
                assert(ids[m as int] == ids.last());
            }
        }
    }
}

/// The positions of a tag are exactly the observations of that tag: a
/// position is listed for `id` when, and only when, the observation there is
/// of tag `id`. With `group_observations`, every observation of a kept tag
/// is in its tag's entry and in no other.
pub proof fn positions_are_exact(ids: Seq<usize>, id: usize)
    requires
        ids.len() <= usize::MAX,
    ensures
        forall|m: usize| #[trigger] positions_of(ids, id).contains(m) <==> (m < ids.len() && ids[m as int] == id),
{
    assert forall|m: usize| #[trigger] positions_of(ids, id).contains(m) <==> (m < ids.len() && ids[m as int] == id) by {
        lemma_position(ids, id, m);
    }
}

} // verus!
