use vstd::prelude::*;

verus! {

/// Values that carry a timestamp in nanoseconds.
pub trait Timestamped {
    spec fn stamp(&self) -> u64;

    fn timestamp(&self) -> (t: u64)
        ensures
            t == self.stamp(),
    ;
}

/// The queue is ordered from the latest timestamp to the earliest, so that the
/// earliest message is at the end.
pub open spec fn sorted_desc<T: Timestamped>(s: Seq<T>) -> bool {
    forall|i: int, j: int| 0 <= i < j < s.len() ==> s[i].stamp() >= s[j].stamp()
}

/// The number of messages of `s` stamped strictly after `t`.
pub open spec fn count_above<T: Timestamped>(s: Seq<T>, t: int) -> nat
    decreases s.len(),
{
    if s.len() == 0 {
        0
    } else {
        (if s.last().stamp() > t { 1nat } else { 0nat }) + count_above(s.drop_last(), t)
    }
}

/// In a sorted queue the messages stamped after `t` are exactly the first `i` ones.
pub proof fn lemma_count_above_prefix<T: Timestamped>(s: Seq<T>, t: int, i: int)
    requires
        sorted_desc(s),
        0 <= i <= s.len(),
        forall|j: int| 0 <= j < i ==> s[j].stamp() > t,
        forall|j: int| i <= j < s.len() ==> s[j].stamp() <= t,
    ensures
        count_above(s, t) == i,
    decreases s.len(),
{
    if s.len() > 0 {
        let s2 = s.drop_last();
        if s.last().stamp() > t {
            assert(i == s.len());
            lemma_count_above_prefix(s2, t, i - 1);
        } else {
            lemma_count_above_prefix(s2, t, i);
        }
    }
}

/// Facts about the split point of a sorted queue.
pub proof fn lemma_count_above_bounds<T: Timestamped>(s: Seq<T>, t: int)
    requires
        sorted_desc(s),
    ensures
        count_above(s, t) <= s.len(),
        forall|j: int| 0 <= j < count_above(s, t) ==> s[j].stamp() > t,
        forall|j: int| count_above(s, t) <= j < s.len() ==> s[j].stamp() <= t,
    decreases s.len(),
{
    if s.len() > 0 {
        let s2 = s.drop_last();
        let n = s.len() - 1;
        assert forall|j: int| 0 <= j < n implies s2[j] == s[j] by {}
        lemma_count_above_bounds(s2, t);
        let c2 = count_above(s2, t);
        if s[n].stamp() > t {
            if c2 < n {
                assert(s[n - 1].stamp() >= s[n].stamp());
                assert(s2[n - 1].stamp() <= t);
            }
            assert(c2 == n);
            assert(count_above(s, t) == n + 1);
        } else {
            assert(count_above(s, t) == c2);
        }
    }
}

/// Inserts `x` into a queue ordered from latest to earliest, after every
/// message stamped strictly later than `x` and before the others.
pub fn insert_sorted<T: Timestamped>(v: &mut Vec<T>, x: T)
    requires
        sorted_desc(old(v)@),
    ensures
        final(v)@ == old(v)@.insert(count_above(old(v)@, x.stamp() as int) as int, x),
        sorted_desc(final(v)@),
{
    let t = x.timestamp();
    let mut i: usize = 0;
    while i < v.len() && v[i].timestamp() > t
        invariant
            v@ == old(v)@,
            sorted_desc(v@),
            0 <= i <= v@.len(),
            forall|j: int| 0 <= j < i ==> v@[j].stamp() > t,
        decreases v@.len() - i,
    {
        i = i + 1;
    }
    proof {
        assert forall|j: int| i <= j < v@.len() implies v@[j].stamp() <= t by {
            assert(v@[i as int].stamp() <= t);
            assert(v@[i as int].stamp() >= v@[j].stamp());
        }
        lemma_count_above_prefix(v@, t as int, i as int);
    }
    let ghost before = v@;
    v.insert(i, x);
    proof {
        let s = v@;
        assert forall|a: int, b: int| 0 <= a < b < s.len() implies s[a].stamp() >= s[b].stamp() by {
            if a < i && b < i {
                assert(s[a] == before[a] && s[b] == before[b]);
            } else if a < i && b == i {
                assert(s[a] == before[a]);
            } else if a < i {
                assert(s[a] == before[a] && s[b] == before[b - 1]);
            } else if a == i {
                assert(s[b] == before[b - 1]);
            } else {
                assert(s[a] == before[a - 1] && s[b] == before[b - 1]);
            }
        }
    }
}

/// Removes from the end of a queue ordered from latest to earliest every
/// message stamped at or before `up_to`, and returns them earliest first.
pub fn pop_until<T: Timestamped>(v: &mut Vec<T>, up_to: u64) -> (out: Vec<T>)
    requires
        sorted_desc(old(v)@),
    ensures
        final(v)@ == old(v)@.take(count_above(old(v)@, up_to as int) as int),
        out@ == old(v)@.skip(count_above(old(v)@, up_to as int) as int).reverse(),
        sorted_desc(final(v)@),
{
    let ghost s = v@;
    let ghost k = count_above(s, up_to as int) as int;
    proof {
        lemma_count_above_bounds(s, up_to as int);
    }
    let mut out: Vec<T> = Vec::new();
    while v.len() > 0 && v[v.len() - 1].timestamp() <= up_to
        invariant
            k <= v@.len() <= s.len(),
            v@ == s.take(v@.len() as int),
            out@ == s.skip(v@.len() as int).reverse(),
            forall|j: int| 0 <= j < k ==> s[j].stamp() > up_to,
            forall|j: int| k <= j < s.len() ==> s[j].stamp() <= up_to,
        decreases v@.len(),
    {
        let ghost n = v@.len() as int;
        let m = v.pop().unwrap();
        assert(m == s[n - 1]);
        out.push(m);
        assert(v@ =~= s.take(n - 1));
        assert(out@ =~= s.skip(n - 1).reverse());
    }
    assert(v@.len() == k);
    out
}

} // verus!
