use vstd::prelude::*;
use crate::json_input::{json_i64_array, parse_i64_array, JsonInputError};

verus! {

/// Whether `ts` is in non-decreasing order.
pub open spec fn sorted(ts: Seq<i64>) -> bool {
    forall|a: int, b: int| 0 <= a <= b < ts.len() ==> ts[a] <= ts[b]
}

/// Where a target time falls among the sorted timestamps of a trajectory.
#[derive(Clone, Copy, Debug, PartialEq, Eq, Structural)]
pub enum PoseBracket {
    /// The sample at this index has exactly the target time.
    Exact(usize),
    /// The target time lies strictly between the samples at `index - 1` and `index`.
    Between(usize),
    /// The target time lies before the first sample or after the last one.
    Outside,
}

/// Locates `target_us` among the sorted timestamps `ts` by binary search.
pub fn pose_bracket(ts: &Vec<i64>, target_us: i64) -> (r: PoseBracket)
    requires
        sorted(ts@),
    ensures
        match r {
            PoseBracket::Exact(i) => i < ts@.len() && ts@[i as int] == target_us,
            PoseBracket::Between(i) => 0 < i < ts@.len() && ts@[i - 1] < target_us < ts@[i as int],
            PoseBracket::Outside => ts@.len() == 0 || target_us < ts@[0] || ts@[ts@.len() - 1]
                < target_us,
        },
{
    let mut lo: usize = 0;
    let mut hi: usize = ts.len();
    while lo < hi
        invariant
            sorted(ts@),
            lo <= hi <= ts@.len(),
            forall|k: int| 0 <= k < lo ==> ts@[k] < target_us,
            forall|k: int| hi <= k < ts@.len() ==> target_us < ts@[k],
        decreases hi - lo,
    {
        let mid = lo + (hi - lo) / 2;
        if ts[mid] == target_us {
            return PoseBracket::Exact(mid);
        } else if ts[mid] < target_us {
            lo = mid + 1;
        } else {
            hi = mid;
        }
    }
    if lo == 0 || lo == ts.len() {
        PoseBracket::Outside
    } else {
        PoseBracket::Between(lo)
    }
}

/// `x / 1000` rounded toward zero, as integer division does.
pub open spec fn div_1000(x: int) -> int {
    if x >= 0 {
        x / 1000
    } else {
        -((-x) / 1000)
    }
}

/// Converts frame timestamps from nanoseconds to microseconds, rounding toward zero.
pub fn timestamps_ns_to_us(ns: &Vec<i64>) -> (us: Vec<i64>)
    ensures
        us@.len() == ns@.len(),
        forall|k: int| 0 <= k < ns@.len() ==> us@[k] as int == div_1000(ns@[k] as int),
{
    let mut us: Vec<i64> = Vec::new();
    for k in 0..ns.len()
        invariant
            us@.len() == k,
            forall|q: int| 0 <= q < k ==> us@[q] as int == div_1000(ns@[q] as int),
    {
        let x: i128 = ns[k] as i128;
        let q: i128 = if x >= 0 {
            x / 1000
        } else {
            -((-x) / 1000)
        };
        let v: i64 = q as i64;
        us.push(v);
    }
    us
}

/// The microsecond timestamps `us` are the nanosecond timestamps `ns`, each
/// divided by 1000 and rounded toward zero.
pub open spec fn us_from_ns(ns: Seq<i64>, us: Seq<i64>) -> bool {
    &&& us.len() == ns.len()
    &&& forall|k: int| 0 <= k < ns.len() ==> us[k] as int == div_1000(ns[k] as int)
}

/// Reads the frame timestamps of a recording: a JSON array of nanosecond
/// timestamps, given back in microseconds.
pub fn frame_timestamps_us(text: &str) -> (r: Result<Vec<i64>, JsonInputError>)
    ensures
        r is Ok <==> json_i64_array(text@) is Some,
        r matches Ok(us) ==> us_from_ns(json_i64_array(text@)->0, us@),
{
    match parse_i64_array(text) {
        Ok(ns) => Ok(timestamps_ns_to_us(&ns)),
        Err(e) => Err(JsonInputError::Parse(e)),
    }
}

/// Sample `x` comes before sample `y` in time order: it is earlier, or as
/// early and first in the input (a stable order).
pub open spec fn comes_before(ts: Seq<i64>, x: usize, y: usize) -> bool {
    ts[x as int] < ts[y as int] || (ts[x as int] == ts[y as int] && x < y)
}

/// Whether `order` lists each of `0..n` once, in time order.
pub open spec fn time_order(ts: Seq<i64>, order: Seq<usize>, n: nat) -> bool {
    &&& order.len() == n
    &&& forall|a: int| 0 <= a < order.len() ==> #[trigger] order[a] < n
    &&& forall|a: int, b: int| 0 <= a < b < order.len() ==> comes_before(ts, #[trigger] order[a], #[trigger] order[b])
}

/// The order that sorts the samples stamped `ts` by time, samples with equal
/// stamps kept in input order, as a stable sort by timestamp leaves them:
/// `order[k]` is the index of the `k`-th sample after sorting.
pub fn sort_by_timestamp(ts: &Vec<i64>) -> (order: Vec<usize>)
    ensures
        time_order(ts@, order@, ts@.len()),
{
    let mut order: Vec<usize> = Vec::new();
    for i in 0..ts.len()
        invariant
            time_order(ts@, order@, i as nat),
    {
        let t = ts[i];
        let mut k: usize = 0;
        while k < order.len() && ts[order[k]] <= t
            invariant
                time_order(ts@, order@, i as nat),
                i < ts@.len(),
                t == ts@[i as int],
                k <= order@.len(),
                forall|a: int| 0 <= a < k ==> ts@[order@[a] as int] <= t,
            decreases order@.len() - k,
        {
            k = k + 1;
        }
        let ghost before = order@;
        proof {
            assert forall|m: int| k <= m < before.len() implies ts@[before[m] as int] > t by {
                assert(ts@[before[k as int] as int] > t);
                if m > k {
                    assert(comes_before(ts@, before[k as int], before[m]));
                }
            }
        }
        order.insert(k, i);
        proof {
            let o = order@;
            assert forall|a: int| 0 <= a < o.len() implies #[trigger] o[a] < i + 1 by {
                if a < k {
                    assert(o[a] == before[a]);
                } else if a > k {
                    assert(o[a] == before[a - 1]);
                }
            }
            assert forall|a: int, b: int| 0 <= a < b < o.len() implies comes_before(ts@, #[trigger] o[a], #[trigger] o[b]) by {
                if a < k && b < k {
                    assert(o[a] == before[a] && o[b] == before[b]);
                } else if a < k && b == k {
                    assert(o[a] == before[a]);
                    assert(before[a] < i);
                } else if a < k {
                    assert(o[a] == before[a] && o[b] == before[b - 1]);
                } else if a == k {
                    assert(o[b] == before[b - 1]);
                } else {
                    assert(o[a] == before[a - 1] && o[b] == before[b - 1]);
                }
            }
        }
    }
    order
}

} // verus!
