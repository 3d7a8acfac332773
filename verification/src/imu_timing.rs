use vstd::prelude::*;

verus! {

/// The time of a synchronized image pair: the mean of the two timestamps,
/// rounded down.
pub fn pair_time(left_ns: u64, right_ns: u64) -> (t: u64)
    requires
        left_ns + right_ns <= u64::MAX,
    ensures
        t == (left_ns + right_ns) / 2,
{
    (left_ns + right_ns) / 2
}

/// Whether IMU samples stamped `stamps` can be integrated after a last known
/// time `last`: the stamps never go back in time, starting from `last`.
pub open spec fn steps_forward(last: Option<u64>, stamps: Seq<u64>) -> bool {
    &&& forall|k: int| 0 < k < stamps.len() ==> stamps[k - 1] <= #[trigger] stamps[k]
    &&& (stamps.len() > 0 && last is Some) ==> last->0 <= stamps[0]
}

/// The time elapsed before sample `k`: since `last` for the first sample,
/// since the previous sample for the others; `None` when no time is known
/// yet, which makes the sample only set the clock.
pub open spec fn step_before(last: Option<u64>, stamps: Seq<u64>, k: int) -> Option<u64> {
    if k == 0 {
        match last {
            Some(p) => Some((stamps[0] - p) as u64),
            None => None,
        }
    } else {
        Some((stamps[k] - stamps[k - 1]) as u64)
    }
}

/// The integration steps of the IMU samples stamped `stamps`, in order, after
/// a last known time `last`; see `step_before`. Also gives the time known
/// afterwards: that of the last sample, or `last` when there is none.
pub fn imu_steps(last: Option<u64>, stamps: &Vec<u64>) -> (r: (Vec<Option<u64>>, Option<u64>))
    requires
        steps_forward(last, stamps@),
    ensures
        r.0@.len() == stamps@.len(),
        forall|k: int| 0 <= k < stamps@.len() ==> #[trigger] r.0@[k] == step_before(last, stamps@, k),
        r.1 == (if stamps@.len() == 0 {
            last
        } else {
            Some(stamps@[stamps@.len() - 1])
        }),
{
    let mut steps: Vec<Option<u64>> = Vec::new();
    let mut clock = last;
    for k in 0..stamps.len()
        invariant
            steps_forward(last, stamps@),
            steps@.len() == k,
            forall|q: int| 0 <= q < k ==> #[trigger] steps@[q] == step_before(last, stamps@, q),
            clock == (if k == 0 {
                last
            } else {
                Some(stamps@[k - 1])
            }),
    {
        let t = stamps[k];
        let step = match clock {
            Some(p) => Some(t - p),
            None => None,
        };
        steps.push(step);
        clock = Some(t);
    }
    (steps, clock)
}

} // verus!
