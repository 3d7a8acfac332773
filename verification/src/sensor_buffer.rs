use vstd::prelude::*;

use crate::sensor::{ImageMessage, ImuMessage};
use crate::timed::{
    count_above, insert_sorted, lemma_count_above_bounds, lemma_count_above_prefix, pop_until,
    sorted_desc, Timestamped,
};

verus! {

/// The largest gap, in nanoseconds, between a left and a right image that
/// still form a synchronized pair.
pub const MAX_SYNC_GAP_NS: u64 = 5_000_000;

/// The gap between two image timestamps as the buffer computes it: each
/// timestamp is taken as an `i64` and the right one is subtracted.
pub open spec fn pair_gap(a: ImageMessage, b: ImageMessage) -> int {
    (a.timestamp_ns as i64) as int - (b.timestamp_ns as i64) as int
}

pub open spec fn gap_overflows(a: ImageMessage, b: ImageMessage) -> bool {
    pair_gap(a, b) < i64::MIN || pair_gap(a, b) > i64::MAX
}

pub open spec fn abs(x: int) -> int {
    if x < 0 { -x } else { x }
}

/// Whether searching for a synchronized pair meets a gap that does not fit an `i64`.
pub open spec fn sync_overflows(l: Seq<ImageMessage>, r: Seq<ImageMessage>) -> bool
    decreases l.len() + r.len(),
{
    if l.len() == 0 || r.len() == 0 {
        false
    } else {
        let a = l.last();
        let b = r.last();
        if gap_overflows(a, b) {
            true
        } else if abs(pair_gap(a, b)) <= MAX_SYNC_GAP_NS {
            false
        } else if a.timestamp_ns < b.timestamp_ns {
            sync_overflows(l.drop_last(), r)
        } else {
            sync_overflows(l, r.drop_last())
        }
    }
}

/// The search for a synchronized pair on left and right queues ordered from
/// latest to earliest: while both are non-empty, the earliest images of both
/// sides form a pair when their gap is at most `MAX_SYNC_GAP_NS`; otherwise
/// the earlier of the two is dropped. Gives the remaining queues and the pair.
pub open spec fn synced(l: Seq<ImageMessage>, r: Seq<ImageMessage>) -> (
    Seq<ImageMessage>,
    Seq<ImageMessage>,
    Option<(ImageMessage, ImageMessage)>,
)
    decreases l.len() + r.len(),
{
    if l.len() == 0 || r.len() == 0 {
        (l, r, None)
    } else {
        let a = l.last();
        let b = r.last();
        if abs(pair_gap(a, b)) <= MAX_SYNC_GAP_NS {
            (l.drop_last(), r.drop_last(), Some((a, b)))
        } else if a.timestamp_ns < b.timestamp_ns {
            synced(l.drop_last(), r)
        } else {
            synced(l, r.drop_last())
        }
    }
}

/// Buffers of sensor messages waiting to be consumed, each ordered by time.
#[derive(Clone, Debug)]
pub struct SensorBuffer {
    imus: Vec<ImuMessage>,
    left_image: Vec<ImageMessage>,
    right_image: Vec<ImageMessage>,
}

impl SensorBuffer {
    /// The buffered IMU samples, from the latest to the earliest.
    pub closed spec fn imu_queue(&self) -> Seq<ImuMessage> {
        self.imus@
    }

    /// The buffered left-camera images, from the latest to the earliest.
    pub closed spec fn left_queue(&self) -> Seq<ImageMessage> {
        self.left_image@
    }

    /// The buffered right-camera images, from the latest to the earliest.
    pub closed spec fn right_queue(&self) -> Seq<ImageMessage> {
        self.right_image@
    }

    pub open spec fn wf(&self) -> bool {
        &&& sorted_desc(self.imu_queue())
        &&& sorted_desc(self.left_queue())
        &&& sorted_desc(self.right_queue())
    }

    pub fn new() -> (b: SensorBuffer)
        ensures
            b.wf(),
            b.imu_queue() == Seq::<ImuMessage>::empty(),
            b.left_queue() == Seq::<ImageMessage>::empty(),
            b.right_queue() == Seq::<ImageMessage>::empty(),
    {
        SensorBuffer { imus: Vec::new(), left_image: Vec::new(), right_image: Vec::new() }
    }

    pub fn push_imu(&mut self, imu: ImuMessage)
        requires
            old(self).wf(),
        ensures
            final(self).wf(),
            final(self).imu_queue() == old(self).imu_queue().insert(
                count_above(old(self).imu_queue(), imu.timestamp_ns as int) as int,
                imu,
            ),
            final(self).left_queue() == old(self).left_queue(),
            final(self).right_queue() == old(self).right_queue(),
    {
        insert_sorted(&mut self.imus, imu);
    }

    /// Buffers an image with the images of its camera: camera 0 is the left
    /// one, every other camera the right one.
    pub fn push_image(&mut self, image: ImageMessage)
        requires
            old(self).wf(),
        ensures
            final(self).wf(),
            final(self).imu_queue() == old(self).imu_queue(),
            image.camera == 0 ==> {
                &&& final(self).left_queue() == old(self).left_queue().insert(
                    count_above(old(self).left_queue(), image.timestamp_ns as int) as int,
                    image,
                )
                &&& final(self).right_queue() == old(self).right_queue()
            },
            image.camera != 0 ==> {
                &&& final(self).right_queue() == old(self).right_queue().insert(
                    count_above(old(self).right_queue(), image.timestamp_ns as int) as int,
                    image,
                )
                &&& final(self).left_queue() == old(self).left_queue()
            },
    {
        if image.camera == 0 {
            insert_sorted(&mut self.left_image, image);
        } else {
            insert_sorted(&mut self.right_image, image);
        }
    }

    /// Removes and returns, earliest first, every IMU sample stamped at or
    /// before `up_to_ns`.
    pub fn drain_imu_until(&mut self, up_to_ns: u64) -> (out: Vec<ImuMessage>)
        requires
            old(self).wf(),
        ensures
            final(self).wf(),
            final(self).imu_queue() == old(self).imu_queue().take(
                count_above(old(self).imu_queue(), up_to_ns as int) as int,
            ),
            out@ == old(self).imu_queue().skip(
                count_above(old(self).imu_queue(), up_to_ns as int) as int,
            ).reverse(),
            final(self).left_queue() == old(self).left_queue(),
            final(self).right_queue() == old(self).right_queue(),
    {
        pop_until(&mut self.imus, up_to_ns)
    }

    /// Whether `pop_synced_image` would meet a timestamp gap that does not fit
    /// an `i64`; see `sync_overflows`.
    pub fn sync_overflows_now(&self) -> (r: bool)
        ensures
            r == sync_overflows(self.left_queue(), self.right_queue()),
    {
        let ghost l = self.left_queue();
        let ghost rq = self.right_queue();
        let mut il = self.left_image.len();
        let mut ir = self.right_image.len();
        assert(l.take(il as int) =~= l);
        assert(rq.take(ir as int) =~= rq);
        loop
            invariant
                l == self.left_image@,
                rq == self.right_image@,
                il <= l.len(),
                ir <= rq.len(),
                sync_overflows(l, rq) == sync_overflows(l.take(il as int), rq.take(ir as int)),
            decreases il + ir,
        {
            if il == 0 || ir == 0 {
                return false;
            }
            let ghost lt = l.take(il as int);
            let ghost rt = rq.take(ir as int);
            let a = self.left_image[il - 1].timestamp_ns;
            let b = self.right_image[ir - 1].timestamp_ns;
            assert(lt.last().timestamp_ns == a);
            assert(rt.last().timestamp_ns == b);
            let ai: i64 = #[verifier::truncate] (a as i64);
            let bi: i64 = #[verifier::truncate] (b as i64);
            let gap: i128 = ai as i128 - bi as i128;
            if gap < i64::MIN as i128 || gap > i64::MAX as i128 {
                return true;
            }
            let dist: i128 = if gap < 0 {
                -gap
            } else {
                gap
            };
            if dist <= MAX_SYNC_GAP_NS as i128 {
                return false;
            }
            if a < b {
                assert(lt.drop_last() =~= l.take(il - 1));
                il = il - 1;
            } else {
                assert(rt.drop_last() =~= rq.take(ir - 1));
                ir = ir - 1;
            }
        }
    }

    /// Looks for the earliest pair of a left and a right image at most
    /// `MAX_SYNC_GAP_NS` apart, dropping on the way each earliest image that
    /// cannot be paired; see `synced`.
    pub fn pop_synced_image(&mut self) -> (r: Option<(ImageMessage, ImageMessage)>)
        requires
            old(self).wf(),
            !sync_overflows(old(self).left_queue(), old(self).right_queue()),
        ensures
            final(self).wf(),
            final(self).imu_queue() == old(self).imu_queue(),
            (final(self).left_queue(), final(self).right_queue(), r) == synced(
                old(self).left_queue(),
                old(self).right_queue(),
            ),
    {
        loop
            invariant
                self.wf(),
                self.imu_queue() == old(self).imu_queue(),
                synced(self.left_queue(), self.right_queue()) == synced(
                    old(self).left_queue(),
                    old(self).right_queue(),
                ),
                !sync_overflows(self.left_queue(), self.right_queue()),
            decreases self.left_queue().len() + self.right_queue().len(),
        {
            let nl = self.left_image.len();
            let nr = self.right_image.len();
            if nl == 0 || nr == 0 {
                return None;
            }
            let left_ts = self.left_image[nl - 1].timestamp_ns;
            let right_ts = self.right_image[nr - 1].timestamp_ns;
            let gap: i64 = (left_ts as i64) - (right_ts as i64);
            let dist: u64 = if gap >= 0 {
                gap as u64
            } else {
                ((-(gap + 1)) as u64) + 1
            };
            if dist <= MAX_SYNC_GAP_NS {
                let left = self.left_image.pop().unwrap();
                let right = self.right_image.pop().unwrap();
                return Some((left, right));
            }
            if left_ts < right_ts {
                self.left_image.pop();
            } else {
                self.right_image.pop();
            }
        }
    }
}

/// A synchronized pair is at most `MAX_SYNC_GAP_NS` apart, its left image
/// comes from the left queue and its right image from the right queue, and the
/// search only drops images from the early end of each queue.
pub proof fn synced_pair_is_close(l: Seq<ImageMessage>, r: Seq<ImageMessage>)
    ensures
        synced(l, r).0.len() <= l.len(),
        synced(l, r).1.len() <= r.len(),
        synced(l, r).0 == l.take(synced(l, r).0.len() as int),
        synced(l, r).1 == r.take(synced(l, r).1.len() as int),
        synced(l, r).2 matches Some((a, b)) ==> {
            &&& abs(pair_gap(a, b)) <= MAX_SYNC_GAP_NS
            &&& a.timestamp_ns <= i64::MAX && b.timestamp_ns <= i64::MAX ==> abs(
                a.timestamp_ns - b.timestamp_ns,
            ) <= MAX_SYNC_GAP_NS
            &&& l.contains(a)
            &&& r.contains(b)
        },
    decreases l.len() + r.len(),
{
    if l.len() == 0 || r.len() == 0 {
        assert(l.take(l.len() as int) =~= l);
        assert(r.take(r.len() as int) =~= r);
    } else {
        let a = l.last();
        let b = r.last();
        if abs(pair_gap(a, b)) <= MAX_SYNC_GAP_NS {
            assert(l.drop_last() =~= l.take(l.len() - 1));
            assert(r.drop_last() =~= r.take(r.len() - 1));
            assert(l[l.len() - 1] == a);
            assert(r[r.len() - 1] == b);
            if a.timestamp_ns <= i64::MAX && b.timestamp_ns <= i64::MAX {
                assert((a.timestamp_ns as i64) as int == a.timestamp_ns);
                assert((b.timestamp_ns as i64) as int == b.timestamp_ns);
            }
        } else if a.timestamp_ns < b.timestamp_ns {
            let l2 = l.drop_last();
            synced_pair_is_close(l2, r);
            let k = synced(l2, r).0.len() as int;
            assert(l2.take(k) =~= l.take(k));
            if let Some((x, _)) = synced(l2, r).2 {
                let w = choose|w: int| 0 <= w < l2.len() && l2[w] == x;
                assert(l[w] == x);
            }
        } else {
            let r2 = r.drop_last();
            synced_pair_is_close(l, r2);
            let k = synced(l, r2).1.len() as int;
            assert(r2.take(k) =~= r.take(k));
            if let Some((_, y)) = synced(l, r2).2 {
                let w = choose|w: int| 0 <= w < r2.len() && r2[w] == y;
                assert(r[w] == y);
            }
        }
    }
}

/// Every timestamp of the queue fits an `i64`.
pub open spec fn stamps_fit(q: Seq<ImageMessage>) -> bool {
    forall|i: int| 0 <= i < q.len() ==> (#[trigger] q[i]).timestamp_ns <= i64::MAX
}

/// No image of `q` lies within `MAX_SYNC_GAP_NS` of `x`.
pub open spec fn no_partner(x: ImageMessage, q: Seq<ImageMessage>) -> bool {
    forall|j: int| 0 <= j < q.len() ==> abs(x.timestamp_ns - (#[trigger] q[j]).timestamp_ns) > MAX_SYNC_GAP_NS
}

/// The search for a synchronized pair drops an image only when it has no
/// partner: every left image it drops unpaired is more than `MAX_SYNC_GAP_NS`
/// away from every right image, and every right image it drops unpaired from
/// every left image. The images dropped are the earliest ones of each queue,
/// up to the pair, which is formed by the next image of each; without a pair,
/// the search has used up one of the queues.
pub proof fn dropped_images_have_no_partner(l: Seq<ImageMessage>, r: Seq<ImageMessage>)
    requires
        sorted_desc(l),
        sorted_desc(r),
        stamps_fit(l),
        stamps_fit(r),
    ensures
        ({
            let (l2, r2, p) = synced(l, r);
            let kl = if p is Some { (l2.len() + 1) as int } else { l2.len() as int };
            let kr = if p is Some { (r2.len() + 1) as int } else { r2.len() as int };
            &&& kl <= l.len() && kr <= r.len()
            &&& p is None ==> l2.len() == 0 || r2.len() == 0
            &&& p matches Some((a, b)) ==> a == l[l2.len() as int] && b == r[r2.len() as int]
            &&& forall|i: int| kl <= i < l.len() ==> no_partner(#[trigger] l[i], r)
            &&& forall|j: int| kr <= j < r.len() ==> no_partner(#[trigger] r[j], l)
        }),
    decreases l.len() + r.len(),
{
    synced_pair_is_close(l, r);
    if l.len() == 0 || r.len() == 0 {
    } else {
        let a = l.last();
        let b = r.last();
        assert((a.timestamp_ns as i64) as int == a.timestamp_ns);
        assert((b.timestamp_ns as i64) as int == b.timestamp_ns);
        if abs(pair_gap(a, b)) <= MAX_SYNC_GAP_NS {
        } else if a.timestamp_ns < b.timestamp_ns {
            let l2 = l.drop_last();
            assert(sorted_desc(l2)) by {
                assert forall|x: int, y: int| 0 <= x < y < l2.len() implies l2[x].stamp() >= l2[y].stamp() by {
                    assert(l2[x] == l[x] && l2[y] == l[y]);
                }
            }
            assert(stamps_fit(l2)) by {
                assert forall|x: int| 0 <= x < l2.len() implies (#[trigger] l2[x]).timestamp_ns <= i64::MAX by {
                    assert(l2[x] == l[x]);
                }
            }
            dropped_images_have_no_partner(l2, r);
            synced_pair_is_close(l2, r);
            assert(no_partner(a, r)) by {
                assert forall|j: int| 0 <= j < r.len() implies abs(a.timestamp_ns - (#[trigger] r[j]).timestamp_ns)
                    > MAX_SYNC_GAP_NS by {
                    if j < r.len() - 1 {
                        assert(r[j].stamp() >= r[r.len() - 1].stamp());
                    }
                }
            }
            let (x2, y2, p) = synced(l2, r);
            let kl = if p is Some { (x2.len() + 1) as int } else { x2.len() as int };
            let kr = if p is Some { (y2.len() + 1) as int } else { y2.len() as int };
            assert forall|i: int| kl <= i < l.len() implies no_partner(#[trigger] l[i], r) by {
                if i < l.len() - 1 {
                    assert(l[i] == l2[i]);
                }
            }
            assert forall|j: int| kr <= j < r.len() implies no_partner(#[trigger] r[j], l) by {
                assert(no_partner(r[j], l2));
                assert forall|i: int| 0 <= i < l.len() implies abs(r[j].timestamp_ns - (#[trigger] l[i]).timestamp_ns)
                    > MAX_SYNC_GAP_NS by {
                    if i < l.len() - 1 {
                        assert(l[i] == l2[i]);
                    } else {
                        assert(r[j].stamp() >= r[r.len() - 1].stamp() || j == r.len() - 1);
                    }
                }
            }
            if let Some((x, y)) = p {
                assert(l[x2.len() as int] == l2[x2.len() as int]);
            }
        } else {
            let r2 = r.drop_last();
            assert(sorted_desc(r2)) by {
                assert forall|x: int, y: int| 0 <= x < y < r2.len() implies r2[x].stamp() >= r2[y].stamp() by {
                    assert(r2[x] == r[x] && r2[y] == r[y]);
                }
            }
            assert(stamps_fit(r2)) by {
                assert forall|x: int| 0 <= x < r2.len() implies (#[trigger] r2[x]).timestamp_ns <= i64::MAX by {
                    assert(r2[x] == r[x]);
                }
            }
            dropped_images_have_no_partner(l, r2);
            synced_pair_is_close(l, r2);
            assert(no_partner(b, l)) by {
                assert forall|i: int| 0 <= i < l.len() implies abs(b.timestamp_ns - (#[trigger] l[i]).timestamp_ns)
                    > MAX_SYNC_GAP_NS by {
                    if i < l.len() - 1 {
                        assert(l[i].stamp() >= l[l.len() - 1].stamp());
                    }
                }
            }
            let (x2, y2, p) = synced(l, r2);
            let kl = if p is Some { (x2.len() + 1) as int } else { x2.len() as int };
            let kr = if p is Some { (y2.len() + 1) as int } else { y2.len() as int };
            assert forall|j: int| kr <= j < r.len() implies no_partner(#[trigger] r[j], l) by {
                if j < r.len() - 1 {
                    assert(r[j] == r2[j]);
                }
            }
            assert forall|i: int| kl <= i < l.len() implies no_partner(#[trigger] l[i], r) by {
                assert(no_partner(l[i], r2));
                assert forall|j: int| 0 <= j < r.len() implies abs(l[i].timestamp_ns - (#[trigger] r[j]).timestamp_ns)
                    > MAX_SYNC_GAP_NS by {
                    if j < r.len() - 1 {
                        assert(r[j] == r2[j]);
                    } else {
                        assert(l[i].stamp() >= l[l.len() - 1].stamp() || i == l.len() - 1);
                    }
                }
            }
            if let Some((x, y)) = p {
                assert(r[y2.len() as int] == r2[y2.len() as int]);
            }
        }
    }
}

/// Draining at `t` splits a sorted IMU queue in two: every sample handed out
/// is stamped at or before `t`, every sample kept is stamped after it, and
/// nothing else is lost or added.
pub proof fn drain_splits_at(q: Seq<ImuMessage>, t: u64)
    requires
        sorted_desc(q),
    ensures
        q.take(count_above(q, t as int) as int) + q.skip(count_above(q, t as int) as int) == q,
        forall|i: int|
            0 <= i < q.take(count_above(q, t as int) as int).len() ==> (#[trigger] q.take(
                count_above(q, t as int) as int,
            )[i]).timestamp_ns > t,
        forall|i: int|
            0 <= i < q.skip(count_above(q, t as int) as int).reverse().len() ==> (#[trigger] q.skip(
                count_above(q, t as int) as int,
            ).reverse()[i]).timestamp_ns <= t,
        forall|i: int, j: int|
            0 <= i < j < q.skip(count_above(q, t as int) as int).reverse().len() ==> (#[trigger] q.skip(
                count_above(q, t as int) as int,
            ).reverse()[i]).timestamp_ns <= (#[trigger] q.skip(count_above(q, t as int) as int).reverse()[j]).timestamp_ns,
{
    lemma_count_above_bounds(q, t as int);
    let c = count_above(q, t as int) as int;
    assert(q.take(c) + q.skip(c) =~= q);
    let back = q.skip(c).reverse();
    assert forall|i: int| 0 <= i < back.len() implies (#[trigger] back[i]).timestamp_ns <= t by {
        assert(back[i] == q.skip(c)[q.skip(c).len() - 1 - i]);
        assert(q.skip(c)[q.skip(c).len() - 1 - i] == q[c + q.skip(c).len() - 1 - i]);
    }
    assert forall|i: int, j: int| 0 <= i < j < back.len() implies (#[trigger] back[i]).timestamp_ns
        <= (#[trigger] back[j]).timestamp_ns by {
        let n = q.skip(c).len();
        assert(back[i] == q[c + n - 1 - i]);
        assert(back[j] == q[c + n - 1 - j]);
        assert(q[c + n - 1 - j].stamp() >= q[c + n - 1 - i].stamp());
    }
}

/// Draining at `t1` and then at a later or equal `t2` hands out, in the same
/// order, the samples that one drain at `t2` hands out, and leaves the same
/// queue; a second drain at the same time hands out nothing.
pub proof fn drains_compose(q: Seq<ImuMessage>, t1: u64, t2: u64)
    requires
        sorted_desc(q),
        t1 <= t2,
    ensures
        ({
            let c1 = count_above(q, t1 as int) as int;
            let kept = q.take(c1);
            let c2 = count_above(kept, t2 as int) as int;
            let once = count_above(q, t2 as int) as int;
            &&& kept.take(c2) == q.take(once)
            &&& q.skip(c1).reverse() + kept.skip(c2).reverse() == q.skip(once).reverse()
            &&& t1 == t2 ==> kept.skip(c2).len() == 0
        }),
{
    lemma_count_above_bounds(q, t1 as int);
    lemma_count_above_bounds(q, t2 as int);
    let c1 = count_above(q, t1 as int) as int;
    let once = count_above(q, t2 as int) as int;
    if once > c1 {
        assert(q[c1].stamp() > t2);
    }
    assert(once <= c1);
    let kept = q.take(c1);
    assert(sorted_desc(kept)) by {
        assert forall|a: int, b: int| 0 <= a < b < kept.len() implies kept[a].stamp() >= kept[b].stamp() by {
            assert(kept[a] == q[a] && kept[b] == q[b]);
        }
    }
    assert forall|j: int| 0 <= j < once implies kept[j].stamp() > t2 by {
        assert(kept[j] == q[j]);
    }
    assert forall|j: int| once <= j < kept.len() implies kept[j].stamp() <= t2 by {
        assert(kept[j] == q[j]);
    }
    lemma_count_above_prefix(kept, t2 as int, once);
    assert(kept.take(once) =~= q.take(once));
    let lhs = q.skip(c1).reverse() + kept.skip(once).reverse();
    let rhs = q.skip(once).reverse();
    let n = q.len();
    assert forall|i: int| 0 <= i < rhs.len() implies lhs[i] == rhs[i] by {
        assert(rhs[i] == q[n - 1 - i]);
        if i < n - c1 {
            assert(lhs[i] == q.skip(c1).reverse()[i]);
        } else {
            assert(lhs[i] == kept.skip(once).reverse()[i - (n - c1)]);
            assert(kept.skip(once).reverse()[i - (n - c1)] == kept[c1 - 1 - (i - (n - c1))]);
        }
    }
    assert(lhs =~= rhs);
}

/// A sample pushed into the IMU queue is handed out by the next drain up to
/// its own timestamp.
pub proof fn pushed_imu_is_drained(q: Seq<ImuMessage>, m: ImuMessage)
    requires
        sorted_desc(q),
    ensures
        ({
            let q2 = q.insert(count_above(q, m.timestamp_ns as int) as int, m);
            q2.skip(count_above(q2, m.timestamp_ns as int) as int).reverse().contains(m)
        }),
{
    let t = m.timestamp_ns as int;
    lemma_count_above_bounds(q, t);
    let c = count_above(q, t) as int;
    let q2 = q.insert(c, m);
    assert(sorted_desc(q2)) by {
        assert forall|a: int, b: int| 0 <= a < b < q2.len() implies q2[a].stamp() >= q2[b].stamp() by {
            if a < c && b < c {
                assert(q2[a] == q[a] && q2[b] == q[b]);
            } else if a < c && b == c {
                assert(q2[a] == q[a]);
            } else if a < c {
                assert(q2[a] == q[a] && q2[b] == q[b - 1]);
            } else if a == c {
                assert(q2[b] == q[b - 1]);
            } else {
                assert(q2[a] == q[a - 1] && q2[b] == q[b - 1]);
            }
        }
    }
    assert forall|j: int| 0 <= j < c implies q2[j].stamp() > t by {
        assert(q2[j] == q[j]);
    }
    assert forall|j: int| c <= j < q2.len() implies q2[j].stamp() <= t by {
        if j > c {
            assert(q2[j] == q[j - 1]);
        }
    }
    lemma_count_above_prefix(q2, t, c);
    let back = q2.skip(c).reverse();
    assert(back[back.len() - 1] == q2.skip(c)[0]);
    assert(q2.skip(c)[0] == m);
}

} // verus!
