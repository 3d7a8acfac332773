use vstd::prelude::*;

verus! {

/// The AprilTag families the detector knows.
pub open spec fn known_tag_family(name: Seq<char>) -> bool {
    name == "tag16h5"@ || name == "tag25h9"@ || name == "tag36h11"@ || name == "tagcircle21h7"@
        || name == "tagcircle49h12"@ || name == "tagcustom48h12"@ || name == "tagstandard41h12"@
        || name == "tagstandard52h13"@
}

/// Whether `name` is one of the AprilTag families the detector knows.
pub fn is_known_tag_family(name: &String) -> (r: bool)
    ensures
        r == known_tag_family(name@),
{
    let families = [
        "tag16h5",
        "tag25h9",
        "tag36h11",
        "tagcircle21h7",
        "tagcircle49h12",
        "tagcustom48h12",
        "tagstandard41h12",
        "tagstandard52h13",
    ];
    let mut k: usize = 0;
    while k < 8
        invariant
            k <= 8,
            families@ == seq![
                "tag16h5",
                "tag25h9",
                "tag36h11",
                "tagcircle21h7",
                "tagcircle49h12",
                "tagcustom48h12",
                "tagstandard41h12",
                "tagstandard52h13",
            ],
            forall|m: int| 0 <= m < k ==> name@ != families@[m]@,
        decreases 8 - k,
    {
        let f = families[k].to_owned();
        if *name == f {
            return true;
        }
        k = k + 1;
    }
    false
}

/// The settings of an AprilTag detector. `quad_decimate` and `quad_sigma`
/// are `f32` bit patterns.
pub struct Detector {
    pub family_name: String,
    pub nthreads: u8,
    pub quad_decimate: u32,
    pub quad_sigma: u32,
    pub refine_edges: bool,
}

/// Whether `s` holds a NUL character, which no C string can hold.
pub open spec fn has_nul(s: Seq<char>) -> bool {
    s.contains('\0')
}

impl Detector {
    /// The settings of a detector for the family `family_name`; `None` when the
    /// name holds a NUL character and so cannot be handed to the C library.
    pub fn new(
        family_name: &str,
        nthreads: u8,
        quad_decimate: u32,
        quad_sigma: u32,
        refine_edges: bool,
    ) -> (r: Option<Detector>)
        ensures
            r is None <==> has_nul(family_name@),
            r matches Some(d) ==> d.family_name@ == family_name@ && d.nthreads == nthreads
                && d.quad_decimate == quad_decimate && d.quad_sigma == quad_sigma && d.refine_edges
                == refine_edges,
    {
        let name = family_name.to_owned();
        let mut k: usize = 0;
        let n = name.as_str().unicode_len();
        while k < n
            invariant
                name@ == family_name@,
                n == name@.len(),
                k <= n,
                forall|m: int| 0 <= m < k ==> name@[m] != '\0',
            decreases n - k,
        {
            if name.as_str().get_char(k) == '\0' {
                return None;
            }
            k = k + 1;
        }
        Some(Detector { family_name: name, nthreads, quad_decimate, quad_sigma, refine_edges })
    }
}

/// The tags found in one image, of which the logic reads only the number.
pub struct Detections {
    pub count: usize,
}

/// One detected tag, by its index among the detections.
#[derive(Clone, Copy, Debug, PartialEq, Eq, Structural)]
pub struct Detection {
    pub idx: i32,
}

impl Detections {
    pub fn new(count: usize) -> (d: Detections)
        ensures
            d.count == count,
    {
        Detections { count }
    }

    pub fn len(&self) -> (n: usize)
        ensures
            n == self.count,
    {
        self.count
    }

    pub fn is_empty(&self) -> (r: bool)
        ensures
            r == (self.count == 0),
    {
        self.len() == 0
    }

    /// Detection `idx`, when there is one.
    pub fn get(&self, idx: usize) -> (r: Option<Detection>)
        ensures
            r == (if idx < self.count {
                Some(Detection { idx: idx as i32 })
            } else {
                None
            }),
    {
        if idx < self.len() {
            Some(Detection { idx: #[verifier::truncate] (idx as i32) })
        } else {
            None
        }
    }

    /// Every detection, in order.
    pub fn iter(&self) -> (r: Vec<Detection>)
        ensures
            r@.len() == self.count,
            forall|i: int| 0 <= i < r@.len() ==> #[trigger] r@[i] == (Detection { idx: (i as usize) as i32 }),
    {
        let mut r: Vec<Detection> = Vec::new();
        let n = self.len();
        let mut i: usize = 0;
        while i < n
            invariant
                n == self.count,
                i <= n,
                r@.len() == i,
                forall|q: int| 0 <= q < i ==> #[trigger] r@[q] == (Detection { idx: (q as usize) as i32 }),
            decreases n - i,
        {
            let d = Detection { idx: #[verifier::truncate] (i as i32) };
            r.push(d);
            i = i + 1;
        }
        r
    }
}

} // verus!
