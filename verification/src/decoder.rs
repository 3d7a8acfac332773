use vstd::prelude::*;

verus! {

/// A grey-scale video frame handed from the decoder to the workers.
pub struct DecodedFrame {
    pub frame_index: usize,
    pub width: usize,
    pub height: usize,
    pub stride: usize,
    pub gray_data: Vec<u8>,
}

/// The bytes of a frame's pixel plane that are kept: the first `height * stride`
/// of them, or all of them when the plane is shorter.
pub open spec fn kept_plane(raw: Seq<u8>, height: usize, stride: usize) -> Seq<u8> {
    if raw.len() >= height * stride {
        raw.take(height * stride)
    } else {
        raw
    }
}

/// Builds the frame for decoded frame number `frame_index` when it is one of
/// every `skip_factor` frames (`frame_index % skip_factor == 0`), from its
/// grey plane `raw` and its dimensions.
pub fn frame_from_plane(
    frame_index: usize,
    skip_factor: usize,
    width: usize,
    height: usize,
    stride: usize,
    raw: &Vec<u8>,
) -> (r: Option<DecodedFrame>)
    requires
        skip_factor > 0,
        height * stride <= usize::MAX,
    ensures
        r is Some <==> frame_index % skip_factor == 0,
        r matches Some(f) ==> f.frame_index == frame_index && f.width == width && f.height == height
            && f.stride == stride && f.gray_data@ == kept_plane(raw@, height, stride),
{
    if frame_index % skip_factor != 0 {
        return None;
    }
    let expected_len = height * stride;
    let mut gray_data: Vec<u8> = Vec::new();
    let take = if raw.len() >= expected_len {
        expected_len
    } else {
        raw.len()
    };
    for k in 0..take
        invariant
            take <= raw@.len(),
            gray_data@ == raw@.take(k as int),
    {
        gray_data.push(raw[k]);
        assert(gray_data@ =~= raw@.take(k + 1));
    }
    assert(raw@.take(raw@.len() as int) =~= raw@);
    Some(DecodedFrame { frame_index, width, height, stride, gray_data })
}

} // verus!
