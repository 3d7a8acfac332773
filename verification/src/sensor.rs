use vstd::prelude::*;
use base64::Engine;

use crate::timed::Timestamped;

verus! {

/// One inertial sample. The acceleration (m/s²) and angular rate (rad/s)
/// components are `f64` values carried as their bit patterns.
#[derive(Clone, Copy, Debug)]
pub struct ImuMessage {
    pub timestamp_ns: u64,
    pub imu_idx: u8,
    pub accel_msec2: [u64; 3],
    pub gyro_radsec: [u64; 3],
}

impl Timestamped for ImuMessage {
    open spec fn stamp(&self) -> u64 {
        self.timestamp_ns
    }

    fn timestamp(&self) -> (t: u64) {
        self.timestamp_ns
    }
}

/// A JPEG image from one of the two SLAM cameras (0 is the left one).
#[derive(Clone, Debug)]
pub struct ImageMessage {
    pub timestamp_ns: u64,
    pub camera: u8,
    pub jpeg: Vec<u8>,
}

impl Timestamped for ImageMessage {
    open spec fn stamp(&self) -> u64 {
        self.timestamp_ns
    }

    fn timestamp(&self) -> (t: u64) {
        self.timestamp_ns
    }
}

/// Two images are equal when they carry the same timestamp.
impl PartialEq for ImageMessage {
    fn eq(&self, other: &Self) -> (r: bool) {
        self.timestamp_ns == other.timestamp_ns
    }
}

impl vstd::std_specs::cmp::PartialEqSpecImpl for ImageMessage {
    open spec fn obeys_eq_spec() -> bool {
        true
    }

    open spec fn eq_spec(&self, other: &Self) -> bool {
        self.timestamp_ns == other.timestamp_ns
    }
}

impl Eq for ImageMessage {}

/// A message of the sensor stream.
#[derive(Clone, Debug)]
pub enum SensorData {
    Imu(ImuMessage),
    Image(ImageMessage),
}

/// An image message as the streaming process writes it: the JPEG is base64 text.
#[derive(Clone, Debug)]
pub struct RawImageMessage {
    pub _msg_type: String,
    pub _camera: String,
    pub timestamp_ns: u64,
    pub jpeg: String,
}

#[verifier::external_type_specification]
#[verifier::external_body]
pub struct ExDecodeError(base64::DecodeError);

/// Why a sensor message could not be built.
#[derive(Debug)]
pub enum SensorError {
    /// The JPEG payload is not valid standard base64.
    Base64(base64::DecodeError),
}

/// What the standard base64 engine (RFC 4648 alphabet, padding required)
/// decodes a text into, or `None` where it rejects the text.
pub uninterp spec fn base64_standard_decode(text: Seq<char>) -> Option<Seq<u8>>;

/// Calls `base64::engine::general_purpose::STANDARD.decode`; the contract says
/// that it succeeds exactly where `base64_standard_decode` is defined and then
/// returns its value.
#[verifier::external_body]
fn standard_decode(text: &str) -> (r: Result<Vec<u8>, base64::DecodeError>)
    ensures
        r is Ok <==> base64_standard_decode(text@) is Some,
        r matches Ok(v) ==> base64_standard_decode(text@) == Some(v@),
{
    base64::engine::general_purpose::STANDARD.decode(text)
}

/// Decodes the base64 text of a JPEG payload.
pub fn decode_jpeg(msg: &String) -> (r: Result<Vec<u8>, SensorError>)
    ensures
        r is Ok <==> base64_standard_decode(msg@) is Some,
        r matches Ok(v) ==> base64_standard_decode(msg@) == Some(v@),
{
    match standard_decode(msg.as_str()) {
        Ok(bytes) => Ok(bytes),
        Err(e) => Err(SensorError::Base64(e)),
    }
}

impl ImageMessage {
    /// Builds an image from its stream form. The camera label of the stream
    /// form is not read: the image is taken as one of camera 0.
    pub fn from_raw(raw: &RawImageMessage) -> (r: Result<ImageMessage, SensorError>)
        ensures
            r is Ok <==> base64_standard_decode(raw.jpeg@) is Some,
            r matches Ok(img) ==> {
                &&& base64_standard_decode(raw.jpeg@) == Some(img.jpeg@)
                &&& img.timestamp_ns == raw.timestamp_ns
                &&& img.camera == 0
            },
    {
        let jpeg = decode_jpeg(&raw.jpeg)?;
        Ok(ImageMessage { timestamp_ns: raw.timestamp_ns, camera: 0, jpeg })
    }
}

} // verus!
