use vstd::prelude::*;
use crate::json_input::{json_type_field, parse_type_field, text_view, JsonInputError};

verus! {

/// The sensor stream of the device: the arguments handed to the streaming
/// script.
pub struct DeviceStream {
    pub stream_args: Vec<String>,
}

/// The kind of a message whose `type` member is the string `t` (`None` when
/// there is no such string member).
pub open spec fn kind_of(t: Option<Seq<char>>) -> MessageKind {
    match t {
        Some(t) => if t == "imu"@ {
            MessageKind::Imu
        } else if t == "slam_image"@ {
            MessageKind::SlamImage
        } else {
            MessageKind::Unknown
        },
        None => MessageKind::Unknown,
    }
}

/// What a message of the stream carries, by its `type` field.
#[derive(Clone, Copy, Debug, PartialEq, Eq, Structural)]
pub enum MessageKind {
    Imu,
    SlamImage,
    Unknown,
}

impl DeviceStream {
    pub fn new(stream_args: Vec<String>) -> (s: DeviceStream)
        ensures
            s.stream_args@ == stream_args@,
    {
        DeviceStream { stream_args }
    }

    /// The kind of a message whose `type` field holds `type_field` (`None` when
    /// the field is missing or not a string).
    pub fn classify(type_field: &Option<String>) -> (k: MessageKind)
        ensures
            k == kind_of(text_view(*type_field)),
    {
        match type_field {
            Some(t) => {
                let imu = "imu".to_owned();
                let slam = "slam_image".to_owned();
                if *t == imu {
                    MessageKind::Imu
                } else if *t == slam {
                    MessageKind::SlamImage
                } else {
                    MessageKind::Unknown
                }
            },
            None => MessageKind::Unknown,
        }
    }

    /// Reads a message of the stream as JSON and tells its kind by its `type`
    /// member; a text that is not JSON is refused.
    pub fn classify_message(msg: &str) -> (r: Result<MessageKind, JsonInputError>)
        ensures
            r is Ok <==> json_type_field(msg@) is Some,
            r matches Ok(k) ==> k == kind_of(json_type_field(msg@)->0),
    {
        match parse_type_field(msg) {
            Ok(t) => Ok(Self::classify(&t)),
            Err(e) => Err(JsonInputError::Parse(e)),
        }
    }

    /// Only the samples of IMU 0, the fastest one, are passed on.
    pub fn forwards_imu(imu_idx: u8) -> (r: bool)
        ensures
            r == (imu_idx == 0),
    {
        imu_idx == 0
    }
}

} // verus!
