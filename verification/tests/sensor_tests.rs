use sina::sensor::{decode_jpeg, ImageMessage, ImuMessage, RawImageMessage, SensorError};
use sina::sensor_buffer::SensorBuffer;

fn imu(t: u64) -> ImuMessage {
    ImuMessage { timestamp_ns: t, imu_idx: 0, accel_msec2: [0; 3], gyro_radsec: [0; 3] }
}

fn image(t: u64, camera: u8) -> ImageMessage {
    ImageMessage { timestamp_ns: t, camera, jpeg: vec![] }
}

#[test]
fn drain_returns_samples_up_to_time_earliest_first() {
    let mut b = SensorBuffer::new();
    b.push_imu(imu(30));
    b.push_imu(imu(10));
    b.push_imu(imu(20));
    b.push_imu(imu(40));
    let out = b.drain_imu_until(25);
    let ts: Vec<u64> = out.iter().map(|m| m.timestamp_ns).collect();
    assert_eq!(ts, vec![10, 20]);
    let rest = b.drain_imu_until(u64::MAX);
    let ts: Vec<u64> = rest.iter().map(|m| m.timestamp_ns).collect();
    assert_eq!(ts, vec![30, 40]);
}

#[test]
fn drain_on_empty_buffer_is_empty() {
    let mut b = SensorBuffer::new();
    assert!(b.drain_imu_until(100).is_empty());
}

#[test]
fn drain_includes_sample_at_exact_time() {
    let mut b = SensorBuffer::new();
    b.push_imu(imu(5));
    let out = b.drain_imu_until(5);
    assert_eq!(out.len(), 1);
    assert_eq!(out[0].timestamp_ns, 5);
}

#[test]
fn pushed_imu_comes_back_from_drain() {
    let mut b = SensorBuffer::new();
    b.push_imu(imu(100));
    b.push_imu(imu(300));
    let m = imu(200);
    b.push_imu(m);
    let out = b.drain_imu_until(200);
    assert!(out.iter().any(|x| x.timestamp_ns == 200));
    assert!(out.iter().all(|x| x.timestamp_ns <= 200));
}

#[test]
fn synced_pair_within_gap() {
    let mut b = SensorBuffer::new();
    b.push_image(image(1_000_000, 0));
    b.push_image(image(4_000_000, 1));
    let (l, r) = b.pop_synced_image().expect("pair");
    assert_eq!(l.timestamp_ns, 1_000_000);
    assert_eq!(r.timestamp_ns, 4_000_000);
    assert!(b.pop_synced_image().is_none());
}

#[test]
fn synced_pair_at_exact_gap_limit() {
    let mut b = SensorBuffer::new();
    b.push_image(image(10_000_000, 0));
    b.push_image(image(5_000_000, 1));
    assert!(b.pop_synced_image().is_some());
}

#[test]
fn unpairable_earlier_image_is_dropped() {
    let mut b = SensorBuffer::new();
    b.push_image(image(0, 0));
    b.push_image(image(20_000_000, 0));
    b.push_image(image(21_000_000, 1));
    let (l, r) = b.pop_synced_image().expect("pair");
    assert_eq!(l.timestamp_ns, 20_000_000);
    assert_eq!(r.timestamp_ns, 21_000_000);
}

#[test]
fn no_pair_when_gap_too_large() {
    let mut b = SensorBuffer::new();
    b.push_image(image(0, 0));
    b.push_image(image(6_000_000, 1));
    assert!(b.pop_synced_image().is_none());
    // the earlier (left) image was dropped, the right one waits
    b.push_image(image(7_000_000, 0));
    let (l, r) = b.pop_synced_image().expect("pair");
    assert_eq!(l.timestamp_ns, 7_000_000);
    assert_eq!(r.timestamp_ns, 6_000_000);
}

#[test]
fn images_of_one_camera_never_pair() {
    let mut b = SensorBuffer::new();
    b.push_image(image(1, 0));
    b.push_image(image(2, 0));
    assert!(b.pop_synced_image().is_none());
}

#[test]
fn decode_jpeg_decodes_standard_base64() {
    let v = decode_jpeg(&"aGVsbG8=".to_string()).expect("valid");
    assert_eq!(v, b"hello".to_vec());
}

#[test]
fn decode_jpeg_rejects_invalid_base64() {
    match decode_jpeg(&"not base64!".to_string()) {
        Err(SensorError::Base64(_)) => {}
        Ok(_) => panic!("accepted invalid base64"),
    }
}

#[test]
fn image_from_raw_takes_timestamp_and_camera_zero() {
    let raw = RawImageMessage {
        _msg_type: "slam_image".to_string(),
        _camera: "camera-slam-right".to_string(),
        timestamp_ns: 42,
        jpeg: "AAEC".to_string(),
    };
    let img = ImageMessage::from_raw(&raw).expect("valid");
    assert_eq!(img.timestamp_ns, 42);
    assert_eq!(img.camera, 0);
    assert_eq!(img.jpeg, vec![0u8, 1, 2]);
}

#[test]
fn image_from_raw_reports_bad_payload() {
    let raw = RawImageMessage {
        _msg_type: "slam_image".to_string(),
        _camera: "x".to_string(),
        timestamp_ns: 1,
        jpeg: "@@@".to_string(),
    };
    assert!(matches!(ImageMessage::from_raw(&raw), Err(SensorError::Base64(_))));
}

#[test]
fn images_compare_by_timestamp() {
    let a = ImageMessage { timestamp_ns: 7, camera: 0, jpeg: vec![1] };
    let b = ImageMessage { timestamp_ns: 7, camera: 1, jpeg: vec![2] };
    assert!(a == b);
    assert!(a != image(8, 0));
}

#[test]
fn sync_overflow_is_detected_before_popping() {
    let mut b = SensorBuffer::new();
    b.push_image(image(1_000, 0));
    b.push_image(image(2_000, 1));
    assert!(!b.sync_overflows_now());
    let mut c = SensorBuffer::new();
    // as i64 the left stamp is very negative and the right one very positive
    c.push_image(image(u64::MAX - 10, 0));
    c.push_image(image(i64::MAX as u64, 1));
    assert!(c.sync_overflows_now());
    assert!(!SensorBuffer::new().sync_overflows_now());
}

#[test]
fn two_drains_equal_one() {
    let mut a = SensorBuffer::new();
    let mut b = SensorBuffer::new();
    for t in [50, 10, 30, 20, 30] {
        a.push_imu(imu(t));
        b.push_imu(imu(t));
    }
    let mut first: Vec<u64> = a.drain_imu_until(20).iter().map(|m| m.timestamp_ns).collect();
    first.extend(a.drain_imu_until(30).iter().map(|m| m.timestamp_ns));
    let once: Vec<u64> = b.drain_imu_until(30).iter().map(|m| m.timestamp_ns).collect();
    assert_eq!(first, once);
    assert_eq!(once, vec![10, 20, 30, 30]);
    assert!(a.drain_imu_until(30).is_empty());
    let left_a: Vec<u64> = a.drain_imu_until(u64::MAX).iter().map(|m| m.timestamp_ns).collect();
    let left_b: Vec<u64> = b.drain_imu_until(u64::MAX).iter().map(|m| m.timestamp_ns).collect();
    assert_eq!(left_a, left_b);
}
