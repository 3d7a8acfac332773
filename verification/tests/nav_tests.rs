use sina::decoder::frame_from_plane;
use sina::device_stream::{DeviceStream, MessageKind};
use sina::sina::Sina;
use sina::geometry::Point;
use sina::imu_timing::{imu_steps, pair_time};
use sina::navigator::{NavState, Path};
use sina::json_input::JsonInputError;
use sina::pose::{frame_timestamps_us, pose_bracket, sort_by_timestamp, timestamps_ns_to_us, PoseBracket};
use sina::tag_config::{group_observations, positions};
use sina::tag_detection::{is_known_tag_family, Detection, Detections, Detector};

fn p(x: f32, y: f32) -> Point {
    Point::new((x.to_bits(), y.to_bits()))
}

#[test]
fn segment_window_clamps_to_path() {
    let path = Path::from_points(vec![p(0.0, 0.0), p(1.0, 0.0), p(2.0, 0.0), p(3.0, 0.0)]);
    assert_eq!(path.len(), 4);
    assert_eq!(path.segment_window(0, 5), Some((0, 2)));
    assert_eq!(path.segment_window(10, 2), None);
    assert_eq!(path.segment_window(2, 1), Some((1, 2)));
    let short = Path::from_points(vec![p(0.0, 0.0)]);
    assert_eq!(short.segment_window(0, 5), None);
    assert_eq!(short.points(), &vec![p(0.0, 0.0)]);
}

#[test]
fn navigator_plans_when_goal_and_position_are_known() {
    let mut s = NavState::new();
    let pos = p(1.0, 1.0);
    let head = p(1.0, 0.0);
    let out = s.on_position(pos, head, None);
    assert!(out.dirty);
    assert_eq!(out.plan, None);
    let goal = p(5.0, 5.0);
    assert_eq!(s.on_click(goal), Some((pos, goal)));
    s.set_path(Some(Path::from_points(vec![pos, goal])));
    assert_eq!(s.path_idx, 0);
    // close to the path: no new plan, the segment found becomes current
    let out = s.on_position(p(1.1, 1.0), head, Some((0, false)));
    assert_eq!(out.plan, None);
    // far from it: plan again from the new position
    let far = p(9.0, 0.0);
    let out = s.on_position(far, head, Some((0, true)));
    assert_eq!(out.plan, Some((far, goal)));
    // no segment found: plan again
    let out = s.on_position(far, head, None);
    assert_eq!(out.plan, Some((far, goal)));
}

#[test]
fn navigator_click_without_position_only_sets_goal() {
    let mut s = NavState::new();
    assert_eq!(s.on_click(p(2.0, 2.0)), None);
    assert_eq!(s.goal, Some(p(2.0, 2.0)));
    // first position with a goal and no path: plan
    let out = s.on_position(p(0.0, 0.0), p(0.0, 1.0), None);
    assert_eq!(out.plan, Some((p(0.0, 0.0), p(2.0, 2.0))));
}

#[test]
fn need_replan_updates_segment() {
    let mut s = NavState::new();
    assert!(s.need_replan(Some((3, false))));
    assert_eq!(s.path_idx, 0);
    s.set_path(Some(Path::from_points(vec![p(0.0, 0.0), p(1.0, 0.0)])));
    assert!(!s.need_replan(Some((3, false))));
    assert_eq!(s.path_idx, 3);
}

#[test]
fn pose_bracket_cases() {
    let ts = vec![10, 20, 30, 40];
    assert_eq!(pose_bracket(&ts, 20), PoseBracket::Exact(1));
    assert_eq!(pose_bracket(&ts, 25), PoseBracket::Between(2));
    assert_eq!(pose_bracket(&ts, 5), PoseBracket::Outside);
    assert_eq!(pose_bracket(&ts, 45), PoseBracket::Outside);
    assert_eq!(pose_bracket(&vec![], 1), PoseBracket::Outside);
    assert_eq!(pose_bracket(&ts, 10), PoseBracket::Exact(0));
    assert_eq!(pose_bracket(&ts, 40), PoseBracket::Exact(3));
}

#[test]
fn timestamps_convert_toward_zero() {
    assert_eq!(timestamps_ns_to_us(&vec![1_999, 2_000, -1_999, 0, i64::MIN]), vec![1, 2, -1, 0, i64::MIN / 1000]);
}

#[test]
fn frame_timestamps_read_from_json() {
    assert_eq!(frame_timestamps_us("[1999, 2000, -1999, 0]").unwrap(), vec![1, 2, -1, 0]);
    assert_eq!(frame_timestamps_us(" [ ] ").unwrap(), Vec::<i64>::new());
    assert!(matches!(frame_timestamps_us("[1, 2"), Err(JsonInputError::Parse(_))));
    assert!(matches!(frame_timestamps_us("[1.5]"), Err(JsonInputError::Parse(_))));
    assert!(matches!(frame_timestamps_us("{\"a\": 1}"), Err(JsonInputError::Parse(_))));
}

#[test]
fn stream_message_text_is_classified() {
    assert!(matches!(DeviceStream::classify_message("{\"type\": \"imu\", \"imu_idx\": 0}"), Ok(MessageKind::Imu)));
    assert!(matches!(DeviceStream::classify_message("{\"type\": \"slam_image\"}"), Ok(MessageKind::SlamImage)));
    assert!(matches!(DeviceStream::classify_message("{\"type\": \"gps\"}"), Ok(MessageKind::Unknown)));
    assert!(matches!(DeviceStream::classify_message("{\"type\": 3}"), Ok(MessageKind::Unknown)));
    assert!(matches!(DeviceStream::classify_message("{}"), Ok(MessageKind::Unknown)));
    assert!(matches!(DeviceStream::classify_message("[\"imu\"]"), Ok(MessageKind::Unknown)));
    assert!(matches!(DeviceStream::classify_message("not json"), Err(JsonInputError::Parse(_))));
}

#[test]
fn frames_kept_one_in_skip_factor() {
    let raw: Vec<u8> = (0..20).collect();
    assert!(frame_from_plane(3, 2, 4, 3, 5, &raw).is_none());
    let f = frame_from_plane(4, 2, 4, 3, 5, &raw).expect("kept");
    assert_eq!((f.frame_index, f.width, f.height, f.stride), (4, 4, 3, 5));
    assert_eq!(f.gray_data, (0..15).collect::<Vec<u8>>());
    let g = frame_from_plane(0, 1, 4, 5, 5, &raw).expect("kept");
    assert_eq!(g.gray_data, raw);
}

#[test]
fn observations_grouped_by_tag() {
    let ids = vec![5, 3, 5, 9, 3, 5];
    let g = group_observations(&ids, 2);
    assert_eq!(g, vec![(3, vec![1, 4]), (5, vec![0, 2, 5])]);
    let all = group_observations(&ids, 0);
    assert_eq!(all.iter().map(|e| e.0).collect::<Vec<usize>>(), vec![3, 5, 9]);
    assert!(group_observations(&vec![], 0).is_empty());
    assert_eq!(positions(&ids, 9), vec![3]);
}

#[test]
fn stream_messages_are_classified() {
    assert_eq!(DeviceStream::classify(&Some("imu".to_string())), MessageKind::Imu);
    assert_eq!(DeviceStream::classify(&Some("slam_image".to_string())), MessageKind::SlamImage);
    assert_eq!(DeviceStream::classify(&Some("gps".to_string())), MessageKind::Unknown);
    assert_eq!(DeviceStream::classify(&None), MessageKind::Unknown);
    assert!(DeviceStream::forwards_imu(0));
    assert!(!DeviceStream::forwards_imu(1));
    let s = DeviceStream::new(vec!["--interface".to_string(), "wifi".to_string()]);
    assert_eq!(s.stream_args.len(), 2);
    let _app = Sina::new();
}

#[test]
fn tag_families() {
    assert!(is_known_tag_family(&"tag36h11".to_string()));
    assert!(is_known_tag_family(&"tagstandard52h13".to_string()));
    assert!(!is_known_tag_family(&"tag36h10".to_string()));
    assert!(!is_known_tag_family(&"".to_string()));
}

#[test]
fn detector_settings_refuse_nul() {
    assert!(Detector::new("tag\0x", 1, 0, 0, true).is_none());
    let d = Detector::new("tag36h11", 4, 2.0f32.to_bits(), 0, true).expect("valid");
    assert_eq!(d.family_name, "tag36h11");
    assert_eq!(d.nthreads, 4);
}

#[test]
fn detections_indexing() {
    let d = Detections::new(3);
    assert!(!d.is_empty());
    assert_eq!(d.len(), 3);
    assert_eq!(d.get(2), Some(Detection { idx: 2 }));
    assert_eq!(d.get(3), None);
    assert_eq!(d.iter(), vec![Detection { idx: 0 }, Detection { idx: 1 }, Detection { idx: 2 }]);
    assert!(Detections::new(0).is_empty());
    assert!(Detections::new(0).iter().is_empty());
}

#[test]
fn pair_time_is_the_mean_rounded_down() {
    assert_eq!(pair_time(10, 21), 15);
    assert_eq!(pair_time(u64::MAX - 1, 1), u64::MAX / 2);
}

#[test]
fn imu_steps_measure_elapsed_time() {
    assert_eq!(imu_steps(None, &vec![100, 150, 175]), (vec![None, Some(50), Some(25)], Some(175)));
    assert_eq!(imu_steps(Some(90), &vec![100, 100]), (vec![Some(10), Some(0)], Some(100)));
    assert_eq!(imu_steps(Some(7), &vec![]), (vec![], Some(7)));
}

#[test]
fn samples_sorted_by_time_stably() {
    assert_eq!(sort_by_timestamp(&vec![30, 10, 20, 10, -5]), vec![4, 1, 3, 2, 0]);
    assert!(sort_by_timestamp(&vec![]).is_empty());
}
