use sina::parser::{
    parse_bbox, parse_class, parse_door, parse_end_of_line, parse_float, parse_id, parse_room,
    parse_wall, skip_window, try_parse_bbox, try_parse_door, try_parse_id, try_parse_room,
    try_parse_wall, Step,
};

const WALL: &str = "make_wall, id=3, a_x=1.5, a_y=-2, a_z=0.0, b_x=4, b_y=5e1, b_z=0, height=2.5, thickness=0.1\n";
const DOOR: &str = "make_door, id=7, wall0_id=3, wall1_id=4, position_x=1.0, position_y=2.0, position_z=0.5, width=0.9, height=2.1\n";
const BBOX: &str = "make_bbox, id=2, class=Table, position_x=1, position_y=2, position_z=3, angle_z=0.25, scale_x=1.2, scale_y=0.8, scale_z=0.7\n";

fn text(v: &[u8]) -> &str {
    std::str::from_utf8(v).unwrap()
}

#[test]
fn parse_id_reads_digits() {
    assert_eq!(parse_id(b"123abc", 0), Ok((123, 3)));
    assert_eq!(parse_id(b"x42", 1), Ok((42, 3)));
}

#[test]
fn parse_id_fails_without_digits() {
    assert_eq!(parse_id(b"abc", 0), Err(0));
    assert_eq!(parse_id(b"", 0), Err(0));
}

#[test]
fn parse_float_spans_the_number() {
    assert_eq!(parse_float(b"1.5, rest", 0), Ok(((0, 3), 3)));
    assert_eq!(parse_float(b"=-2e3\n", 1), Ok(((1, 5), 5)));
}

#[test]
fn parse_float_fails_on_letters() {
    assert!(parse_float(b"abc", 0).is_err());
}

#[test]
fn parse_class_reads_letters() {
    assert_eq!(parse_class(b"Table, x", 0), Ok(((0, 5), 5)));
    assert_eq!(parse_class(b"1", 0), Err(0));
}

#[test]
fn parse_end_of_line_forms() {
    assert_eq!(parse_end_of_line(b"\nx", 0), Ok(((), 1)));
    assert_eq!(parse_end_of_line(b"\r\nx", 0), Ok(((), 2)));
    assert_eq!(parse_end_of_line(b"ab", 2), Ok(((), 2)));
    assert_eq!(parse_end_of_line(b"ab", 0), Err(0));
}

#[test]
fn parse_wall_line() {
    let s = WALL.as_bytes();
    let (w, q) = parse_wall(s, 0).expect("wall");
    assert_eq!(q, s.len());
    assert_eq!(w.id, 3);
    assert_eq!(text(&w.start.x), "1.5");
    assert_eq!(text(&w.start.y), "-2");
    assert_eq!(text(&w.start.z), "0.0");
    assert_eq!(text(&w.end.x), "4");
    assert_eq!(text(&w.end.y), "5e1");
    assert_eq!(text(&w.end.z), "0");
}

#[test]
fn parse_wall_fails_on_other_line() {
    assert_eq!(parse_wall(DOOR.as_bytes(), 0).map(|r| r.1), Err(0));
}

#[test]
fn parse_door_line() {
    let s = DOOR.as_bytes();
    let (d, q) = parse_door(s, 0).expect("door");
    assert_eq!(q, s.len());
    assert_eq!((d.id, d.wall0_id, d.wall1_id), (7, 3, 4));
    assert_eq!(text(&d.position.x), "1.0");
    assert_eq!(text(&d.position.z), "0.5");
    assert_eq!(text(&d.width), "0.9");
    assert_eq!(text(&d.height), "2.1");
}

#[test]
fn parse_bbox_line() {
    let s = BBOX.as_bytes();
    let (b, q) = parse_bbox(s, 0).expect("bbox");
    assert_eq!(q, s.len());
    assert_eq!(text(&b.center.x), "1");
    assert_eq!(text(&b.center.y), "2");
    assert_eq!(text(&b.angle), "0.25");
    assert_eq!(text(&b.size.x), "1.2");
    assert_eq!(text(&b.size.z), "0.7");
}

#[test]
fn skip_window_needs_a_newline() {
    assert_eq!(skip_window(b"make_window, id=1\nx", 0), Ok(((), 18)));
    assert_eq!(skip_window(b"make_window, id=1", 0), Err(11));
    assert_eq!(skip_window(b"make_door", 0), Err(0));
}

#[test]
fn parse_room_collects_items() {
    let file = format!("{WALL}make_window, id=9, whatever\n{DOOR}{BBOX}{WALL}");
    let d = parse_room(file.as_bytes());
    assert_eq!(d.walls.len(), 2);
    assert_eq!(d.doors.len(), 1);
    assert_eq!(d.bboxes.len(), 1);
    assert_eq!(d.doors[0].id, 7);
}

#[test]
fn parse_room_of_empty_input_is_empty() {
    let d = parse_room(b"");
    assert!(d.walls.is_empty() && d.doors.is_empty() && d.bboxes.is_empty());
}

#[test]
fn try_parse_room_refuses_unknown_line() {
    assert!(try_parse_room(b"make_chair, id=1\n").is_none());
}

#[test]
fn try_parse_room_refuses_oversized_id() {
    let line = "make_wall, id=99999999999999999999, a_x=1, a_y=1, a_z=1, b_x=1, b_y=1, b_z=1, height=1, thickness=1\n";
    assert!(try_parse_room(line.as_bytes()).is_none());
}

#[test]
fn try_parse_room_accepts_valid_file() {
    let file = format!("{BBOX}{DOOR}");
    let d = try_parse_room(file.as_bytes()).expect("valid");
    assert_eq!(d.bboxes.len(), 1);
    assert_eq!(d.doors.len(), 1);
}

#[test]
fn navigation_skip_window_accepts_last_line() {
    assert_eq!(sina::nav_parser::skip_window(b"make_window, id=1", 0), Ok(((), 17)));
    assert_eq!(sina::nav_parser::skip_window(b"make_window, id=1\nx", 0), Ok(((), 18)));
    assert_eq!(sina::nav_parser::skip_window(b"make_wall", 0), Err(0));
}

#[test]
fn navigation_room_accepts_final_window_line() {
    let file = format!("{WALL}make_window, id=9, x=1");
    let d = sina::nav_parser::try_parse_room(file.as_bytes()).expect("valid");
    assert_eq!(d.walls.len(), 1);
    assert!(try_parse_room(file.as_bytes()).is_none());
    assert!(sina::nav_parser::try_parse_room(b"make_chair\n").is_none());
}

#[test]
fn try_parse_id_reports_overflow() {
    assert!(matches!(try_parse_id(b"18446744073709551615,", 0), Step::Done(u64::MAX, 20)));
    assert!(matches!(try_parse_id(b"18446744073709551616", 0), Step::Panic));
    assert!(matches!(try_parse_id(b"ab", 0), Step::Fail(0)));
}

#[test]
fn try_parse_lines_report_each_outcome() {
    match try_parse_wall(WALL.as_bytes(), 0) {
        Step::Done(w, q) => {
            assert_eq!((w.id, q), (3, WALL.len()));
            assert_eq!(text(&w.end.y), "5e1");
        }
        _ => panic!("wall"),
    }
    assert!(matches!(try_parse_wall(DOOR.as_bytes(), 0), Step::Fail(0)));
    let big = WALL.replace("id=3", "id=99999999999999999999");
    assert!(matches!(try_parse_wall(big.as_bytes(), 0), Step::Panic));
    match try_parse_door(DOOR.as_bytes(), 0) {
        Step::Done(d, q) => assert_eq!((d.id, d.wall0_id, d.wall1_id, q), (7, 3, 4, DOOR.len())),
        _ => panic!("door"),
    }
    let big = DOOR.replace("wall1_id=4", "wall1_id=99999999999999999999");
    assert!(matches!(try_parse_door(big.as_bytes(), 0), Step::Panic));
    match try_parse_bbox(BBOX.as_bytes(), 0) {
        Step::Done(b, q) => {
            assert_eq!(q, BBOX.len());
            assert_eq!(text(&b.angle), "0.25");
        }
        _ => panic!("bbox"),
    }
    assert!(matches!(try_parse_bbox(WALL.as_bytes(), 0), Step::Fail(0)));
}

#[test]
fn room_text_is_trimmed_before_parsing() {
    use_trim_cases();
    let file = format!("\n\n  {WALL}{DOOR}\n\n");
    let d = sina::nav_parser::try_parse_room_text(&file).expect("valid");
    assert_eq!((d.walls.len(), d.doors.len(), d.bboxes.len()), (1, 1, 0));
    assert_eq!(d.walls[0].id, 3);
    assert!(sina::nav_parser::try_parse_room_text("  make_chair, id=1\n").is_none());
    assert!(sina::nav_parser::try_parse_room_text(" \n ").expect("empty").walls.is_empty());
}

fn use_trim_cases() {
    assert_eq!(sina::nav_parser::trim_text(" \t\u{3000}ab c\u{85}\n "), "ab c");
    assert_eq!(sina::nav_parser::trim_text("\u{2029}\n"), "");
    assert_eq!(sina::nav_parser::trim_text("x"), "x");
    assert_eq!(sina::nav_parser::trim_text("\u{200B}x"), "\u{200B}x");
}
