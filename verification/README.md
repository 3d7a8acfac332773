# sina

Indoor navigation for a head-worn device: the device's camera images are
matched against AprilTags surveyed beforehand to locate the walker, and a path
to a clicked goal is planned over a navigation mesh of the room, which comes
from a semantic description of walls, doors and objects.

The crate is a Verus library (`src/`) with a thin program around it (`app/`).

## Library (`src/`)

Everything in `src/` is verified except a few small trusted wrappers around
outside crates, whose contracts are taken on trust: `sensor::standard_decode`
(base64's standard decoder, with the type `base64::DecodeError`),
`parser::float_extent` (how much input `winnow::ascii::float` leaves), and
`json_input::parse_i64_array` and `json_input::parse_type_field` (what
`serde_json` reads from the frame timestamp list and from a stream message,
with the type `serde_json::Error`).
Coordinates are `f32` values carried as
their bit patterns (`geometry::Point`), so that the logic that moves, compares,
orders or groups them is verified while floating-point arithmetic stays in the
program.

- `parser`, `nav_parser`, `raw_data`: the semantic room file, read line by line into walls,
  doors and object boxes; numbers are kept as the text the float parser read.
- `data`, `room_graph`: the room on the ground plane and its wall graph
  (distinct end points as nodes, distinct segments as edges, with their doors).
- `chain`, `outline`: walls chained end to end into outlines.
- `navmesh`, `navgraph`, `funnel`: polygon adjacency of the navigation mesh,
  shared edges, the portals a path crosses, and the funnel that straightens
  the path over them (the orientation test of three points is handed in).
- `navigator`: the navigator's state machine (position, goal, path, replanning).
- `sensor`, `sensor_buffer`, `timed`, `imu_timing`: sensor messages, time-ordered
  buffers and the pairing of stereo images.
- `json_input`, `device_stream`, `sina`, `tag_detection`, `decoder`, `pose`, `tag_config`: the
  JSON inputs, message routing, AprilTag detector settings, frame selection, trajectory lookup and
  the grouping of tag observations.

## Program (`app/`)

`main`, configuration, threads and channels, the ZeroMQ sensor stream, file
reading, the window (macroquad), and floating-point work: projections, polygon
clipping (i_overlay, clipper2), triangulation (spade), A* and the orientation test, AprilTag pose
estimation (apriltag, nalgebra), video decoding (ffmpeg) and the MSCKF filter
(OpenCV).
