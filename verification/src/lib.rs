//! Indoor navigation support library: sensor buffering, the semantic room
//! file grammar, and the integer-level graph logic of the navigation pipeline.
//!
//! Coordinates are `f32` values carried as their IEEE-754 bit patterns, so that
//! the logic that only moves, compares or groups them is verified here while
//! floating-point arithmetic stays with the caller.
pub mod geometry;
pub mod timed;
pub mod sensor;
pub mod sensor_buffer;
pub mod raw_data;
pub mod parser;
pub mod nav_parser;
pub mod data;
pub mod room_graph;
pub mod chain;
pub mod outline;
pub mod navmesh;
pub mod navgraph;
pub mod funnel;
pub mod tag_config;
pub mod pose;
pub mod decoder;
pub mod navigator;
pub mod device_stream;
pub mod sina;
pub mod tag_detection;
pub mod imu_timing;
pub mod json_input;
