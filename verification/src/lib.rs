//! Terminal video and picture player: the verified core.
//!
//! Pictures and video frames are turned into character cells ([`node::Node`]),
//! frames are diffed against the previous one, packed into a big-endian binary
//! package, compressed, and later unpacked and replayed frame by frame.
pub mod archive;
pub mod bytes;
pub mod color;
pub mod node;
pub mod package;
pub mod player;
pub mod reader;
pub mod utils;
