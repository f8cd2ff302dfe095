//! Minecraft region files in their three on-disk formats (anvil, linear v1
//! and v2, and the bucketed linear v3): reading and writing each format's
//! tables and chunk data, file-name coordinates, and the helpers around them.
//! Every function states what it reads or writes as a function of its input
//! bytes, and the writers are proved to read back.

pub mod bytes;
pub mod codec;
pub mod error;
pub mod features;
pub mod mclinear;
pub mod models;
pub mod region;
pub mod split;
pub mod utils;
