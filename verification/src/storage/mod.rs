//! What the durability layer needs of a file system.

pub mod fs;
