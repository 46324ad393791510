//! The skeleton that is burned, and the path that the fire leaves behind.

pub mod erosion_path;
pub mod properties;
pub mod skeleton;
