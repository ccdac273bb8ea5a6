//! Container formats around draco streams.

pub mod gltf;
pub mod draco_extension;
