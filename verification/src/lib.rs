//! Verified decoding primitives for Draco geometry streams.

pub mod error;
pub mod reader;
pub mod rans;
pub mod entropy;
pub mod header;
pub mod metadata;
pub mod decode;
pub mod io;
pub mod connectivity;
pub mod attribute;
pub mod point_cloud;
pub mod mesh;
pub mod decoder;
