//! Reader for point-cloud files whose payload is stored in the compressed
//! binary layout: a textual schema header, two little-endian length prefixes
//! and an LZF block that expands to one contiguous column per field.

pub mod bytes;
pub mod cloud;
pub mod decompress;
pub mod error;
pub mod header;

pub use cloud::PointCloud;
pub use error::PcdError;
pub use header::PointCloudHeader;
