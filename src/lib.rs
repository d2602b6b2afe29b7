//! Reading and writing FARC archives: a flat container of uniquely named
//! byte blobs, located by big-endian offsets in a header table.
pub mod archive;
pub mod bytes;
pub mod gzip;
pub mod laws;
pub mod read;
pub mod write;

pub use archive::{Entry, Farc, FarcError};
