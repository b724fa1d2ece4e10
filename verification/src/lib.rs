//! Reader and writer for the multi-volume DZ archive container.
//!
//! A DZ archive is a set of files cut into chunks. Each chunk is
//! compressed by itself and lies in one of several volumes; a chunk table
//! in the header of the main volume says where. This crate reads that
//! header ([`metadata`]), repairs the chunk lengths that archives in the
//! wild get wrong ([`reconcile`]), puts files together from their chunks
//! ([`extract`], [`unpack`]), and writes new archives ([`pack`]).
//!
//! Everything here works on bytes in memory. Files and volumes come from
//! and go to the traits of [`io`]. The behaviour of every function is
//! stated in its contract and proved; [`roundtrip`] holds the theorems
//! that tie packing and unpacking together. What is taken on trust is the
//! outside crates that encode integers and compress data, and a few
//! functions of the standard library; each such place says so.

pub mod bytes;
pub mod codec;
pub mod error;
pub mod extract;
pub mod format;
pub mod io;
pub mod layout;
pub mod list;
pub mod metadata;
pub mod model;
pub mod pack;
pub mod paths;
pub mod pipeline;
pub mod reader;
pub mod reconcile;
pub mod roundtrip;
pub mod text;
pub mod unpack;
pub mod utils;
pub mod writer;

pub use codec::{compress_data, CompressionMethod};
pub use error::DzipError;
pub use io::{PackSink, PackSource, ProgressEvent, UnpackSink, UnpackSource};
pub use list::{do_list, ListEntry};
pub use pack::do_pack;
pub use unpack::do_unpack;
