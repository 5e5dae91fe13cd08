//! Reading of optical disc images: telling what an image holds, listing its files, and choosing
//! files to extract.
//!
//! The library decides and computes; it reads and writes nothing itself. Where the contents of an
//! image are needed step by step, a value of the library says what to read next and takes what was
//! read: [`udf::open::UdfOpening`] and [`udf::walk::UdfWalk`] for sectors of a UDF volume,
//! [`udf::copy::FileCopy`] for the contents of a file, and [`iso::IsoWalk`] for the entries of ISO
//! 9660 directories.

pub mod bytes;
pub mod extract;
pub mod index;
pub mod iso;
pub mod iso_index;
pub mod laws;
pub mod probe;
pub mod progress;
pub mod report;
pub mod text;
pub mod timestamp;
pub mod udf;
