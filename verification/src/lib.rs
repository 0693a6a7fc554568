//! PAR2 recovery sets: scanning files, Reed-Solomon encoding over GF(2^16), and
//! the PAR 2.0 packet format.
//!
//! The library computes and decides; it does no input or output of its own.
//!
//! - [`SourceFile::scan`] describes an input file from its content.
//! - [`creator::plan_create`] checks a request, and [`creator::CreateJob`] runs
//!   it step by step, saying what to read, write and report.
//! - [`memory::create_in_memory`] runs a whole job on files held in memory.

pub mod bars;
pub mod bytes;
pub mod cli;
pub mod coprime;
pub mod crc;
pub mod create_laws;
pub mod creator;
pub mod encoder;
pub mod error;
pub mod file_order;
pub mod format;
pub mod galois;
pub mod galois_order;
pub mod galois_simd;
pub mod md5_impl;
pub mod md5_mb_neon;
pub mod memory;
pub mod os_path;
pub mod packet;
pub mod paths;
pub mod progress;
pub mod recovery_laws;
pub mod reedsolomon;
pub mod source;
pub mod suggestion;
pub mod symbols;
pub mod text;
pub mod volumes;

pub use creator::{CreateOptions, MAX_FILES, MAX_RECOVERY_BLOCKS};
pub use error::{Par2Error, Result};
pub use progress::{ProgressEvent, ProgressReporter};
pub use reedsolomon::MAX_INPUT_BLOCKS;
pub use source::SourceFile;
pub use volumes::VolumeScheme;
