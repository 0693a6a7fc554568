//! What can go wrong, apart from I/O.

use std::path::PathBuf;
use vstd::prelude::*;

verus! {

/// Why a recovery set cannot be made.
#[derive(Debug)]
pub enum Par2Error {
    /// The slice size is 0 or no multiple of 4.
    InvalidSliceSize(u64),
    /// A file name is empty or contains a NUL byte.
    InvalidFileName(PathBuf),
    /// There are no input files.
    NoInputFiles,
    /// An input file is empty.
    EmptyFile(PathBuf),
    /// There are more than 32768 input files.
    TooManyFiles(usize),
    /// More than 65535 recovery blocks are asked for.
    TooManyRecoveryBlocks(u32),
    /// There are more than 32768 input blocks; `suggested` is the smallest slice
    /// size with which there would not be.
    TooManyInputBlocks { count: u64, slice_size: u64, suggested: u64 },
    /// The recovery blocks cannot be distributed as asked.
    InvalidVolumeScheme(String),
}

/// Result of an operation of this library.
pub type Result<T> = std::result::Result<T, Par2Error>;

} // verus!
