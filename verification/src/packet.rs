//! The packets of a recovery set.

pub mod comment;
pub mod creator;
pub mod file_desc;
pub mod file_verify;
pub mod main_packet;
pub mod recovery;
