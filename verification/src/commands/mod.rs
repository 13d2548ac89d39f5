//! What the command-line commands decide, apart from the work they have done
//! on the repository.

pub mod channel;
pub mod common_opts;
pub mod debug;
pub mod fork;
pub mod pushpull;
pub mod remote;
pub mod status;
pub mod tag;
