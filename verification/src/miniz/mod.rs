//! A zlib inflate stream for stored blocks, with a C-style lifecycle, and
//! an owned-buffer inflater.

pub mod compat;
pub mod native;
