//! An approximate phrase matcher: known phrases are compiled into a compact
//! filter (lengths, boundary codes and checksum pairs) that sentences are
//! then scanned against.
use vstd::prelude::*;

pub mod checksum;
pub mod vocab;
pub mod patterns;
pub mod matcher;
