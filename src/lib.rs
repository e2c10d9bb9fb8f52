use vstd::prelude::*;

pub mod bytes;
pub mod chunk_id;
pub mod cue;
pub mod decode;
pub mod encode;
pub mod error;
pub mod format;
pub mod reader;
pub mod wave;
pub mod writer;

verus! {

} // verus!
