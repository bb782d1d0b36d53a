//! A minimal archive container: it packs a sequence of text files into one
//! concatenated byte stream and unpacks the stream back into the ordered list
//! of entries, preserving each file's name, size and modification time.
use vstd::prelude::*;

pub mod archive;
pub mod hex;
pub mod text;

verus! {

} // verus!
