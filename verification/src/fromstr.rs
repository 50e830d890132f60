//! Construction of the library's value types from slash-delimited path
//! strings.

use vstd::prelude::*;

verus! {

/// Types that can be read out of a slash-delimited path string.  Each
/// implementation states in its own contract what the string denotes.
pub trait FromStr {
    fn from_str(path: &str) -> Option<Self> where Self: Sized;
}

} // verus!
