//! The logic behind the functions that the scripting host calls.

pub mod ext;
pub mod json;
pub mod module;
pub mod strlcpy;

use vstd::prelude::*;

verus! {

/// A script's cell: the integer type of every value that crosses to the
/// scripting host.
pub type Cell = isize;

} // verus!
