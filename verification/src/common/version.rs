use vstd::prelude::*;

verus! {

/// The version of the notebook.
pub const VERSION: &'static str = "2.0.0";

} // verus!
