use vstd::prelude::*;

verus! {

/// The style of the text editor.
pub struct EditorStyle {}

} // verus!
