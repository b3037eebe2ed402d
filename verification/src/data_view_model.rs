use crate::model::DecodingState;
use vstd::prelude::*;

verus! {

/// The tree under the name that a front end of widgets gives it. The widgets
/// keep their own state; the tree holds none of it.
pub type DataViewModel = DecodingState;

} // verus!
