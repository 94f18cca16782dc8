use vstd::prelude::*;

verus! {

/// The key type of the projects that the reloadable GUI edits.
pub struct ProjectKey;

/// The parameter value types of the reloadable GUI.
pub struct ValueType;

} // verus!
