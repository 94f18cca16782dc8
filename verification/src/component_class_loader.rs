use vstd::prelude::*;

verus! {

/// A component class loader that knows no component class.
pub struct TemporaryComponentClassLoader;

} // verus!
