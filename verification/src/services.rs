use vstd::prelude::*;

verus! {

/// The edits that the project editor records; none is recorded yet.
#[derive(Debug)]
pub enum ProjectEditLog {
    Unimplemented,
}

/// Reads projects from files of the local file system.
pub struct LocalFSProjectLoader;

/// Writes projects to files of the local file system.
pub struct LocalFSProjectWriter;

/// A project loader that loads nothing yet.
pub struct TemporaryProjectLoader;

/// A project writer that writes nothing yet.
pub struct TemporaryProjectWriter;

/// A component class loader that knows no component class.
pub struct TemporaryComponentClassLoader;

} // verus!
