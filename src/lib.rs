//! Extracts the metadata that a `setup.py` script hands to `setuptools.setup`,
//! by running the script in a disposable copy of its project next to a shim
//! module that prints the keyword arguments instead of building anything.
//!
//! The library holds the decisions: which paths the snapshot copies, what the
//! shim says, how the child's module search path is composed, and how a
//! finished run is classified and decoded. The caller performs the I/O.

mod launch;
mod payload;
mod snapshot;

pub use launch::{
    child_search_path, INTERPRETER, SEARCH_PATH_VAR, SETUP_SCRIPT, SHIM_MODULE_FILE, SHIM_SOURCE,
};
pub use payload::{decode_run, ExecutionResult, ProbeError};
pub use snapshot::{DirEntry, RelPath, SnapshotWalk};
