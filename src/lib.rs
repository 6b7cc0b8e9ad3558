//! Conversion of CVS repositories (directories of RCS `,v` files) into the
//! command stream of `git fast-import`: revision numbers, the RCS file reader,
//! ed-script deltas, patchset detection and the importer's state.
pub mod bytes;
pub mod num;
pub mod ed;
pub mod detector;
pub mod discovery;
pub mod fast_import;
pub mod rcs;
pub mod state;
pub mod persist;
pub mod import;
pub mod tag;
pub mod walker;
