//! A dependency scanner for C-style sources.
//!
//! Given a set of root files, the scanner finds every file that they name,
//! directly or through other files, in `#include` directives. A name is
//! resolved against the directory of the naming file and a list of search
//! directories; a macro that a `#define` line or the command line has
//! defined may stand for a name. The result is the list of all paths
//! found, in lexicographic order, each once.
//!
//! The library does no input or output. The file system enters as a
//! [`resolve::FileTable`], a table of the files that exist; a caller that
//! scans a real file system fills such a table with what it has learned
//! from the disk and drives the steps of [`scheduler::Scheduler`] itself.
//! [`run::scan`] runs a whole scan over a table that is complete.
//!
//! * [`platform`]: how path text is spelled on a host.
//! * [`path`]: components of a path, and collapsing `..` without the disk.
//! * [`directive`]: the scanner that picks directives out of file content.
//! * [`resolve`]: which file a name stands for.
//! * [`processed`], [`resolved`], [`scheduler`]: the state that the workers
//!   of a scan share, and the steps that change it.
//! * [`scan`]: one job.
//! * [`run`]: a scan, one job after the other.
//! * [`closure`], [`protocol`]: what a scan has to find, and why it finds
//!   it in whatever order the jobs take their steps.
//! * [`options`]: the command line.

pub mod bytes;
pub mod closure;
pub mod directive;
pub mod error;
pub mod options;
pub mod path;
pub mod platform;
pub mod processed;
pub mod protocol;
pub mod resolve;
pub mod resolved;
pub mod run;
pub mod scan;
pub mod scheduler;
pub mod table;
