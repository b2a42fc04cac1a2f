//! Planning and bookkeeping for unpacking archives found in a directory
//! tree and merging what they hold back into that directory.
//!
//! Nothing in this crate changes the file system or starts a process. The
//! caller lists directories, runs the decompression tool and moves files;
//! the crate decides what is to be done next and records how it went.
//!
//! - `names`: file names and paths as text.
//! - `discovery`: the archives in a directory tree.
//! - `staging`: names for staging directories.
//! - `tool`: the command lines of the decompression tool and its installer.
//! - `merger`: what is done with an entry of a staging directory.
//! - `report`: the record of a run.
//! - `protocol`: what a pipeline asks and what it is answered.
//! - `model`: the states of a pipeline and the steps between them.
//! - `pipeline`: the pipeline itself.
//! - `world`, `course`: a file system and a tool to follow a run in, and
//!   the proof of where such a run ends.

pub mod course;
pub mod discovery;
pub mod merger;
pub mod model;
pub mod names;
pub mod pipeline;
pub mod protocol;
pub mod report;
pub mod staging;
pub mod tool;
pub mod world;
