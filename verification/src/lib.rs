//! Dotfile management in the `stow` style: a repository mirrors files kept
//! under the home directory. This library holds the decisions of `dotsync`:
//! the `.dotsyncignore` rules, the path model, which entry is copied where
//! when applying, adding and re-adding, the configuration format and the
//! command-line grammar. The program around it walks directories, copies
//! files and runs rsync.
pub mod cli;
pub mod config;
pub mod ignore;
pub mod paths;
pub mod sync;
pub mod text;
pub mod units;
