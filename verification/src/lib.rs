//! Watch a directory tree and rerun a command when files change: the
//! decisions of the tool, verified.
pub mod text;
pub mod path;
pub mod ignore;
pub mod argparse;
pub mod watcher;
pub mod debounce;
pub mod runner;
