//! A library for the classic head-of-file display utility: it resolves a
//! command line into a configuration, and computes the first N lines or the
//! first N bytes of each source, with a banner line when several sources are
//! given.

#![verifier::loop_isolation(false)]

pub mod args;
pub mod head;
pub mod render;

pub use args::Config;
pub use args::ParseError;
pub use args::get_args;
pub use head::head_bytes;
pub use head::head_lines;
pub use render::render;
pub use render::source_block;
