//! Run commands one after another, stopping at the first failure, while
//! capturing a bounded head-and-tail excerpt of the failing command's
//! interleaved stdout/stderr output.
//!
//! The verified core is the bounded output buffer (`buffer`), the
//! configuration and exit-status classification (`exitcode`), and the
//! command-string tokenization front end (`command`). Process spawning,
//! pipe reading, and rendering live outside the library.

pub mod buffer;
pub mod command;
pub mod exitcode;
