//! Terminal session core: incremental UTF-8 decoding of pseudo-terminal
//! output, the state of the single terminal session, the plan for starting
//! its shell, and the parsing of repository status output.
pub mod decoder;
pub mod git;
pub mod launch;
pub mod session;

pub use decoder::{Decoded, Utf8Decoder};
pub use git::{ChangedFile, FileDiff, GitInfo};
pub use launch::LaunchPlan;
pub use session::{PtyError, PtyState, SessionState, TermSize, WriterState};
