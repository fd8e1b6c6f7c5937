//! A robots.txt parser: rules match by path prefix and the first matching rule decides
//! (no `*`/`$` wildcards), percent-encoding is normalized on both sides, and user-agents
//! are matched as lowercase substrings, with `*` as the catch-all consulted last.
//!
//! Fetching the file is left to the caller: split it into lines and hand them to
//! [`RobotFileParser::parse`].

pub mod laws;
pub mod model;
pub mod protocol;
pub mod robots;
pub mod text;
pub mod url;

pub use model::RequestRate;
pub use robots::RobotFileParser;
