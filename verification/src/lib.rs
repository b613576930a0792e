//! Verified core of a video colour-object counter: the HSV colour table,
//! command-line parsing, contour measurement and selection, the running
//! per-colour tally of the frame loop, the on-screen dashboard layout and
//! the final text report.

pub mod args;
pub mod colors;
pub mod dashboard;
pub mod detect;
pub mod geometry;
pub mod report;
pub mod stream;
pub mod tally;
pub mod text;
