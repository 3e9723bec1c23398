//! Engine for a mechanical source migration: it classifies structured build
//! diagnostics into rewrite categories, collects the actionable byte spans
//! into a per-file edit plan, splices the edits into file content in reverse
//! order, and drives a bounded iterate-until-fixed-point loop.

pub mod category;
pub mod patch;
pub mod span;
pub mod plan;
pub mod converge;
pub mod parse;
pub mod boundary;
