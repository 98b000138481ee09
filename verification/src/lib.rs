//! Weighted code-coverage risk metrics: structural complexity and line
//! coverage combined into composite scores that flag risky code.
//!
//! A run takes the text of a coverage report and the analysed source files
//! of a project, and gives a table of scored units, a list of the units
//! left out, the units marked complex in ranked order, and the coverage of
//! the project as a whole.
//!
//! All quantities are exact integers. Ratios and scores are fixed-point
//! numbers counted in millionths, so every comparison and every ordering the
//! library makes is decided without rounding error.
//!
//! - [`coverage`] reads a report of either schema into one shape, through
//!   the JSON tree of [`json`];
//! - [`formulas`] computes the coverage ratio and the four scores, and
//!   [`classify`] marks a unit by its scores and the bounds of
//!   [`thresholds`];
//! - [`engine`] makes of one file its rows and entries ([`metric`]) from
//!   what its analysis found ([`source`]);
//! - [`pool`] hands files out to workers and takes their outcomes back, and
//!   [`outcome`] puts the result together, with the complex rows in the
//!   order of [`rank`];
//! - [`run`] does all of it in one call;
//! - [`options`] names the choices of a run; [`decimal`], [`paths`] and
//!   [`text`] read numbers and compare byte strings; [`order`] holds what
//!   is true of a sequence in any order.

pub mod classify;
pub mod coverage;
pub mod decimal;
pub mod engine;
pub mod formulas;
pub mod json;
pub mod metric;
pub mod options;
pub mod order;
pub mod outcome;
pub mod paths;
pub mod pool;
pub mod rank;
pub mod run;
pub mod source;
pub mod text;
pub mod thresholds;
