//! Verified core of a tool that follows the migration of a code base from
//! JavaScript to TypeScript: it counts source files per language and folder,
//! compares them with the last entry of a CSV log and prepares the rows that
//! are appended to that log.

pub mod error;
pub mod text;
pub mod clock;
pub mod commands;
pub mod log;
pub mod json;
pub mod report;
pub mod run;
