//! A natural-language job schedule: expressions such as "every monday at 2:30pm"
//! or "the last friday at 5pm" are parsed into a [`parser::Schedule`], and the
//! schedule tells when it fires next on the local calendar and wall clock.

pub mod calendar;
pub mod parser;
pub mod text;
pub mod schedule;
pub mod runner;
pub mod jobs;
