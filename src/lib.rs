//! Enumeration of feasible weekly class schedules.
//!
//! A catalog of subjects, each offered through commissions that meet at fixed
//! times of the week, is split into mandatory and optional groups. The
//! enumerator lists every assignment that takes one commission of each
//! mandatory subject and at most one of each optional subject, with no two
//! commissions meeting at overlapping times; filters then narrow the list.
//!
//! - `time`, `span`, `task`, `day`, `week`: instants, intervals, and the
//!   weekly schedule with its collision and merge operations.
//! - `code`, `code_list`, `subjects`: subject codes and lists of them,
//!   subjects, their commissions, and the merging of commissions that meet at
//!   the same times.
//! - `feed`, `career_plan`, `catalog`: the records of the data feeds and the
//!   catalog built from them.
//! - `option_generator`, `option_stream`: the enumeration, as a list and as a
//!   stream.
//! - `filters`, `pipeline`: predicates over assignments, applied to a list or
//!   lazily to the stream.
pub mod career_plan;
pub mod catalog;
pub mod code;
pub mod code_list;
pub mod collidable;
pub mod combinable;
pub mod day;
pub mod error;
pub mod feed;
pub mod filters;
pub mod option_generator;
pub mod option_stream;
pub mod pipeline;

pub mod span;
pub mod subjects;
pub mod summable;
pub mod task;
pub mod text;
pub mod time;
pub mod week;
