use vstd::prelude::*;

pub mod cache;
pub mod canonical;
pub mod classify;
pub mod coalesce;
pub mod config;
pub mod correlate;
pub mod coverage;
pub mod date;
pub mod diff;
pub mod eclipse;
pub mod emit;
pub mod executor_sql;
pub mod filter;
pub mod group_safety;
pub mod hashing;
pub mod interval;
pub mod keys;
pub mod laws;
pub mod layout;
pub mod naming;
pub mod params;
pub mod plan;
pub mod quoting;
pub mod ranges;
pub mod resolve;
pub mod roots;
pub mod safety;
pub mod segments;
pub mod sequence;
pub mod sorting;
pub mod sql;
pub mod string_facts;
pub mod text;
pub mod timeline;
pub mod types;
pub mod validate;
pub mod value;
pub mod views;

verus! {

} // verus!
