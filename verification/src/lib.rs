//! Bulk ingestion of samples into time series.
//!
//! A payload is parsed into samples ([`ingest`]), the samples are grouped by the chunk that each
//! goes to ([`grouping`]) and written ([`bulk_add`]), and what was stored is compacted into other
//! series ([`compaction`]). What a read gives back of it is stated in [`read_back`] and
//! [`policy_laws`], what the compactions come to in [`compaction_laws`], [`aggregate_laws`] and
//! [`delivery_laws`], and what the arithmetic comes to in [`number_laws`].
pub mod aggregate_laws;
pub mod aggregators;
pub mod binary64;
pub mod bulk_add;
pub mod chunk;
pub mod commands;
pub mod common;
pub mod compaction;
pub mod compaction_laws;
pub mod context;
pub mod delivery_laws;
pub mod fanout;
pub mod grouping;
pub mod ignore;
pub mod ingest;
pub mod joining;
pub mod json;
pub mod madd_bulk;
pub mod module;
pub mod number_laws;
pub mod option_laws;
pub mod options;
pub mod parallel;
pub mod placement;
pub mod policy_laws;
pub mod range_iterator;
pub mod ranges;
pub mod read_back;
pub mod series;
pub mod sorting;
pub mod values;

pub use crate::module::{
    is_module_initialized, valid_server_version, MODULE_NAME, VK_TIMESERIES_VERSION,
};
