//! Slurm `sacct --parsable2` exports, read into typed values.
//!
//! A line of an export becomes a [`Record`] ([`parse_row`], [`parse_file`]), and
//! a whole export becomes jobs on the jobs contract ([`map_export`]), by a
//! mapping file that says which tier each job is of ([`TierMap`]) and a site
//! clock that says which hour each local reading is ([`SiteClock`]). Nothing
//! here reads a file, runs a command or knows a zone.
//!
//! Each function's contract says what it returns for every input, over the
//! specification functions of its module. What holds of several of them
//! together, and what they are for, is stated and proved in [`record_laws`],
//! [`tier_laws`], [`row_laws`], [`export_laws`] and [`message_laws`], and in the
//! `law_` functions of the other modules.

pub mod calendar;
pub mod error;
pub mod export;
pub mod export_laws;
pub mod job;
pub mod message_laws;
pub mod number;
pub mod order;
pub mod record;
pub mod record_laws;
pub mod rounding;
pub mod row;
pub mod row_laws;
pub mod site;
pub mod table;
pub mod text;
pub mod tier_laws;
pub mod tiers;

pub use crate::error::IngestError;
pub use crate::export::{instants, latest_hour, map_export, Conversion, Rejected, Tally};
pub use crate::job::{Job, JobId};
pub use crate::record::{parse_file, parse_row, Error, Limit, Record, State};
pub use crate::row::RejectCause;
pub use crate::site::{DstCrossing, HourIndex, SiteClock};
pub use crate::tiers::{Tier, TierMap, TierMapFault};
