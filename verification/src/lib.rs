//! Two-tier block storage: a fast hot store, a large cold store, and the rules
//! that move aged-out block data from the first to the second.

pub mod admin;
pub mod admin_laws;
pub mod api;
pub mod batch;
pub mod blocks;
pub mod bytes;
pub mod chained;
pub mod copying;
pub mod json;
pub mod log_filter;
pub mod meanings;
pub mod memory;
pub mod migration;
pub mod migration_laws;
pub mod ordered;
pub mod scan;
pub mod tables;
pub mod text;
pub mod tiered;
pub mod tiered_laws;
pub mod tiers;
pub mod worker;
