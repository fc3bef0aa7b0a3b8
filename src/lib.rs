//! Classification core of a partitioned, bit-packed taxonomic hash table:
//! minimizer extraction, the packed cell layout, paged lookups and the
//! per-chunk batch dispatcher that routes classified records to shards.
pub mod codec;
pub mod dispatch;
pub mod layout;
pub mod minimizer;
pub mod page;
