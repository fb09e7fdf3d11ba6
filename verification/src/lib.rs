//! Single-pass summary statistics over `key;value` measurement lines.
//!
//! Every measurement carries exactly one decimal digit, so the library works
//! in tenths throughout: `12.3` is the integer `123`.
//!
//! A pass over the input ([`ingest`]) goes through three hands: the scanner
//! ([`scan`]) cuts the input into records, the decoder ([`decode`]) turns
//! the value of each into tenths, and the aggregator ([`table`]) keeps one
//! record of statistics ([`stats`]) per key. At the end the records are
//! handed out in key order ([`listing`], [`order`]) and can be written as
//! text ([`render`]). What the outcome of a pass has to be is said in
//! mathematical terms in [`tally`].
//!
//! Nothing here touches a file or a terminal: the input is a slice of bytes,
//! the output a vector or a string.

pub mod decode;
pub mod ingest;
pub mod listing;
pub mod order;
pub mod render;
pub mod scan;
pub mod stats;
pub mod table;
pub mod tally;

pub use decode::parse_digits;
pub use decode::parse_digits_checked;
pub use ingest::read_mmap;
pub use ingest::read_mmap_unsafe;
pub use render::format_labelled;
pub use render::format_summary;
pub use scan::next_record;
pub use scan::IngestError;
pub use stats::CityDetails;
pub use stats::Stats;
pub use table::Aggregator;
