//! Counts emoji grapheme clusters in text and renders a ranked bar chart.
//!
//! The pipeline runs strictly forward: each input line is segmented into
//! grapheme clusters and filtered to emoji, the occurrences are accumulated
//! in a frequency table, the top entries are ranked by count, and each
//! ranked entry is rendered as a fixed-width bar with its percentage and
//! raw count.  All arithmetic is exact: a count's share of the maximum is
//! kept as a fraction of two integers rather than a float.

pub mod bar;
pub mod format;
pub mod rank;
pub mod report;
pub mod segment;
pub mod table;

pub use bar::frac_to_bar;
pub use rank::top_k;
pub use report::render_report;
pub use segment::extract_emojis;
pub use segment::process_line;
pub use table::Entry;
pub use table::FrequencyTable;
