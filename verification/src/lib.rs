//! Cross-categorization over tabular data: the partitions of rows and
//! columns, the statistics kept for each category, and the exact counts
//! behind the dependence and similarity queries.

pub mod counting;
pub mod assignment;
pub mod suffstat;
pub mod column;
pub mod error;
pub mod dataview;
pub mod state;
pub mod engine;
pub mod oracle;
pub mod preprocess;
pub mod schedule;
pub mod geweke;
