//! Log-file statistics: per-level counts, a status-code histogram, top
//! client addresses, and recent error/warning samples, accumulated one
//! line at a time and rendered into a deterministic report structure.

pub mod extract;
pub mod report;
pub mod sort;
pub mod stats;
pub mod text;

pub use extract::extract_ip;
pub use extract::extract_status_code;
pub use report::CodeEntry;
pub use report::IpEntry;
pub use report::LevelEntry;
pub use report::Report;
pub use stats::analyze_lines;
pub use stats::Level;
pub use stats::LogStats;

