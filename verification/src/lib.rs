pub mod compare;
pub mod diff;
pub mod github;
pub mod github_storage;
pub mod lcov;
pub mod model;
pub mod pct;
pub mod report_github;
pub mod storage;
pub mod text;
pub mod render;
pub mod cov;
pub mod pr_diff;
pub mod summary;
pub mod report_markdown;
pub mod dirtree;
pub mod report_html;
pub mod setup_gcs;
pub mod python;
pub mod baseline_fetch;
pub mod laws;
pub mod pointer;
pub mod gcs;
pub mod fingerprint;
pub mod snapshot_push;
pub mod normal;
pub mod tracefile;
