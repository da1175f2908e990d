//! The core of an ast-grep scanning service: a request names rule YAML and
//! source files, the answer lists the matches of the rules in the files, in
//! a fixed order, with the metavariables each match captured.
//!
//! `records` holds the request and response; `pipeline` answers a request;
//! `scan` turns what ast-grep reports into records; `file_order` shows that
//! the order of the file list does not change the matches; `sorting` orders
//! the matches; `captures` and `capture_map` collect captured metavariables;
//! `boundary` answers what happens around a scan at the C boundary;
//! `laws` states what records, order and diagnostics owe over the named
//! facts; `text` and `order` are text helpers; `engine` and `json` hold the
//! trusted calls into ast-grep and serde_json.

pub mod text;
pub mod order;
pub mod engine;
pub mod json;
pub mod capture_map;
pub mod records;
pub mod sorting;
pub mod captures;
pub mod scan;
pub mod file_order;
pub mod laws;
pub mod pipeline;
pub mod boundary;
