//! Sessions of coding agents, read from where each agent keeps them and brought
//! into one form.
//!
//! Every agent has a connector: `clawdbot`, `codebuff`, `copilot_cli`, `devin`,
//! `goose`, `grok`, `grok_bot`, `hermes`, `kimi`, `omp` and `opencode`. A connector
//! says where sessions stand, which files or databases a scan reads, and what
//! conversation each of them makes. It touches no file itself: `files` holds a
//! picture of the files, `scan` what surrounds them, and the rows of a database
//! are plain values. What comes out is stated in `model`.
use vstd::prelude::*;

pub mod base32;
pub mod binary64;
pub mod boundaries;
pub mod bytes;
pub mod canon;
pub mod clawdbot;
pub mod codebuff;
pub mod copilot_cli;
pub mod databases;
pub mod decimal;
pub mod devin;
pub mod files;
pub mod goose;
pub mod goose_store;
pub mod grok;
pub mod grok_bot;
pub mod grok_updates;
pub mod hermes;
pub mod json;
pub mod kimi;
pub mod kimi_code;
pub mod lines;
pub mod model;
pub mod omp;
pub mod opencode;
pub mod opencode_parts;
pub mod opencode_store;
pub mod opencode_stream;
pub mod order;
pub mod path;
pub mod pending;
pub mod query;
pub mod records;
pub mod scan;
pub mod stamp;
pub mod text;

verus! {

} // verus!
