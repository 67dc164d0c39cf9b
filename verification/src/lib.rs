//! Log navigation engine: line parsers, indexes, predicates and the state
//! behind the terminal views.
//!
//! - [`scan`], [`text`], [`number`], [`order`], [`string_map`]: helpers that
//!   every other module shares.
//! - [`civil`], [`clock`]: dates, and points in time as text.
//! - [`json`], [`pattern`]: what `serde_json` and `regex` are asked for.
//! - [`engine`]: records, indexes, formats, predicates, queries, histograms.
//! - [`schema`]: auto-columns.
//! - [`io`]: producers of records, and what decides how a source is read.
//! - [`app`]: tabs, filters, bookmarks, prompts and what each key does.
//! - [`panes`], [`theme`]: what the screen shows, as styled rows.
//! - [`bookmarks_store`]: bookmarks kept between sessions.
//! - [`cli`]: what the command line asks for.
//! - [`bench`]: parsing strategies to compare.

pub mod app;
pub mod bench;
pub mod bookmarks_store;
pub mod civil;
pub mod cli;
pub mod clock;
pub mod engine;
pub mod io;
pub mod json;
pub mod number;
pub mod order;
pub mod panes;
pub mod pattern;
pub mod scan;
pub mod schema;
pub mod string_map;
pub mod text;
pub mod theme;
