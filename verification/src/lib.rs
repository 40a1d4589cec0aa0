//! A configuration-driven scraping library: a rule tree describes how an
//! HTML document is turned into a structured record, a resilient request
//! policy decides retries, and a pagination planner drives both across a
//! page range.

pub mod errors;
pub mod data;
pub mod text;
pub mod rules;
pub mod dom;
pub mod rx;
pub mod engine;
pub mod request;
pub mod config;
pub mod walker;
pub mod json;
