//! Verified core of the ActiveCollab command-line client: argument routing,
//! task-reference parsing, the browse state machine, HTML-to-rich-text
//! conversion, word wrapping, boxed panel layout and asset extraction.

pub mod unicode;
pub mod textutil;
pub mod sanitize;
pub mod render;
pub mod app;
pub mod richtext;
pub mod wrap;
pub mod scan;
pub mod i18n;
pub mod cli;
pub mod resolve;
pub mod dates;
pub mod fields;
pub mod htmltext;
pub mod cli_render;
pub mod richparse;
pub mod assets;
pub mod downloads;
pub mod groups;
pub mod client;
pub mod projects;
pub mod commands;
pub mod detail;
pub mod keys;
pub mod agent;
