//! Verified core of a tool that extracts code comments from source files and
//! checks their spelling and grammar with a LanguageTool server.

pub mod cache;
pub mod commands;
pub mod language;
pub mod lt;
pub mod parse;
pub mod text;
