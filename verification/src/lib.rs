//! Builds a chapter tree from a flat list of relative markdown paths and
//! renders it as a `SUMMARY.md` table of contents in one of two dialects.

pub mod book;
pub mod laws;
pub mod outside;
pub mod strutil;
