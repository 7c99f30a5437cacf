//! Converts an arXiv identifier into sanitized markdown: the pure logic of a
//! two-tier cache, a LaTeX/PDF conversion pipeline and a markdown sanitizer.
pub mod text;
pub mod sanitize;
pub mod tex_main;
pub mod disk_cache;
pub mod memory_cache;
pub mod atom;
pub mod source;
pub mod convert;
pub mod routes;
pub mod flow;
