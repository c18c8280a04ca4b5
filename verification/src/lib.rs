//! Hover analysis for numeric literals and binary files: summaries of PE,
//! ELF, Mach-O, universal Mach-O and archive files, numeric literal previews
//! in several bases, path extraction from source lines and hex dumps.
pub mod binary;
pub mod hover;
pub mod launcher;
pub mod text;
