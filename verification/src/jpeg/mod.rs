//! Rebuilding a baseline JPEG's Huffman tables from the page's own symbol counts, and
//! reading a JPEG's size from its header.

pub mod bits;
pub mod header;
pub mod kraft;
pub mod optimal;
pub mod recode;
pub mod replay;
pub mod reread;
pub mod scan;
pub mod segments;
pub mod table;
