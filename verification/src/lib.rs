//! The verified core of a paper-to-PDF scanner and its translator: the JPEG Huffman
//! recoder that makes every written page smaller without touching a pixel, the page
//! settings and brightness measurements the image tools are built on, and the text
//! engine that cuts a document into passages and puts their translations back.

pub mod jpeg;
pub mod page;
pub mod text;
pub mod words;

pub use image::DynamicImage;
pub use jpeg::recode::rehuff;
pub use page::levels::Levels;
pub use page::picture::{crop, rotate, to_grayscale};
pub use page::quality::{rung_numbers, FreepdfPageQuality, PageQuality};
pub use page::sheet::{suggest_levels, Rect, SheetMask};
pub use words::document::{rebuild_text, split_passages, Document, Passage};
pub use words::language::Language;
pub use words::model::{LlamaCli, Translator};
pub use words::prompt::{build_prompt, read_reply};
pub use words::translate::translate_passage;
