//! The text side: cutting a document into passages and putting their translations
//! back, the languages a translation runs between, the prompt a model is given and
//! what is kept of its answer.

pub mod chars;
pub mod document;
pub mod language;
pub mod prompt;
pub mod model;
pub mod translate;
