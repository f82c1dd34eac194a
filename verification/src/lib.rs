//! Real-time bilingual speech translation: segmentation, streaming translation,
//! the personal dictionary, reference documents, and session bookkeeping.
pub mod archive;
pub mod asr;
pub mod baseline;
pub mod clock;
pub mod config;
pub mod dictionary;
pub mod document;
pub mod domain;
pub mod identity;
pub mod job;
pub mod json;
pub mod language;
pub mod llm;
pub mod median;
pub mod metrics;
pub mod number;
pub mod parts;
pub mod replace;
pub mod revision;
pub mod segment;
pub mod server;
pub mod session;
pub mod streaming;
pub mod summary;
pub mod terms;
pub mod text;
pub mod translation;
pub mod workbook;
pub mod xml;
