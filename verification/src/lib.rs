//! Core of a personal e-book catalog: platform path resolution, a verified
//! persistence codec for the catalog document, the file-ingestion pipeline,
//! directory browsing, and catalog query/mutation operations.

pub mod codec;
pub mod file_picker;
pub mod library;
pub mod models;
pub mod storage;
pub mod text;
