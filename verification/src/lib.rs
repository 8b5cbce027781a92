//! Scan text documents for occurrences of sensitive identifier patterns
//! (national ID numbers, medical record numbers, diagnosis codes, dates of
//! birth) and rewrite the text with the occurrences masked.
//!
//! The crate is organised around three pieces: a pattern registry
//! ([`phi_patterns`]) pairing each category of sensitive data with a compiled
//! matcher, a scanner ([`scanner`]) that locates all matches of every
//! registered pattern in a document, and a redactor ([`redactor`]) that
//! resolves overlapping matches and rewrites the document under a chosen
//! masking strategy.  Text is handled as bytes; all spans are half-open byte
//! ranges into the scanned document.

pub mod cli;
pub mod file_source;
pub mod matcher;
pub mod phi_patterns;
pub mod redactor;
pub mod results;
pub mod scanner;

pub use file_source::FileSource;
pub use file_source::LocalFileSource;
pub use redactor::RedactionStrategy;
pub use redactor::Redactor;
pub use results::DetectionResult;
pub use results::OutputBundle;
pub use results::ResultsSummary;

