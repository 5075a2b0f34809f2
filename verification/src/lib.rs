//! Detection and format-preserving redaction of personally identifiable
//! information in text.
//!
//! Detectors report where such information stands in a text; the composite
//! scanner merges their reports and resolves overlaps; a policy names terms
//! that are always or never redacted; and the redaction engine puts these
//! together into one transformation from text to text. Every function comes
//! with a contract over the characters and bytes of the text, and the
//! contracts are proved.

pub mod detector;
pub mod mask;
pub mod policy;
pub mod redactor;
pub mod search;
pub mod text;
pub mod types;
