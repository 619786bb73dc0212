//! Strips unwanted caption entries from timed-subtitle files and renumbers
//! what remains. The caption model, the on-disk format, the exclusion
//! matcher, the filter-and-renumber pass and the batch-walk decisions are
//! verified; reading files, walking directories and logging stand outside
//! the library, which works on plain bytes.

/// The caption model: timestamps, captions, and their mathematical views.
pub mod caption;

/// The exclusion set: the `\n` escape and exact text matching.
pub mod matcher;

/// The filter-and-renumber pass and its laws.
pub mod engine;

/// The on-disk caption format: reading, writing, and their round trip.
pub mod codec;

/// Processing one file's content from bytes to bytes.
pub mod pipeline;

/// File-name derivation: output and backup markers, the subtitle extension.
pub mod paths;

/// The batch walk's decisions: which files to take on, when backups go.
pub mod walker;

/// A composite sink that broadcasts writes to several destinations.
pub mod sink;
