//! Verified core of a small suite of text and filesystem command-line
//! utilities: a line/word/byte/character counter, a bounded head extractor,
//! a consecutive-duplicate collapser, and the filtering and ordering engine
//! of a recursive file finder.
//!
//! The modules here hold the streaming and traversal logic itself; opening
//! files, standard input and the directory walk are left to thin unverified
//! callers that hand byte sequences and directory entries in and write the
//! rendered results out.

pub mod find;
pub mod head;
pub mod text;
pub mod uniq;
pub mod wc;
