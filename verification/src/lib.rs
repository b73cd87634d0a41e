//! GNU-style version sort for strings.
//!
//! The ordering implemented here is the one `sort -V` uses: embedded digit
//! runs compare by numeric magnitude (`file9` before `file10`), `~` sorts
//! before everything including the end of a string, hidden names (leading
//! dot) come first, and a trailing filename extension is ignored in the
//! primary comparison pass.

pub mod chars;
pub mod chunks;
pub mod compare;
pub mod extension;
pub mod laws;
pub mod numeric;
pub mod sorting;
pub mod strings;

pub use chars::compare_chars;
pub use chunks::{compare_non_digit_seq, digit_seq, non_digit_seq, sequence_cmp};
pub use compare::compare;
pub use extension::split_extension;
pub use sorting::sort;
