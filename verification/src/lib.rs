//! Recovery of password fragments from raw memory dumps.
//!
//! A masked password-entry widget redraws its field one revealed character at
//! a time, leaving transient traces in process memory: a run of mask-marker
//! glyphs followed by one plain character and a string terminator, all encoded
//! as UTF-16LE. This crate scans a dump buffer for that artifact and turns the
//! recovered `(position, character)` observations into usable password
//! guesses: deduplicated hints, per-position gap listings, or a full
//! combinatorial enumeration.

pub mod chars;
pub mod dedup;
pub mod group;
pub mod render;
pub mod scan;

pub use chars::MASK_CHAR;
pub use dedup::order_by_duplicates;
pub use group::{group_by_length, get_unknowns_and_knowns};
pub use render::{
    Format, ReconstructError, all_lines, format_leaks, found_lines, gaps_lines, leak_to_string,
};
pub use scan::find_leaks;
