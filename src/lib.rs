//! Transliteration of Unicode text into printable ASCII through a compact,
//! directly indexed table.
//!
//! A table holds a three-byte record per codepoint and one pool of ASCII text.
//! [`compact`] builds it from one replacement per codepoint; [`deunicode`]
//! and [`deunicode_with_tofu`] read it, joining the characters' replacements
//! without doubling the spaces that separate words.
use vstd::prelude::*;

pub mod assemble;
pub mod compact;
pub mod names;
pub mod table;

pub use assemble::{deunicode, deunicode_with_tofu, AsciiChars, AsciiCharsIter};
pub use compact::{compact, CompactError};
pub use names::{
    emojiname, merge_names, named_emoji, parse_codepoint_hex, single_codepoint, trim_colons,
};
pub use table::{deunicode_char, Table, TableError};

verus! {

} // verus!
