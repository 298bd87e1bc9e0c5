//! Verified core of a keyboard-usage statistics recorder.
//!
//! The library covers the three parts of the system that carry logic:
//! the codec that turns count keys (chords and chord pairs) into stable
//! text tokens and back, the aggregator that turns a stream of
//! "currently pressed" snapshots into count increments, and the store
//! that serializes the statistics map with its config header and
//! validates mode compatibility on load.

pub mod aggregate;
pub mod codec;
pub mod numbers;
pub mod store;
pub mod table;
pub mod text;

use vstd::prelude::*;

verus! {

/// True of characters that may appear in a key name: the codec joins
/// names with `+`, separates pair halves with `", "`, separates a map
/// key from its count with `": "`, and splits the persisted file on
/// newlines, so names must avoid those delimiters and all whitespace.
pub open spec fn name_char(c: char) -> bool {
    c != '+' && c != ',' && c != ':' && c != ' ' && c != '\t' && c != '\r' && c != '\n'
}

/// A key name is valid when it is non-empty and free of delimiter and
/// whitespace characters, so that encoded tokens parse back unambiguously.
pub open spec fn valid_name(s: Seq<char>) -> bool {
    s.len() > 0 && forall|i: int| 0 <= i < s.len() ==> name_char(#[trigger] s[i])
}

} // verus!
