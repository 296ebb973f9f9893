//! Scheduling and persistence engine for a personal spaced-repetition
//! collection of language-learning items.
//!
//! The scheduler derives the next review interval, ease factor and learning
//! status from a review outcome; the storage layer parses, self-heals and
//! serialises the collection. Fractional quantities are held in fixed-point
//! integers: ease factors in thousandths (`2500` is an ease of 2.5) and
//! intervals in millionths of a day (`1_000_000` is one day).

pub mod commands;
pub mod json;
pub mod storage;
pub mod time;
pub mod numbers;
pub mod sm2;
pub mod models;
pub mod text;

use vstd::prelude::*;

verus! {

use crate::text::is_space_char;

/// Whether a word starts at position `j` of `s`: a non-space character
/// either at the start or right after a space.
pub open spec fn word_starts_at(s: Seq<char>, j: int) -> bool {
    !is_space_char(s[j]) && (j == 0 || is_space_char(s[j - 1]))
}

/// Number of words that start within the first `i` characters of `s`.
pub open spec fn word_count_prefix(s: Seq<char>, i: int) -> int
    decreases i,
{
    if i <= 0 {
        0
    } else {
        word_count_prefix(s, i - 1) + if word_starts_at(s, i - 1) {
            1int
        } else {
            0int
        }
    }
}

/// Number of whitespace-separated words in `s`.
pub open spec fn word_count(s: Seq<char>) -> int {
    word_count_prefix(s, s.len() as int)
}

/// Classification used when a new item is added without an explicit type:
/// a single word is a `word`, anything longer is a `phrase`.
pub fn auto_detect_type(front: &str) -> (r: String)
    ensures
        word_count(front@) <= 1 ==> r@ == "word"@,
        word_count(front@) > 1 ==> r@ == "phrase"@,
{
    let len = front.unicode_len();
    let mut i: usize = 0;
    let mut count: usize = 0;
    let mut prev_space: bool = true;
    while i < len
        invariant
            len == front@.len(),
            0 <= i <= len,
            count == word_count_prefix(front@, i as int),
            count <= i,
            prev_space == (i == 0 || is_space_char(front@[i as int - 1])),
        decreases len - i,
    {
        let c = front.get_char(i);
        let space = crate::text::char_is_whitespace(c);
        if !space && prev_space {
            count = count + 1;
        }
        prev_space = space;
        i = i + 1;
    }
    if count <= 1 {
        String::from_str("word")
    } else {
        String::from_str("phrase")
    }
}

/// Status given to an item whose stored status is absent.
pub fn default_status() -> (r: String)
    ensures
        r@ == "new"@,
{
    String::from_str("new")
}

/// Schema version tag written to every collection.
pub fn default_version() -> (r: String)
    ensures
        r@ == "1.0"@,
{
    String::from_str("1.0")
}

} // verus!
