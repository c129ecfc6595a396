//! Character-level change marking for a block of deleted lines against a block
//! of added lines.
//!
//! Each side of the block becomes one sequence of characters: its lines joined
//! by `\n` elements. The two sequences are compared once, with a dynamic
//! programming table when they are short and with the greedy `O(ND)` search
//! otherwise. The raw changes are then tidied up: shifted and joined, widened
//! to whole words, merged across very short matches, and widened to whole
//! lines. What remains is cut back into spans, line by line.
//!
//! Every function states what it returns over sequences of characters and
//! changes with unbounded integer offsets. What holds across functions is proved
//! beside them:
//!
//! - `laws`: the spans of a line spell it, and what they leave unmarked survives
//!   on the other side, white space aside; changed text other than white space
//!   is marked, and a change with nothing on one side is shown there as a bar;
//!   the ranges of a rendered line tile it;
//! - `marking` and `bars`: which blocks are compared by characters, which text is
//!   marked and which is not, white space included, and where bars stand;
//! - `rendering`: what a rendered line shows of each span;
//! - `equality`: equal blocks carry no marks;
//! - `searching` and `shortest`: which matches the table settles on; the greedy
//!   search finds the fewest insertions and deletions, no more than the table
//!   search, and as many with the sides exchanged;
//! - `placement`: changes that can slide together are joined, and a pure
//!   insertion or deletion ends up at the best place that it can be slid to;
//! - `whole_words`: words of which less than two thirds are equal are changed as
//!   a whole, and others are left alone;
//! - `tidying` and `short_matches`: which changes are joined across short text,
//!   and how far long ones are stretched; joining changes across single elements
//!   settles at once;
//! - `reading`: what lines, words, white space and good places for a cut are;
//! - `survival`, `word_alignment` and `band`: what the changes of each stage
//!   leave out is the same text on both sides.

pub mod band;
pub mod bars;
pub mod block;
pub mod char_seq;
pub mod chars;
pub mod dp;
pub mod equality;
pub mod laws;
pub mod marking;
pub mod matching;
pub mod myers;
pub mod placement;
pub mod ranges;
pub mod reading;
pub mod rendering;
pub mod searching;
pub mod shifting;
pub mod short_matches;
pub mod shortest;
pub mod spans;
pub mod survival;
pub mod tidying;
pub mod weight;
pub mod whole_words;
pub mod widen;
pub mod word_alignment;
pub mod words;

pub use crate::block::block_diff_runs;
pub use crate::ranges::{OffsetRange, SequenceDiff};
pub use crate::spans::{DiffSpan, Mark};
pub use crate::widen::{widen_line, WidenedLine};
