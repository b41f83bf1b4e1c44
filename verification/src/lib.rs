//! Searchable plain-text "library" files.
//!
//! A library file is a sequence of entries. An entry starts with a tag line
//! (`[tag1 tag2 ...]`) immediately followed by a sources line (`{...}`); the
//! lines up to the next such pair form its free-form description. Entries are
//! scored against search terms by the number of distinct, case-insensitive
//! tags that match, and ranked by score.
//!
//! The crate works on raw bytes throughout: a file is a `Vec<u8>`, a line is a
//! `Vec<u8>`, and callers hand in file contents and search terms as byte
//! strings. Reading directories and files, and rendering results, is left to
//! the caller.
use vstd::prelude::*;

mod text;
mod lines;

pub use text::{lower, lower_seq, is_space, trimmed, tokens, trim_bytes, lower_bytes, tokenize};
pub use lines::{spec_split, spec_lines, spec_join, first_line, split_lines, join_range,
    first_line_bytes};
pub use lines::{lemma_join_of_lines, lemma_lines_of_join};

mod entry;

pub use entry::{Entry, EntryView, spec_is_tags, spec_is_sources, spec_header_at, spec_headers};
pub use entry::{is_tags, is_sources, header_positions, spec_entries, get_entries, get_entry,
    lemma_headers_ascending, lemma_description_round_trip,
    is_library, spec_contains_txt, copy_line_range, spec_entry_view, spec_entry_end};

mod score;

pub use score::{strip_brackets, tag_tokens, tag_set, term_set, spec_score, score_entry};
pub use score::{lemma_duplicate_tag_token_no_effect, lemma_duplicate_term_no_effect,
    lemma_score_case_insensitive};

mod rank;

pub use rank::{entry_views, with_score, spec_rescored, sorted_desc, keep_positive, sort_by_tags};
pub use rank::{spec_file_blobs, spec_all_blobs, blob_score, keep_scored, entries_from,
    scored_entries};
