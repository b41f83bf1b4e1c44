use libsearch::{
    entries_from, first_line_bytes, get_entries, get_entry, is_library, is_sources, is_tags,
    lower_bytes, score_entry, scored_entries, sort_by_tags, split_lines, tokenize, trim_bytes,
    Entry,
};

fn bytes(s: &str) -> Vec<u8> {
    s.as_bytes().to_vec()
}

fn terms(ss: &[&str]) -> Vec<Vec<u8>> {
    ss.iter().map(|s| bytes(s)).collect()
}

fn join_lines(lines: &[Vec<u8>]) -> Vec<u8> {
    let mut out: Vec<u8> = Vec::new();
    for (i, line) in lines.iter().enumerate() {
        if i > 0 {
            out.push(b'\n');
        }
        out.extend_from_slice(line);
    }
    out
}

#[test]
fn test_entry_new_is_empty() {
    let e = Entry::new();
    assert_eq!(e.score, 0);
    assert!(e.tags.is_empty());
    assert!(e.sources.is_empty());
    assert!(e.description.is_empty());
}

#[test]
fn test_split_lines_edges() {
    assert_eq!(split_lines(&bytes("")), vec![bytes("")]);
    assert_eq!(split_lines(&bytes("a\nb")), vec![bytes("a"), bytes("b")]);
    assert_eq!(split_lines(&bytes("a\n")), vec![bytes("a")]);
    assert_eq!(split_lines(&bytes("a\n\n")), vec![bytes("a"), bytes("")]);
    assert_eq!(split_lines(&bytes("\n")), vec![bytes("")]);
}

#[test]
fn test_text_primitives() {
    assert_eq!(trim_bytes(&bytes("  a b\t \r\n")), bytes("a b"));
    assert_eq!(trim_bytes(&bytes("   ")), bytes(""));
    assert_eq!(lower_bytes(&bytes("AbC-12Z")), bytes("abc-12z"));
    assert_eq!(
        tokenize(&bytes(" a  bb\tc ")),
        vec![bytes("a"), bytes("bb"), bytes("c")]
    );
}

#[test]
fn test_is_tags_and_is_sources() {
    assert!(is_tags(&bytes("[a b]")));
    assert!(is_tags(&bytes("  [a b]  ")));
    assert!(is_tags(&bytes("[]")));
    assert!(!is_tags(&bytes("[")));
    assert!(!is_tags(&bytes("[a}")));
    assert!(!is_tags(&bytes("a b")));
    assert!(is_sources(&bytes("{s1 s2}")));
    assert!(is_sources(&bytes(" {s} ")));
    assert!(!is_sources(&bytes("{")));
    assert!(!is_sources(&bytes("[s]")));
}

// A file with no complete tag/sources header pair yields zero entries.
#[test]
fn test_no_headers_zero_entries() {
    let content = bytes("just some text\nand another line\n");
    assert_eq!(get_entries(&content).len(), 0);
    assert_eq!(entries_from(&content).len(), 0);
    assert_eq!(get_entries(&bytes("")).len(), 0);
}

// A tag line with no following sources line never completes a header.
#[test]
fn test_tag_line_without_sources() {
    let content = bytes("[only tags]\n");
    assert_eq!(get_entries(&content).len(), 0);
    assert_eq!(entries_from(&content).len(), 0);
    assert!(!is_library(&bytes("notes.txt"), &content));
}

// Duplicate tags on the tag line count once.
#[test]
fn test_duplicate_tags_count_once() {
    assert_eq!(score_entry(&terms(&["a", "b"]), &bytes("[a a b]")), 2);
    assert_eq!(score_entry(&terms(&["a"]), &bytes("[a a a]")), 1);
}

// Duplicate search terms, in any letter case, cannot raise the score.
#[test]
fn test_duplicate_terms_no_boost() {
    let single = score_entry(&terms(&["x"]), &bytes("[x y]"));
    let repeated = score_entry(&terms(&["x", "X", "x"]), &bytes("[x y]"));
    assert_eq!(single, 1);
    assert_eq!(repeated, single);
}

// Scoring is case-insensitive on both sides.
#[test]
fn test_case_symmetry() {
    assert_eq!(score_entry(&terms(&["rust"]), &bytes("[Rust]")), 1);
    assert_eq!(score_entry(&terms(&["RUST"]), &bytes("[Rust]")), 1);
    assert_eq!(score_entry(&terms(&["rUsT"]), &bytes("[RUST]")), 1);
    assert_eq!(score_entry(&terms(&["rust"]), &bytes("[rusty]")), 0);
}

// An entry's description, re-joined with line breaks, is the original body.
#[test]
fn test_description_round_trip() {
    let content = bytes("[a b]\n{s}\nline one\n\nline two\n");
    let entries = get_entries(&content);
    assert_eq!(entries.len(), 1);
    let e = &entries[0];
    assert_eq!(e.tags, bytes("[a b]"));
    assert_eq!(e.sources, bytes("{s}"));
    assert_eq!(
        e.description,
        vec![bytes("line one"), bytes(""), bytes("line two")]
    );
    assert_eq!(join_lines(&e.description), bytes("line one\n\nline two"));
}

// Scores [2, 0, 5, 1] rank as [5, 2, 1]; the zero-score entry is dropped.
#[test]
fn test_ranking_order() {
    let file = bytes(
        "[a b]\n{s1}\ntwo\n[z]\n{s2}\nzero\n[a b c d e]\n{s3}\nfive\n[a]\n{s4}\none\n",
    );
    let args = terms(&["a", "b", "c", "d", "e"]);
    let ranked = scored_entries(&args, &vec![file]);
    assert_eq!(ranked.len(), 3);
    assert!(ranked[0].starts_with(b"[a b c d e]"));
    assert!(ranked[1].starts_with(b"[a b]"));
    assert!(ranked[2].starts_with(b"[a]"));
}

// The end-to-end scenario: one matching entry, the other excluded.
#[test]
fn test_end_to_end_search() {
    let file = bytes("[alpha beta]\n{src1}\nSome text.\n[gamma]\n{src2}\nOther text.\n");
    let result = scored_entries(&terms(&["alpha"]), &vec![file]);
    assert_eq!(result.len(), 1);
    assert_eq!(result[0], bytes("[alpha beta]\n{src1}\nSome text."));
    assert_eq!(score_entry(&terms(&["alpha"]), &bytes("[alpha beta]")), 1);
    assert_eq!(score_entry(&terms(&["alpha"]), &bytes("[gamma]")), 0);
}

// An entry at end of file without a trailing line terminator is kept whole.
#[test]
fn test_no_trailing_newline() {
    let content = bytes("[a]\n{s}\nlast line");
    let entries = get_entries(&content);
    assert_eq!(entries.len(), 1);
    assert_eq!(entries[0].description, vec![bytes("last line")]);
    let blobs = entries_from(&content);
    assert_eq!(blobs.len(), 1);
    assert_eq!(blobs[0], content);
}

#[test]
fn test_first_line_is_tag_line() {
    let blob = bytes("[a b]\n{s}\nbody");
    assert_eq!(first_line_bytes(&blob), bytes("[a b]"));
    assert_eq!(first_line_bytes(&bytes("no newline")), bytes("no newline"));
    assert_eq!(first_line_bytes(&bytes("")), bytes(""));
}

#[test]
fn test_two_entries_boundaries() {
    let content = bytes("[one]\n{s1}\nbody 1\n[two]\n{s2}\nbody 2\n");
    let entries = get_entries(&content);
    assert_eq!(entries.len(), 2);
    assert_eq!(entries[0].tags, bytes("[one]"));
    assert_eq!(entries[0].description, vec![bytes("body 1")]);
    assert_eq!(entries[1].tags, bytes("[two]"));
    assert_eq!(entries[1].description, vec![bytes("body 2")]);
    let blobs = entries_from(&content);
    assert_eq!(blobs[0], bytes("[one]\n{s1}\nbody 1"));
    assert_eq!(blobs[1], bytes("[two]\n{s2}\nbody 2"));
}

// A body may end in a blank line; the entry keeps it, and the re-joined
// text then ends in the line feed that opened it.
#[test]
fn test_body_with_trailing_blank_line() {
    let content = bytes("[a]\n{s}\nbody\n\n[b]\n{s2}\nx\n");
    let entries = get_entries(&content);
    assert_eq!(entries.len(), 2);
    assert_eq!(entries[0].description, vec![bytes("body"), bytes("")]);
    let blobs = entries_from(&content);
    assert_eq!(blobs[0], bytes("[a]\n{s}\nbody\n"));
}

// A lone tag line folds into the surrounding entry's description.
#[test]
fn test_incomplete_header_folds_into_body() {
    let content = bytes("[one]\n{s1}\nbody\n[not a header]\nmore body\n");
    let entries = get_entries(&content);
    assert_eq!(entries.len(), 1);
    assert_eq!(
        entries[0].description,
        vec![bytes("body"), bytes("[not a header]"), bytes("more body")]
    );
}

#[test]
fn test_get_entry_by_number() {
    let lines = split_lines(&bytes("[one]\n{s1}\nbody 1\n[two]\n{s2}\n"));
    assert_eq!(get_entry(0, &lines), None);
    assert_eq!(get_entry(-3, &lines), None);
    assert_eq!(get_entry(3, &lines), None);
    assert_eq!(
        get_entry(1, &lines),
        Some(vec![bytes("[one]"), bytes("{s1}"), bytes("body 1")])
    );
    assert_eq!(get_entry(2, &lines), Some(vec![bytes("[two]"), bytes("{s2}")]));
}

#[test]
fn test_is_library() {
    let good = bytes("[a]\n{s}\n");
    assert!(is_library(&bytes("notes.txt"), &good));
    assert!(!is_library(&bytes("notes.md"), &good));
    assert!(!is_library(&bytes("notes.txt"), &bytes("no entries here\n")));
    assert!(is_library(&bytes("./dir/x.txt"), &good));
}

#[test]
fn test_sort_by_tags_scores_and_orders() {
    let content = bytes("[low]\n{s1}\n[high match]\n{s2}\n[match]\n{s3}\n");
    let entries = get_entries(&content);
    let args = terms(&["high", "match"]);
    let sorted = sort_by_tags(entries, &args);
    assert_eq!(sorted.len(), 2);
    assert_eq!(sorted[0].score, 2);
    assert_eq!(sorted[0].tags, bytes("[high match]"));
    assert_eq!(sorted[1].score, 1);
    assert_eq!(sorted[1].tags, bytes("[match]"));
}

#[test]
fn test_scored_entries_across_files() {
    let f1 = bytes("[apple]\n{s1}\n");
    let f2 = bytes("[apple pear]\n{s2}\n");
    let f3 = bytes("[plum]\n{s3}\n");
    let args = terms(&["apple", "pear"]);
    let ranked = scored_entries(&args, &vec![f1, f2, f3]);
    assert_eq!(ranked.len(), 2);
    assert!(ranked[0].starts_with(b"[apple pear]"));
    assert!(ranked[1].starts_with(b"[apple]"));
    assert_eq!(scored_entries(&args, &Vec::new()).len(), 0);
}

#[test]
fn test_scoring() {
    let tags = vec!["Github", "How", "To", "Push", "Changes"];
    let args: Vec<Vec<u8>> = tags.iter().map(|st| st.as_bytes().to_vec()).collect();
    for entry in scored_entries(&args, &Vec::new()) {
        println!("{}", String::from_utf8_lossy(&entry));
    }
}
