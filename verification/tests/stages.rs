//! The stages of a comparison, one by one.

use refined_diff::char_seq::CharSeq;
use refined_diff::dp::dp_diff;
use refined_diff::myers::myers_diff;
use refined_diff::ranges::{
    delta_diff, delta_end_diff, delta_start_diff, diff_ends, intersect_diffs, intersect_ranges,
    intersects_ranges, invert_diffs, join_diffs, join_ranges,
};
use refined_diff::shifting::{
    join_sequence_diffs_by_shifting, optimize_sequence_diffs, shift_diff_to_better_position,
    shift_sequence_diffs,
};
use refined_diff::short_matches::{remove_short_matches, remove_very_short_matching_text};
use refined_diff::spans::{diffs_to_line_spans, whole_line};
use refined_diff::words::{extend_diffs_to_words, merge_sorted_diffs, scan_word};
use refined_diff::{DiffSpan, Mark, OffsetRange, SequenceDiff};

fn range(start: i64, end: i64) -> OffsetRange {
    OffsetRange { start, end }
}

fn diff(d: (i64, i64, i64, i64)) -> SequenceDiff {
    SequenceDiff { seq1: range(d.0, d.1), seq2: range(d.2, d.3) }
}

fn diffs(list: &[(i64, i64, i64, i64)]) -> Vec<SequenceDiff> {
    list.iter().map(|&d| diff(d)).collect()
}

fn sample() -> CharSeq {
    CharSeq::new(&["foo Bar", "x,y", "", "12"])
}

#[test]
fn lines_are_joined_without_their_line_feeds() {
    let seq = CharSeq::new(&["ab\n", "", "\u{7cfb}c"]);
    assert_eq!(seq.elements, vec!['a', 'b', '\n', '\n', '\u{7cfb}', 'c']);
    assert_eq!(seq.line_start, vec![0, 3, 4]);
    assert_eq!(seq.line_trimmed_end, vec![2, 3, 6]);
    assert_eq!(seq.char_bytes, vec![vec![0, 1, 2, 3], vec![0], vec![0, 3, 4]]);
    assert_eq!(seq.length(), 6);
    assert_eq!(CharSeq::new(&["a\n\n"]).elements, vec!['a', '\n']);
}

#[test]
fn elements_out_of_range_are_null() {
    let seq = sample();
    assert_eq!(seq.element(0), 'f');
    assert_eq!(seq.element(14), '2');
    assert_eq!(seq.element(15), '\0');
    assert_eq!(seq.element(-1), '\0');
    assert_eq!(seq.element(i64::MAX), '\0');
    assert!(seq.is_strongly_equal(1, 2));
    assert!(seq.is_strongly_equal(15, 99));
    assert!(!seq.is_strongly_equal(0, 1));
}

#[test]
fn text_is_cut_to_the_sequence() {
    let seq = sample();
    let text = |start, end| seq.text(range(start, end)).into_iter().collect::<String>();
    assert_eq!(text(4, 9), "Bar\nx");
    assert_eq!(text(-2, 3), "foo");
    assert_eq!(text(13, 99), "12");
    assert_eq!(text(5, 5), "");
}

#[test]
fn offsets_fall_on_lines() {
    let seq = sample();
    let offsets = [-3, 0, 6, 7, 8, 11, 12, 13, 15, 99];
    let lines: Vec<usize> = offsets.iter().map(|&at| seq.line_of(at)).collect();
    assert_eq!(lines, vec![0, 0, 0, 0, 1, 1, 2, 3, 3, 3]);
    assert_eq!(seq.count_lines_in(range(0, 7)), 0);
    assert_eq!(seq.count_lines_in(range(0, 8)), 1);
    assert_eq!(seq.count_lines_in(range(3, 15)), 3);
    assert_eq!(seq.count_lines_in(range(9, 99)), 2);
}

#[test]
fn ranges_extend_to_full_lines() {
    let seq = sample();
    assert_eq!(seq.extend_to_full_lines(range(2, 5)), range(0, 8));
    assert_eq!(seq.extend_to_full_lines(range(5, 9)), range(0, 12));
    assert_eq!(seq.extend_to_full_lines(range(8, 12)), range(8, 12));
    assert_eq!(seq.extend_to_full_lines(range(8, 8)), range(8, 8));
    assert_eq!(seq.extend_to_full_lines(range(0, 15)), range(0, 15));
}

#[test]
fn words_are_found_around_offsets() {
    let seq = sample();
    assert_eq!(seq.find_word_containing(-1), None);
    assert_eq!(seq.find_word_containing(0), Some(range(0, 3)));
    assert_eq!(seq.find_word_containing(2), Some(range(0, 3)));
    assert_eq!(seq.find_word_containing(3), None);
    assert_eq!(seq.find_word_containing(4), Some(range(4, 7)));
    assert_eq!(seq.find_word_containing(14), Some(range(13, 15)));
    assert_eq!(seq.find_word_containing(15), None);
}

#[test]
fn boundaries_have_their_scores() {
    let seq = sample();
    let scores: Vec<i64> = (0..17).map(|at| seq.boundary_score(at)).collect();
    let want = vec![20, 0, 0, 13, 13, 10, 0, 20, 150, 40, 40, 20, 150, 150, 0, 20, 22];
    assert_eq!(scores, want);
    let breaks = CharSeq::new(&["aB\r", "c"]);
    assert_eq!(breaks.boundary_score(1), 11);
    assert_eq!(breaks.boundary_score(3), 0);
}

#[test]
fn slices_go_by_characters() {
    let line = "a\u{7cfb}\u{1f600}z";
    let bytes = [0, 1, 4, 8, 9];
    assert_eq!(CharSeq::slice(line, &bytes, 1, 3), "\u{7cfb}\u{1f600}");
    assert_eq!(CharSeq::slice(line, &bytes, 0, 4), line);
    assert_eq!(CharSeq::slice(line, &bytes, 2, 2), "");
}

#[test]
fn ranges_join_and_meet() {
    assert_eq!(range(2, 5).len(), 3);
    assert!(range(5, 5).is_empty() && range(5, 4).is_empty() && !range(4, 5).is_empty());
    assert_eq!(join_ranges(range(3, 4), range(1, 2)), range(1, 4));
    assert_eq!(intersect_ranges(range(0, 3), range(3, 5)), Some(range(3, 3)));
    assert_eq!(intersect_ranges(range(0, 3), range(4, 5)), None);
    assert!(!intersects_ranges(range(0, 3), range(3, 5)));
    assert!(intersects_ranges(range(0, 4), range(3, 5)));
}

#[test]
fn changes_move_and_meet() {
    let d = diff((3, 5, 7, 7));
    assert_eq!(diff_ends(d), (5, 7));
    assert_eq!(join_diffs(d, diff((6, 8, 1, 2))), diff((3, 8, 1, 7)));
    assert_eq!(delta_diff(d, -2), diff((1, 3, 5, 5)));
    assert_eq!(delta_start_diff(d, -2), diff((1, 5, 5, 7)));
    assert_eq!(delta_end_diff(d, 2), diff((3, 7, 7, 9)));
    assert_eq!(intersect_diffs(d, diff((4, 9, 7, 9))), Some(diff((4, 5, 7, 7))));
    assert_eq!(intersect_diffs(d, diff((4, 9, 8, 9))), None);
}

#[test]
fn inverting_gives_the_equal_runs() {
    let list = diffs(&[(1, 2, 1, 3), (5, 5, 6, 7)]);
    assert_eq!(invert_diffs(&list, 9, 11), diffs(&[(0, 1, 0, 1), (2, 5, 3, 6), (5, 9, 7, 11)]));
    assert_eq!(invert_diffs(&[], 4, 4), diffs(&[(0, 4, 0, 4)]));
}

#[test]
fn both_searches_find_their_changes() {
    let cases: [(&str, &str, &[(i64, i64, i64, i64)], &[(i64, i64, i64, i64)]); 6] = [
        ("hello world", "hello brave world", &[(6, 6, 6, 12)], &[(6, 6, 6, 12)]),
        (
            "abcabba",
            "cbabac",
            &[(0, 1, 0, 1), (2, 3, 2, 2), (5, 6, 4, 4), (7, 7, 5, 6)],
            &[(0, 2, 0, 0), (3, 3, 1, 2), (5, 6, 4, 4), (7, 7, 5, 6)],
        ),
        ("aaaa b", "aa b", &[(0, 2, 0, 0)], &[(2, 4, 2, 2)]),
        ("same", "same", &[], &[]),
        ("", "new", &[(0, 0, 0, 3)], &[(0, 0, 0, 3)]),
        ("", "", &[(0, 0, 0, 0)], &[(0, 0, 0, 0)]),
    ];
    for (a, b, by_table, greedy) in cases {
        let (seq1, seq2) = (CharSeq::new(&[a]), CharSeq::new(&[b]));
        assert_eq!(dp_diff(&seq1, &seq2), diffs(by_table), "{:?} {:?}", a, b);
        assert_eq!(myers_diff(&seq1, &seq2), diffs(greedy), "{:?} {:?}", a, b);
    }
}

#[test]
fn sliding_joins_neighbouring_changes() {
    let (seq1, seq2) = (CharSeq::new(&[" ab"]), CharSeq::new(&["bb"]));
    let found = myers_diff(&seq1, &seq2);
    assert_eq!(found, diffs(&[(0, 2, 0, 0), (3, 3, 1, 2)]));
    let joined = join_sequence_diffs_by_shifting(&seq1, &seq2, found);
    assert_eq!(joined, diffs(&[(0, 2, 0, 1)]));
    let (seq1, seq2) = (CharSeq::new(&[" a"]), CharSeq::new(&["   b "]));
    let found = dp_diff(&seq1, &seq2);
    assert_eq!(found, diffs(&[(0, 0, 0, 4), (1, 2, 5, 5)]));
    let joined = join_sequence_diffs_by_shifting(&seq1, &seq2, found);
    assert_eq!(joined, diffs(&[(1, 2, 1, 5)]));
    assert_eq!(join_sequence_diffs_by_shifting(&seq1, &seq2, Vec::new()), Vec::new());
}

#[test]
fn insertions_slide_to_the_best_score() {
    let (seq1, seq2) = (CharSeq::new(&["x b"]), CharSeq::new(&["x a b"]));
    let at = diff((2, 2, 2, 4));
    let moved =
        shift_diff_to_better_position(at, &seq1, &seq2, range(0, 3), range(0, 5));
    assert_eq!(moved, diff((1, 1, 1, 3)));
    assert_eq!(shift_sequence_diffs(&seq1, &seq2, vec![at]), diffs(&[(1, 1, 1, 3)]));
    assert_eq!(optimize_sequence_diffs(&seq1, &seq2, vec![at]), diffs(&[(1, 1, 1, 3)]));
    let (seq1, seq2) = (CharSeq::new(&["aaaa b"]), CharSeq::new(&["aa b"]));
    let found = myers_diff(&seq1, &seq2);
    assert_eq!(optimize_sequence_diffs(&seq1, &seq2, found), diffs(&[(0, 2, 0, 0)]));
}

#[test]
fn changes_grow_to_words() {
    let (seq1, seq2) = (CharSeq::new(&["oldValue + x"]), CharSeq::new(&["newThing + x"]));
    let found = dp_diff(&seq1, &seq2);
    assert_eq!(found, diffs(&[(0, 7, 0, 1), (8, 8, 2, 8)]));
    assert_eq!(extend_diffs_to_words(&seq1, &seq2, found), diffs(&[(0, 8, 0, 8)]));
    let (seq1, seq2) = (CharSeq::new(&["getNameOf(x)"]), CharSeq::new(&["getSizeOf(x)"]));
    let found = dp_diff(&seq1, &seq2);
    assert_eq!(found, diffs(&[(3, 6, 3, 6)]));
    assert_eq!(extend_diffs_to_words(&seq1, &seq2, found), diffs(&[(3, 6, 3, 6)]));
}

#[test]
fn a_scan_uses_up_the_runs_of_a_word() {
    let (seq1, seq2) = (CharSeq::new(&["a1b2c3 z"]), CharSeq::new(&["a9b8c7 z"]));
    let mut queue = diffs(&[(2, 3, 2, 3), (4, 5, 4, 5), (6, 8, 6, 8)]);
    let mut additional = Vec::new();
    let mut last = (0, 0);
    scan_word(&seq1, &seq2, &mut queue, &mut additional, &mut last, 0, 0, diff((0, 1, 0, 1)));
    assert_eq!(queue, diffs(&[(6, 8, 6, 8)]));
    assert_eq!(additional, diffs(&[(0, 6, 0, 6)]));
    assert_eq!(last, (6, 6));
    scan_word(&seq1, &seq2, &mut queue, &mut additional, &mut last, 0, 0, diff((0, 1, 0, 1)));
    assert_eq!(additional.len(), 1);
}

#[test]
fn merging_joins_what_touches() {
    let one = diffs(&[(0, 1, 0, 1), (5, 6, 5, 6), (9, 9, 9, 10)]);
    let two = diffs(&[(1, 3, 1, 3), (5, 8, 5, 8)]);
    assert_eq!(merge_sorted_diffs(&one, &two), diffs(&[(0, 3, 0, 3), (5, 8, 5, 8), (9, 9, 9, 10)]));
    assert_eq!(merge_sorted_diffs(&[], &two), two);
    assert_eq!(merge_sorted_diffs(&one, &[]), one);
}

#[test]
fn matches_of_one_element_are_short() {
    let list = diffs(&[(0, 1, 0, 1), (2, 3, 2, 4), (5, 6, 6, 7), (7, 7, 8, 9)]);
    assert_eq!(remove_short_matches(&list), diffs(&[(0, 3, 0, 4), (5, 7, 6, 9)]));
    assert_eq!(remove_short_matches(&[]), Vec::new());
}

#[test]
fn short_text_is_removed_between_heavy_changes() {
    let (a, b) = ("x".repeat(130), "y".repeat(130));
    let (c, d) = ("v".repeat(130), "w".repeat(130));
    let run = |gap: i64| [(0, 130, 0, 130), (130 + gap, 260 + gap, 130 + gap, 260 + gap)];
    let twenty = ":".repeat(20);
    let many = ":".repeat(21);
    let (l1, l2) = (format!("{} {} {}", a, twenty, b), format!("{} {} {}", c, twenty, d));
    let (seq1, seq2) = (CharSeq::new(&[&l1]), CharSeq::new(&[&l2]));
    let result = remove_very_short_matching_text(&seq1, &seq2, diffs(&run(22)));
    assert_eq!(result, diffs(&[(0, 282, 0, 282)]));
    let (l1, l2) = (format!("{}{}{}", a, many, b), format!("{}{}{}", c, many, d));
    let (seq1, seq2) = (CharSeq::new(&[&l1]), CharSeq::new(&[&l2]));
    let result = remove_very_short_matching_text(&seq1, &seq2, diffs(&run(21)));
    assert_eq!(result, diffs(&run(21)));
    let (seq1, seq2) = (CharSeq::new(&[&a, ":", ":", &b]), CharSeq::new(&[&c, ":", ":", &d]));
    let result = remove_very_short_matching_text(&seq1, &seq2, diffs(&run(5)));
    assert_eq!(result, diffs(&[(0, 131, 0, 131), (135, 265, 135, 265)]));
    assert_eq!(remove_very_short_matching_text(&seq1, &seq2, Vec::new()), Vec::new());
}

#[test]
fn stretched_neighbours_can_overlap() {
    let long = format!("{}=+{}", "\u{4e00}".repeat(101), "\u{5e00}".repeat(101));
    let (seq1, seq2) = (CharSeq::new(&["x=+y"]), CharSeq::new(&[&long]));
    let list = diffs(&[(0, 1, 0, 101), (3, 4, 103, 204)]);
    let result = remove_very_short_matching_text(&seq1, &seq2, list);
    assert_eq!(result, diffs(&[(0, 3, 0, 103), (1, 4, 101, 204)]));
}

#[test]
fn a_whole_line_is_one_span_or_none() {
    assert_eq!(
        whole_line("abc", Mark::Ins),
        vec![DiffSpan { text: "abc", mark: Some(Mark::Ins), spans_line: false }]
    );
    assert_eq!(whole_line("", Mark::Del), Vec::new());
}

#[test]
fn bars_at_one_place_are_sorted() {
    let seq = CharSeq::new(&["ab", "c"]);
    let other = CharSeq::new(&["x", "y z"]);
    let list = diffs(&[(1, 1, 0, 3), (1, 1, 0, 1), (0, 0, 4, 5), (5, 5, 2, 3)]);
    let spans = diffs_to_line_spans(&["ab", "c"], &seq, &other, &list, true, &[false, false]);
    let bar = |spans_line| DiffSpan { text: "", mark: Some(Mark::Ins), spans_line };
    let plain = |text| DiffSpan { text, mark: None, spans_line: false };
    assert_eq!(
        spans,
        vec![
            vec![bar(false), plain("a"), bar(false), bar(true), plain("b")],
            vec![plain("c"), bar(false)],
        ]
    );
}

#[test]
fn white_space_is_marked_on_paired_lines_only() {
    let seq = CharSeq::new(&["a b"]);
    let other = CharSeq::new(&["c"]);
    let list = diffs(&[(0, 3, 0, 1)]);
    let del = Some(Mark::Del);
    let span = |text, mark| DiffSpan { text, mark, spans_line: false };
    let spans = diffs_to_line_spans(&["a b"], &seq, &other, &list, true, &[true]);
    assert_eq!(spans, vec![vec![span("a b", del)]]);
    let spans = diffs_to_line_spans(&["a b"], &seq, &other, &list, true, &[false]);
    assert_eq!(spans, vec![vec![span("a", del), span(" ", None), span("b", del)]]);
    let spans = diffs_to_line_spans(&["a b"], &seq, &other, &list, true, &[]);
    assert_eq!(spans[0].len(), 3);
}
