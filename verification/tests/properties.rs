//! What holds of every block and every rendered line, tried on many of them.

use refined_diff::char_seq::CharSeq;
use refined_diff::dp::dp_diff;
use refined_diff::myers::myers_diff;
use refined_diff::ranges::{invert_diffs, join_diffs};
use refined_diff::shifting::optimize_sequence_diffs;
use refined_diff::short_matches::{remove_short_matches, remove_very_short_matching_text};
use refined_diff::words::extend_diffs_to_words;
use refined_diff::{block_diff_runs, widen_line, DiffSpan, Mark, OffsetRange, SequenceDiff};

/// A fixed sequence of numbers that looks random.
struct Numbers(u64);

impl Numbers {
    fn below(&mut self, bound: u64) -> u64 {
        self.0 = self.0.wrapping_mul(6364136223846793005).wrapping_add(1442695040888963407);
        (self.0 >> 33) % bound
    }

    fn line(&mut self, most: u64) -> String {
        let letters = ['a', 'b', 'B', '1', ' ', '\t', ',', '(', '\u{7cfb}', '\u{1f600}'];
        let length = self.below(most);
        let mut line: String = (0..length).map(|_| letters[self.below(10) as usize]).collect();
        if self.below(3) == 0 {
            line.push('\n');
        }
        line
    }

    fn lines(&mut self, most: u64) -> Vec<String> {
        let count = 1 + self.below(3);
        (0..count).map(|_| self.line(most)).collect()
    }
}

fn visible(text: &str) -> String {
    text.chars().filter(|c| !c.is_whitespace()).collect()
}

fn unmarked(lines: &[Vec<DiffSpan>]) -> String {
    lines.iter().flatten().filter(|s| s.mark.is_none()).map(|s| s.text).collect()
}

fn check_side(lines: &[&str], spans: &[Vec<DiffSpan>], own: Mark, other: Mark) {
    assert_eq!(spans.len(), lines.len());
    for (line, line_spans) in lines.iter().zip(spans) {
        let spelled: String = line_spans.iter().map(|s| s.text).collect();
        assert_eq!(&spelled, line);
        for span in line_spans {
            if span.text.is_empty() {
                assert_eq!(span.mark, Some(other));
            } else {
                assert!(span.mark.is_none() || span.mark == Some(own));
                assert!(!span.spans_line);
            }
        }
        for pair in line_spans.windows(2) {
            let both = !pair[0].text.is_empty() && !pair[1].text.is_empty();
            assert!(!both || pair[0].mark != pair[1].mark);
        }
    }
}

#[test]
fn spans_spell_their_lines_and_unmarked_text_survives() {
    let mut numbers = Numbers(7);
    for round in 0..600 {
        let del = numbers.lines(14);
        let add = numbers.lines(14);
        let del: Vec<&str> = del.iter().map(|s| s.as_str()).collect();
        let add: Vec<&str> = add.iter().map(|s| s.as_str()).collect();
        let (del_spans, add_spans) = block_diff_runs(&del, &add);
        check_side(&del, &del_spans, Mark::Del, Mark::Ins);
        check_side(&add, &add_spans, Mark::Ins, Mark::Del);
        let (kept, there) = (visible(&unmarked(&del_spans)), visible(&unmarked(&add_spans)));
        assert_eq!(kept, there, "round {}", round);
    }
}

#[test]
fn equal_lines_carry_no_marks_at_any_length() {
    let mut numbers = Numbers(19);
    for most in [2, 5, 30, 400] {
        for _ in 0..20 {
            let lines = numbers.lines(most);
            let lines: Vec<&str> = lines.iter().map(|s| s.as_str()).collect();
            let (del, add) = block_diff_runs(&lines, &lines);
            assert!(del.iter().chain(&add).flatten().all(|s| s.mark.is_none()));
        }
    }
    let long = "x".repeat(5001);
    let (del, _) = block_diff_runs(&[&long], &[&long]);
    assert_eq!(del[0][0].mark, Some(Mark::Del));
}

#[test]
fn unmarked_white_space_need_not_survive() {
    let (del, add) = block_diff_runs(&["a  b"], &["c d"]);
    assert_eq!(unmarked(&del), "  ");
    assert_eq!(unmarked(&add), " ");
}

fn runs_are_equal(seq1: &CharSeq, seq2: &CharSeq, diffs: &[SequenceDiff]) {
    for run in invert_diffs(diffs, seq1.length(), seq2.length()) {
        assert_eq!(run.seq1.len(), run.seq2.len());
        assert!(run.seq1.len() >= 0);
        assert_eq!(seq1.text(run.seq1), seq2.text(run.seq2));
    }
}

#[test]
fn every_stage_leaves_equal_runs() {
    let mut numbers = Numbers(11);
    for _ in 0..300 {
        let a = numbers.line(20);
        let b = numbers.line(20);
        let seq1 = CharSeq::new(&[&a, "end"]);
        let seq2 = CharSeq::new(&["top", &b]);
        for found in [dp_diff(&seq1, &seq2), myers_diff(&seq1, &seq2)] {
            runs_are_equal(&seq1, &seq2, &found);
            let shifted = optimize_sequence_diffs(&seq1, &seq2, found);
            runs_are_equal(&seq1, &seq2, &shifted);
            let words = extend_diffs_to_words(&seq1, &seq2, shifted);
            runs_are_equal(&seq1, &seq2, &words);
            let joined = remove_short_matches(&words);
            runs_are_equal(&seq1, &seq2, &joined);
            let count = joined.len();
            assert!(remove_very_short_matching_text(&seq1, &seq2, joined).len() <= count);
        }
    }
}

/// The fewest insertions and deletions between two texts.
fn distance(a: &[char], b: &[char]) -> i64 {
    let mut row: Vec<i64> = (0..=b.len() as i64).collect();
    for (i, x) in a.iter().enumerate() {
        let mut above = row.clone();
        above[0] = i as i64 + 1;
        for (j, y) in b.iter().enumerate() {
            above[j + 1] = if x == y { row[j] } else { 1 + row[j + 1].min(above[j]) };
        }
        row = above;
    }
    row[b.len()]
}

#[test]
fn the_greedy_search_finds_the_fewest_changes() {
    let mut numbers = Numbers(13);
    for _ in 0..400 {
        let a = numbers.line(25);
        let b = numbers.line(25);
        let (seq1, seq2) = (CharSeq::new(&[&a]), CharSeq::new(&[&b]));
        let changed: i64 =
            myers_diff(&seq1, &seq2).iter().map(|d| d.seq1.len() + d.seq2.len()).sum();
        assert_eq!(changed, distance(&seq1.elements, &seq2.elements), "{:?} {:?}", a, b);
    }
}

#[test]
fn joining_across_single_elements_settles_at_once() {
    let mut numbers = Numbers(29);
    for _ in 0..300 {
        let mut at = (-5, numbers.below(4) as i64);
        let mut list: Vec<SequenceDiff> = Vec::new();
        for _ in 0..numbers.below(8) {
            let start = (at.0 + numbers.below(5) as i64, at.1 + numbers.below(5) as i64);
            at = (start.0 + numbers.below(3) as i64, start.1 + numbers.below(3) as i64);
            list.push(SequenceDiff {
                seq1: OffsetRange { start: start.0, end: at.0 },
                seq2: OffsetRange { start: start.1, end: at.1 },
            });
        }
        let joined = remove_short_matches(&list);
        for pair in joined.windows(2) {
            assert!(pair[1].seq1.start - pair[0].seq1.end > 1);
            assert!(pair[1].seq2.start - pair[0].seq2.end > 1);
        }
        for d in &list {
            assert!(joined.iter().any(|f| join_diffs(*d, *f) == *f));
        }
        assert_eq!(remove_short_matches(&joined), joined);
    }
}

fn changed(diffs: &[SequenceDiff]) -> i64 {
    diffs.iter().map(|d| d.seq1.len() + d.seq2.len()).sum()
}

#[test]
fn the_greedy_search_changes_no_more_than_the_table_and_as_much_when_exchanged() {
    let mut numbers = Numbers(23);
    for _ in 0..400 {
        let a = numbers.line(25);
        let b = numbers.line(25);
        let (seq1, seq2) = (CharSeq::new(&[&a]), CharSeq::new(&[&b]));
        let greedy = changed(&myers_diff(&seq1, &seq2));
        assert!(greedy <= changed(&dp_diff(&seq1, &seq2)), "{:?} {:?}", a, b);
        assert_eq!(greedy, changed(&myers_diff(&seq2, &seq1)), "{:?} {:?}", a, b);
    }
    // The table prefers one long run to a longer common subsequence.
    let (seq1, seq2) = (CharSeq::new(&["aba"]), CharSeq::new(&["acbcab"]));
    assert_eq!(changed(&myers_diff(&seq1, &seq2)), 3);
    assert_eq!(changed(&dp_diff(&seq1, &seq2)), 5);
}

#[test]
fn changed_text_is_marked_and_reflowed_white_space_is_not() {
    let (del, add) = block_diff_runs(&["a  b!"], &["c d!"]);
    let marks = |spans: &[DiffSpan]| -> Vec<(String, Option<Mark>)> {
        spans.iter().map(|s| (s.text.to_string(), s.mark)).collect()
    };
    let piece = |text: &str, mark| (text.to_string(), mark);
    let (red, green) = (Some(Mark::Del), Some(Mark::Ins));
    assert_eq!(
        marks(&del[0]),
        vec![piece("a", red), piece("  ", None), piece("b", red), piece("!", None)]
    );
    assert_eq!(
        marks(&add[0]),
        vec![piece("c", green), piece(" ", None), piece("d", green), piece("!", None)]
    );
}

#[test]
fn a_change_without_text_is_shown_as_a_bar() {
    let (del, add) = block_diff_runs(&["ab", "cd"], &["ab", "x", "cd"]);
    let bars: usize = del.iter().flatten().filter(|s| s.text.is_empty()).count();
    assert_eq!(bars, 1);
    assert_eq!(del[1][0], DiffSpan { text: "", mark: Some(Mark::Ins), spans_line: true });
    assert!(add.iter().flatten().all(|s| !s.text.is_empty()));
}

#[test]
fn ranges_tile_a_rendered_line() {
    let mut numbers = Numbers(17);
    for _ in 0..300 {
        let del = numbers.lines(14);
        let add = numbers.lines(14);
        let del: Vec<&str> = del.iter().map(|s| s.as_str()).collect();
        let add: Vec<&str> = add.iter().map(|s| s.as_str()).collect();
        let (del_spans, _) = block_diff_runs(&del, &add);
        for spans in &del_spans {
            let line = widen_line(spans);
            let shown: Vec<&DiffSpan> =
                spans.iter().filter(|s| !s.text.is_empty() || !s.spans_line).collect();
            assert_eq!(line.ranges.len(), shown.len());
            let mut at = 0;
            for (range, span) in line.ranges.iter().zip(shown) {
                let want = if span.text.is_empty() { "\u{2800}" } else { span.text };
                assert_eq!((range.0, range.1), (span.mark, at));
                assert_eq!(&line.text[range.1..range.2], want);
                at = range.2;
            }
            assert_eq!(at, line.text.len());
        }
    }
}

#[test]
fn bars_are_rendered_as_placeholders() {
    let spans = [
        DiffSpan { text: "a\u{7cfb}", mark: None, spans_line: false },
        DiffSpan { text: "", mark: Some(Mark::Ins), spans_line: false },
        DiffSpan { text: "", mark: Some(Mark::Ins), spans_line: true },
        DiffSpan { text: "", mark: None, spans_line: false },
        DiffSpan { text: "bc", mark: Some(Mark::Del), spans_line: false },
    ];
    let line = widen_line(&spans);
    assert_eq!(line.text, "a\u{7cfb}\u{2800}bc");
    assert_eq!(
        line.ranges,
        vec![(None, 0, 4), (Some(Mark::Ins), 4, 7), (Some(Mark::Del), 7, 9)]
    );
    let empty = widen_line(&[]);
    assert_eq!((empty.text.as_str(), empty.ranges.len()), ("", 0));
}

#[test]
fn without_bars_a_rendered_line_is_the_line() {
    let (del, add) = block_diff_runs(&["one two"], &["one six"]);
    assert_eq!(widen_line(&del[0]).text, "one two");
    assert_eq!(widen_line(&add[0]).text, "one six");
    let (del, _) = block_diff_runs(&["one", "three"], &["one", "two", "three"]);
    assert_eq!(widen_line(&del[1]).text, "three");
    let (del, _) = block_diff_runs(&["hello world"], &["hello brave world"]);
    assert_eq!(widen_line(&del[0]).text, "hello\u{2800} world");
}
