//! Whole blocks: what is marked, and where bars stand.

use refined_diff::{block_diff_runs, DiffSpan, Mark};

/// Concatenate spans: `#` fences a changed range, a box line is the bar.
fn render(spans: &[DiffSpan]) -> String {
    spans
        .iter()
        .map(|s| match s.mark {
            None => s.text.to_string(),
            Some(_) if s.text.is_empty() => "\u{2502}".to_string(),
            Some(_) => format!("#{}#", s.text),
        })
        .collect()
}

fn render_all(lines: &[Vec<DiffSpan>]) -> Vec<String> {
    lines.iter().map(|s| render(s)).collect()
}

/// `count` different characters that make up no words.
fn han(first: u32, count: u32) -> String {
    (first..first + count)
        .map(|code| char::from_u32(code).unwrap())
        .collect()
}

#[test]
fn marks_only_the_changed_chars() {
    let (del, ins) = block_diff_runs(&["hello world"], &["hello brave world"]);
    assert_eq!(render(&del[0]), "hello\u{2502} world");
    assert_eq!(render(&ins[0]), "hello# brave# world");
}

#[test]
fn aligns_a_moved_line_as_common() {
    let (del, ins) = block_diff_runs(&["keep", "gone"], &["fresh", "keep"]);
    assert_eq!(render(&del[0]), "\u{2502}keep");
    assert_eq!(render(&ins[0]), "#fresh#");
    assert_eq!(render(&ins[1]), "keep\u{2502}");
}

#[test]
fn collapses_a_wholly_rewritten_pair() {
    let (_del, ins) = block_diff_runs(&["gone one", "gone two"], &["kept"]);
    assert_eq!(render(&ins[0]), "#kept#");
}

#[test]
fn pairs_rewritten_line_with_true_counterpart() {
    let (del, ins) = block_diff_runs(
        &["import { StyleSheet, TouchableOpacity } from"],
        &["import { WenShu } from", "import { StyleSheet } from"],
    );
    assert_eq!(
        render(&del[0]),
        "\u{2502}import { StyleSheet#, TouchableOpacity# } from"
    );
    assert_eq!(render(&ins[0]), "#import { WenShu } from#");
    assert_eq!(render(&ins[1]), "import { StyleSheet\u{2502} } from");
}

#[test]
fn degrades_past_block_cap() {
    let del: Vec<String> = (0..60).map(|i| format!("line {} {}", i, "x".repeat(700))).collect();
    let add: Vec<String> = (0..60).map(|i| format!("line {} {}", i, "y".repeat(700))).collect();
    let del_refs: Vec<&str> = del.iter().map(|s| s.as_str()).collect();
    let add_refs: Vec<&str> = add.iter().map(|s| s.as_str()).collect();
    let (del_spans, ins_spans) = block_diff_runs(&del_refs, &add_refs);
    assert_eq!(del_spans.len(), 60);
    assert_eq!(ins_spans.len(), 60);
    assert!(render(&ins_spans[0]).contains('#'));
}

#[test]
fn past_the_cap_every_line_is_one_span() {
    let del = "x".repeat(5001);
    let add = "x".repeat(5000);
    let (del_spans, add_spans) = block_diff_runs(&[&del, ""], &[&add]);
    assert_eq!(
        del_spans[0],
        vec![DiffSpan { text: &del, mark: Some(Mark::Del), spans_line: false }]
    );
    assert!(del_spans[1].is_empty());
    assert_eq!(
        add_spans[0],
        vec![DiffSpan { text: &add, mark: Some(Mark::Ins), spans_line: false }]
    );
}

#[test]
fn at_the_cap_characters_are_compared() {
    let del = "x".repeat(5000);
    let (del_spans, add_spans) = block_diff_runs(&[&del], &[&del]);
    assert_eq!(render(&del_spans[0]), del);
    assert_eq!(render(&add_spans[0]), del);
}

#[test]
fn a_missing_side_marks_whole_lines() {
    let (del, ins) = block_diff_runs(&["one", "", "two"], &[]);
    assert_eq!(render_all(&del), vec!["#one#", "", "#two#"]);
    assert_eq!(del[0][0].mark, Some(Mark::Del));
    assert!(ins.is_empty());
    let (del, ins) = block_diff_runs(&[], &["new"]);
    assert!(del.is_empty());
    assert_eq!(
        ins,
        vec![vec![DiffSpan { text: "new", mark: Some(Mark::Ins), spans_line: false }]]
    );
    let (del, ins) = block_diff_runs(&[], &[]);
    assert!(del.is_empty() && ins.is_empty());
}

#[test]
fn equal_blocks_carry_no_marks() {
    let lines = ["same line", "", "b\n"];
    let (del, ins) = block_diff_runs(&lines, &lines);
    assert_eq!(render_all(&del), lines);
    assert_eq!(render_all(&ins), lines);
    let (del, ins) = block_diff_runs(&[""], &[""]);
    assert_eq!((render(&del[0]), render(&ins[0])), (String::new(), String::new()));
}

#[test]
fn indentation_is_marked_on_paired_lines() {
    let (del, ins) = block_diff_runs(&["    return x;"], &["  return x;"]);
    assert_eq!(render(&del[0]), "#  #  return x;");
    assert_eq!(render(&ins[0]), "\u{2502}  return x;");
    let (del, ins) = block_diff_runs(&["\tfoo()\n"], &["  foo()\n"]);
    assert_eq!(render(&del[0]), "#\t#foo()\n");
    assert_eq!(render(&ins[0]), "#  #foo()\n");
}

#[test]
fn reflowed_white_space_is_not_marked() {
    let (del, ins) = block_diff_runs(&["a  b"], &["c d"]);
    assert_eq!(render(&del[0]), "#a#  #b#");
    assert_eq!(render(&ins[0]), "#c# #d#");
}

#[test]
fn a_line_break_is_marked_against_a_space() {
    let (del, ins) = block_diff_runs(&["let a = 1;", "let b = 2;"], &["let a = 1; let b = 2;"]);
    assert_eq!(render_all(&del), vec!["let a = 1;", "let b = 2;"]);
    assert_eq!(render(&ins[0]), "let a = 1;# #let b = 2;");
}

#[test]
fn a_split_line_gets_a_placeholder_bar() {
    let (del, ins) = block_diff_runs(&["foo(bar, baz)"], &["foo(bar,", "    baz)"]);
    assert_eq!(render(&del[0]), "foo(bar,\u{2502} baz)");
    assert!(!del[0][1].spans_line);
    assert_eq!(render_all(&ins), vec!["foo(bar,", "#   # baz)"]);
}

#[test]
fn an_inserted_line_gets_a_bar_of_its_own_row() {
    let (del, ins) = block_diff_runs(&["one", "three"], &["one", "two", "three"]);
    assert_eq!(render_all(&del), vec!["one", "\u{2502}three"]);
    assert_eq!(del[1][0], DiffSpan { text: "", mark: Some(Mark::Ins), spans_line: true });
    assert_eq!(render_all(&ins), vec!["one", "#two#", "three"]);
    let (del, ins) = block_diff_runs(&["abc\n", "def\n"], &["abc\n"]);
    assert_eq!(render_all(&del), vec!["abc\n", "#def#\n"]);
    assert_eq!(render(&ins[0]), "abc\u{2502}\n");
    assert_eq!(ins[0][1], DiffSpan { text: "", mark: Some(Mark::Del), spans_line: true });
}

#[test]
fn a_short_common_word_stays_between_changes() {
    let (del, ins) = block_diff_runs(
        &["\u{6253}\u{5f00}\u{7cfb}\u{7edf}\u{8bbe}\u{7f6e}"],
        &["\u{5173}\u{95ed}\u{7cfb}\u{7edf}\u{9009}\u{9879}"],
    );
    assert_eq!(render(&del[0]), "#\u{6253}\u{5f00}#\u{7cfb}\u{7edf}#\u{8bbe}\u{7f6e}#");
    assert_eq!(render(&ins[0]), "#\u{5173}\u{95ed}#\u{7cfb}\u{7edf}#\u{9009}\u{9879}#");
}

#[test]
fn a_single_common_character_is_taken_in() {
    let (del, ins) = block_diff_runs(&["a.b.c"], &["a,b,c"]);
    assert_eq!(render(&del[0]), "a#.b.#c");
    assert_eq!(render(&ins[0]), "a#,b,#c");
}

#[test]
fn words_changed_for_the_most_part_are_marked_whole() {
    let (del, ins) = block_diff_runs(&["handleClick"], &["handlePress"]);
    assert_eq!(render(&del[0]), "#handleClick#");
    assert_eq!(render(&ins[0]), "#handlePress#");
    let (del, ins) = block_diff_runs(&["foobarbaz"], &["foobazbaz"]);
    assert_eq!(render(&del[0]), "fooba#r#baz");
    assert_eq!(render(&ins[0]), "fooba#z#baz");
}

#[test]
fn characters_beyond_the_basic_plane_are_single_elements() {
    let (del, ins) = block_diff_runs(&["ok \u{1f600} done"], &["ok \u{1f601} done"]);
    assert_eq!(render(&del[0]), "ok #\u{1f600}# done");
    assert_eq!(render(&ins[0]), "ok #\u{1f601}# done");
}

#[test]
fn insertions_move_to_the_best_boundary() {
    let (del, ins) = block_diff_runs(&["f(a, b)"], &["f(a, x, b)"]);
    assert_eq!(render(&del[0]), "f(a,\u{2502} b)");
    assert_eq!(render(&ins[0]), "f(a,# x,# b)");
    let (del, ins) = block_diff_runs(&["[1, 2, 3]"], &["[1, 3]"]);
    assert_eq!(render(&del[0]), "[1,# 2,# 3]");
    assert_eq!(render(&ins[0]), "[1,\u{2502} 3]");
}

#[test]
fn a_carriage_return_is_a_character() {
    let (del, ins) = block_diff_runs(&["a\r\n"], &["a\n"]);
    assert_eq!(render(&del[0]), "a#\r#\n");
    assert_eq!(render(&ins[0]), "a\u{2502}\n");
}

#[test]
fn only_the_last_line_feed_is_left_out() {
    let (del, ins) = block_diff_runs(&["abc\n"], &["abc"]);
    assert_eq!((render(&del[0]), render(&ins[0])), ("abc\n".to_string(), "abc".to_string()));
}

#[test]
fn heavy_changes_swallow_short_text_between_them() {
    let del = format!("{} = yes = {}", han(0x4e00, 130), han(0x5e00, 130));
    let add = format!("{} = yes = {}", han(0x6e00, 130), han(0x7e00, 130));
    let (del_spans, _) = block_diff_runs(&[&del], &[&add]);
    let want = format!("#{}# #=# #yes# #=# #{}#", han(0x4e00, 130), han(0x5e00, 130));
    assert_eq!(render(&del_spans[0]), want);
    let del = format!("{} = yes = {}", han(0x4e00, 40), han(0x5e00, 40));
    let add = format!("{} = yes = {}", han(0x6e00, 40), han(0x7e00, 40));
    let (del_spans, _) = block_diff_runs(&[&del], &[&add]);
    let want = format!("#{}# = yes = #{}#", han(0x4e00, 40), han(0x5e00, 40));
    assert_eq!(render(&del_spans[0]), want);
}

#[test]
fn long_changes_reach_to_negligible_line_ends() {
    let del = format!("ab{}cd", han(0x4e00, 130));
    let add = format!("ab{}cd", han(0x6e00, 130));
    let (del_spans, add_spans) = block_diff_runs(&[&del], &[&add]);
    assert_eq!(render(&del_spans[0]), format!("#{}#", del));
    assert_eq!(render(&add_spans[0]), format!("#{}#", add));
    let del = format!("abcd{}ef", han(0x4e00, 130));
    let add = format!("abcd{}ef", han(0x6e00, 130));
    let (del_spans, add_spans) = block_diff_runs(&[&del], &[&add]);
    assert_eq!(render(&del_spans[0]), format!("abcd#{}ef#", han(0x4e00, 130)));
    assert_eq!(render(&add_spans[0]), format!("abcd#{}ef#", han(0x6e00, 130)));
}

#[test]
fn neighbours_may_both_reach_into_the_text_between_them() {
    let add = format!("{}=+{}", han(0x4e00, 101), han(0x5e00, 101));
    let (del_spans, add_spans) = block_diff_runs(&["x=+y"], &[&add]);
    assert_eq!(render(&del_spans[0]), "#x=+y#");
    assert_eq!(render(&add_spans[0]), format!("#{}#", add));
}
