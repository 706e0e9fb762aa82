use nwn::comments::{
    comment_edits, edit_below, find_prev_output, output_text, push_comment_line, quote_lines,
    render_output, LineOutput,
};
use nwn::protocol::TextEdit;
use ropey::Rope;
use std::sync::Arc;

fn output(line: u64, text: &str) -> LineOutput {
    LineOutput { line, text: text.to_string() }
}

fn plain(edit: &TextEdit) -> (u64, u64, String) {
    assert_eq!(edit.range.start.character, 0);
    assert_eq!(edit.range.end.character, 0);
    (edit.range.start.line, edit.range.end.line, edit.new_text.clone())
}

fn plain_all(edits: &Vec<TextEdit>) -> Vec<(u64, u64, String)> {
    edits.iter().map(plain).collect()
}

fn apply(text: &str, edits: &Vec<TextEdit>) -> String {
    let rope = Rope::from_str(text);
    let mut result = String::new();
    let mut from: usize = 0;
    for edit in edits {
        let start = edit.range.start.line as usize;
        for line in from..start {
            result.push_str(&rope.line(line).to_string());
        }
        result.push_str(&edit.new_text);
        from = edit.range.end.line as usize;
    }
    for line in from..rope.len_lines() {
        result.push_str(&rope.line(line).to_string());
    }
    result
}

fn shared(texts: &[&str]) -> Vec<Arc<String>> {
    texts.iter().map(|t| Arc::new(t.to_string())).collect()
}

#[test]
fn output_lines_below_a_line_are_found() {
    let rope = Rope::from_str("a = 1\n#> 1\n \t#> 2\nb\n");
    assert_eq!(find_prev_output(&rope, "#", 0), Some((1, 3)));
    assert_eq!(find_prev_output(&rope, "#", 1), Some((2, 3)));
    assert_eq!(find_prev_output(&rope, "#", 2), None);
    assert_eq!(find_prev_output(&rope, "//", 0), None);
    // Past the end there is nothing.
    assert_eq!(find_prev_output(&rope, "#", 4), None);
    assert_eq!(find_prev_output(&rope, "#", 100), None);
}

#[test]
fn a_last_line_that_breaks_off_is_no_output() {
    for text in ["a\n", "a\n  #", "a\n  ", "a\n#\n", "a\n\n", "a\n#!", "a\n# >"] {
        let rope = Rope::from_str(text);
        assert_eq!(find_prev_output(&rope, "#", 0), None);
        assert!(comment_edits(&rope, "#", &vec![]).is_empty());
    }
    assert_eq!(find_prev_output(&Rope::from_str("a\n #>"), "#", 0), Some((1, 2)));
    assert_eq!(find_prev_output(&Rope::from_str("a\n>"), "", 0), Some((1, 2)));
}

#[test]
fn output_is_shown_below_its_line() {
    let rope = Rope::from_str("x = 1\nprint(x)\ny = 2\n");
    let edit = edit_below(&rope, "#", &output(2, "#> 1\n")).unwrap();
    assert_eq!(plain(&edit), (2, 2, "#> 1\n".to_string()));
}

#[test]
fn old_output_is_replaced() {
    let rope = Rope::from_str("print(x)\n#> 1\n#> 2\ny = 2\n");
    let edit = edit_below(&rope, "#", &output(1, "#> 3\n")).unwrap();
    assert_eq!(plain(&edit), (1, 3, "#> 3\n".to_string()));
}

#[test]
fn output_that_is_shown_already_is_kept() {
    let rope = Rope::from_str("print(x)\n#> 1\n#> 2\ny = 2\n");
    assert!(edit_below(&rope, "#", &output(1, "#> 1\n#> 2\n")).is_none());
}

#[test]
fn shown_output_is_settled() {
    for text in ["print(x)\ny\n", "print(x)\n#> 0\ny\n", "print(x)\n", "print(x)\n#> 0\n"] {
        let shown = output(1, "#> 1\n#> 2\n");
        let edit = edit_below(&Rope::from_str(text), "#", &shown).unwrap();
        let after = apply(text, &vec![edit]);
        assert!(edit_below(&Rope::from_str(&after), "#", &shown).is_none());
    }
}

#[test]
fn edits_show_outputs_and_delete_leftovers() {
    let text = "a\n#> old\nb\nc\nd\n#> gone\n";
    let rope = Rope::from_str(text);
    let edits = comment_edits(&rope, "#", &vec![output(1, "#> 1\n"), output(3, "#> 3\n")]);
    assert_eq!(
        plain_all(&edits),
        vec![
            (1, 2, "#> 1\n".to_string()),
            (3, 3, "#> 3\n".to_string()),
            (5, 6, "".to_string()),
        ]
    );
    assert_eq!(apply(text, &edits), "a\n#> 1\nb\n#> 3\nc\nd\n");
}

#[test]
fn the_end_of_a_buffer_takes_output() {
    let rope = Rope::from_str("x = 1\nprint(x)\n");
    let edits = comment_edits(&rope, "#", &vec![output(2, "#> 1\n")]);
    assert_eq!(plain_all(&edits), vec![(2, 2, "#> 1\n".to_string())]);
    assert!(comment_edits(&rope, "#", &vec![]).is_empty());
}

#[test]
fn every_stale_block_goes() {
    let rope = Rope::from_str("a\n#> 1\nb\n#> 2\nc");
    let edits = comment_edits(&rope, "#", &vec![]);
    assert_eq!(plain_all(&edits), vec![(1, 2, "".to_string()), (3, 4, "".to_string())]);
    // The output of the first line is on show already.
    let rope = Rope::from_str("a\n#> 1\nb\n#> 2\n#> 3\nc");
    let edits = comment_edits(&rope, "#", &vec![output(1, "#> 1\n")]);
    assert_eq!(plain_all(&edits), vec![(3, 5, "".to_string())]);
    // Below the first line a block may start behind an output line.
    let rope = Rope::from_str("#> 0\n#> 1\n#> 2\na");
    assert_eq!(plain_all(&comment_edits(&rope, "#", &vec![])), vec![(1, 3, "".to_string())]);
}

#[test]
fn outputs_behind_stale_blocks_are_shown() {
    let rope = Rope::from_str("a\n#> 1\nb");
    let edits = comment_edits(&rope, "#", &vec![output(3, "#> 3\n")]);
    assert_eq!(
        plain_all(&edits),
        vec![(1, 2, "".to_string()), (3, 3, "#> 3\n".to_string())]
    );
}

#[test]
fn outputs_on_output_lines_overlap() {
    let rope = Rope::from_str("a\n#> x\n#> y\nb");
    let edits = comment_edits(&rope, "#", &vec![output(1, "#> 1\n"), output(2, "#> 2\n")]);
    assert_eq!(
        plain_all(&edits),
        vec![(1, 3, "#> 1\n".to_string()), (2, 3, "#> 2\n".to_string())]
    );
}

#[test]
fn edits_keep_order_and_other_lines() {
    let text = "a\n#> 1\nb\n\tc\n\t#> 2\n\t#> 3\nd\n#> 4\ne\nf\n#> 5\ng";
    let rope = Rope::from_str(text);
    for lines in [vec![], vec![1u64], vec![1, 4], vec![3, 7, 9], vec![1, 3, 4, 7, 9, 10, 12]] {
        let outputs: Vec<LineOutput> = lines.iter().map(|l| output(*l, "#> new\n")).collect();
        let edits = comment_edits(&rope, "#", &outputs);
        let mut from: u64 = 0;
        for edit in &edits {
            assert!(from <= edit.range.start.line);
            assert!(edit.range.start.line <= edit.range.end.line);
            from = edit.range.end.line;
            for line in edit.range.start.line..edit.range.end.line {
                assert!(rope.line(line as usize).to_string().trim_start().starts_with("#>"));
            }
        }
        let after = apply(text, &edits);
        for line in &lines {
            let shown = format!("{}#> new\n", rope.line(*line as usize - 1));
            assert!(after.contains(&shown), "{} in {}", shown, after);
        }
        let kept: Vec<&str> = after.lines().filter(|l| !l.trim_start().starts_with("#>")).collect();
        assert_eq!(kept.join(","), if lines.contains(&12) { "a,b,\tc,d,e,f,g#> new" } else { "a,b,\tc,d,e,f,g" });
    }
}

#[test]
fn an_up_to_date_buffer_is_left_alone() {
    let rope = Rope::from_str("a\n#> 1\nb\nc\n#> 2\n#> 3\nd");
    let outputs = vec![output(1, "#> 1\n"), output(4, "#> 2\n#> 3\n")];
    assert!(comment_edits(&rope, "#", &outputs).is_empty());
}

#[test]
fn output_lines_are_written() {
    let mut text = "x".to_string();
    push_comment_line(&mut text, "  ", "//", "\"a\"");
    assert_eq!(text, "x  //> a\n");
    let quoted = vec!["\"a\"".to_string(), "\"\\\"b\\\"\"".to_string()];
    assert_eq!(output_text("\t", "#", &quoted), "\t#> a\n\t#> \\\"b\\\n");
    assert_eq!(output_text("\t", "#", &vec![]), "");
}

#[test]
fn written_lines_are_found_again() {
    let mut text = "a\n".to_string();
    push_comment_line(&mut text, " \t", "--", "\"one\"");
    push_comment_line(&mut text, "", "--", "\"two\"");
    text.push_str("b\n");
    assert_eq!(find_prev_output(&Rope::from_str(&text), "--", 0), Some((1, 3)));
}

#[test]
fn output_is_quoted_line_by_line() {
    assert_eq!(
        quote_lines(&shared(&["a\tb\nc\r\n", "", "\u{2028}\""])),
        vec!["\"a\\tb\"", "\"c\"", "\"\\u{2028}\\\"\""]
    );
}

#[test]
fn output_takes_the_indentation_of_its_line() {
    let rope = Rope::from_str("def f():\n  \tprint(1)\n\n");
    let shown = render_output(&rope, "#", 2, &shared(&["1\n2", "3"]));
    assert_eq!(shown.line, 2);
    assert_eq!(shown.text, "  \t#> 1\n  \t#> 2\n  \t#> 3\n");
    // Of an empty line the line break is taken along.
    let shown = render_output(&rope, "#", 3, &shared(&["1"]));
    assert_eq!(shown.text, "\n#> 1\n");
}

#[test]
fn output_that_is_gone_is_settled() {
    let nothing = output(1, "");
    for text in ["a\n#> 0\nb\n", "a\n#> 0\n", "a\n#> 0\n#> 1\n\n#> 2\n"] {
        let edit = edit_below(&Rope::from_str(text), "#", &nothing).unwrap();
        let after = apply(text, &vec![edit]);
        assert!(edit_below(&Rope::from_str(&after), "#", &nothing).is_none());
    }
    // A carriage return and a line feed become one line break, and the next output moves up.
    let text = "a\r#> 0\n\n#> 1\n";
    let edit = edit_below(&Rope::from_str(text), "#", &nothing).unwrap();
    let after = apply(text, &vec![edit]);
    assert_eq!(after, "a\r\n#> 1\n");
    assert!(edit_below(&Rope::from_str(&after), "#", &nothing).is_some());
}

#[test]
fn the_first_line_may_be_output() {
    let text = "#> a\nb\nc\n";
    let rope = Rope::from_str(text);
    let edits = comment_edits(&rope, "#", &vec![output(1, "#> 1\n"), output(3, "#> 3\n")]);
    assert_eq!(
        plain_all(&edits),
        vec![(1, 1, "#> 1\n".to_string()), (3, 3, "#> 3\n".to_string())]
    );
    assert_eq!(apply(text, &edits), "#> a\n#> 1\nb\nc\n#> 3\n");
}

#[test]
fn updated_buffers_hold_code_and_shown_output_only() {
    let text = "#> 0\n#> 1\na\n\tb\n\t#> 2\n#> 3\nc\n#> 4\nd";
    let rope = Rope::from_str(text);
    let edits = comment_edits(&rope, "#", &vec![output(1, "#> x\n"), output(4, "\t#> y\n\t#> z\n")]);
    let after = apply(text, &edits);
    assert_eq!(after, "#> 0\n#> x\na\n\tb\n\t#> y\n\t#> z\nc\nd");
    // With the outputs at the lines that they have moved to, there is nothing left to do.
    let moved = vec![output(1, "#> x\n"), output(4, "\t#> y\n\t#> z\n")];
    assert!(comment_edits(&Rope::from_str(&after), "#", &moved).is_empty());
    let text = "a\nb\nc\n";
    let edits = comment_edits(&Rope::from_str(text), "#", &vec![output(1, "#> 1\n"), output(3, "#> 3\n")]);
    let after = apply(text, &edits);
    assert_eq!(after, "a\n#> 1\nb\nc\n#> 3\n");
    let moved = vec![output(1, "#> 1\n"), output(4, "#> 3\n")];
    assert!(comment_edits(&Rope::from_str(&after), "#", &moved).is_empty());
}
