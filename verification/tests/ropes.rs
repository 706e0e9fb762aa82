use nwn::comments::{find_prev_output, output_text};
use nwn::folding::{find_output_ranges, folding_ranges, join_lines, FoldingRange, FoldingRangeKind};
use nwn::util::{low_bits, rope_starts_with, time, time_of};
use ropey::Rope;

#[test]
fn slices_start_with_their_prefixes() {
    let rope = Rope::from_str("#> out\nrest");
    let line = rope.line(0);
    assert!(rope_starts_with(&line, "#>"));
    assert!(rope_starts_with(&line, ""));
    assert!(rope_starts_with(&line, "#> out\n"));
    assert!(!rope_starts_with(&line, "#> out\nr"));
    assert!(!rope_starts_with(&line, "> "));
    assert!(rope_starts_with(&rope.slice(..), "#> out\nr"));
    let empty = Rope::new();
    assert!(!rope_starts_with(&empty.slice(..), "#"));
}

#[test]
fn the_clock_runs() {
    let before = time().unwrap();
    let after = time().unwrap();
    assert!(before <= after);
    assert!(before > 1_600_000_000_000);
}

#[test]
fn only_low_bits_are_kept() {
    assert_eq!(low_bits(5), 5);
    assert_eq!(low_bits(usize::MAX as u128), usize::MAX);
    assert_eq!(low_bits(usize::MAX as u128 + 1), 0);
    assert_eq!(low_bits(usize::MAX as u128 + 8), 7);
}

#[test]
fn every_kind_of_line_break_ends_a_line() {
    for end in ["\n", "\r", "\r\n", "\u{b}", "\u{c}", "\u{85}", "\u{2028}", "\u{2029}"] {
        let rope = Rope::from_str(&format!("a{}#>b{}c", end, end));
        assert_eq!(find_output_ranges(&rope, "#"), vec![1]);
        assert_eq!(find_prev_output(&rope, "#", 0), Some((1, 2)));
    }
    // A line feed in front of a carriage return makes two lines of it.
    assert_eq!(find_output_ranges(&Rope::from_str("a\n\r#>"), "#"), vec![2]);
}

#[test]
fn output_lines_start_with_a_marker() {
    let rope = Rope::from_str("#> a\n #> b\n#\n#>\n//> c\n#>");
    assert_eq!(find_output_ranges(&rope, "#"), vec![0, 1, 3, 5]);
    assert_eq!(find_output_ranges(&rope, "//"), vec![4]);
    assert!(find_output_ranges(&Rope::new(), "#").is_empty());
    let rope = Rope::from_str("if x:\n    f()\n    #> 1\ng()");
    assert_eq!(find_output_ranges(&rope, "#"), vec![2]);
    let rope = Rope::from_str("f();\n//> 1\ng();");
    assert_eq!(find_output_ranges(&rope, "//"), vec![1]);
    assert!(find_output_ranges(&rope, "#").is_empty());
}

fn fold(start_line: u64, end_line: u64) -> FoldingRange {
    FoldingRange { start_line, end_line, kind: FoldingRangeKind::Comment }
}

#[test]
fn lines_in_a_row_are_joined() {
    assert_eq!(join_lines(&vec![]), vec![]);
    assert_eq!(join_lines(&vec![4]), vec![fold(4, 4)]);
    assert_eq!(
        join_lines(&vec![0, 1, 2, 4, 6, 7]),
        vec![fold(0, 2), fold(4, 4), fold(6, 7)]
    );
}

#[test]
fn runs_of_output_fold_away() {
    let rope = Rope::from_str("a\n#> 1\n#> 2\nb\n#> 3\n");
    assert_eq!(folding_ranges(&rope, "#"), vec![fold(1, 2), fold(4, 4)]);
    assert_eq!(folding_ranges(&Rope::from_str("a\n"), "#"), vec![]);
}

#[test]
fn output_that_is_written_folds_away() {
    let text = output_text(" \t", "--", &vec!["\"1\"".to_string(), "\"2\"".to_string()]);
    let rope = Rope::from_str(&format!("a\n{}b\n", text));
    assert_eq!(find_output_ranges(&rope, "--"), vec![1, 2]);
    assert_eq!(find_prev_output(&rope, "--", 0), Some((1, 3)));
}

#[test]
fn a_reading_of_the_clock_gives_the_time() {
    assert_eq!(time_of(None), None);
    assert_eq!(time_of(Some((0, 999_999))), Some(0));
    assert_eq!(time_of(Some((1_600_000_000, 123_999_999))), Some(1_600_000_000_123));
    let millis = u64::MAX as u128 * 1000 + 999;
    assert_eq!(time_of(Some((u64::MAX, 999_000_000))), Some(low_bits(millis)));
}
