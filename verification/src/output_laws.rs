//! Which lines are output, what is written below a line, and what an update does to a text, in
//! terms of characters and lines.

use crate::backend::comment_update;
use crate::comment_laws::{is_below_a_line, law_edits_are_accounted_for, lemma_block_is_output};
use crate::comments::{
    are_sorted, block_end, comment_block, comment_line, edit_at, edits_up_to, indent_len,
    indent_of, is_for, is_output_line, lemma_block_end_bounds, output_edit, output_map,
    quoted_lines, rendered, shown_lines, skip_blanks, starts_block, OutputView,
};
use crate::folding::{are_runs, holds, in_a_fold, is_foldable, FoldingRange, FoldingRangeKind};
use crate::frames::LineTexts;
use crate::protocol::{EditView, FrameKey};
use crate::rope::lines_of;
use crate::settled_laws::lemma_block_end_is;
use crate::text::{debug_form, split_lines, trim_quotes};
use vstd::prelude::*;

verus! {

/// How many blanks a line starts with.
proof fn lemma_blanks(line: Seq<char>) -> (n: int)
    ensures
        0 <= n <= line.len(),
        skip_blanks(line) == line.skip(n),
        forall|i: int| 0 <= i < n ==> line[i] == ' ' || line[i] == '\t',
        n < line.len() ==> line[n] != ' ' && line[n] != '\t',
    decreases line.len(),
{
    if line.len() > 0 && (line[0] == ' ' || line[0] == '\t') {
        let n = lemma_blanks(line.skip(1));
        assert(line.skip(1).skip(n) =~= line.skip(n + 1));
        assert forall|i: int| 0 <= i < n + 1 implies line[i] == ' ' || line[i] == '\t' by {
            if i > 0 {
                assert(line.skip(1)[i - 1] == line[i]);
            }
        }
        n + 1
    } else {
        assert(line.skip(0) =~= line);
        0
    }
}

/// A line is output if and only if, behind the spaces and tabs that it starts with, it goes on with
/// the line comment and a `>` right behind it.
pub proof fn law_output_lines_carry_the_marker(line: Seq<char>, comment: Seq<char>)
    ensures
        is_output_line(line, comment) <==> exists|n: int|
            {
                &&& 0 <= n
                &&& n + comment.len() < line.len()
                &&& forall|i: int| 0 <= i < n ==> line[i] == ' ' || line[i] == '\t'
                &&& line[n] != ' ' && line[n] != '\t'
                &&& (#[trigger] line.skip(n)).take(comment.len() as int) == comment
                &&& line[n + comment.len()] == '>'
            },
{
    let len = comment.len() as int;
    let marker = comment.push('>');
    let n = lemma_blanks(line);
    let rest = line.skip(n);
    if is_output_line(line, comment) {
        assert(rest.subrange(0, len + 1) =~= marker);
        assert forall|i: int| 0 <= i < len implies rest[i] == comment[i] by {
            assert(rest.subrange(0, len + 1)[i] == marker[i]);
        }
        assert(rest.take(len) =~= comment);
        assert(rest.subrange(0, len + 1)[len] == marker[len]);
        assert(line[n + len] == rest[len]);
    }
    if exists|n: int|
        {
            &&& 0 <= n
            &&& n + comment.len() < line.len()
            &&& forall|i: int| 0 <= i < n ==> line[i] == ' ' || line[i] == '\t'
            &&& line[n] != ' ' && line[n] != '\t'
            &&& (#[trigger] line.skip(n)).take(comment.len() as int) == comment
            &&& line[n + comment.len()] == '>'
        } {
        let m = choose|n: int|
            {
                &&& 0 <= n
                &&& n + comment.len() < line.len()
                &&& forall|i: int| 0 <= i < n ==> line[i] == ' ' || line[i] == '\t'
                &&& line[n] != ' ' && line[n] != '\t'
                &&& (#[trigger] line.skip(n)).take(comment.len() as int) == comment
                &&& line[n + comment.len()] == '>'
            };
        assert(m == n) by {
            if m < n {
                assert(line[m] == ' ' || line[m] == '\t');
            } else if n < m {
                assert(line[n] == ' ' || line[n] == '\t');
            }
        }
        assert(rest.subrange(0, len + 1) =~= marker) by {
            assert forall|i: int| 0 <= i < len + 1 implies rest.subrange(0, len + 1)[i]
                == marker[i] by {
                if i < len {
                    assert(rest.take(len)[i] == comment[i]);
                } else {
                    assert(rest[len] == line[n + len]);
                }
            }
        }
    }
}

/// A block of output lines goes on as far as there are output lines, and no further.
pub proof fn law_blocks_end_at_the_first_other_line(
    lines: Seq<Seq<char>>,
    comment: Seq<char>,
    from: int,
    end: int,
)
    requires
        0 <= from <= end <= lines.len(),
    ensures
        block_end(lines, comment, from) == end <==> {
            &&& forall|i: int| from <= i < end ==> is_output_line(#[trigger] lines[i], comment)
            &&& end < lines.len() ==> !is_output_line(lines[end], comment)
        },
{
    let stop = block_end(lines, comment, from);
    lemma_block_is_output(lines, comment, from);
    lemma_block_end_bounds(lines, comment, from);
    if stop == end && end < lines.len() {
        lemma_not_output_behind(lines, comment, from);
    }
    if (forall|i: int| from <= i < end ==> is_output_line(#[trigger] lines[i], comment)) && (end
        < lines.len() ==> !is_output_line(lines[end], comment)) {
        lemma_block_end_is(lines, comment, from, end);
    }
}

proof fn lemma_not_output_behind(lines: Seq<Seq<char>>, comment: Seq<char>, from: int)
    requires
        0 <= from,
        block_end(lines, comment, from) < lines.len(),
    ensures
        !is_output_line(lines[block_end(lines, comment, from)], comment),
    decreases lines.len() - from,
{
    if from < lines.len() && is_output_line(lines[from], comment) {
        lemma_not_output_behind(lines, comment, from + 1);
    }
}

/// Every line that an update takes away starts, behind spaces and tabs, with the line comment and a
/// `>`; and it is taken away as a whole.
pub proof fn law_update_keeps_lines_without_marker(
    entries: Map<FrameKey, Seq<Seq<char>>>,
    path: Seq<char>,
    comment: Seq<char>,
    text: Seq<char>,
    edit: EditView,
    i: int,
)
    requires
        comment_update(entries, path, comment, text).contains(edit),
        edit.start_line <= i < edit.end_line,
    ensures
        edit.start_character == 0,
        edit.end_character == 0,
        0 < i < lines_of(text).len(),
        exists|n: int|
            {
                &&& 0 <= n
                &&& n + comment.len() < lines_of(text)[i].len()
                &&& forall|k: int|
                    0 <= k < n ==> lines_of(text)[i][k] == ' ' || lines_of(text)[i][k] == '\t'
                &&& (#[trigger] lines_of(text)[i].skip(n)).take(comment.len() as int) == comment
                &&& lines_of(text)[i][n + comment.len()] == '>'
            },
{
    let lines = lines_of(text);
    let shown = shown_lines(entries, path, comment, lines);
    law_edits_are_accounted_for(lines, comment, shown);
    let line = choose|line: int|
        1 <= line <= lines.len() && #[trigger] edit_at(lines, comment, shown, line) == Some(edit);
    lemma_block_is_output(lines, comment, line);
    lemma_block_end_bounds(lines, comment, line);
    assert(is_output_line(lines[i], comment));
    law_output_lines_carry_the_marker(lines[i], comment);
    let n = choose|n: int|
        {
            &&& 0 <= n
            &&& n + comment.len() < lines[i].len()
            &&& forall|k: int| 0 <= k < n ==> lines[i][k] == ' ' || lines[i][k] == '\t'
            &&& lines[i][n] != ' ' && lines[i][n] != '\t'
            &&& (#[trigger] lines[i].skip(n)).take(comment.len() as int) == comment
            &&& lines[i][n + comment.len()] == '>'
        };
    assert(lines_of(text)[i].skip(n).take(comment.len() as int) == comment);
}

/// A line folds away if and only if it is one of the buffer and starts, behind spaces and tabs, with
/// the line comment and a `>`.
pub proof fn law_lines_with_marker_fold_away(
    lines: Seq<Seq<char>>,
    comment: Seq<char>,
    line: int,
)
    ensures
        is_foldable(lines, comment, line) <==> 0 <= line < lines.len() && exists|n: int|
            {
                &&& 0 <= n
                &&& n + comment.len() < lines[line].len()
                &&& forall|i: int| 0 <= i < n ==> lines[line][i] == ' ' || lines[line][i] == '\t'
                &&& lines[line][n] != ' ' && lines[line][n] != '\t'
                &&& (#[trigger] lines[line].skip(n)).take(comment.len() as int) == comment
                &&& lines[line][n + comment.len()] == '>'
            },
{
    law_output_lines_carry_the_marker(lines[line], comment);
}

/// Folds hold the lines that they are made of, each in exactly one fold, and none of the lines right
/// before or behind a fold; and they are comments.
pub proof fn law_folds_hold_whole_runs(
    lines: spec_fn(int) -> bool,
    folds: Seq<FoldingRange>,
    i: int,
    l: int,
)
    requires
        are_runs(lines, folds),
        0 <= i < folds.len(),
    ensures
        folds[i].start_line <= folds[i].end_line,
        folds[i].kind == FoldingRangeKind::Comment,
        folds[i].start_line <= l <= folds[i].end_line ==> lines(l),
        !lines(folds[i].start_line - 1),
        !lines(folds[i].end_line + 1),
        lines(l) && !(folds[i].start_line <= l <= folds[i].end_line) ==> exists|j: int|
            0 <= j < folds.len() && j != i && (#[trigger] folds[j]).start_line <= l
                <= folds[j].end_line,
        i + 1 < folds.len() ==> folds[i].end_line + 1 < folds[i + 1].start_line,
{
    if folds[i].start_line <= l <= folds[i].end_line {
        assert(holds(folds, i, l));
        assert(in_a_fold(folds, l));
    }
    let before = folds[i].start_line - 1;
    if lines(before) {
        let j = choose|j: int| #[trigger] holds(folds, j, before);
        if j < i {
            assert(folds[j].end_line + 1 < folds[i].start_line);
        } else if i < j {
            assert(folds[i].end_line + 1 < folds[j].start_line);
        }
    }
    let behind = folds[i].end_line + 1;
    if lines(behind) {
        let j = choose|j: int| #[trigger] holds(folds, j, behind);
        if j < i {
            assert(folds[j].end_line + 1 < folds[i].start_line);
        } else if i < j {
            assert(folds[i].end_line + 1 < folds[j].start_line);
        }
    }
    if lines(l) && !(folds[i].start_line <= l <= folds[i].end_line) {
        let j = choose|j: int| #[trigger] holds(folds, j, l);
        assert(folds[j].start_line <= l <= folds[j].end_line);
    }
}

/// The indentation of a line is the ASCII white space that it starts with, all of it and nothing
/// else.
pub proof fn law_indentation_is_leading_white_space(line: Seq<char>)
    ensures
        indent_of(line).len() <= line.len(),
        indent_of(line) == line.take(indent_of(line).len() as int),
        forall|i: int|
            0 <= i < indent_of(line).len() ==> {
                let c = #[trigger] indent_of(line)[i];
                c == ' ' || c == '\t' || c == '\n' || c == '\r' || c == '\u{c}'
            },
        indent_of(line).len() < line.len() ==> {
            let c = line[indent_of(line).len() as int];
            !(c == ' ' || c == '\t' || c == '\n' || c == '\r' || c == '\u{c}')
        },
{
    lemma_indent(line);
    let n = indent_len(line) as int;
    assert(indent_of(line).len() == n);
    assert forall|i: int| 0 <= i < indent_of(line).len() implies {
        let c = #[trigger] indent_of(line)[i];
        c == ' ' || c == '\t' || c == '\n' || c == '\r' || c == '\u{c}'
    } by {
        assert(indent_of(line)[i] == line[i]);
    }
}

proof fn lemma_indent(line: Seq<char>)
    ensures
        indent_len(line) <= line.len(),
        forall|i: int|
            0 <= i < indent_len(line) ==> {
                let c = #[trigger] line[i];
                c == ' ' || c == '\t' || c == '\n' || c == '\r' || c == '\u{c}'
            },
        indent_len(line) < line.len() ==> {
            let c = line[indent_len(line) as int];
            !(c == ' ' || c == '\t' || c == '\n' || c == '\r' || c == '\u{c}')
        },
    decreases line.len(),
{
    if line.len() > 0 {
        lemma_indent(line.skip(1));
        assert forall|i: int| 0 <= i < indent_len(line) implies {
            let c = #[trigger] line[i];
            c == ' ' || c == '\t' || c == '\n' || c == '\r' || c == '\u{c}'
        } by {
            if i > 0 {
                assert(line.skip(1)[i - 1] == line[i]);
            }
        }
        if 0 < indent_len(line) < line.len() {
            assert(line.skip(1)[indent_len(line) - 1] == line[indent_len(line) as int]);
        }
    }
}

/// An output line is made of the indentation, the line comment, a `>` and a blank, the quoted text
/// without the quotes around it, and a line feed, in this order.
pub proof fn law_output_line_parts(indent: Seq<char>, comment: Seq<char>, quoted: Seq<char>)
    ensures
        ({
            let line = comment_line(indent, comment, quoted);
            let body = indent.len() as int + comment.len();
            &&& line.len() == body + 3 + trim_quotes(quoted).len()
            &&& line.take(indent.len() as int) == indent
            &&& line.skip(indent.len() as int).take(comment.len() as int) == comment
            &&& line[body] == '>'
            &&& line[body + 1] == ' '
            &&& line.skip(body + 2).drop_last() == trim_quotes(quoted)
            &&& line.last() == '\n'
        }),
{
    let line = comment_line(indent, comment, quoted);
    let body = indent.len() as int + comment.len();
    assert(line.take(indent.len() as int) =~= indent);
    assert(line.skip(indent.len() as int).take(comment.len() as int) =~= comment);
    assert(line.skip(body + 2).drop_last() =~= trim_quotes(quoted));
}

/// The lines of output of two runs of pieces are those of the one and then those of the other: no
/// piece is left out, whatever the other pieces are.
pub proof fn law_quoted_lines_add_up(a: Seq<Seq<char>>, b: Seq<Seq<char>>)
    ensures
        quoted_lines(a + b) == quoted_lines(a) + quoted_lines(b),
    decreases b.len(),
{
    if b.len() == 0 {
        assert(a + b =~= a);
        assert(quoted_lines(a) + quoted_lines(b) =~= quoted_lines(a));
    } else {
        law_quoted_lines_add_up(a, b.drop_last());
        assert((a + b).drop_last() =~= a + b.drop_last());
        assert((a + b).last() == b.last());
        assert(quoted_lines(a + b) =~= quoted_lines(a) + quoted_lines(b));
    }
}

/// Of one piece of output every line is quoted, in order.
pub proof fn law_every_line_of_a_piece_is_quoted(piece: Seq<char>)
    ensures
        quoted_lines(seq![piece]).len() == split_lines(piece).len(),
        forall|i: int|
            0 <= i < split_lines(piece).len() ==> #[trigger] quoted_lines(seq![piece])[i]
                == debug_form(split_lines(piece)[i]),
{
    let out = seq![piece];
    assert(out.drop_last() =~= Seq::<Seq<char>>::empty());
    assert(out.last() == piece);
    reveal_with_fuel(quoted_lines, 2);
    assert(quoted_lines(out) =~= split_lines(piece).map_values(
        |line: Seq<char>| debug_form(line),
    ));
}

/// As many lines of output are shown as all pieces have together.
pub proof fn law_number_of_quoted_lines(out: Seq<Seq<char>>)
    ensures
        quoted_lines(out).len() == out.fold_left(
            0,
            |count: int, piece: Seq<char>| count + split_lines(piece).len(),
        ),
    decreases out.len(),
{
    reveal_with_fuel(Seq::fold_left, 2);
    let f = |count: int, piece: Seq<char>| count + split_lines(piece).len();
    if out.len() > 0 {
        law_number_of_quoted_lines(out.drop_last());
        law_quoted_lines_add_up(out.drop_last(), seq![out.last()]);
        law_every_line_of_a_piece_is_quoted(out.last());
        assert(out.drop_last() + seq![out.last()] =~= out);
        assert(out.fold_left(0, f) == f(out.drop_last().fold_left(0, f), out.last()));
    }
}

/// What is written for lines of output is one output line for each of them, in order.
pub proof fn law_one_output_line_per_line(
    indent: Seq<char>,
    comment: Seq<char>,
    quoted: Seq<Seq<char>>,
)
    ensures
        comment_block(indent, comment, quoted) == Seq::new(
            quoted.len(),
            |k: int| comment_line(indent, comment, quoted[k]),
        ).flatten(),
    decreases quoted.len(),
{
    let lines = Seq::new(quoted.len(), |k: int| comment_line(indent, comment, quoted[k]));
    if quoted.len() == 0 {
        assert(lines.flatten() =~= Seq::<char>::empty());
    } else {
        let before = quoted.drop_last();
        law_one_output_line_per_line(indent, comment, before);
        let so_far = Seq::new(before.len(), |k: int| comment_line(indent, comment, before[k]));
        let line = comment_line(indent, comment, quoted.last());
        so_far.lemma_flatten_push(line);
        assert(lines =~= so_far.push(line));
    }
}

/// What is shown below a line of a file is the output that the run has for it, written with the
/// indentation of the line: one output line for each line of each piece. Nothing is shown below
/// lines that the run has no output for.
pub proof fn law_shown_text_is_the_output_of_the_line(
    entries: Map<FrameKey, Seq<Seq<char>>>,
    path: Seq<char>,
    comment: Seq<char>,
    lines: Seq<Seq<char>>,
    line: u64,
)
    requires
        1 <= line <= lines.len(),
    ensures
        shown_lines(entries, path, comment, lines).dom().contains(line as int)
            <==> entries.dom().contains((path, line)),
        entries.dom().contains((path, line)) ==> shown_lines(entries, path, comment, lines)[line as int]
            == Seq::new(
            quoted_lines(entries[(path, line)]).len(),
            |k: int|
                comment_line(
                    indent_of(lines[line - 1]),
                    comment,
                    quoted_lines(entries[(path, line)])[k],
                ),
        ).flatten(),
        rendered(lines, comment, (LineTexts { line: line as int, texts: entries[(path, line)] })).line
            == line,
        entries.dom().contains((path, line)) ==> rendered(
            lines,
            comment,
            (LineTexts { line: line as int, texts: entries[(path, line)] }),
        ).text == shown_lines(entries, path, comment, lines)[line as int],
{
    law_one_output_line_per_line(
        indent_of(lines[line - 1]),
        comment,
        quoted_lines(entries[(path, line)]),
    );
}

/// An update shows the output of a line in place of the output lines that follow it, from the first
/// to the last of them; where they say the same already, it leaves them alone.
pub proof fn law_update_shows_output_below_its_line(
    entries: Map<FrameKey, Seq<Seq<char>>>,
    path: Seq<char>,
    comment: Seq<char>,
    text: Seq<char>,
    line: u64,
    end: int,
)
    requires
        1 <= line <= end <= lines_of(text).len(),
        entries.dom().contains((path, line)),
        forall|i: int| line <= i < end ==> is_output_line(#[trigger] lines_of(text)[i], comment),
        end < lines_of(text).len() ==> !is_output_line(lines_of(text)[end], comment),
    ensures
        ({
            let lines = lines_of(text);
            let quoted = quoted_lines(entries[(path, line)]);
            let written = Seq::new(
                quoted.len(),
                |k: int| comment_line(indent_of(lines[line - 1]), comment, quoted[k]),
            ).flatten();
            let edit = EditView {
                start_line: line as int,
                start_character: 0,
                end_line: end,
                end_character: 0,
                new_text: written,
            };
            &&& lines.subrange(line as int, end).flatten() != written ==> comment_update(
                entries,
                path,
                comment,
                text,
            ).contains(edit)
            &&& forall|e: EditView| #[trigger]
                comment_update(entries, path, comment, text).contains(e) && e.start_line == line
                    ==> e == edit && lines.subrange(line as int, end).flatten() != written
        }),
{
    let lines = lines_of(text);
    let shown = shown_lines(entries, path, comment, lines);
    let quoted = quoted_lines(entries[(path, line)]);
    let written = Seq::new(
        quoted.len(),
        |k: int| comment_line(indent_of(lines[line - 1]), comment, quoted[k]),
    ).flatten();
    let edit = EditView {
        start_line: line as int,
        start_character: 0,
        end_line: end,
        end_character: 0,
        new_text: written,
    };
    law_shown_text_is_the_output_of_the_line(entries, path, comment, lines, line);
    law_blocks_end_at_the_first_other_line(lines, comment, line as int, end);
    law_edits_are_accounted_for(lines, comment, shown);
    assert(shown.dom().contains(line as int));
    assert(edit_at(lines, comment, shown, line as int) == output_edit(
        lines,
        comment,
        OutputView { line: line as int, text: written },
    ));
    if lines.subrange(line as int, end).flatten() != written {
        assert(edit_at(lines, comment, shown, line as int) == Some(edit));
        assert(is_below_a_line(lines, comment, shown, lines.len() as int, edit));
    }
    assert forall|e: EditView| #[trigger]
        comment_update(entries, path, comment, text).contains(e) && e.start_line
            == line implies e == edit && lines.subrange(line as int, end).flatten() != written by {
        let l = choose|l: int|
            1 <= l <= lines.len() && #[trigger] edit_at(lines, comment, shown, l) == Some(e);
        assert(e.start_line == l);
    }
}

/// An update deletes a block of output lines, from its first to its last line, where the line above
/// it has no output. The block starts below the first line, or below a line that is not output.
pub proof fn law_update_deletes_blocks_without_output(
    entries: Map<FrameKey, Seq<Seq<char>>>,
    path: Seq<char>,
    comment: Seq<char>,
    text: Seq<char>,
    start: int,
    end: int,
)
    requires
        1 <= start < end <= lines_of(text).len(),
        start <= u64::MAX ==> !entries.dom().contains((path, start as u64)),
        start == 1 || !is_output_line(lines_of(text)[start - 1], comment),
        forall|i: int| start <= i < end ==> is_output_line(#[trigger] lines_of(text)[i], comment),
        end < lines_of(text).len() ==> !is_output_line(lines_of(text)[end], comment),
    ensures
        comment_update(entries, path, comment, text).contains(
            (EditView {
                start_line: start,
                start_character: 0,
                end_line: end,
                end_character: 0,
                new_text: Seq::empty(),
            }),
        ),
{
    let lines = lines_of(text);
    let shown = shown_lines(entries, path, comment, lines);
    let edit = EditView {
        start_line: start,
        start_character: 0,
        end_line: end,
        end_character: 0,
        new_text: Seq::empty(),
    };
    law_blocks_end_at_the_first_other_line(lines, comment, start, end);
    law_edits_are_accounted_for(lines, comment, shown);
    assert(is_output_line(lines[start], comment));
    assert(starts_block(lines, comment, start));
    assert(edit_at(lines, comment, shown, start) == Some(edit));
    assert(is_below_a_line(lines, comment, shown, lines.len() as int, edit));
}

/// An update asks for nothing else: each of its edits is below a line that the run has output for,
/// or deletes a whole block of output lines below a line without output.
pub proof fn law_update_asks_for_nothing_else(
    entries: Map<FrameKey, Seq<Seq<char>>>,
    path: Seq<char>,
    comment: Seq<char>,
    text: Seq<char>,
    edit: EditView,
)
    requires
        comment_update(entries, path, comment, text).contains(edit),
    ensures
        1 <= edit.start_line <= edit.end_line <= lines_of(text).len(),
        edit.start_line <= u64::MAX && entries.dom().contains((path, edit.start_line as u64)) || {
            &&& edit.new_text.len() == 0
            &&& edit.start_line < edit.end_line
            &&& edit.start_line == 1 || !is_output_line(lines_of(text)[edit.start_line - 1], comment)
            &&& forall|i: int|
                edit.start_line <= i < edit.end_line ==> is_output_line(
                    #[trigger] lines_of(text)[i],
                    comment,
                )
            &&& edit.end_line < lines_of(text).len() ==> !is_output_line(
                lines_of(text)[edit.end_line],
                comment,
            )
        },
{
    let lines = lines_of(text);
    let shown = shown_lines(entries, path, comment, lines);
    law_edits_are_accounted_for(lines, comment, shown);
    let line = choose|line: int|
        1 <= line <= lines.len() && #[trigger] edit_at(lines, comment, shown, line) == Some(edit);
    lemma_block_end_bounds(lines, comment, line);
    assert(edit.start_line == line);
    law_blocks_end_at_the_first_other_line(lines, comment, line, edit.end_line);
    if !shown.dom().contains(line) {
        assert(starts_block(lines, comment, line));
        lemma_block_end_bounds(lines, comment, line + 1);
    }
}

/// No two edits of an update start at the same line, and they come in the order of their lines.
pub proof fn law_update_edits_come_in_order(
    entries: Map<FrameKey, Seq<Seq<char>>>,
    path: Seq<char>,
    comment: Seq<char>,
    text: Seq<char>,
)
    ensures
        forall|i: int, j: int|
            0 <= i < j < comment_update(entries, path, comment, text).len() ==> (
            #[trigger] comment_update(entries, path, comment, text)[i]).start_line < (
            #[trigger] comment_update(entries, path, comment, text)[j]).start_line,
{
    let lines = lines_of(text);
    lemma_starts(
        lines,
        comment,
        shown_lines(entries, path, comment, lines),
        lines.len() as int,
    );
}

proof fn lemma_starts(
    lines: Seq<Seq<char>>,
    comment: Seq<char>,
    shown: Map<int, Seq<char>>,
    last: int,
)
    ensures
        forall|i: int|
            0 <= i < edits_up_to(lines, comment, shown, last).len() ==> (#[trigger] edits_up_to(
                lines,
                comment,
                shown,
                last,
            )[i]).start_line <= last,
        forall|i: int, j: int|
            0 <= i < j < edits_up_to(lines, comment, shown, last).len() ==> (
            #[trigger] edits_up_to(lines, comment, shown, last)[i]).start_line < (
            #[trigger] edits_up_to(lines, comment, shown, last)[j]).start_line,
    decreases last,
{
    if last > 0 {
        lemma_starts(lines, comment, shown, last - 1);
        let before = edits_up_to(lines, comment, shown, last - 1);
        let now = edits_up_to(lines, comment, shown, last);
        assert(forall|i: int| 0 <= i < before.len() ==> #[trigger] now[i] == before[i]);
        if let Some(e) = edit_at(lines, comment, shown, last) {
            assert(now[before.len() as int] == e);
            assert(e.start_line == last);
        }
        assert forall|i: int, j: int| 0 <= i < j < now.len() implies (#[trigger] now[i]).start_line
            < (#[trigger] now[j]).start_line by {
            assert(now[i] == before[i]);
            if j < before.len() {
                assert(now[j] == before[j]);
            }
        }
    }
}

/// Sorted outputs are shown each at its own line, and nowhere else.
pub proof fn law_outputs_are_shown_at_their_lines(outputs: Seq<OutputView>, i: int, line: int)
    requires
        are_sorted(outputs),
        0 <= i < outputs.len(),
    ensures
        output_map(outputs).dom().contains(outputs[i].line),
        output_map(outputs)[outputs[i].line] == outputs[i].text,
        output_map(outputs).dom().contains(line) ==> exists|j: int|
            0 <= j < outputs.len() && (#[trigger] outputs[j]).line == line,
{
    assert(is_for(outputs, outputs[i].line, i));
    let j = choose|j: int| is_for(outputs, outputs[i].line, j);
    if i < j {
        assert(outputs[i].line < outputs[j].line);
    } else if j < i {
        assert(outputs[j].line < outputs[i].line);
    }
    if output_map(outputs).dom().contains(line) {
        let j = choose|j: int| is_for(outputs, line, j);
        assert(outputs[j].line == line);
    }
}

} // verus!
