//! What holds of the edits to the output comments of every buffer.

use crate::comments::{
    block_end, edit_at, edits_up_to, is_output_line, lemma_block_end_bounds, output_edit,
    starts_block, OutputView,
};
use crate::protocol::{line_edit, EditView};
use vstd::prelude::*;

verus! {

/// The lines from `from` to the end of its block are all output lines.
pub proof fn lemma_block_is_output(lines: Seq<Seq<char>>, comment: Seq<char>, from: int)
    requires
        0 <= from,
    ensures
        forall|i: int|
            from <= i < block_end(lines, comment, from) ==> i < lines.len() && is_output_line(
                #[trigger] lines[i],
                comment,
            ),
    decreases lines.len() - from,
{
    if from < lines.len() && is_output_line(lines[from], comment) {
        lemma_block_is_output(lines, comment, from + 1);
        lemma_block_end_bounds(lines, comment, from);
    }
}

/// Whether `edit` is the one below one of the lines up to the line number `last`.
pub open spec fn is_below_a_line(
    lines: Seq<Seq<char>>,
    comment: Seq<char>,
    shown: Map<int, Seq<char>>,
    last: int,
    edit: EditView,
) -> bool {
    exists|line: int|
        1 <= line <= last && #[trigger] edit_at(lines, comment, shown, line) == Some(edit)
}

proof fn lemma_members(
    lines: Seq<Seq<char>>,
    comment: Seq<char>,
    shown: Map<int, Seq<char>>,
    last: int,
)
    ensures
        forall|e: EditView|
            #[trigger] edits_up_to(lines, comment, shown, last).contains(e) <==> is_below_a_line(
                lines,
                comment,
                shown,
                last,
                e,
            ),
    decreases last,
{
    let edits = edits_up_to(lines, comment, shown, last);
    if last > 0 {
        let before = edits_up_to(lines, comment, shown, last - 1);
        lemma_members(lines, comment, shown, last - 1);
        assert forall|e: EditView| #[trigger] edits.contains(e) <==> is_below_a_line(
            lines,
            comment,
            shown,
            last,
            e,
        ) by {
            if edits.contains(e) {
                let k = edits.index_of(e);
                assert(edits[k] == e);
                if k < before.len() {
                    assert(before[k] == e);
                    assert(before.contains(e));
                    let line = choose|line: int|
                        1 <= line <= last - 1 && #[trigger] edit_at(lines, comment, shown, line)
                            == Some(e);
                    assert(edit_at(lines, comment, shown, line) == Some(e));
                } else {
                    assert(edit_at(lines, comment, shown, last) == Some(e));
                }
            }
            if is_below_a_line(lines, comment, shown, last, e) {
                let line = choose|line: int|
                    1 <= line <= last && #[trigger] edit_at(lines, comment, shown, line) == Some(e);
                if line < last {
                    assert(is_below_a_line(lines, comment, shown, last - 1, e));
                    assert(before.contains(e));
                    let k = before.index_of(e);
                    assert(edits[k] == e);
                } else {
                    assert(edits[before.len() as int] == e);
                }
            }
        }
    }
}

/// The edits are those below the lines of the buffer: one for each output that is not on show yet,
/// one for each block of output lines that no output is shown in, and no others.
pub proof fn law_edits_are_accounted_for(
    lines: Seq<Seq<char>>,
    comment: Seq<char>,
    shown: Map<int, Seq<char>>,
)
    ensures
        forall|e: EditView|
            #[trigger] edits_up_to(lines, comment, shown, lines.len() as int).contains(e)
                <==> is_below_a_line(lines, comment, shown, lines.len() as int, e),
{
    lemma_members(lines, comment, shown, lines.len() as int);
}

/// Output lines left over from an earlier run go: every block of them that starts below a line
/// without output is deleted as a whole.
pub proof fn law_stale_output_goes(
    lines: Seq<Seq<char>>,
    comment: Seq<char>,
    shown: Map<int, Seq<char>>,
    start: int,
)
    requires
        starts_block(lines, comment, start),
        !shown.dom().contains(start),
    ensures
        edits_up_to(lines, comment, shown, lines.len() as int).contains(
            line_edit(start, block_end(lines, comment, start), Seq::empty()),
        ),
{
    law_edits_are_accounted_for(lines, comment, shown);
    let e = line_edit(start, block_end(lines, comment, start), Seq::empty());
    assert(edit_at(lines, comment, shown, start) == Some(e));
    assert(is_below_a_line(lines, comment, shown, lines.len() as int, e));
}

/// Whether `edit` keeps within the buffer and replaces nothing but whole output lines.
pub open spec fn covers_only_output(
    lines: Seq<Seq<char>>,
    comment: Seq<char>,
    edit: EditView,
) -> bool {
    &&& 0 <= edit.start_line <= edit.end_line <= lines.len()
    &&& edit.start_character == 0 && edit.end_character == 0
    &&& forall|i: int|
        edit.start_line <= i < edit.end_line ==> is_output_line(#[trigger] lines[i], comment)
}

/// No edit takes away a line that is not output, or part of one.
pub proof fn law_edits_touch_only_output_lines(
    lines: Seq<Seq<char>>,
    comment: Seq<char>,
    shown: Map<int, Seq<char>>,
)
    ensures
        forall|e: EditView|
            #[trigger] edits_up_to(lines, comment, shown, lines.len() as int).contains(e)
                ==> covers_only_output(lines, comment, e),
{
    law_edits_are_accounted_for(lines, comment, shown);
    let edits = edits_up_to(lines, comment, shown, lines.len() as int);
    assert forall|e: EditView| #[trigger] edits.contains(e) implies covers_only_output(
        lines,
        comment,
        e,
    ) by {
        let line = choose|line: int|
            1 <= line <= lines.len() && #[trigger] edit_at(lines, comment, shown, line) == Some(e);
        lemma_block_is_output(lines, comment, line);
        lemma_block_end_bounds(lines, comment, line);
    }
}

/// Whether no output belongs to a line that is an output line below another line.
pub open spec fn on_code_lines(
    lines: Seq<Seq<char>>,
    comment: Seq<char>,
    shown: Map<int, Seq<char>>,
) -> bool {
    forall|line: int|
        1 < line <= lines.len() && #[trigger] shown.dom().contains(line) ==> !is_output_line(
            lines[line - 1],
            comment,
        )
}

/// Whether each edit starts before the ones behind it, and ends no later than they start.
pub open spec fn in_order(edits: Seq<EditView>) -> bool {
    &&& forall|i: int|
        0 <= i < edits.len() ==> (#[trigger] edits[i]).start_line <= edits[i].end_line
    &&& forall|i: int, j: int|
        0 <= i < j < edits.len() ==> (#[trigger] edits[i]).end_line <= (
        #[trigger] edits[j]).start_line && edits[i].start_line < edits[j].start_line
}

/// How many lines of the buffer the edits up to the line number `last` settle.
pub open spec fn settled(lines: Seq<Seq<char>>, comment: Seq<char>, last: int) -> int {
    if last <= 0 {
        0
    } else {
        block_end(lines, comment, last)
    }
}

/// The edits up to a line number keep within the lines that they settle.
pub proof fn lemma_edits_settle(
    lines: Seq<Seq<char>>,
    comment: Seq<char>,
    shown: Map<int, Seq<char>>,
    last: int,
)
    requires
        on_code_lines(lines, comment, shown),
        0 <= last <= lines.len(),
    ensures
        in_order(edits_up_to(lines, comment, shown, last)),
        forall|i: int|
            0 <= i < edits_up_to(lines, comment, shown, last).len() ==> 0 <= (
            #[trigger] edits_up_to(lines, comment, shown, last)[i]).start_line <= last
                && edits_up_to(lines, comment, shown, last)[i].end_line <= settled(
                lines,
                comment,
                last,
            ),
    decreases last,
{
    if last > 0 {
        lemma_edits_settle(lines, comment, shown, last - 1);
        lemma_block_end_bounds(lines, comment, last);
        if last > 1 && is_output_line(lines[last - 1], comment) {
            assert(edit_at(lines, comment, shown, last) is None);
        } else {
            assert(settled(lines, comment, last - 1) == last - 1);
        }
    }
}

/// The edits come in the order of the lines they replace, and no two of them overlap, as long as
/// no output belongs to a line that is output itself. The first line may be.
pub proof fn law_edits_do_not_overlap(
    lines: Seq<Seq<char>>,
    comment: Seq<char>,
    shown: Map<int, Seq<char>>,
)
    requires
        on_code_lines(lines, comment, shown),
    ensures
        in_order(edits_up_to(lines, comment, shown, lines.len() as int)),
{
    lemma_edits_settle(lines, comment, shown, lines.len() as int);
}

/// Whether the buffer shows every output, and has no block of output lines below another line but
/// those that show one.
pub open spec fn is_up_to_date(
    lines: Seq<Seq<char>>,
    comment: Seq<char>,
    shown: Map<int, Seq<char>>,
) -> bool {
    &&& forall|line: int|
        1 <= line <= lines.len() && #[trigger] shown.dom().contains(line) ==> output_edit(
            lines,
            comment,
            OutputView { line, text: shown[line] },
        ) is None
    &&& forall|start: int|
        #[trigger] starts_block(lines, comment, start) ==> shown.dom().contains(start)
}

proof fn lemma_no_edits(
    lines: Seq<Seq<char>>,
    comment: Seq<char>,
    shown: Map<int, Seq<char>>,
    last: int,
)
    requires
        is_up_to_date(lines, comment, shown),
        last <= lines.len(),
    ensures
        edits_up_to(lines, comment, shown, last) == Seq::<EditView>::empty(),
    decreases last,
{
    if last > 0 {
        lemma_no_edits(lines, comment, shown, last - 1);
    }
}

/// A buffer is left alone if and only if it is up to date.
pub proof fn law_up_to_date_buffer_is_kept(
    lines: Seq<Seq<char>>,
    comment: Seq<char>,
    shown: Map<int, Seq<char>>,
)
    ensures
        edits_up_to(lines, comment, shown, lines.len() as int) == Seq::<EditView>::empty()
            <==> is_up_to_date(lines, comment, shown),
{
    let edits = edits_up_to(lines, comment, shown, lines.len() as int);
    if is_up_to_date(lines, comment, shown) {
        lemma_no_edits(lines, comment, shown, lines.len() as int);
    } else {
        law_edits_are_accounted_for(lines, comment, shown);
        let line = if exists|line: int|
            1 <= line <= lines.len() && #[trigger] shown.dom().contains(line) && output_edit(
                lines,
                comment,
                OutputView { line, text: shown[line] },
            ) is Some {
            choose|line: int|
                1 <= line <= lines.len() && #[trigger] shown.dom().contains(line) && output_edit(
                    lines,
                    comment,
                    OutputView { line, text: shown[line] },
                ) is Some
        } else {
            choose|start: int|
                #[trigger] starts_block(lines, comment, start) && !shown.dom().contains(start)
        };
        if let Some(e) = edit_at(lines, comment, shown, line) {
            assert(is_below_a_line(lines, comment, shown, lines.len() as int, e));
            assert(edits.contains(e));
        } else {
            assert(false);
        }
    }
}

} // verus!
