//! What a buffer looks like once the edits to its output comments have been made.

use crate::comment_laws::{
    lemma_edits_settle, on_code_lines, settled,
};
use crate::comments::{
    block_end, edit_at, edits_up_to, is_output_line, lemma_block_end_bounds, starts_block,
};
use crate::protocol::EditView;
use vstd::prelude::*;

verus! {

/// The text of the first `to` lines, after edits in order that replace whole lines among them.
pub open spec fn edited(lines: Seq<Seq<char>>, edits: Seq<EditView>, to: int) -> Seq<char>
    decreases edits.len(),
{
    if edits.len() == 0 {
        lines.take(to).flatten()
    } else {
        edited(lines, edits.drop_last(), edits.last().start_line) + edits.last().new_text
            + lines.subrange(edits.last().end_line, to).flatten()
    }
}

/// What is to become of the line number `line`: it stays unless it is an output line below another
/// line, and what is to be shown of its output follows right behind it.
pub open spec fn updated_line(
    lines: Seq<Seq<char>>,
    comment: Seq<char>,
    shown: Map<int, Seq<char>>,
    line: int,
) -> Seq<char> {
    let kept = if line > 1 && is_output_line(lines[line - 1], comment) {
        Seq::empty()
    } else {
        lines[line - 1]
    };
    if shown.dom().contains(line) {
        kept + shown[line]
    } else {
        kept
    }
}

/// What is to become of the lines behind the first `from`, up to and including the line number
/// `to`.
pub open spec fn updated(
    lines: Seq<Seq<char>>,
    comment: Seq<char>,
    shown: Map<int, Seq<char>>,
    from: int,
    to: int,
) -> Seq<char>
    decreases to - from,
{
    if to <= from {
        Seq::empty()
    } else {
        updated(lines, comment, shown, from, to - 1) + updated_line(lines, comment, shown, to)
    }
}

proof fn lemma_flatten_cut(lines: Seq<Seq<char>>, from: int, mid: int, to: int)
    requires
        0 <= from <= mid <= to <= lines.len(),
    ensures
        lines.subrange(from, to).flatten() == lines.subrange(from, mid).flatten()
            + lines.subrange(mid, to).flatten(),
    decreases to - mid,
{
    if mid == to {
        assert(lines.subrange(mid, to).flatten() =~= Seq::<char>::empty());
        assert(lines.subrange(from, mid).flatten() + Seq::<char>::empty() =~= lines.subrange(
            from,
            mid,
        ).flatten());
    } else {
        lemma_flatten_cut(lines, from, mid, to - 1);
        lines.subrange(from, to - 1).lemma_flatten_push(lines[to - 1]);
        lines.subrange(mid, to - 1).lemma_flatten_push(lines[to - 1]);
        assert(lines.subrange(from, to) =~= lines.subrange(from, to - 1).push(lines[to - 1]));
        assert(lines.subrange(mid, to) =~= lines.subrange(mid, to - 1).push(lines[to - 1]));
        assert(lines.subrange(from, to).flatten() =~= lines.subrange(from, mid).flatten()
            + lines.subrange(mid, to).flatten());
    }
}

/// Lines behind all edits are kept.
proof fn lemma_edited_further(
    lines: Seq<Seq<char>>,
    edits: Seq<EditView>,
    to: int,
    further: int,
)
    requires
        0 <= to <= further <= lines.len(),
        edits.len() > 0 ==> 0 <= edits.last().end_line <= to,
    ensures
        edited(lines, edits, further) == edited(lines, edits, to) + lines.subrange(
            to,
            further,
        ).flatten(),
{
    if edits.len() == 0 {
        lemma_flatten_cut(lines, 0, to, further);
        assert(lines.take(to) =~= lines.subrange(0, to));
        assert(lines.take(further) =~= lines.subrange(0, further));
    } else {
        lemma_flatten_cut(lines, edits.last().end_line, to, further);
        assert(edited(lines, edits, further) =~= edited(lines, edits, to) + lines.subrange(
            to,
            further,
        ).flatten());
    }
}

proof fn lemma_edited_up_to(
    lines: Seq<Seq<char>>,
    comment: Seq<char>,
    shown: Map<int, Seq<char>>,
    last: int,
)
    requires
        on_code_lines(lines, comment, shown),
        0 <= last <= lines.len(),
    ensures
        edited(
            lines,
            edits_up_to(lines, comment, shown, last),
            settled(lines, comment, last),
        ) == updated(lines, comment, shown, 0, last),
    decreases last,
{
    let edits = edits_up_to(lines, comment, shown, last);
    if last == 0 {
        assert(lines.take(0).flatten() =~= Seq::<char>::empty());
    } else {
        let before = edits_up_to(lines, comment, shown, last - 1);
        let front = updated(lines, comment, shown, 0, last - 1);
        let end = block_end(lines, comment, last);
        lemma_edited_up_to(lines, comment, shown, last - 1);
        lemma_edits_settle(lines, comment, shown, last - 1);
        lemma_block_end_bounds(lines, comment, last);
        if last > 1 && is_output_line(lines[last - 1], comment) {
            assert(edit_at(lines, comment, shown, last) is None);
            assert(front + Seq::<char>::empty() =~= front);
        } else {
            let line = lines[last - 1];
            assert(settled(lines, comment, last - 1) == last - 1);
            if before.len() > 0 {
                assert(before.last() == before[before.len() - 1]);
            }
            lemma_edited_further(lines, before, last - 1, last);
            assert(lines.subrange(last - 1, last) =~= seq![line]);
            seq![line].lemma_flatten_one_element();
            assert(edited(lines, before, last) == front + line);
            if let Some(e) = edit_at(lines, comment, shown, last) {
                assert(edits.drop_last() =~= before);
                assert(lines.subrange(end, end).flatten() =~= Seq::<char>::empty());
                assert(edited(lines, edits, end) =~= front + updated_line(
                    lines,
                    comment,
                    shown,
                    last,
                ));
            } else {
                lemma_edited_further(lines, before, last, end);
                assert(!starts_block(lines, comment, last) || shown.dom().contains(last));
                if !shown.dom().contains(last) {
                    assert(end == last);
                    assert(lines.subrange(last, end).flatten() =~= Seq::<char>::empty());
                }
                assert(edited(lines, edits, end) =~= front + updated_line(
                    lines,
                    comment,
                    shown,
                    last,
                ));
            }
        }
    }
}

/// Once the edits have been made, the buffer says what it is to say: every line is still there but
/// the output lines, which are gone, and right behind each line follows what is shown of its
/// output.
pub proof fn law_edits_update_the_text(
    lines: Seq<Seq<char>>,
    comment: Seq<char>,
    shown: Map<int, Seq<char>>,
)
    requires
        on_code_lines(lines, comment, shown),
    ensures
        edited(
            lines,
            edits_up_to(lines, comment, shown, lines.len() as int),
            lines.len() as int,
        ) == updated(lines, comment, shown, 0, lines.len() as int),
{
    let count = lines.len() as int;
    lemma_edited_up_to(lines, comment, shown, count);
}

proof fn lemma_updated_cut(
    lines: Seq<Seq<char>>,
    comment: Seq<char>,
    shown: Map<int, Seq<char>>,
    from: int,
    mid: int,
    to: int,
)
    requires
        from <= mid <= to,
    ensures
        updated(lines, comment, shown, from, to) == updated(lines, comment, shown, from, mid)
            + updated(lines, comment, shown, mid, to),
    decreases to - mid,
{
    let front = updated(lines, comment, shown, from, mid);
    if mid == to {
        assert(front + Seq::<char>::empty() =~= front);
    } else {
        lemma_updated_cut(lines, comment, shown, from, mid, to - 1);
        assert(updated(lines, comment, shown, from, to) =~= front + updated(
            lines,
            comment,
            shown,
            mid,
            to,
        ));
    }
}

/// Once the edits have been made, every output is shown, and nothing else, right behind the line it
/// belongs to: what precedes the line is what became of the lines before it, then come the line
/// and the output, and then what became of the lines behind it. Where the line does not end in a
/// line break, the output goes on on the same line.
pub proof fn law_every_output_is_shown(
    lines: Seq<Seq<char>>,
    comment: Seq<char>,
    shown: Map<int, Seq<char>>,
    line: int,
)
    requires
        on_code_lines(lines, comment, shown),
        1 <= line <= lines.len(),
        shown.dom().contains(line),
    ensures
        edited(
            lines,
            edits_up_to(lines, comment, shown, lines.len() as int),
            lines.len() as int,
        ) == updated(lines, comment, shown, 0, line - 1) + lines[line - 1] + shown[line] + updated(
            lines,
            comment,
            shown,
            line,
            lines.len() as int,
        ),
{
    let count = lines.len() as int;
    law_edits_update_the_text(lines, comment, shown);
    lemma_updated_cut(lines, comment, shown, 0, line, count);
    assert(updated(lines, comment, shown, 0, count) =~= updated(lines, comment, shown, 0, line - 1)
        + lines[line - 1] + shown[line] + updated(lines, comment, shown, line, count));
}

} // verus!
