//! What a second update asks for, once the edits of the first one have been made.

use crate::comment_laws::{is_up_to_date, on_code_lines};
use crate::comments::{
    block_end, is_output_line, lemma_block_end_bounds, output_edit, skip_blanks, starts_block,
    OutputView,
};
use crate::line_laws::{
    are_lines, joins, law_lines_make_up_the_text, law_lines_of_joined_texts, lemma_are_lines,
    lemma_lines_of_lines,
};
use crate::rope::{ends_in_break, first_line_len, is_line_break, lines_of};
use crate::settled_laws::{joins_breaks, lemma_block_end_is};
use crate::shown_laws::{updated, updated_line};
use vstd::prelude::*;

verus! {

/// Whether `line` is an output line of its own, as it is written below another line.
pub open spec fn is_written(line: Seq<char>, comment: Seq<char>) -> bool {
    &&& is_output_line(line, comment)
    &&& first_line_len(line) == line.len()
    &&& line.len() > 0
    &&& line[0] != '\n'
    &&& line.last() == '\n'
}

/// Whether the lines of `block` are output lines of their own.
pub open spec fn are_written(block: Seq<Seq<char>>, comment: Seq<char>) -> bool {
    forall|k: int| 0 <= k < block.len() ==> is_written(#[trigger] block[k], comment)
}

/// Whether output lines are written only below lines that end in a line break, and are output lines
/// of their own.
pub open spec fn can_be_told(
    lines: Seq<Seq<char>>,
    comment: Seq<char>,
    written: Map<int, Seq<Seq<char>>>,
) -> bool {
    forall|line: int|
        1 <= line <= lines.len() && #[trigger] written.dom().contains(line) ==> are_written(
            written[line],
            comment,
        ) && (written[line].len() > 0 ==> ends_in_break(lines[line - 1]))
}

/// Whether no line break comes about where a block of output lines goes and nothing is written.
pub open spec fn breaks_stay(
    lines: Seq<Seq<char>>,
    comment: Seq<char>,
    written: Map<int, Seq<Seq<char>>>,
) -> bool {
    forall|start: int|
        #[trigger] starts_block(lines, comment, start) && (written.dom().contains(start)
            ==> written[start].len() == 0) ==> !joins_breaks(lines, comment, start)
}

/// What becomes of the lines up to and including the line number `last`: all of them stay but the
/// output lines below another line, and behind each come the lines that are `written` below it.
pub open spec fn lines_after(
    lines: Seq<Seq<char>>,
    comment: Seq<char>,
    written: Map<int, Seq<Seq<char>>>,
    last: int,
) -> Seq<Seq<char>>
    decreases last,
{
    if last <= 0 {
        Seq::empty()
    } else {
        let before = lines_after(lines, comment, written, last - 1);
        let kept = if last > 1 && is_output_line(lines[last - 1], comment) {
            before
        } else {
            before.push(lines[last - 1])
        };
        if written.dom().contains(last) {
            kept + written[last]
        } else {
            kept
        }
    }
}

/// The number that the line number `line` has afterwards.
pub open spec fn moved_to(
    lines: Seq<Seq<char>>,
    comment: Seq<char>,
    written: Map<int, Seq<Seq<char>>>,
    line: int,
) -> int {
    lines_after(lines, comment, written, line - 1).len() as int + 1
}

/// Whether `shown` is what the lines `written` say.
pub open spec fn says(shown: Map<int, Seq<char>>, written: Map<int, Seq<Seq<char>>>) -> bool {
    &&& forall|line: int|
        #[trigger] shown.dom().contains(line) <==> written.dom().contains(line)
    &&& forall|line: int|
        #[trigger] shown.dom().contains(line) ==> shown[line] == written[line].flatten()
}

proof fn lemma_flatten_join(a: Seq<Seq<char>>, b: Seq<Seq<char>>)
    ensures
        (a + b).flatten() == a.flatten() + b.flatten(),
    decreases b.len(),
{
    if b.len() == 0 {
        assert(a + b =~= a);
        assert(b.flatten() =~= Seq::<char>::empty());
        assert(a.flatten() + b.flatten() =~= a.flatten());
    } else {
        let rest = b.drop_last();
        lemma_flatten_join(a, rest);
        (a + rest).lemma_flatten_push(b.last());
        rest.lemma_flatten_push(b.last());
        assert(a + b =~= (a + rest).push(b.last()));
        assert(b =~= rest.push(b.last()));
        assert((a + b).flatten() =~= a.flatten() + b.flatten());
    }
}

proof fn lemma_text_after(
    lines: Seq<Seq<char>>,
    comment: Seq<char>,
    shown: Map<int, Seq<char>>,
    written: Map<int, Seq<Seq<char>>>,
    last: int,
)
    requires
        says(shown, written),
    ensures
        lines_after(lines, comment, written, last).flatten() == updated(
            lines,
            comment,
            shown,
            0,
            last,
        ),
    decreases last,
{
    if last <= 0 {
        assert(lines_after(lines, comment, written, last).flatten() =~= Seq::<char>::empty());
    } else {
        let before = lines_after(lines, comment, written, last - 1);
        let kept = if last > 1 && is_output_line(lines[last - 1], comment) {
            before
        } else {
            before.push(lines[last - 1])
        };
        lemma_text_after(lines, comment, shown, written, last - 1);
        before.lemma_flatten_push(lines[last - 1]);
        assert(shown.dom().contains(last) <==> written.dom().contains(last));
        if written.dom().contains(last) {
            lemma_flatten_join(kept, written[last]);
        }
        assert(lines_after(lines, comment, written, last).flatten() =~= updated(
            lines,
            comment,
            shown,
            0,
            last - 1,
        ) + updated_line(lines, comment, shown, last));
    }
}

/// Whether the lines so far can be followed by the next line that stays.
spec fn can_go_on(
    lines: Seq<Seq<char>>,
    comment: Seq<char>,
    so_far: Seq<Seq<char>>,
    last: int,
) -> bool {
    let end = block_end(lines, comment, last);
    end < lines.len() ==> ends_in_break(so_far.last()) && !joins(so_far.last(), lines[end])
}

proof fn lemma_append_written(
    list: Seq<Seq<char>>,
    comment: Seq<char>,
    more: Seq<Seq<char>>,
)
    requires
        list.len() > 0,
        are_lines(list),
        more.len() > 0 ==> ends_in_break(list.last()),
        are_written(more, comment),
    ensures
        are_lines(list + more),
{
    let all = list + more;
    let n = list.len() as int;
    assert forall|i: int| 0 <= i < all.len() implies first_line_len(#[trigger] all[i])
        == all[i].len() && (i < all.len() - 1 ==> ends_in_break(all[i])) by {
        if i < n {
            assert(all[i] == list[i]);
        } else {
            assert(all[i] == more[i - n]);
        }
    }
    assert forall|i: int, j: int| 0 <= i && j == i + 1 && j < all.len() implies !joins(
        #[trigger] all[i],
        #[trigger] all[j],
    ) by {
        if j < n {
            assert(all[i] == list[i] && all[j] == list[j]);
        } else {
            assert(all[j] == more[j - n]);
        }
    }
}

proof fn lemma_lines_stay_lines(
    lines: Seq<Seq<char>>,
    comment: Seq<char>,
    written: Map<int, Seq<Seq<char>>>,
    last: int,
)
    requires
        are_lines(lines),
        forall|i: int| 0 <= i < lines.len() - 1 ==> ends_in_break(#[trigger] lines[i]),
        forall|line: int|
            1 < line <= lines.len() && #[trigger] written.dom().contains(line) ==> !is_output_line(
                lines[line - 1],
                comment,
            ),
        can_be_told(lines, comment, written),
        breaks_stay(lines, comment, written),
        1 <= last <= lines.len(),
    ensures
        lines_after(lines, comment, written, last).len() > 0,
        are_lines(lines_after(lines, comment, written, last)),
        can_go_on(lines, comment, lines_after(lines, comment, written, last), last),
    decreases last,
{
    let before = lines_after(lines, comment, written, last - 1);
    let all = lines_after(lines, comment, written, last);
    let end = block_end(lines, comment, last);
    lemma_block_end_bounds(lines, comment, last);
    if last > 1 {
        lemma_lines_stay_lines(lines, comment, written, last - 1);
    }
    if last > 1 && is_output_line(lines[last - 1], comment) {
        assert(all == before);
        assert(block_end(lines, comment, last - 1) == end);
    } else {
        let kept = before.push(lines[last - 1]);
        assert(are_lines(kept)) by {
            assert forall|i: int| 0 <= i < kept.len() implies first_line_len(#[trigger] kept[i])
                == kept[i].len() && (i < kept.len() - 1 ==> ends_in_break(kept[i])) by {
                if i < before.len() {
                    assert(kept[i] == before[i]);
                    if i == before.len() - 1 {
                        assert(before.last() == before[i]);
                    }
                }
            }
            assert forall|i: int, j: int| 0 <= i && j == i + 1 && j < kept.len() implies !joins(
                #[trigger] kept[i],
                #[trigger] kept[j],
            ) by {
                assert(kept[i] == before[i]);
                if j < before.len() {
                    assert(kept[j] == before[j]);
                } else {
                    assert(before.last() == before[i]);
                    assert(block_end(lines, comment, last - 1) == last - 1);
                }
            }
        }
        let more = if written.dom().contains(last) {
            written[last]
        } else {
            Seq::empty()
        };
        assert(all =~= kept + more);
        assert(are_written(more, comment));
        if more.len() > 0 {
            assert(is_written(more[0], comment));
            assert(is_written(more[more.len() - 1], comment));
            assert(all.last() == more[more.len() - 1]);
        } else {
            assert(all.last() == lines[last - 1]);
        }
        lemma_append_written(kept, comment, more);
        if end < lines.len() && more.len() == 0 {
            assert(ends_in_break(lines[last - 1]));
            if end == last {
                assert(!joins(lines[last - 1], lines[last]));
            } else {
                assert(starts_block(lines, comment, last));
                assert(!joins_breaks(lines, comment, last));
            }
        }
    }
}

/// Whether the lines written below the line number `line` stand in `now` from `at` on, with that
/// line above them and no further output line below them.
spec fn stands(
    now: Seq<Seq<char>>,
    comment: Seq<char>,
    line: Seq<char>,
    block: Seq<Seq<char>>,
    at: int,
) -> bool {
    &&& 1 <= at <= at + block.len() <= now.len()
    &&& now[at - 1] == line
    &&& now.subrange(at, at + block.len()) == block
    &&& at + block.len() < now.len() ==> !is_output_line(now[at + block.len()], comment)
}

/// Whether the line at `m` is one of those written below the line number `line`.
spec fn is_among(
    lines: Seq<Seq<char>>,
    comment: Seq<char>,
    written: Map<int, Seq<Seq<char>>>,
    line: int,
    m: int,
) -> bool {
    let at = moved_to(lines, comment, written, line);
    written.dom().contains(line) && at <= m < at + written[line].len()
}

proof fn lemma_written_stand(
    lines: Seq<Seq<char>>,
    comment: Seq<char>,
    written: Map<int, Seq<Seq<char>>>,
    last: int,
)
    requires
        forall|line: int|
            1 < line <= lines.len() && #[trigger] written.dom().contains(line) ==> !is_output_line(
                lines[line - 1],
                comment,
            ),
        0 <= last <= lines.len(),
    ensures
        last > 0 ==> lines_after(lines, comment, written, last).len() > 0,
        forall|line: int|
            1 <= line <= last && #[trigger] written.dom().contains(line) ==> stands(
                lines_after(lines, comment, written, last),
                comment,
                lines[line - 1],
                written[line],
                moved_to(lines, comment, written, line),
            ),
        forall|m: int|
            1 <= m < lines_after(lines, comment, written, last).len() && is_output_line(
                #[trigger] lines_after(lines, comment, written, last)[m],
                comment,
            ) ==> exists|line: int|
                1 <= line <= last && #[trigger] is_among(lines, comment, written, line, m),
    decreases last,
{
    if last > 0 {
        lemma_written_stand(lines, comment, written, last - 1);
        let before = lines_after(lines, comment, written, last - 1);
        let now = lines_after(lines, comment, written, last);
        let n = before.len() as int;
        let gone = last > 1 && is_output_line(lines[last - 1], comment);
        if gone {
            assert(!written.dom().contains(last));
            assert(now == before);
        } else {
            assert(forall|m: int| 0 <= m < n ==> #[trigger] now[m] == before[m]);
            assert(now[n] == lines[last - 1]);
        }
        assert forall|line: int| 1 <= line <= last && #[trigger]
            written.dom().contains(line) implies stands(
            now,
            comment,
            lines[line - 1],
            written[line],
            moved_to(lines, comment, written, line),
        ) by {
            let at = moved_to(lines, comment, written, line);
            if line < last {
                assert(stands(before, comment, lines[line - 1], written[line], at));
                assert(now.subrange(at, at + written[line].len()) =~= before.subrange(
                    at,
                    at + written[line].len(),
                ));
            } else {
                assert(now.subrange(at, at + written[line].len()) =~= written[line]);
            }
        }
        assert forall|m: int| 1 <= m < now.len() && is_output_line(
            #[trigger] now[m],
            comment,
        ) implies exists|line: int|
            1 <= line <= last && #[trigger] is_among(lines, comment, written, line, m) by {
            if m < n {
                assert(now[m] == before[m]);
                let line = choose|line: int|
                    1 <= line <= last - 1 && #[trigger] is_among(lines, comment, written, line, m);
                assert(is_among(lines, comment, written, line, m));
            } else {
                assert(is_among(lines, comment, written, last, m));
            }
        }
    }
}

/// Whether `moved` shows what `shown` shows, at the numbers that the lines have afterwards.
pub open spec fn is_moved(
    lines: Seq<Seq<char>>,
    comment: Seq<char>,
    shown: Map<int, Seq<char>>,
    written: Map<int, Seq<Seq<char>>>,
    moved: Map<int, Seq<char>>,
) -> bool {
    &&& forall|line: int|
        1 <= line <= lines.len() && #[trigger] shown.dom().contains(line) ==> moved.dom().contains(
            moved_to(lines, comment, written, line),
        )
    &&& forall|m: int|
        #[trigger] moved.dom().contains(m) ==> exists|line: int|
            1 <= line <= lines.len() && #[trigger] shown.dom().contains(line) && m == moved_to(
                lines,
                comment,
                written,
                line,
            ) && moved[m] == shown[line]
}

/// What becomes of the lines of a text are the lines of what becomes of the text.
pub proof fn lemma_lines_of_updated(
    text: Seq<char>,
    comment: Seq<char>,
    shown: Map<int, Seq<char>>,
    written: Map<int, Seq<Seq<char>>>,
)
    requires
        on_code_lines(lines_of(text), comment, shown),
        says(shown, written),
        can_be_told(lines_of(text), comment, written),
        breaks_stay(lines_of(text), comment, written),
    ensures
        ({
            let lines = lines_of(text);
            let after = lines_after(lines, comment, written, lines.len() as int);
            lines_of(updated(lines, comment, shown, 0, lines.len() as int)) == if ends_in_break(
                after.last(),
            ) {
                after.push(Seq::empty())
            } else {
                after
            }
        }),
{
    let lines = lines_of(text);
    let count = lines.len() as int;
    law_lines_make_up_the_text(text);
    lemma_are_lines(text);
    assert forall|line: int| 1 < line <= lines.len() && #[trigger]
        written.dom().contains(line) implies !is_output_line(lines[line - 1], comment) by {
        assert(shown.dom().contains(line));
    }
    lemma_lines_stay_lines(lines, comment, written, count);
    lemma_lines_of_lines(lines_after(lines, comment, written, count));
    lemma_text_after(lines, comment, shown, written, count);
}

/// A line with output is found at the number that it has moved to.
pub proof fn lemma_moved_line(
    text: Seq<char>,
    comment: Seq<char>,
    shown: Map<int, Seq<char>>,
    written: Map<int, Seq<Seq<char>>>,
    line: int,
)
    requires
        on_code_lines(lines_of(text), comment, shown),
        says(shown, written),
        can_be_told(lines_of(text), comment, written),
        breaks_stay(lines_of(text), comment, written),
        1 <= line <= lines_of(text).len(),
        shown.dom().contains(line),
    ensures
        ({
            let lines = lines_of(text);
            let now = lines_of(updated(lines, comment, shown, 0, lines.len() as int));
            let m = moved_to(lines, comment, written, line);
            1 <= m <= now.len() && now[m - 1] == lines[line - 1]
        }),
{
    let lines = lines_of(text);
    let count = lines.len() as int;
    let m = moved_to(lines, comment, written, line);
    lemma_lines_of_updated(text, comment, shown, written);
    assert forall|line: int| 1 < line <= lines.len() && #[trigger]
        written.dom().contains(line) implies !is_output_line(lines[line - 1], comment) by {
        assert(shown.dom().contains(line));
    }
    lemma_written_stand(lines, comment, written, count);
    assert(written.dom().contains(line));
    assert(stands(
        lines_after(lines, comment, written, count),
        comment,
        lines[line - 1],
        written[line],
        m,
    ));
}

/// The lines from `from` up to, but not including, `to` that are not output.
spec fn code_lines(lines: Seq<Seq<char>>, comment: Seq<char>, from: int, to: int) -> Seq<Seq<char>>
    decreases to - from,
{
    if to <= from {
        Seq::empty()
    } else {
        let before = code_lines(lines, comment, from, to - 1);
        if is_output_line(lines[to - 1], comment) {
            before
        } else {
            before.push(lines[to - 1])
        }
    }
}

/// Whether each text of a list is one line that is not output, and all but the last end in a line
/// break.
spec fn are_code(list: Seq<Seq<char>>, comment: Seq<char>) -> bool {
    forall|i: int|
        0 <= i < list.len() ==> first_line_len(#[trigger] list[i]) == list[i].len() && (i
            < list.len() - 1 ==> ends_in_break(list[i])) && !is_output_line(list[i], comment)
}

/// Whether none of the lines of a list from `from` on is output.
pub open spec fn no_output_from(
    list: Seq<Seq<char>>,
    comment: Seq<char>,
    from: int,
) -> bool {
    forall|i: int| from <= i < list.len() ==> !is_output_line(#[trigger] list[i], comment)
}

proof fn lemma_code_lines(
    lines: Seq<Seq<char>>,
    comment: Seq<char>,
    from: int,
    to: int,
)
    requires
        are_lines(lines),
        0 <= from <= to <= lines.len(),
    ensures
        are_code(code_lines(lines, comment, from, to), comment),
        to < lines.len() ==> forall|i: int|
            0 <= i < code_lines(lines, comment, from, to).len() ==> ends_in_break(
                #[trigger] code_lines(lines, comment, from, to)[i],
            ),
    decreases to - from,
{
    if from < to {
        lemma_code_lines(lines, comment, from, to - 1);
    }
}

/// Where only one line has output, and no output lines stand before it, the lines up to it stay,
/// the output comes behind it, and of the lines behind it those that are not output stay.
proof fn lemma_lines_after_one_output(
    lines: Seq<Seq<char>>,
    comment: Seq<char>,
    written: Map<int, Seq<Seq<char>>>,
    line: int,
    last: int,
)
    requires
        1 <= line <= lines.len(),
        0 <= last <= lines.len(),
        forall|l: int|
            1 <= l <= lines.len() ==> (#[trigger] written.dom().contains(l) <==> l == line),
        forall|i: int| 1 <= i < line ==> !is_output_line(#[trigger] lines[i], comment),
    ensures
        last < line ==> lines_after(lines, comment, written, last) == lines.take(last),
        last >= line ==> lines_after(lines, comment, written, last) == lines.take(line)
            + written[line] + code_lines(lines, comment, line, last),
    decreases last,
{
    if last > 0 {
        lemma_lines_after_one_output(lines, comment, written, line, last - 1);
        let after = lines_after(lines, comment, written, last);
        assert(written.dom().contains(last) <==> last == line);
        assert(lines.take(last) =~= lines.take(last - 1).push(lines[last - 1]));
        if last <= line {
            if last > 1 {
                assert(!is_output_line(lines[last - 1], comment));
            }
            if last == line {
                assert(after =~= lines.take(line) + written[line] + code_lines(
                    lines,
                    comment,
                    line,
                    last,
                ));
            }
        } else {
            assert(after =~= lines.take(line) + written[line] + code_lines(
                lines,
                comment,
                line,
                last,
            ));
        }
    } else {
        assert(lines.take(0) =~= Seq::<Seq<char>>::empty());
    }
}

/// A carriage return at the end of a line goes with the line feed behind it.
proof fn lemma_joined_line(line: Seq<char>)
    requires
        first_line_len(line) == line.len(),
        line.len() > 0,
        line.last() == '\r',
    ensures
        first_line_len(line.push('\n')) == line.len() + 1,
    decreases line.len(),
{
    let joined = line.push('\n');
    assert(joined[0] == line[0]);
    if line.len() > 1 {
        assert(joined[1] == line[1]);
        if !is_line_break(line[0]) {
            assert(joined.skip(1) =~= line.skip(1).push('\n'));
            lemma_joined_line(line.skip(1));
        }
    }
}

/// A line feed behind a line without blanks at its end does not make it output.
proof fn lemma_joined_is_no_output(line: Seq<char>, comment: Seq<char>)
    requires
        line.len() > 0,
        line.last() == '\r',
        !is_output_line(line, comment),
    ensures
        !is_output_line(line.push('\n'), comment),
{
    let joined = line.push('\n');
    let marker = comment.push('>');
    lemma_skip_blanks_push(line);
    let rest = skip_blanks(line);
    let more = skip_blanks(joined);
    if marker.is_prefix_of(more) {
        assert(more.subrange(0, marker.len() as int) =~= marker);
        assert(marker.last() == more[marker.len() - 1]);
        assert(marker.len() <= rest.len());
        assert(rest.subrange(0, marker.len() as int) =~= marker);
    }
}

proof fn lemma_skip_blanks_push(line: Seq<char>)
    requires
        line.len() > 0,
        line.last() == '\r',
    ensures
        skip_blanks(line.push('\n')) == skip_blanks(line).push('\n'),
    decreases line.len(),
{
    let joined = line.push('\n');
    assert(joined[0] == line[0]);
    if line[0] == ' ' || line[0] == '\t' {
        assert(line.len() > 1);
        assert(joined.skip(1) =~= line.skip(1).push('\n'));
        lemma_skip_blanks_push(line.skip(1));
    }
}

/// A line of its own that starts with a line feed holds nothing else.
proof fn lemma_line_feed(line: Seq<char>)
    requires
        first_line_len(line) == line.len(),
        line.len() > 0,
        line[0] == '\n',
    ensures
        line == seq!['\n'],
{
    assert(line.len() == 1);
    assert(line =~= seq!['\n']);
}

/// Where lines that are not output come together, no output line comes about, whatever line breaks
/// join.
proof fn lemma_code_makes_no_output(list: Seq<Seq<char>>, comment: Seq<char>)
    requires
        are_code(list, comment),
    ensures
        no_output_from(lines_of(list.flatten()), comment, 0),
    decreases list.len(),
{
    let text = list.flatten();
    assert(!is_output_line(Seq::empty(), comment));
    if list.len() == 0 {
        assert(text =~= Seq::<char>::empty());
        assert(lines_of(text) =~= seq![Seq::<char>::empty()]);
    } else if list.len() == 1 {
        assert(list =~= seq![list[0]]);
        assert(are_lines(list));
        lemma_lines_of_lines(list);
    } else {
        let head = list[0];
        let rest = list.drop_first();
        assert(forall|i: int| 0 <= i < rest.len() ==> #[trigger] rest[i] == list[i + 1]);
        assert(text == head + rest.flatten());
        assert(rest.flatten() == rest[0] + rest.drop_first().flatten());
        if joins(head, rest[0]) {
            lemma_line_feed(rest[0]);
            lemma_joined_line(head);
            lemma_joined_is_no_output(head, comment);
            let joined = head.push('\n');
            let shorter = seq![joined] + rest.drop_first();
            assert(forall|i: int|
                1 <= i < shorter.len() ==> #[trigger] shorter[i] == list[i + 1]);
            assert(shorter[0] == joined);
            assert(are_code(shorter, comment));
            assert(shorter.drop_first() =~= rest.drop_first());
            assert(shorter.flatten() == joined + rest.drop_first().flatten());
            assert(joined =~= head + rest[0]);
            assert(shorter.flatten() =~= text);
            lemma_code_makes_no_output(shorter, comment);
        } else {
            lemma_code_makes_no_output(rest, comment);
            if rest[0].len() > 0 {
                assert(rest.flatten()[0] == rest[0][0]);
            } else {
                assert(rest.len() == 1);
                assert(rest.drop_first() =~= Seq::<Seq<char>>::empty());
            }
            lemma_cut_off(seq![head], rest.flatten());
            seq![head].lemma_flatten_one_element();
            let now = lines_of(text);
            assert(now == seq![head] + lines_of(rest.flatten()));
            assert forall|i: int| 0 <= i < now.len() implies !is_output_line(
                #[trigger] now[i],
                comment,
            ) by {
                if i > 0 {
                    assert(now[i] == lines_of(rest.flatten())[i - 1]);
                }
            }
        }
    }
}

/// Lines that end in a line break are cut off from the text behind them, unless line breaks join.
proof fn lemma_cut_off(list: Seq<Seq<char>>, more: Seq<char>)
    requires
        list.len() > 0,
        are_lines(list),
        ends_in_break(list.last()),
        !joins(list.last(), more),
    ensures
        lines_of(list.flatten() + more) == list + lines_of(more),
{
    let text = list.flatten();
    lemma_lines_of_lines(list);
    assert(list =~= list.drop_last().push(list.last()));
    list.drop_last().lemma_flatten_push(list.last());
    assert(text.last() == list.last().last());
    law_lines_of_joined_texts(text, more);
    assert(lines_of(text).drop_last() =~= list);
}

/// Whether a buffer shows the lines of `block`, and no other output, below the line number `line`.
pub open spec fn shows_only(
    now: Seq<Seq<char>>,
    comment: Seq<char>,
    line: int,
    block: Seq<Seq<char>>,
) -> bool {
    &&& line + block.len() <= now.len()
    &&& now.subrange(line, line + block.len()) == block
    &&& forall|i: int| 1 <= i < line ==> !is_output_line(#[trigger] now[i], comment)
    &&& no_output_from(now, comment, line + block.len())
}

/// Where only one line has output, and no output lines stand before it, the updated text shows this
/// output and no other, below a line with the same number. The line stays the same where there is
/// something to show.
pub proof fn lemma_one_output_is_shown(
    text: Seq<char>,
    comment: Seq<char>,
    shown: Map<int, Seq<char>>,
    written: Map<int, Seq<Seq<char>>>,
    line: int,
)
    requires
        says(shown, written),
        can_be_told(lines_of(text), comment, written),
        1 <= line <= lines_of(text).len(),
        forall|l: int|
            1 <= l <= lines_of(text).len() ==> (#[trigger] shown.dom().contains(l) <==> l == line),
        forall|i: int| 1 <= i < line ==> !is_output_line(#[trigger] lines_of(text)[i], comment),
    ensures
        ({
            let lines = lines_of(text);
            let now = lines_of(updated(lines, comment, shown, 0, lines.len() as int));
            &&& shows_only(now, comment, line, written[line])
            &&& written[line].len() > 0 ==> now[line - 1] == lines[line - 1]
        }),
{
    let lines = lines_of(text);
    let count = lines.len() as int;
    let block = written[line];
    let front = lines.take(line);
    let code = code_lines(lines, comment, line, count);
    let more = code.flatten();
    let after = updated(lines, comment, shown, 0, count);
    let now = lines_of(after);
    law_lines_make_up_the_text(text);
    lemma_are_lines(text);
    assert forall|l: int| 1 <= l <= lines.len() implies (#[trigger] written.dom().contains(l)
        <==> l == line) by {
        assert(shown.dom().contains(l) <==> l == line);
    }
    assert(written.dom().contains(line));
    lemma_lines_after_one_output(lines, comment, written, line, count);
    lemma_text_after(lines, comment, shown, written, count);
    lemma_flatten_join(front + block, code);
    assert(after == (front + block).flatten() + more);
    lemma_code_lines(lines, comment, line, count);
    lemma_code_makes_no_output(code, comment);
    assert(are_lines(front)) by {
        assert(forall|i: int| 0 <= i < line ==> #[trigger] front[i] == lines[i]);
    }
    assert(front.last() == lines[line - 1]);
    if block.len() > 0 {
        let list = front + block;
        lemma_append_written(front, comment, block);
        assert(list.last() == block[block.len() - 1]);
        assert(is_written(block[block.len() - 1], comment));
        lemma_cut_off(list, more);
        assert(now.subrange(line, line + block.len()) =~= block);
        assert forall|i: int| 1 <= i < line implies !is_output_line(#[trigger] now[i], comment) by {
            assert(now[i] == lines[i]);
        }
        assert forall|i: int| line + block.len() <= i < now.len() implies !is_output_line(
            #[trigger] now[i],
            comment,
        ) by {
            assert(now[i] == lines_of(more)[i - line - block.len()]);
        }
        assert(now[line - 1] == lines[line - 1]);
    } else {
        assert(front + block =~= front);
        if line == count {
            assert(code =~= Seq::<Seq<char>>::empty());
            assert(more =~= Seq::<char>::empty());
            assert(front =~= lines);
            assert(after =~= text);
            assert(now.subrange(line, line) =~= block);
        } else if joins(lines[line - 1], more) {
            assert(code.len() > 0) by {
                if code.len() == 0 {
                    assert(more =~= Seq::<char>::empty());
                }
            }
            let rest = code.drop_first();
            assert(more == code[0] + rest.flatten());
            assert(code[0].len() > 0) by {
                if code[0].len() == 0 {
                    assert(code.len() == 1);
                    assert(rest =~= Seq::<Seq<char>>::empty());
                    assert(rest.flatten() =~= Seq::<char>::empty());
                }
            }
            assert(code[0][0] == more[0]);
            lemma_line_feed(code[0]);
            lemma_joined_line(lines[line - 1]);
            let joined = lines[line - 1].push('\n');
            let before = lines.take(line - 1);
            let list = before.push(joined);
            assert(are_lines(list)) by {
                assert(forall|i: int| 0 <= i < line - 1 ==> #[trigger] list[i] == lines[i]);
                assert(list[line - 1] == joined);
                assert forall|i: int, j: int| 0 <= i && j == i + 1 && j
                    < list.len() implies !joins(#[trigger] list[i], #[trigger] list[j]) by {
                    assert(!joins(lines[i], lines[j]));
                    if j == line - 1 {
                        assert(joined[0] == lines[j][0]);
                    }
                }
            }
            assert(front =~= before.push(lines[line - 1]));
            before.lemma_flatten_push(lines[line - 1]);
            before.lemma_flatten_push(joined);
            assert(after =~= list.flatten() + rest.flatten());
            assert(forall|i: int| 0 <= i < rest.len() ==> #[trigger] rest[i] == code[i + 1]);
            assert(are_code(rest, comment));
            lemma_code_makes_no_output(rest, comment);
            lemma_cut_off(list, rest.flatten());
            if line > 1 {
                assert(!is_output_line(lines[line - 1], comment));
                lemma_joined_is_no_output(lines[line - 1], comment);
            }
            assert(now.subrange(line, line) =~= block);
            assert forall|i: int| 1 <= i < line implies !is_output_line(
                #[trigger] now[i],
                comment,
            ) by {
                assert(now[i] == list[i]);
                if i < line - 1 {
                    assert(list[i] == lines[i]);
                }
            }
            assert forall|i: int| line <= i < now.len() implies !is_output_line(
                #[trigger] now[i],
                comment,
            ) by {
                assert(now[i] == lines_of(rest.flatten())[i - line]);
            }
        } else {
            assert(ends_in_break(lines[line - 1]));
            lemma_cut_off(front, more);
            assert(now.subrange(line, line) =~= block);
            assert forall|i: int| 1 <= i < line implies !is_output_line(
                #[trigger] now[i],
                comment,
            ) by {
                assert(now[i] == lines[i]);
            }
            assert forall|i: int| line <= i < now.len() implies !is_output_line(
                #[trigger] now[i],
                comment,
            ) by {
                assert(now[i] == lines_of(more)[i - line]);
            }
        }
    }
}

/// A buffer that shows one output and no other is up to date with it.
pub proof fn lemma_shown_alone_is_up_to_date(
    now: Seq<Seq<char>>,
    comment: Seq<char>,
    shown: Map<int, Seq<char>>,
    line: int,
    block: Seq<Seq<char>>,
)
    requires
        1 <= line,
        shows_only(now, comment, line, block),
        are_written(block, comment),
        forall|l: int| 1 <= l <= now.len() ==> (#[trigger] shown.dom().contains(l) <==> l == line),
        shown[line] == block.flatten(),
    ensures
        is_up_to_date(now, comment, shown),
{
    let end = line + block.len();
    assert forall|i: int| line <= i < end implies is_output_line(#[trigger] now[i], comment) by {
        assert(now[i] == now.subrange(line, end)[i - line]);
        assert(is_written(block[i - line], comment));
    }
    lemma_block_end_is(now, comment, line, end);
    assert forall|start: int| #[trigger] starts_block(now, comment, start) implies shown.dom().contains(
        start,
    ) by {
        assert(line <= start < end);
        if start > line {
            assert(is_output_line(now[start - 1], comment));
        }
    }
}

/// Once every output is shown and every other output line is gone, the buffer is up to date with
/// the same outputs at the numbers that their lines have by then, as long as what is written can be
/// told to be output and no line break comes about from what stood around deleted lines.
pub proof fn law_updated_text_is_up_to_date(
    text: Seq<char>,
    comment: Seq<char>,
    shown: Map<int, Seq<char>>,
    written: Map<int, Seq<Seq<char>>>,
    moved: Map<int, Seq<char>>,
)
    requires
        on_code_lines(lines_of(text), comment, shown),
        says(shown, written),
        can_be_told(lines_of(text), comment, written),
        breaks_stay(lines_of(text), comment, written),
        is_moved(lines_of(text), comment, shown, written, moved),
    ensures
        is_up_to_date(
            lines_of(
                updated(lines_of(text), comment, shown, 0, lines_of(text).len() as int),
            ),
            comment,
            moved,
        ),
{
    let lines = lines_of(text);
    let count = lines.len() as int;
    let after = lines_after(lines, comment, written, count);
    let now = lines_of(updated(lines, comment, shown, 0, count));
    law_lines_make_up_the_text(text);
    lemma_lines_of_updated(text, comment, shown, written);
    assert forall|line: int| 1 < line <= lines.len() && #[trigger]
        written.dom().contains(line) implies !is_output_line(lines[line - 1], comment) by {
        assert(shown.dom().contains(line));
    }
    lemma_written_stand(lines, comment, written, count);
    assert(forall|m: int| 0 <= m < after.len() ==> #[trigger] now[m] == after[m]);
    assert(!is_output_line(Seq::empty(), comment));
    assert forall|m: int| 1 <= m <= now.len() && #[trigger]
        moved.dom().contains(m) implies output_edit(
        now,
        comment,
        OutputView { line: m, text: moved[m] },
    ) is None by {
        let line = choose|line: int|
            1 <= line <= lines.len() && #[trigger] shown.dom().contains(line) && m == moved_to(
                lines,
                comment,
                written,
                line,
            ) && moved[m] == shown[line];
        let block = written[line];
        let end = m + block.len();
        assert(written.dom().contains(line));
        assert(stands(after, comment, lines[line - 1], block, m));
        assert forall|i: int| m <= i < end implies is_output_line(#[trigger] now[i], comment) by {
            assert(now[i] == after.subrange(m, end)[i - m]);
            assert(now[i] == written[line][i - m]);
        }
        lemma_block_end_is(now, comment, m, end);
        assert(now.subrange(m, end) =~= block);
    }
    assert forall|start: int| #[trigger]
        starts_block(now, comment, start) implies moved.dom().contains(start) by {
        assert(start < after.len());
        assert(now[start] == after[start]);
        let line = choose|line: int|
            1 <= line <= count && #[trigger] is_among(lines, comment, written, line, start);
        let at = moved_to(lines, comment, written, line);
        assert(shown.dom().contains(line));
        if start > at {
            assert(stands(after, comment, lines[line - 1], written[line], at));
            assert(now[start - 1] == after.subrange(at, at + written[line].len())[start - 1 - at]);
            assert(now[start - 1] == written[line][start - 1 - at]);
            assert(is_written(written[line][start - 1 - at], comment));
        }
    }
}

} // verus!
