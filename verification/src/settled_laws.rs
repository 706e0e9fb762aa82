//! What holds of output lines once they are written.

use crate::comments::{
    block_end, comment_block, comment_line, is_output_line, lemma_block_end_bounds, output_edit,
    skip_blanks, OutputView,
};
use crate::line_laws::{
    joins, law_lines_make_up_the_text, law_lines_of_joined_texts, lemma_cut, lemma_single_line,
};
use crate::protocol::EditView;
use crate::rope::{ends_in_break, first_line_len, is_line_break, lines_of};
use crate::text::trim_quotes;
use vstd::prelude::*;

verus! {

/// Whether `text` has no line breaks.
pub open spec fn has_no_breaks(text: Seq<char>) -> bool {
    forall|i: int| 0 <= i < text.len() ==> !is_line_break(#[trigger] text[i])
}

/// Whether lines that have been `quoted` have no line breaks between their quotes.
pub open spec fn have_no_breaks(quoted: Seq<Seq<char>>) -> bool {
    forall|i: int| 0 <= i < quoted.len() ==> has_no_breaks(trim_quotes(#[trigger] quoted[i]))
}

/// Whether `text` holds nothing but spaces and tabs.
pub open spec fn only_blanks(text: Seq<char>) -> bool {
    forall|i: int| 0 <= i < text.len() ==> (#[trigger] text[i] == ' ' || text[i] == '\t')
}

/// Whether output lines can be told by `comment`: it is on one line, and does not start with white
/// space that would be taken for indentation.
pub open spec fn is_plain_comment(comment: Seq<char>) -> bool {
    &&& has_no_breaks(comment)
    &&& comment.len() > 0 ==> comment[0] != ' ' && comment[0] != '\t'
}

proof fn lemma_skip_indent(indent: Seq<char>, rest: Seq<char>)
    requires
        only_blanks(indent),
        rest.len() > 0,
        rest[0] != ' ',
        rest[0] != '\t',
    ensures
        skip_blanks(indent + rest) == rest,
    decreases indent.len(),
{
    if indent.len() > 0 {
        assert((indent + rest)[0] == indent[0]);
        assert((indent + rest).skip(1) =~= indent.skip(1) + rest);
        lemma_skip_indent(indent.skip(1), rest);
    } else {
        assert(indent + rest =~= rest);
    }
}

proof fn lemma_one_line(body: Seq<char>)
    requires
        has_no_breaks(body),
    ensures
        first_line_len(body.push('\n')) == body.len() + 1,
    decreases body.len(),
{
    let line = body.push('\n');
    assert(line[0] == if body.len() > 0 { body[0] } else { '\n' });
    if body.len() > 0 {
        assert(!is_line_break(body[0]));
        assert(line.skip(1) =~= body.skip(1).push('\n'));
        lemma_one_line(body.skip(1));
    }
}

/// An output line that is written is found again: it is one line, and it counts as output.
pub proof fn law_written_lines_are_output(
    indent: Seq<char>,
    comment: Seq<char>,
    quoted: Seq<char>,
)
    requires
        only_blanks(indent),
        is_plain_comment(comment),
        has_no_breaks(trim_quotes(quoted)),
    ensures
        is_output_line(comment_line(indent, comment, quoted), comment),
        first_line_len(comment_line(indent, comment, quoted)) == comment_line(
            indent,
            comment,
            quoted,
        ).len(),
        lines_of(comment_line(indent, comment, quoted)) == seq![
            comment_line(indent, comment, quoted),
            Seq::empty(),
        ],
{
    let line = comment_line(indent, comment, quoted);
    let rest = comment + seq!['>', ' '] + trim_quotes(quoted) + seq!['\n'];
    assert(line =~= indent + rest);
    assert(rest[0] == if comment.len() > 0 { comment[0] } else { '>' });
    lemma_skip_indent(indent, rest);
    let marker = comment.push('>');
    assert(rest.subrange(0, marker.len() as int) =~= marker);
    let body = indent + comment + seq!['>', ' '] + trim_quotes(quoted);
    assert(line =~= body.push('\n'));
    assert(has_no_breaks(body)) by {
        assert forall|i: int| 0 <= i < body.len() implies !is_line_break(#[trigger] body[i]) by {
            if i < indent.len() {
                assert(body[i] == indent[i]);
            } else if i < indent.len() + comment.len() {
                assert(body[i] == comment[i - indent.len()]);
            } else if i >= indent.len() + comment.len() + 2 {
                assert(body[i] == trim_quotes(quoted)[i - indent.len() - comment.len() - 2]);
            }
        }
    }
    lemma_one_line(body);
    assert(line.take(line.len() as int) =~= line);
    lemma_single_line(line);
}

/// The output lines for `quoted`, one by one.
pub open spec fn written_lines(
    indent: Seq<char>,
    comment: Seq<char>,
    quoted: Seq<Seq<char>>,
) -> Seq<Seq<char>> {
    quoted.map_values(|line: Seq<char>| comment_line(indent, comment, line))
}

pub proof fn lemma_block_lines(indent: Seq<char>, comment: Seq<char>, quoted: Seq<Seq<char>>)
    requires
        quoted.len() > 0,
        only_blanks(indent),
        is_plain_comment(comment),
        have_no_breaks(quoted),
    ensures
        lines_of(comment_block(indent, comment, quoted)) == written_lines(
            indent,
            comment,
            quoted,
        ).push(Seq::empty()),
        written_lines(indent, comment, quoted).flatten() == comment_block(indent, comment, quoted),
        comment_block(indent, comment, quoted).len() > 0,
        comment_block(indent, comment, quoted)[0] != '\n',
        comment_block(indent, comment, quoted).last() == '\n',
    decreases quoted.len(),
{
    let before = quoted.drop_last();
    let line = comment_line(indent, comment, quoted.last());
    let block = comment_block(indent, comment, before);
    assert(quoted[quoted.len() - 1] == quoted.last());
    law_written_lines_are_output(indent, comment, quoted.last());
    written_lines(indent, comment, before).lemma_flatten_push(line);
    assert(written_lines(indent, comment, quoted) =~= written_lines(indent, comment, before).push(
        line,
    ));
    if indent.len() > 0 {
        assert(line[0] == indent[0]);
    } else if comment.len() > 0 {
        assert(line[0] == comment[0]);
        assert(!is_line_break(comment[0]));
    }
    if before.len() == 0 {
        assert(block =~= Seq::<char>::empty());
        assert(block + line =~= line);
        assert(written_lines(indent, comment, before).flatten() =~= Seq::<char>::empty());
        assert(lines_of(line) =~= written_lines(indent, comment, quoted).push(Seq::empty()));
    } else {
        assert(forall|i: int| 0 <= i < before.len() ==> #[trigger] before[i] == quoted[i]);
        lemma_block_lines(indent, comment, before);
        law_lines_of_joined_texts(block, line);
        assert(lines_of(block).drop_last() =~= written_lines(indent, comment, before));
        assert(lines_of(block + line) =~= written_lines(indent, comment, quoted).push(
            Seq::empty(),
        ));
        assert((block + line)[0] == block[0]);
    }
}

pub proof fn lemma_block_end_is(lines: Seq<Seq<char>>, comment: Seq<char>, from: int, end: int)
    requires
        0 <= from <= end <= lines.len(),
        forall|i: int| from <= i < end ==> is_output_line(#[trigger] lines[i], comment),
        end < lines.len() ==> !is_output_line(lines[end], comment),
    ensures
        block_end(lines, comment, from) == end,
    decreases end - from,
{
    if from < end {
        assert(is_output_line(lines[from], comment));
        lemma_block_end_is(lines, comment, from + 1, end);
    }
}

/// The text after an edit that replaces whole lines.
pub open spec fn applied(text: Seq<char>, edit: EditView) -> Seq<char> {
    lines_of(text).take(edit.start_line).flatten() + edit.new_text + lines_of(text).skip(
        edit.end_line,
    ).flatten()
}

proof fn lemma_written_output_is_settled(
    text: Seq<char>,
    comment: Seq<char>,
    line: int,
    indent: Seq<char>,
    quoted: Seq<Seq<char>>,
)
    requires
        1 <= line <= lines_of(text).len(),
        ends_in_break(lines_of(text)[line - 1]),
        quoted.len() > 0,
        only_blanks(indent),
        is_plain_comment(comment),
        have_no_breaks(quoted),
    ensures
        ({
            let output = OutputView { line, text: comment_block(indent, comment, quoted) };
            output_edit(lines_of(text), comment, output) matches Some(edit) ==> output_edit(
                lines_of(applied(text, edit)),
                comment,
                output,
            ) is None
        }),
{
    let lines = lines_of(text);
    let block = comment_block(indent, comment, quoted);
    let output = OutputView { line, text: block };
    if let Some(edit) = output_edit(lines, comment, output) {
        let end = block_end(lines, comment, line);
        law_lines_make_up_the_text(text);
        lemma_block_end_bounds(lines, comment, line);
        lemma_block_lines(indent, comment, quoted);
        assert(line < lines.len()) by {
            if line == lines.len() {
                assert(lines[line - 1] == lines.last());
            }
        }
        lemma_cut(text, line);
        let front = lines.take(line).flatten();
        let back = lines.skip(end).flatten();
        let written = written_lines(indent, comment, quoted);
        let now = lines_of(applied(text, edit));
        if end < lines.len() {
            lemma_cut(text, end);
        } else {
            assert(lines.skip(end) =~= Seq::<Seq<char>>::empty());
            assert(back =~= Seq::<char>::empty());
            assert(lines_of(back) =~= seq![Seq::<char>::empty()]);
        }
        law_lines_of_joined_texts(block, back);
        assert((block + back)[0] == block[0]);
        law_lines_of_joined_texts(front, block + back);
        assert(applied(text, edit) =~= front + (block + back));
        assert(lines_of(front).drop_last() =~= lines.take(line));
        assert(lines_of(block).drop_last() =~= written);
        assert(now =~= lines.take(line) + written + lines_of(back));
        let stop = line + written.len();
        assert forall|i: int| line <= i < stop implies is_output_line(#[trigger] now[i], comment) by {
            assert(now[i] == written[i - line]);
            assert(has_no_breaks(trim_quotes(quoted[i - line])));
            law_written_lines_are_output(indent, comment, quoted[i - line]);
        }
        if end < lines.len() {
            assert(now[stop] == lines[end]);
            lemma_block_ends_there(lines, comment, line);
            lemma_block_end_is(now, comment, line, stop);
            assert(now.subrange(line, stop) =~= written);
        } else {
            assert(now.len() == stop + 1);
            assert(now[stop] == Seq::<char>::empty());
            lemma_block_end_is(now, comment, line, stop);
            assert(now.subrange(line, stop) =~= written);
        }
    }
}

/// Whether a line break would come about where the output lines below `line` go: a carriage return
/// in front of them and a line feed behind them.
pub open spec fn joins_breaks(lines: Seq<Seq<char>>, comment: Seq<char>, line: int) -> bool {
    let end = block_end(lines, comment, line);
    end < lines.len() && joins(lines[line - 1], lines[end])
}

proof fn lemma_deleted_output_is_settled(text: Seq<char>, comment: Seq<char>, line: int)
    requires
        1 <= line <= lines_of(text).len(),
        !joins_breaks(lines_of(text), comment, line),
    ensures
        ({
            let output = OutputView { line, text: Seq::empty() };
            output_edit(lines_of(text), comment, output) matches Some(edit) ==> output_edit(
                lines_of(applied(text, edit)),
                comment,
                output,
            ) is None
        }),
{
    let lines = lines_of(text);
    let output = OutputView { line, text: Seq::empty() };
    if let Some(edit) = output_edit(lines, comment, output) {
        let end = block_end(lines, comment, line);
        law_lines_make_up_the_text(text);
        lemma_block_end_bounds(lines, comment, line);
        assert(line < end) by {
            if line == end {
                assert(lines.subrange(line, end).flatten() =~= Seq::<char>::empty());
            }
        }
        lemma_cut(text, line);
        let front = lines.take(line).flatten();
        let back = lines.skip(end).flatten();
        let now = lines_of(applied(text, edit));
        if end < lines.len() {
            lemma_cut(text, end);
            lemma_block_ends_there(lines, comment, line);
            assert(lines.skip(end).first() == lines[end]);
            assert(back == lines[end] + lines.skip(end).drop_first().flatten());
            if lines[end].len() > 0 {
                assert(back[0] == lines[end][0]);
            } else {
                assert(end == lines.len() - 1);
                assert(lines.skip(end).drop_first() =~= Seq::<Seq<char>>::empty());
            }
        } else {
            assert(lines.skip(end) =~= Seq::<Seq<char>>::empty());
            assert(back =~= Seq::<char>::empty());
            assert(lines_of(back) =~= seq![Seq::<char>::empty()]);
        }
        assert(applied(text, edit) =~= front + back);
        law_lines_of_joined_texts(front, back);
        assert(lines_of(front).drop_last() =~= lines.take(line));
        assert(now =~= lines.take(line) + lines_of(back));
        if end < lines.len() {
            assert(now[line] == lines[end]);
            lemma_block_end_is(now, comment, line, line);
            assert(now.subrange(line, line).flatten() =~= Seq::<char>::empty());
        } else {
            assert(now.len() == line + 1);
            assert(now[line] == Seq::<char>::empty());
            lemma_block_end_is(now, comment, line, line);
            assert(now.subrange(line, line).flatten() =~= Seq::<char>::empty());
        }
    }
}

/// Output that is shown stays as it is: once the edit for it has been made, the same output asks
/// for no further edit. Where there is something to show, the line must end in a line break, and
/// what is shown must be on lines that can be told to be output. Where there is nothing, no line
/// break may come about from what stood around the old output lines.
pub proof fn law_shown_output_is_settled(
    text: Seq<char>,
    comment: Seq<char>,
    line: int,
    indent: Seq<char>,
    quoted: Seq<Seq<char>>,
)
    requires
        1 <= line <= lines_of(text).len(),
        quoted.len() > 0 ==> ends_in_break(lines_of(text)[line - 1]) && only_blanks(indent)
            && is_plain_comment(comment),
        have_no_breaks(quoted),
        quoted.len() == 0 ==> !joins_breaks(lines_of(text), comment, line),
    ensures
        ({
            let output = OutputView { line, text: comment_block(indent, comment, quoted) };
            output_edit(lines_of(text), comment, output) matches Some(edit) ==> output_edit(
                lines_of(applied(text, edit)),
                comment,
                output,
            ) is None
        }),
{
    if quoted.len() > 0 {
        lemma_written_output_is_settled(text, comment, line, indent, quoted);
    } else {
        lemma_deleted_output_is_settled(text, comment, line);
    }
}

proof fn lemma_block_ends_there(lines: Seq<Seq<char>>, comment: Seq<char>, from: int)
    requires
        0 <= from,
        block_end(lines, comment, from) < lines.len(),
    ensures
        !is_output_line(lines[block_end(lines, comment, from)], comment),
    decreases lines.len() - from,
{
    if from < lines.len() && is_output_line(lines[from], comment) {
        lemma_block_ends_there(lines, comment, from + 1);
    }
}

} // verus!
