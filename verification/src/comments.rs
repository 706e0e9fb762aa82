//! Output comments: where they stand in a buffer, what they say, and the edits that bring them
//! up to date.

use crate::frames::{
    frames_fit, lemma_texts_by_line, picked_texts, texts, texts_by_line, FrameMap, LineTexts,
};
use crate::protocol::{edit_views, line_edit, EditView, FrameKey, TextEdit};
use crate::rope::{lines_of, rope_len_lines, rope_line, rope_text, slice_chars};
use crate::text::{
    chars_of, debug_form, debug_format, lines, same_chars, split_lines, string_of, string_views,
    trim_quotes, without_quotes,
};
use ropey::Rope;
use std::sync::Arc;
use vstd::prelude::*;
use vstd::string::*;

verus! {

/// `line` without the spaces and tabs that it starts with.
pub open spec fn skip_blanks(line: Seq<char>) -> Seq<char>
    decreases line.len(),
{
    if line.len() > 0 && (line[0] == ' ' || line[0] == '\t') {
        skip_blanks(line.skip(1))
    } else {
        line
    }
}

/// Whether `line` is output: behind its indentation it starts with `comment` and a `>`.
pub open spec fn is_output_line(line: Seq<char>, comment: Seq<char>) -> bool {
    comment.push('>').is_prefix_of(skip_blanks(line))
}

/// The first line at or after `from` that is not output.
pub open spec fn block_end(lines: Seq<Seq<char>>, comment: Seq<char>, from: int) -> int
    decreases lines.len() - from,
{
    if 0 <= from < lines.len() && is_output_line(lines[from], comment) {
        block_end(lines, comment, from + 1)
    } else {
        from
    }
}

/// The text to show below one line of the buffer. Lines are counted from one, as in a `Frame`.
pub struct LineOutput {
    pub line: u64,
    pub text: String,
}

/// A `LineOutput` in mathematical terms.
pub struct OutputView {
    pub line: int,
    pub text: Seq<char>,
}

impl View for LineOutput {
    type V = OutputView;

    open spec fn view(&self) -> OutputView {
        OutputView { line: self.line as int, text: self.text@ }
    }
}

/// The outputs of a list, in mathematical terms.
pub open spec fn output_views(outputs: Seq<LineOutput>) -> Seq<OutputView> {
    outputs.map_values(|output: LineOutput| output@)
}

/// The edit that shows `output` below its line. It replaces the output lines that stand there;
/// where they already say the same, there is nothing to do.
pub open spec fn output_edit(
    lines: Seq<Seq<char>>,
    comment: Seq<char>,
    output: OutputView,
) -> Option<EditView> {
    let end = block_end(lines, comment, output.line);
    if lines.subrange(output.line, end).flatten() == output.text {
        None
    } else {
        Some(line_edit(output.line, end, output.text))
    }
}

/// Whether the output at `i` is the one for `line`.
pub open spec fn is_for(outputs: Seq<OutputView>, line: int, i: int) -> bool {
    0 <= i < outputs.len() && outputs[i].line == line
}

/// What is to be shown of `outputs`, by line.
pub open spec fn output_map(outputs: Seq<OutputView>) -> Map<int, Seq<char>> {
    Map::new(
        |line: int| exists|i: int| is_for(outputs, line, i),
        |line: int| outputs[choose|i: int| is_for(outputs, line, i)].text,
    )
}

/// Whether the outputs are sorted by line, no two of them for the same one.
pub open spec fn are_sorted(outputs: Seq<OutputView>) -> bool {
    forall|i: int, j: int|
        0 <= i < j < outputs.len() ==> (#[trigger] outputs[i]).line < (#[trigger] outputs[j]).line
}

/// Whether a block of output lines starts at line `start`, below another line.
pub open spec fn starts_block(lines: Seq<Seq<char>>, comment: Seq<char>, start: int) -> bool {
    &&& 1 <= start < lines.len()
    &&& is_output_line(lines[start], comment)
    &&& start == 1 || !is_output_line(lines[start - 1], comment)
}

/// The edit right below the line number `line`, where `shown` is to be shown. Where the line has
/// output, this is the edit that shows it. Where it has none, a block of output lines that starts
/// there is left over from an earlier run and is deleted.
pub open spec fn edit_at(
    lines: Seq<Seq<char>>,
    comment: Seq<char>,
    shown: Map<int, Seq<char>>,
    line: int,
) -> Option<EditView> {
    if shown.dom().contains(line) {
        output_edit(lines, comment, OutputView { line, text: shown[line] })
    } else if starts_block(lines, comment, line) {
        Some(line_edit(line, block_end(lines, comment, line), Seq::empty()))
    } else {
        None
    }
}

/// The edits below the lines up to and including the line number `last`, in the order of the
/// lines.
pub open spec fn edits_up_to(
    lines: Seq<Seq<char>>,
    comment: Seq<char>,
    shown: Map<int, Seq<char>>,
    last: int,
) -> Seq<EditView>
    decreases last,
{
    if last <= 0 {
        Seq::empty()
    } else {
        let before = edits_up_to(lines, comment, shown, last - 1);
        match edit_at(lines, comment, shown, last) {
            Some(edit) => before.push(edit),
            None => before,
        }
    }
}

pub proof fn lemma_block_end_bounds(lines: Seq<Seq<char>>, comment: Seq<char>, from: int)
    ensures
        from <= block_end(lines, comment, from),
        from <= lines.len() ==> block_end(lines, comment, from) <= lines.len(),
    decreases lines.len() - from,
{
    if 0 <= from < lines.len() && is_output_line(lines[from], comment) {
        lemma_block_end_bounds(lines, comment, from + 1);
    }
}

/// What sorted outputs show at a line, in terms of the first of them that is for this line or a
/// later one.
proof fn lemma_output_map(outputs: Seq<OutputView>, line: int, next: int)
    requires
        are_sorted(outputs),
        0 <= next <= outputs.len(),
        forall|i: int| 0 <= i < next ==> (#[trigger] outputs[i]).line < line,
        next < outputs.len() ==> outputs[next].line >= line,
    ensures
        output_map(outputs).dom().contains(line) <==> is_for(outputs, line, next),
        is_for(outputs, line, next) ==> output_map(outputs)[line] == outputs[next].text,
{
    if output_map(outputs).dom().contains(line) {
        let i = choose|i: int| is_for(outputs, line, i);
        if i > next {
            assert(outputs[next].line < outputs[i].line);
        }
        assert(i == next);
    }
}

/// Whether `line` starts with `marker` behind its indentation.
fn has_marker(line: &Vec<char>, marker: &Vec<char>) -> (has: bool)
    ensures
        has == marker@.is_prefix_of(skip_blanks(line@)),
{
    let mut start: usize = 0;
    assert(line@.skip(0) =~= line@);
    while start < line.len() && (line[start] == ' ' || line[start] == '\t')
        invariant
            start <= line@.len(),
            skip_blanks(line@) == skip_blanks(line@.skip(start as int)),
        decreases line@.len() - start,
    {
        assert(line@.skip(start as int).skip(1) =~= line@.skip(start + 1));
        start += 1;
    }
    let ghost rest = line@.skip(start as int);
    assert(skip_blanks(line@) =~= rest);
    if line.len() - start < marker.len() {
        return false;
    }
    let mut i: usize = 0;
    while i < marker.len()
        invariant
            start <= line@.len(),
            rest == line@.skip(start as int),
            start + marker@.len() <= line.len(),
            i <= marker@.len(),
            skip_blanks(line@) == rest,
            forall|j: int| 0 <= j < i ==> rest[j] == marker@[j],
        decreases marker@.len() - i,
    {
        assert(rest[i as int] == line@[start + i]);
        if line[start + i] != marker[i] {
            assert(rest.subrange(0, marker@.len() as int)[i as int] != marker@[i as int]);
            return false;
        }
        i += 1;
    }
    assert(rest.subrange(0, marker@.len() as int) =~= marker@);
    true
}

/// What output lines start with behind their indentation, where line comments start with
/// `comment`.
pub(crate) fn marker_of(comment: &str) -> (marker: Vec<char>)
    ensures
        marker@ == comment@.push('>'),
{
    let mut marker = chars_of(comment);
    marker.push('>');
    marker
}

/// Whether a line of the buffer is an output line that starts with `marker`.
pub(crate) fn is_marked(buffer: &Rope, line: usize, marker: &Vec<char>) -> (marked: bool)
    requires
        line < lines_of(rope_text(*buffer)).len(),
    ensures
        marked == marker@.is_prefix_of(skip_blanks(lines_of(rope_text(*buffer))[line as int])),
{
    has_marker(&slice_chars(&rope_line(buffer, line)), marker)
}

/// The output lines right below `line`: the first one, and the first line after them. `None`
/// where there are none.
pub fn find_prev_output(buffer: &Rope, comment_str: &str, line: usize) -> (found: Option<
    (usize, usize),
>)
    ensures
        match found {
            None => block_end(lines_of(rope_text(*buffer)), comment_str@, line + 1) == line + 1,
            Some((start, end)) => {
                &&& start == line + 1
                &&& end == block_end(lines_of(rope_text(*buffer)), comment_str@, line + 1)
                &&& start < end <= lines_of(rope_text(*buffer)).len()
            },
        },
{
    let ghost lines = lines_of(rope_text(*buffer));
    let count = rope_len_lines(buffer);
    if line >= count {
        return None;
    }
    let marker = marker_of(comment_str);
    let mut curr: usize = line + 1;
    while curr < count && is_marked(buffer, curr, &marker)
        invariant
            lines == lines_of(rope_text(*buffer)),
            count == lines.len(),
            line < curr <= count,
            marker@ == comment_str@.push('>'),
            block_end(lines, comment_str@, line + 1) == block_end(
                lines,
                comment_str@,
                curr as int,
            ),
        decreases count - curr,
    {
        curr += 1;
    }
    if curr == line + 1 {
        None
    } else {
        Some((line + 1, curr))
    }
}

/// Whether the lines from `start` up to, but not including, `end` say `text`.
fn block_says(buffer: &Rope, start: usize, end: usize, text: &str) -> (same: bool)
    requires
        start <= end <= lines_of(rope_text(*buffer)).len(),
    ensures
        same == (lines_of(rope_text(*buffer)).subrange(start as int, end as int).flatten()
            == text@),
{
    let ghost lines = lines_of(rope_text(*buffer));
    let mut block: Vec<char> = Vec::new();
    let mut i: usize = start;
    assert(lines.subrange(start as int, start as int).flatten() =~= Seq::<char>::empty());
    while i < end
        invariant
            lines == lines_of(rope_text(*buffer)),
            start <= i <= end <= lines.len(),
            block@ == lines.subrange(start as int, i as int).flatten(),
        decreases end - i,
    {
        let mut line = slice_chars(&rope_line(buffer, i));
        block.append(&mut line);
        proof {
            lines.subrange(start as int, i as int).lemma_flatten_push(lines[i as int]);
            assert(lines.subrange(start as int, i + 1) =~= lines.subrange(
                start as int,
                i as int,
            ).push(lines[i as int]));
        }
        i += 1;
    }
    same_chars(&block, &chars_of(text))
}

/// The edit that shows `output` below its line, or `None` where the output lines there already
/// say the same.
pub fn edit_below(contents: &Rope, comment: &str, output: &LineOutput) -> (edit: Option<TextEdit>)
    requires
        1 <= output.line <= lines_of(rope_text(*contents)).len(),
    ensures
        match edit {
            Some(edit) => output_edit(lines_of(rope_text(*contents)), comment@, output@) == Some(
                edit@,
            ),
            None => output_edit(lines_of(rope_text(*contents)), comment@, output@) is None,
        },
{
    // The line is one of the buffer, so its number fits in a `usize`.
    let _count = rope_len_lines(contents);
    let line = output.line as usize;
    let end = match find_prev_output(contents, comment, line - 1) {
        Some((_, end)) => end,
        None => line,
    };
    if block_says(contents, line, end, output.text.as_str()) {
        None
    } else {
        Some(TextEdit::of_lines(line, end, output.text.clone()))
    }
}

/// The edits that bring the output comments of a buffer up to date: `outputs` are shown below
/// their lines, and output lines left over from an earlier run go.
pub fn comment_edits(contents: &Rope, comment: &str, outputs: &Vec<LineOutput>) -> (edits: Vec<
    TextEdit,
>)
    requires
        are_sorted(output_views(outputs@)),
        forall|i: int|
            0 <= i < outputs@.len() ==> 1 <= (#[trigger] outputs@[i]).line <= lines_of(
                rope_text(*contents),
            ).len(),
    ensures
        edit_views(edits@) == edits_up_to(
            lines_of(rope_text(*contents)),
            comment@,
            output_map(output_views(outputs@)),
            lines_of(rope_text(*contents)).len() as int,
        ),
{
    let ghost lines = lines_of(rope_text(*contents));
    let ghost views = output_views(outputs@);
    let ghost shown = output_map(views);
    let count = rope_len_lines(contents);
    let marker = marker_of(comment);
    let mut edits: Vec<TextEdit> = Vec::new();
    let mut next: usize = 0;
    let mut line: usize = 0;
    let mut above = false;
    assert(edit_views(edits@) =~= Seq::<EditView>::empty());
    while line < count
        invariant
            lines == lines_of(rope_text(*contents)),
            views == output_views(outputs@),
            shown == output_map(views),
            are_sorted(views),
            count == lines.len(),
            marker@ == comment@.push('>'),
            forall|i: int|
                0 <= i < outputs@.len() ==> 1 <= (#[trigger] outputs@[i]).line <= lines.len(),
            next <= outputs@.len(),
            line <= count,
            forall|i: int| 0 <= i < next ==> (#[trigger] views[i]).line <= line,
            forall|i: int| next <= i < views.len() ==> (#[trigger] views[i]).line > line,
            line < count ==> above == (line > 0 && is_output_line(lines[line as int], comment@)),
            edit_views(edits@) == edits_up_to(lines, comment@, shown, line as int),
        decreases count - line,
    {
        let ghost so_far = edits@;
        line += 1;
        let below = line < count && is_marked(contents, line, &marker);
        proof {
            lemma_output_map(views, line as int, next as int);
            if next < outputs.len() {
                assert(views[next as int] == outputs@[next as int]@);
            }
            assert(below && !above <==> starts_block(lines, comment@, line as int));
            lemma_block_end_bounds(lines, comment@, line + 1);
        }
        if next < outputs.len() && outputs[next].line == line as u64 {
            assert(outputs@[next as int]@ == OutputView {
                line: line as int,
                text: shown[line as int],
            });
            if let Some(edit) = edit_below(contents, comment, &outputs[next]) {
                edits.push(edit);
                assert(edit_views(edits@) =~= edit_views(so_far).push(edit@));
            }
            proof {
                assert forall|i: int| next < i < views.len() implies (#[trigger] views[i]).line
                    > line by {
                    assert(views[next as int].line < views[i].line);
                }
            }
            next += 1;
        } else if below && !above {
            if let Some((start, end)) = find_prev_output(contents, comment, line - 1) {
                edits.push(TextEdit::of_lines(start, end, String::new()));
                assert(edit_views(edits@) =~= edit_views(so_far).push(
                    line_edit(start as int, end as int, Seq::empty()),
                ));
            }
        }
        above = below;
        assert(edit_views(edits@) =~= edits_up_to(lines, comment@, shown, line as int));
    }
    edits
}

/// Whether `c` is white space in ASCII: a space, tab, line feed, form feed or carriage return.
pub open spec fn is_ascii_space(c: char) -> bool {
    c == ' ' || c == '\t' || c == '\n' || c == '\u{c}' || c == '\r'
}

/// How many white space characters `line` starts with.
pub open spec fn indent_len(line: Seq<char>) -> nat
    decreases line.len(),
{
    if line.len() > 0 && is_ascii_space(line[0]) {
        1 + indent_len(line.skip(1))
    } else {
        0
    }
}

/// The white space that `line` starts with. Of a line that holds nothing else this is the whole
/// line, its line break included.
pub open spec fn indent_of(line: Seq<char>) -> Seq<char> {
    line.take(indent_len(line) as int)
}

/// The output line for a line of output that has been `quoted`.
pub open spec fn comment_line(
    indent: Seq<char>,
    comment: Seq<char>,
    quoted: Seq<char>,
) -> Seq<char> {
    indent + comment + seq!['>', ' '] + trim_quotes(quoted) + seq!['\n']
}

/// The output lines for lines of output that have been `quoted`.
pub open spec fn comment_block(
    indent: Seq<char>,
    comment: Seq<char>,
    quoted: Seq<Seq<char>>,
) -> Seq<char>
    decreases quoted.len(),
{
    if quoted.len() == 0 {
        Seq::empty()
    } else {
        comment_block(indent, comment, quoted.drop_last()) + comment_line(
            indent,
            comment,
            quoted.last(),
        )
    }
}

/// The lines of pieces of output, quoted. A piece may have any number of lines.
pub open spec fn quoted_lines(out: Seq<Seq<char>>) -> Seq<Seq<char>>
    decreases out.len(),
{
    if out.len() == 0 {
        Seq::empty()
    } else {
        quoted_lines(out.drop_last()) + split_lines(out.last()).map_values(
            |line: Seq<char>| debug_form(line),
        )
    }
}

/// What is shown of `texts` in a buffer: output lines with the indentation of the line that they
/// belong to.
pub open spec fn rendered(
    lines: Seq<Seq<char>>,
    comment: Seq<char>,
    texts: LineTexts,
) -> OutputView {
    OutputView {
        line: texts.line,
        text: comment_block(
            indent_of(lines[texts.line - 1]),
            comment,
            quoted_lines(texts.texts),
        ),
    }
}

/// Appends the output line for a line of output that has been `quoted`.
pub fn push_comment_line(text: &mut String, indent: &str, comment: &str, quoted: &str)
    ensures
        final(text)@ == old(text)@ + comment_line(indent@, comment@, quoted@),
{
    text.append(indent);
    text.append(comment);
    text.push('>');
    text.push(' ');
    text.append(without_quotes(quoted).as_str());
    text.push('\n');
    assert(text@ =~= old(text)@ + comment_line(indent@, comment@, quoted@));
}

/// The output lines for lines of output that have been `quoted`.
pub fn output_text(indent: &str, comment: &str, quoted: &Vec<String>) -> (text: String)
    ensures
        text@ == comment_block(indent@, comment@, string_views(quoted@)),
{
    let ghost views = string_views(quoted@);
    let mut text = String::new();
    let mut i: usize = 0;
    while i < quoted.len()
        invariant
            i <= quoted@.len(),
            views == string_views(quoted@),
            text@ == comment_block(indent@, comment@, views.take(i as int)),
        decreases quoted@.len() - i,
    {
        push_comment_line(&mut text, indent, comment, quoted[i].as_str());
        assert(views.take(i + 1).drop_last() =~= views.take(i as int));
        assert(views.take(i + 1).last() == quoted@[i as int]@);
        i += 1;
    }
    assert(views.take(i as int) =~= views);
    text
}

/// The lines of pieces of output, quoted.
pub fn quote_lines(out: &Vec<Arc<String>>) -> (quoted: Vec<String>)
    ensures
        string_views(quoted@) == quoted_lines(texts(out@)),
{
    let mut quoted: Vec<String> = Vec::new();
    let mut i: usize = 0;
    assert(string_views(quoted@) =~= Seq::<Seq<char>>::empty());
    while i < out.len()
        invariant
            i <= out@.len(),
            string_views(quoted@) == quoted_lines(texts(out@).take(i as int)),
        decreases out@.len() - i,
    {
        let list = lines(out[i].as_str());
        let ghost here = split_lines(out@[i as int]@).map_values(
            |line: Seq<char>| debug_form(line),
        );
        let ghost before = string_views(quoted@);
        let mut j: usize = 0;
        assert(before + here.take(0) =~= before);
        while j < list.len()
            invariant
                j <= list@.len(),
                here.len() == list@.len(),
                forall|k: int|
                    0 <= k < list@.len() ==> here[k] == debug_form((#[trigger] list@[k])@),
                string_views(quoted@) == before + here.take(j as int),
            decreases list@.len() - j,
        {
            let ghost so_far = quoted@;
            let line = debug_format(list[j].as_str());
            quoted.push(line);
            assert(string_views(quoted@) =~= string_views(so_far).push(line@));
            assert(string_views(quoted@) =~= before + here.take(j + 1));
            j += 1;
        }
        assert(here.take(j as int) =~= here);
        assert(texts(out@).take(i + 1).drop_last() =~= texts(out@).take(i as int));
        assert(texts(out@).take(i + 1).last() == out@[i as int]@);
        i += 1;
    }
    assert(texts(out@).take(i as int) =~= texts(out@));
    quoted
}

/// The white space that a line of the buffer starts with.
fn line_indent(contents: &Rope, line: usize) -> (indent: String)
    requires
        line < lines_of(rope_text(*contents)).len(),
    ensures
        indent@ == indent_of(lines_of(rope_text(*contents))[line as int]),
{
    let chars = slice_chars(&rope_line(contents, line));
    let mut n: usize = 0;
    assert(chars@.skip(0) =~= chars@);
    while n < chars.len() && (chars[n] == ' ' || chars[n] == '\t' || chars[n] == '\n' || chars[n]
        == '\u{c}' || chars[n] == '\r')
        invariant
            n <= chars@.len(),
            indent_len(chars@) == n + indent_len(chars@.skip(n as int)),
        decreases chars@.len() - n,
    {
        assert(chars@.skip(n as int).skip(1) =~= chars@.skip(n + 1));
        n += 1;
    }
    assert(chars@.subrange(0, n as int) =~= chars@.take(n as int));
    string_of(&chars, 0, n)
}

/// What is shown below `line` of the pieces of output in `out`.
pub fn render_output(contents: &Rope, comment: &str, line: u64, out: &Vec<Arc<String>>) -> (output:
    LineOutput)
    requires
        1 <= line <= lines_of(rope_text(*contents)).len(),
    ensures
        output@ == rendered(
            lines_of(rope_text(*contents)),
            comment@,
            (LineTexts { line: line as int, texts: texts(out@) }),
        ),
{
    // The line is one of the buffer, so its number fits in a `usize`.
    let _count = rope_len_lines(contents);
    let indent = line_indent(contents, line as usize - 1);
    LineOutput { line, text: output_text(indent.as_str(), comment, &quote_lines(out)) }
}

/// What is to be shown in the file `path` of the output of a run, by line.
pub open spec fn shown_lines(
    entries: Map<FrameKey, Seq<Seq<char>>>,
    path: Seq<char>,
    comment: Seq<char>,
    lines: Seq<Seq<char>>,
) -> Map<int, Seq<char>> {
    Map::new(
        |line: int|
            1 <= line <= lines.len() && line <= u64::MAX && entries.dom().contains(
                (path, line as u64),
            ),
        |line: int|
            comment_block(
                indent_of(lines[line - 1]),
                comment,
                quoted_lines(entries[(path, line as u64)]),
            ),
    )
}

proof fn lemma_shown_lines(
    entries: Map<FrameKey, Seq<Seq<char>>>,
    path: Seq<char>,
    comment: Seq<char>,
    lines: Seq<Seq<char>>,
    views: Seq<OutputView>,
)
    requires
        views.len() == texts_by_line(entries, path, lines.len() as int).len(),
        forall|i: int|
            0 <= i < views.len() ==> #[trigger] views[i] == rendered(
                lines,
                comment,
                texts_by_line(entries, path, lines.len() as int)[i],
            ),
    ensures
        are_sorted(views),
        output_map(views) == shown_lines(entries, path, comment, lines),
{
    let output = texts_by_line(entries, path, lines.len() as int);
    let want = shown_lines(entries, path, comment, lines);
    lemma_texts_by_line(entries, path, lines.len() as int);
    assert forall|i: int, j: int| 0 <= i < j < views.len() implies (#[trigger] views[i]).line < (
    #[trigger] views[j]).line by {
        assert(output[i].line < output[j].line);
    }
    assert forall|line: int| #[trigger] output_map(views).dom().contains(line)
        <==> want.dom().contains(line) by {
        if output_map(views).dom().contains(line) {
            let i = choose|i: int| is_for(views, line, i);
            assert(output[i].line == line);
        }
        if want.dom().contains(line) {
            let wanted = LineTexts { line, texts: entries[(path, line as u64)] };
            let i = choose|i: int| 0 <= i < output.len() && #[trigger] output[i] == wanted;
            assert(is_for(views, line, i));
        }
    }
    assert forall|line: int| #[trigger] want.dom().contains(line) implies output_map(views)[line]
        == want[line] by {
        let wanted = LineTexts { line, texts: entries[(path, line as u64)] };
        let k = choose|k: int| 0 <= k < output.len() && #[trigger] output[k] == wanted;
        assert(is_for(views, line, k));
        let i = choose|i: int| is_for(views, line, i);
        if i < k {
            assert(views[i].line < views[k].line);
        } else if k < i {
            assert(views[k].line < views[i].line);
        }
    }
    assert(output_map(views) =~= want);
}

/// The edits that bring the output comments of a buffer up to date with the output of a run.
pub fn file_comments(entries: &FrameMap, path: &String, comment: &str, contents: &Rope) -> (edits:
    Vec<TextEdit>)
    requires
        entries.wf(),
        frames_fit(entries@, path@, lines_of(rope_text(*contents)).len()),
    ensures
        edit_views(edits@) == edits_up_to(
            lines_of(rope_text(*contents)),
            comment@,
            shown_lines(entries@, path@, comment@, lines_of(rope_text(*contents))),
            lines_of(rope_text(*contents)).len() as int,
        ),
{
    let ghost lines = lines_of(rope_text(*contents));
    let count = rope_len_lines(contents);
    let picked = entries.by_line(path);
    let ghost output = picked_texts(entries.pairs@, picked@);
    proof {
        assert forall|a: int| 0 <= a < picked@.len() implies 1 <= entries.pairs@[(
        #[trigger] picked@[a]) as int].0.line <= count by {
            entries.lemma_pair(picked@[a] as int);
            assert(entries@.dom().contains((path@, entries.pairs@[picked@[a] as int].0.line)));
        }
        entries.lemma_picked(path@, picked@, count as int);
    }
    let mut outputs: Vec<LineOutput> = Vec::new();
    let mut a: usize = 0;
    while a < picked.len()
        invariant
            lines == lines_of(rope_text(*contents)),
            count == lines.len(),
            a <= picked@.len(),
            a == outputs@.len(),
            output == picked_texts(entries.pairs@, picked@),
            forall|a: int|
                0 <= a < picked@.len() ==> (#[trigger] picked@[a]) < entries.pairs@.len() && 1
                    <= entries.pairs@[picked@[a] as int].0.line <= count,
            forall|i: int|
                0 <= i < outputs@.len() ==> 1 <= (#[trigger] outputs@[i]).line <= count
                    && outputs@[i]@ == rendered(lines, comment@, output[i]),
        decreases picked@.len() - a,
    {
        let i = picked[a];
        let shown = render_output(
            contents,
            comment,
            entries.pairs[i].0.line,
            &entries.pairs[i].1.out,
        );
        assert(shown@ == rendered(lines, comment@, output[a as int]));
        outputs.push(shown);
        a += 1;
    }
    proof {
        let views = output_views(outputs@);
        assert forall|i: int| 0 <= i < views.len() implies #[trigger] views[i] == rendered(
            lines,
            comment@,
            output[i],
        ) by {
            assert(views[i] == outputs@[i]@);
        }
        lemma_shown_lines(entries@, path@, comment@, lines, views);
    }
    comment_edits(contents, comment, &outputs)
}

} // verus!
