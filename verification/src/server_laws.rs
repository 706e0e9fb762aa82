//! What holds of the server as a whole.

use crate::backend::{comment_update, diagnostic_update, language_of, readable, text_of};
use crate::comment_laws::{
    covers_only_output, in_order, law_edits_do_not_overlap, law_edits_touch_only_output_lines,
    law_stale_output_goes, law_up_to_date_buffer_is_kept, on_code_lines,
};
use crate::comments::{
    block_end, comment_block, comment_line, indent_of, is_output_line, quoted_lines, shown_lines,
    starts_block,
};
use crate::config::{by_extension, LanguageView};
use crate::diagnostics::DiagnosticView;
use crate::folding::is_foldable;
use crate::frames::{lemma_texts_by_line, texts_by_line, LineTexts};
use crate::line_laws::law_lines_make_up_the_text;
use crate::protocol::{line_edit, EditView, FrameKey, RawEntry};
use crate::repeat_laws::{
    are_written, breaks_stay, can_be_told, is_moved, is_written, law_updated_text_is_up_to_date,
    lemma_moved_line, lemma_one_output_is_shown, lemma_shown_alone_is_up_to_date, moved_to, says,
};
use crate::rope::{ends_in_break, is_line_break, lines_of};
use crate::runner::{
    all_edits_of, all_reported_at, all_shown_at, first_frame, is_item, last_frame,
    lemma_one_more_item, received_entry, run_items, shown_frames, SentLine,
};
use crate::settled_laws::{
    has_no_breaks, have_no_breaks, is_plain_comment, law_written_lines_are_output,
    lemma_block_lines, only_blanks, written_lines,
};
use crate::shown_laws::{edited, law_edits_update_the_text, law_every_output_is_shown, updated};
use crate::text::{extension, replace_all, trim_quotes};
use vstd::prelude::*;

verus! {

/// An update of the output comments takes away no line that is not output.
pub proof fn law_update_keeps_other_lines(
    entries: Map<FrameKey, Seq<Seq<char>>>,
    path: Seq<char>,
    comment: Seq<char>,
    text: Seq<char>,
)
    ensures
        forall|e: EditView|
            #[trigger] comment_update(entries, path, comment, text).contains(e)
                ==> covers_only_output(lines_of(text), comment, e),
{
    let lines = lines_of(text);
    law_edits_touch_only_output_lines(
        lines,
        comment,
        shown_lines(entries, path, comment, lines),
    );
}

/// Whether no output of the file belongs to a line that is an output line below another line.
pub open spec fn output_on_code_lines(
    entries: Map<FrameKey, Seq<Seq<char>>>,
    path: Seq<char>,
    comment: Seq<char>,
    text: Seq<char>,
) -> bool {
    forall|line: u64|
        1 < line <= lines_of(text).len() && #[trigger] entries.dom().contains((path, line))
            ==> !is_output_line(lines_of(text)[line - 1], comment)
}

proof fn lemma_shown_on_code_lines(
    entries: Map<FrameKey, Seq<Seq<char>>>,
    path: Seq<char>,
    comment: Seq<char>,
    text: Seq<char>,
)
    requires
        output_on_code_lines(entries, path, comment, text),
    ensures
        on_code_lines(
            lines_of(text),
            comment,
            shown_lines(entries, path, comment, lines_of(text)),
        ),
{
    let lines = lines_of(text);
    let shown = shown_lines(entries, path, comment, lines);
    assert forall|line: int| 1 < line <= lines.len() && #[trigger]
        shown.dom().contains(line) implies !is_output_line(lines[line - 1], comment) by {
        assert(entries.dom().contains((path, line as u64)));
    }
}

/// The edits of an update come in the order of the lines they replace, and no two of them overlap,
/// as long as no output belongs to a line that is output itself. The first line may be.
pub proof fn law_update_edits_do_not_overlap(
    entries: Map<FrameKey, Seq<Seq<char>>>,
    path: Seq<char>,
    comment: Seq<char>,
    text: Seq<char>,
)
    requires
        output_on_code_lines(entries, path, comment, text),
    ensures
        in_order(comment_update(entries, path, comment, text)),
{
    let lines = lines_of(text);
    lemma_shown_on_code_lines(entries, path, comment, text);
    law_edits_do_not_overlap(lines, comment, shown_lines(entries, path, comment, lines));
}

/// Output lines left over from an earlier run go: an update deletes, as a whole, every block of
/// output lines that starts below a line without output.
pub proof fn law_update_deletes_stale_output(
    entries: Map<FrameKey, Seq<Seq<char>>>,
    path: Seq<char>,
    comment: Seq<char>,
    text: Seq<char>,
    start: int,
)
    requires
        starts_block(lines_of(text), comment, start),
        start <= u64::MAX ==> !entries.dom().contains((path, start as u64)),
    ensures
        comment_update(entries, path, comment, text).contains(
            line_edit(start, block_end(lines_of(text), comment, start), Seq::empty()),
        ),
{
    let lines = lines_of(text);
    law_stale_output_goes(lines, comment, shown_lines(entries, path, comment, lines), start);
}

/// The text after an update of the output comments.
pub open spec fn text_after_update(
    entries: Map<FrameKey, Seq<Seq<char>>>,
    path: Seq<char>,
    comment: Seq<char>,
    text: Seq<char>,
) -> Seq<char> {
    edited(
        lines_of(text),
        comment_update(entries, path, comment, text),
        lines_of(text).len() as int,
    )
}

/// Once the edits of an update have been made, every line is still there but the output lines,
/// which are gone, and the output of each line follows right behind it, as long as no output
/// belongs to a line that is output itself. The first line may be.
pub proof fn law_update_brings_the_text_up_to_date(
    entries: Map<FrameKey, Seq<Seq<char>>>,
    path: Seq<char>,
    comment: Seq<char>,
    text: Seq<char>,
)
    requires
        output_on_code_lines(entries, path, comment, text),
    ensures
        text_after_update(entries, path, comment, text) == updated(
            lines_of(text),
            comment,
            shown_lines(entries, path, comment, lines_of(text)),
            0,
            lines_of(text).len() as int,
        ),
{
    let lines = lines_of(text);
    lemma_shown_on_code_lines(entries, path, comment, text);
    law_edits_update_the_text(lines, comment, shown_lines(entries, path, comment, lines));
}

/// Once the edits of an update have been made, the output for every line of the file follows right
/// behind it, as long as no output belongs to a line that is output itself. The first line may be.
/// Where a line ends in a line break, its output is thus shown right below it; the last line does
/// not, and its output goes on on the same line.
pub proof fn law_update_shows_all_output(
    entries: Map<FrameKey, Seq<Seq<char>>>,
    path: Seq<char>,
    comment: Seq<char>,
    text: Seq<char>,
    line: u64,
)
    requires
        1 <= line <= lines_of(text).len(),
        entries.dom().contains((path, line)),
        output_on_code_lines(entries, path, comment, text),
    ensures
        ({
            let lines = lines_of(text);
            let shown = shown_lines(entries, path, comment, lines);
            let output = comment_block(
                indent_of(lines[line - 1]),
                comment,
                quoted_lines(entries[(path, line)]),
            );
            text_after_update(entries, path, comment, text) == updated(
                lines,
                comment,
                shown,
                0,
                line - 1,
            ) + lines[line - 1] + output + updated(
                lines,
                comment,
                shown,
                line as int,
                lines.len() as int,
            )
        }),
{
    let lines = lines_of(text);
    lemma_shown_on_code_lines(entries, path, comment, text);
    law_every_output_is_shown(
        lines,
        comment,
        shown_lines(entries, path, comment, lines),
        line as int,
    );
}

/// The output lines that are written below each line of the file.
pub open spec fn written_output(
    entries: Map<FrameKey, Seq<Seq<char>>>,
    path: Seq<char>,
    comment: Seq<char>,
    lines: Seq<Seq<char>>,
) -> Map<int, Seq<Seq<char>>> {
    Map::new(
        |line: int|
            1 <= line <= lines.len() && line <= u64::MAX && entries.dom().contains(
                (path, line as u64),
            ),
        |line: int|
            written_lines(
                indent_of(lines[line - 1]),
                comment,
                quoted_lines(entries[(path, line as u64)]),
            ),
    )
}

/// Whether what is shown in a buffer can be told to be output afterwards: it is shown below lines
/// that end in a line break and are indented by spaces and tabs, and stays on the lines that it is
/// written on.
pub open spec fn output_can_be_told(
    entries: Map<FrameKey, Seq<Seq<char>>>,
    path: Seq<char>,
    comment: Seq<char>,
    text: Seq<char>,
) -> bool {
    forall|line: u64|
        1 <= line <= lines_of(text).len() && #[trigger] entries.dom().contains((path, line))
            && quoted_lines(entries[(path, line)]).len() > 0 ==> {
            &&& ends_in_break(lines_of(text)[line - 1])
            &&& only_blanks(indent_of(lines_of(text)[line - 1]))
            &&& is_plain_comment(comment)
            &&& have_no_breaks(quoted_lines(entries[(path, line)]))
        }
}

/// Whether `moved` holds what `entries` holds for the lines of the file, at the numbers that they
/// have after the update.
pub open spec fn has_moved(
    entries: Map<FrameKey, Seq<Seq<char>>>,
    path: Seq<char>,
    comment: Seq<char>,
    text: Seq<char>,
    moved: Map<FrameKey, Seq<Seq<char>>>,
) -> bool {
    let lines = lines_of(text);
    let written = written_output(entries, path, comment, lines);
    &&& forall|line: u64|
        1 <= line <= lines.len() && #[trigger] entries.dom().contains((path, line)) ==> moved_to(
            lines,
            comment,
            written,
            line as int,
        ) <= u64::MAX && moved.dom().contains(
            (path, moved_to(lines, comment, written, line as int) as u64),
        )
    &&& forall|m: u64|
        #[trigger] moved.dom().contains((path, m)) ==> exists|line: u64|
            1 <= line <= lines.len() && #[trigger] entries.dom().contains((path, line)) && m
                == moved_to(lines, comment, written, line as int) && moved[(path, m)] == entries[(
                path,
                line,
            )]
}

proof fn lemma_written_output(
    entries: Map<FrameKey, Seq<Seq<char>>>,
    path: Seq<char>,
    comment: Seq<char>,
    text: Seq<char>,
)
    requires
        output_can_be_told(entries, path, comment, text),
    ensures
        ({
            let lines = lines_of(text);
            let written = written_output(entries, path, comment, lines);
            says(shown_lines(entries, path, comment, lines), written) && can_be_told(
                lines,
                comment,
                written,
            )
        }),
{
    let lines = lines_of(text);
    let shown = shown_lines(entries, path, comment, lines);
    let written = written_output(entries, path, comment, lines);
    assert forall|line: int| #[trigger] shown.dom().contains(line) implies shown[line]
        == written[line].flatten() by {
        let indent = indent_of(lines[line - 1]);
        let quoted = quoted_lines(entries[(path, line as u64)]);
        assert(entries.dom().contains((path, line as u64)));
        if quoted.len() > 0 {
            lemma_block_lines(indent, comment, quoted);
        } else {
            assert(written[line].flatten() =~= Seq::<char>::empty());
        }
    }
    assert(says(shown, written));
    assert forall|line: int| 1 <= line <= lines.len() && #[trigger]
        written.dom().contains(line) implies are_written(written[line], comment) && (
    written[line].len() > 0 ==> ends_in_break(lines[line - 1])) by {
        let indent = indent_of(lines[line - 1]);
        let block = written[line];
        assert(entries.dom().contains((path, line as u64)));
        assert forall|k: int| 0 <= k < block.len() implies is_written(#[trigger] block[k], comment)
            && ends_in_break(lines[line - 1]) by {
            let quoted = quoted_lines(entries[(path, line as u64)])[k];
            law_written_lines_are_output(indent, comment, quoted);
            assert(block[k] == comment_line(indent, comment, quoted));
            if indent.len() > 0 {
                assert(block[k][0] == indent[0]);
            } else if comment.len() > 0 {
                assert(block[k][0] == comment[0]);
                assert(!is_line_break(comment[0]));
            }
        }
        if block.len() > 0 {
            assert(is_written(block[0], comment));
        }
    }
}

/// A second update asks for nothing: once the edits of an update have been made, an update with the
/// same output, at the numbers that the lines have by then, leaves the text alone. This holds as
/// long as no output belongs to a line that is output itself, what is shown can be told to be
/// output, and no line break comes about from what stood around deleted lines.
pub proof fn law_second_update_asks_for_nothing(
    entries: Map<FrameKey, Seq<Seq<char>>>,
    path: Seq<char>,
    comment: Seq<char>,
    text: Seq<char>,
    moved: Map<FrameKey, Seq<Seq<char>>>,
)
    requires
        output_on_code_lines(entries, path, comment, text),
        output_can_be_told(entries, path, comment, text),
        breaks_stay(
            lines_of(text),
            comment,
            written_output(entries, path, comment, lines_of(text)),
        ),
        has_moved(entries, path, comment, text, moved),
    ensures
        comment_update(moved, path, comment, text_after_update(entries, path, comment, text))
            == Seq::<EditView>::empty(),
{
    let lines = lines_of(text);
    let shown = shown_lines(entries, path, comment, lines);
    let written = written_output(entries, path, comment, lines);
    let after = text_after_update(entries, path, comment, text);
    let now = lines_of(after);
    let moved_shown = shown_lines(moved, path, comment, now);
    lemma_shown_on_code_lines(entries, path, comment, text);
    lemma_written_output(entries, path, comment, text);
    law_update_brings_the_text_up_to_date(entries, path, comment, text);
    assert(is_moved(lines, comment, shown, written, moved_shown)) by {
        assert forall|line: int| 1 <= line <= lines.len() && #[trigger]
            shown.dom().contains(line) implies moved_shown.dom().contains(
            moved_to(lines, comment, written, line),
        ) by {
            assert(entries.dom().contains((path, line as u64)));
            lemma_moved_line(text, comment, shown, written, line);
        }
        assert forall|m: int| #[trigger] moved_shown.dom().contains(m) implies exists|line: int|
            1 <= line <= lines.len() && #[trigger] shown.dom().contains(line) && m == moved_to(
                lines,
                comment,
                written,
                line,
            ) && moved_shown[m] == shown[line] by {
            assert(moved.dom().contains((path, m as u64)));
            let line = choose|line: u64|
                1 <= line <= lines.len() && #[trigger] entries.dom().contains((path, line)) && m
                    == moved_to(lines, comment, written, line as int) && moved[(path, m as u64)]
                    == entries[(path, line)];
            assert(shown.dom().contains(line as int));
            lemma_moved_line(text, comment, shown, written, line as int);
        }
    }
    law_updated_text_is_up_to_date(text, comment, shown, written, moved_shown);
    law_up_to_date_buffer_is_kept(now, comment, moved_shown);
}

/// Where the only output of the file belongs to one line, and no output lines stand before that
/// line, a second update with the same output asks for nothing: the line keeps its number, and no
/// output line comes about elsewhere. What is shown must be such that it can be told to be output.
pub proof fn law_repeated_update_asks_for_nothing(
    entries: Map<FrameKey, Seq<Seq<char>>>,
    path: Seq<char>,
    comment: Seq<char>,
    text: Seq<char>,
    line: u64,
)
    requires
        1 <= line <= lines_of(text).len(),
        entries.dom().contains((path, line)),
        forall|other: u64| #[trigger] entries.dom().contains((path, other)) ==> other == line,
        forall|i: int|
            1 <= i < line ==> !is_output_line(#[trigger] lines_of(text)[i], comment),
        output_can_be_told(entries, path, comment, text),
    ensures
        comment_update(entries, path, comment, text_after_update(entries, path, comment, text))
            == Seq::<EditView>::empty(),
{
    let lines = lines_of(text);
    let shown = shown_lines(entries, path, comment, lines);
    let written = written_output(entries, path, comment, lines);
    let now = lines_of(text_after_update(entries, path, comment, text));
    let again = shown_lines(entries, path, comment, now);
    let key = (path, line);
    assert(output_on_code_lines(entries, path, comment, text)) by {
        assert forall|other: u64| 1 < other <= lines.len() && #[trigger]
            entries.dom().contains((path, other)) implies !is_output_line(
            lines[other - 1],
            comment,
        ) by {
            assert(other == line);
        }
    }
    lemma_written_output(entries, path, comment, text);
    law_update_brings_the_text_up_to_date(entries, path, comment, text);
    assert forall|l: int| 1 <= l <= lines.len() implies (#[trigger] shown.dom().contains(l) <==> l
        == line) by {
        if shown.dom().contains(l) {
            assert(entries.dom().contains((path, l as u64)));
        }
    }
    assert(written.dom().contains(line as int));
    lemma_one_output_is_shown(text, comment, shown, written, line as int);
    law_lines_make_up_the_text(text_after_update(entries, path, comment, text));
    assert forall|l: int| 1 <= l <= now.len() implies (#[trigger] again.dom().contains(l) <==> l
        == line) by {
        if again.dom().contains(l) {
            assert(entries.dom().contains((path, l as u64)));
        }
    }
    assert(shown.dom().contains(line as int));
    assert(again[line as int] == written[line as int].flatten()) by {
        assert(again.dom().contains(line as int));
        assert(written[line as int].len() == quoted_lines(entries[key]).len());
    }
    lemma_shown_alone_is_up_to_date(now, comment, again, line as int, written[line as int]);
    law_up_to_date_buffer_is_kept(now, comment, again);
}

proof fn lemma_found_frames_are_in_path(entry: RawEntry, path: Seq<char>, n: int)
    requires
        0 <= n <= entry.frames@.len(),
    ensures
        first_frame(entry.frames@.skip(n), path) matches Some(key) ==> key.0 == path,
        last_frame(entry.frames@.take(entry.frames@.len() - n), path) matches Some(key) ==> key.0
            == path,
    decreases entry.frames@.len() - n,
{
    if n < entry.frames@.len() {
        lemma_found_frames_are_in_path(entry, path, n + 1);
        assert(entry.frames@.skip(n).skip(1) =~= entry.frames@.skip(n + 1));
        assert(entry.frames@.take(entry.frames@.len() - n).drop_last() =~= entry.frames@.take(
            entry.frames@.len() - n - 1,
        ));
    }
}

proof fn lemma_shown_in_path(raws: Seq<RawEntry>, path: Seq<char>, key: FrameKey)
    requires
        key.0 != path,
    ensures
        all_shown_at(raws, path, key).len() == 0,
    decreases raws.len(),
{
    if raws.len() > 0 {
        let entry = raws.last();
        lemma_shown_in_path(raws.drop_last(), path, key);
        lemma_found_frames_are_in_path(entry, path, 0);
        assert(entry.frames@.skip(0) =~= entry.frames@);
        assert(entry.frames@.take(entry.frames@.len() as int) =~= entry.frames@);
    }
}

/// The entries that are kept of a run are, in the order of its lines, those of the lines that were
/// received, are not blank, and that an entry could be read from, and no others.
pub proof fn law_run_keeps_entries_in_order(sent: Seq<Option<SentLine>>)
    ensures
        readable(run_items(sent)) == sent.filter(
            |received: Option<SentLine>| received_entry(received) is Some,
        ).map_values(|received: Option<SentLine>| received_entry(received)->0),
    decreases sent.len(),
{
    reveal(Seq::filter);
    let kept = |received: Option<SentLine>| received_entry(received) is Some;
    let entry = |received: Option<SentLine>| received_entry(received)->0;
    if sent.len() == 0 {
        assert(run_items(sent) =~= Seq::<Option<RawEntry>>::empty());
        assert(sent.filter(kept).map_values(entry) =~= Seq::<RawEntry>::empty());
    } else {
        let before = sent.drop_last();
        let last = sent.last();
        law_run_keeps_entries_in_order(before);
        lemma_one_more_item(before, last);
        assert(before.push(last) =~= sent);
        if is_item(last) {
            let items = run_items(before).push(received_entry(last));
            assert(items.drop_last() =~= run_items(before));
            assert(items.last() == received_entry(last));
        }
        assert(sent.filter(kept).map_values(entry) =~= if kept(last) {
            before.filter(kept).map_values(entry).push(entry(last))
        } else {
            before.filter(kept).map_values(entry)
        });
    }
}

/// No line that was received fails a run: what could not be received is all that is not readable.
pub proof fn law_only_lost_lines_are_not_readable(sent: Seq<Option<SentLine>>)
    ensures
        run_items(sent).filter(|item: Option<RawEntry>| item is None).len() == sent.filter(
            |received: Option<SentLine>| received is None,
        ).len(),
    decreases sent.len(),
{
    reveal(Seq::filter);
    if sent.len() == 0 {
        assert(run_items(sent) =~= Seq::<Option<RawEntry>>::empty());
    } else {
        let before = sent.drop_last();
        let last = sent.last();
        law_only_lost_lines_are_not_readable(before);
        lemma_one_more_item(before, last);
        assert(before.push(last) =~= sent);
        if is_item(last) {
            let items = run_items(before).push(received_entry(last));
            assert(items.drop_last() =~= run_items(before));
            assert(items.last() == received_entry(last));
        }
    }
}

/// All output that is kept of a run belongs to the file that was run.
pub proof fn law_output_belongs_to_the_file(raws: Seq<RawEntry>, path: Seq<char>)
    ensures
        forall|key: FrameKey|
            #[trigger] shown_frames(raws, path).dom().contains(key) ==> key.0 == path,
{
    assert forall|key: FrameKey| #[trigger]
        shown_frames(raws, path).dom().contains(key) implies key.0 == path by {
        if key.0 != path {
            lemma_shown_in_path(raws, path, key);
        }
    }
}

/// Output adds up in the order in which it comes: what a run has sent so far stays in front of
/// what it sends later.
pub proof fn law_output_adds_up(
    sent: Seq<RawEntry>,
    more: Seq<RawEntry>,
    path: Seq<char>,
    key: FrameKey,
)
    ensures
        all_shown_at(sent + more, path, key) == all_shown_at(sent, path, key) + all_shown_at(
            more,
            path,
            key,
        ),
        all_reported_at(sent + more, key) == all_reported_at(sent, key) + all_reported_at(
            more,
            key,
        ),
        all_edits_of(sent + more) == all_edits_of(sent) + all_edits_of(more),
    decreases more.len(),
{
    if more.len() == 0 {
        assert(sent + more =~= sent);
    } else {
        law_output_adds_up(sent, more.drop_last(), path, key);
        assert((sent + more).drop_last() =~= sent + more.drop_last());
        assert((sent + more).last() == more.last());
    }
    assert(all_shown_at(sent + more, path, key) =~= all_shown_at(sent, path, key) + all_shown_at(
        more,
        path,
        key,
    ));
    assert(all_reported_at(sent + more, key) =~= all_reported_at(sent, key) + all_reported_at(
        more,
        key,
    ));
    assert(all_edits_of(sent + more) =~= all_edits_of(sent) + all_edits_of(more));
}

/// The text of a document is the one that it was last opened with or changed to, and empty once it
/// is closed. What happens to one document does not touch another.
pub proof fn law_documents_keep_their_text(
    buffers: Map<Seq<char>, Seq<char>>,
    uri: Seq<char>,
    text: Seq<char>,
    other: Seq<char>,
)
    requires
        other != uri,
    ensures
        text_of(buffers.insert(uri, text), uri) == text,
        text_of(buffers.insert(uri, text), other) == text_of(buffers, other),
        text_of(buffers.remove(uri), uri) == Seq::<char>::empty(),
        text_of(buffers.remove(uri), other) == text_of(buffers, other),
        buffers.insert(uri, text).remove(uri) == buffers.remove(uri),
{
    assert(buffers.insert(uri, text).remove(uri) =~= buffers.remove(uri));
}

/// Without a config no document has a language.
pub proof fn law_no_config_no_language(path: Seq<char>)
    ensures
        language_of(Map::<Seq<char>, LanguageView>::empty(), path) is None,
{
}

/// Of the languages with the same extension the last one in the list counts.
pub proof fn law_last_language_counts(list: Seq<LanguageView>, i: int)
    requires
        0 <= i < list.len(),
        forall|j: int| i < j < list.len() ==> (#[trigger] list[j]).extension != list[i].extension,
    ensures
        by_extension(list).dom().contains(list[i].extension),
        by_extension(list)[list[i].extension] == list[i],
    decreases list.len(),
{
    if i < list.len() - 1 {
        let before = list.drop_last();
        assert(list[list.len() - 1].extension != list[i].extension);
        assert(forall|j: int| 0 <= j < before.len() ==> #[trigger] before[j] == list[j]);
        law_last_language_counts(before, i);
    }
}

/// An extension that none of the languages has is not known.
pub proof fn law_unlisted_extension_is_unknown(list: Seq<LanguageView>, ext: Seq<char>)
    requires
        forall|i: int| 0 <= i < list.len() ==> (#[trigger] list[i]).extension != ext,
    ensures
        !by_extension(list).dom().contains(ext),
    decreases list.len(),
{
    if list.len() > 0 {
        let before = list.drop_last();
        assert(list[list.len() - 1].extension != ext);
        assert(forall|j: int| 0 <= j < before.len() ==> #[trigger] before[j] == list[j]);
        law_unlisted_extension_is_unknown(before, ext);
    }
}

/// A document has a language if and only if one of the languages in the list has the extension of
/// its path, with or without the dot.
pub proof fn law_language_is_told_by_extension(
    list: Seq<LanguageView>,
    path: Seq<char>,
    ext: Seq<char>,
)
    requires
        extension(path) == Some(ext),
    ensures
        language_of(by_extension(list), path) is Some <==> exists|i: int|
            0 <= i < list.len() && ((#[trigger] list[i]).extension == ext || list[i].extension
                == seq!['.'] + ext),
        language_of(by_extension(list), path) matches Some(language) ==> list.contains(language)
            && (language.extension == ext || language.extension == seq!['.'] + ext),
{
    lemma_listed(list);
    if exists|i: int|
        0 <= i < list.len() && ((#[trigger] list[i]).extension == ext || list[i].extension
            == seq!['.'] + ext) {
        let i = choose|i: int|
            0 <= i < list.len() && ((#[trigger] list[i]).extension == ext || list[i].extension
                == seq!['.'] + ext);
        assert(by_extension(list).dom().contains(list[i].extension));
    }
    if let Some(language) = language_of(by_extension(list), path) {
        assert(list.contains(language));
        let i = list.index_of(language);
        assert(list[i] == language);
    }
}

proof fn lemma_listed(list: Seq<LanguageView>)
    ensures
        forall|i: int|
            0 <= i < list.len() ==> by_extension(list).dom().contains(
                (#[trigger] list[i]).extension,
            ),
        forall|ext: Seq<char>|
            #[trigger] by_extension(list).dom().contains(ext) ==> list.contains(
                by_extension(list)[ext],
            ) && by_extension(list)[ext].extension == ext,
    decreases list.len(),
{
    if list.len() > 0 {
        let before = list.drop_last();
        lemma_listed(before);
        assert(forall|i: int| 0 <= i < before.len() ==> #[trigger] before[i] == list[i]);
        assert(list[list.len() - 1] == list.last());
        assert forall|i: int| 0 <= i < list.len() implies by_extension(list).dom().contains(
            (#[trigger] list[i]).extension,
        ) by {
            if i < before.len() {
                assert(by_extension(before).dom().contains(before[i].extension));
            }
        }
        assert forall|ext: Seq<char>| #[trigger]
            by_extension(list).dom().contains(ext) implies list.contains(by_extension(list)[ext])
            && by_extension(list)[ext].extension == ext by {
            if ext != list.last().extension {
                assert(by_extension(before).dom().contains(ext));
                let language = by_extension(before)[ext];
                assert(before.contains(language));
                let i = before.index_of(language);
                assert(list[i] == language);
            }
        }
    }
}

/// Each line with errors has exactly one diagnostic, on that line, and the diagnostics are sorted
/// by line.
pub proof fn law_one_diagnostic_per_line(
    hovers: Map<FrameKey, Seq<Seq<char>>>,
    path: Seq<char>,
    text: Seq<char>,
)
    ensures
        forall|i: int, j: int|
            0 <= i < j < diagnostic_update(hovers, path, text).len() ==> (
            #[trigger] diagnostic_update(hovers, path, text)[i]).start_line < (
            #[trigger] diagnostic_update(hovers, path, text)[j]).start_line,
        forall|line: u64|
            1 <= line <= lines_of(text).len() && #[trigger] hovers.dom().contains((path, line))
                ==> exists|i: int|
                0 <= i < diagnostic_update(hovers, path, text).len() && (
                #[trigger] diagnostic_update(hovers, path, text)[i]).start_line == line - 1
                    && diagnostic_update(hovers, path, text)[i].message == hovers[(
                    path,
                    line,
                )].flatten(),
        forall|i: int|
            0 <= i < diagnostic_update(hovers, path, text).len() ==> hovers.dom().contains(
                (path, ((#[trigger] diagnostic_update(hovers, path, text)[i]).start_line + 1) as u64),
            ),
{
    let lines = lines_of(text);
    let errors = texts_by_line(hovers, path, lines.len() as int);
    let list: Seq<DiagnosticView> = diagnostic_update(hovers, path, text);
    lemma_texts_by_line(hovers, path, lines.len() as int);
    assert(list.len() == errors.len());
    assert(forall|i: int|
        0 <= i < list.len() ==> (#[trigger] list[i]).start_line == errors[i].line - 1
            && list[i].message == errors[i].texts.flatten());
    assert forall|line: u64| 1 <= line <= lines.len() && #[trigger]
        hovers.dom().contains((path, line)) implies exists|i: int|
        0 <= i < list.len() && (#[trigger] list[i]).start_line == line - 1 && list[i].message
            == hovers[(path, line)].flatten() by {
        let wanted = LineTexts { line: line as int, texts: hovers[(path, line)] };
        let i = choose|i: int| 0 <= i < errors.len() && #[trigger] errors[i] == wanted;
        assert(list[i].start_line == line - 1);
    }
}

/// Every output line that is written folds away, as long as it can be told to be output.
pub proof fn law_written_output_folds_away(
    lines: Seq<Seq<char>>,
    line: int,
    indent: Seq<char>,
    comment: Seq<char>,
    quoted: Seq<char>,
)
    requires
        0 <= line < lines.len(),
        lines[line] == comment_line(indent, comment, quoted),
        only_blanks(indent),
        is_plain_comment(comment),
        has_no_breaks(trim_quotes(quoted)),
    ensures
        is_foldable(lines, comment, line),
{
    law_written_lines_are_output(indent, comment, quoted);
}

/// A text in which the pattern does not occur is kept as it is.
pub proof fn law_text_without_pattern_is_kept(
    text: Seq<char>,
    pattern: Seq<char>,
    with: Seq<char>,
)
    requires
        forall|i: int|
            0 <= i <= text.len() - pattern.len() ==> #[trigger] text.subrange(
                i,
                i + pattern.len(),
            ) != pattern,
    ensures
        replace_all(text, pattern, with) == text,
    decreases text.len(),
{
    if pattern.len() > 0 && text.len() >= pattern.len() {
        assert(text.subrange(0, 0int + pattern.len()) =~= text.take(pattern.len() as int));
        let rest = text.skip(1);
        assert forall|i: int| 0 <= i <= rest.len() - pattern.len() implies #[trigger] rest.subrange(
            i,
            i + pattern.len(),
        ) != pattern by {
            assert(rest.subrange(i, i + pattern.len()) =~= text.subrange(
                i + 1,
                i + 1 + pattern.len(),
            ));
        }
        law_text_without_pattern_is_kept(rest, pattern, with);
        assert(replace_all(text, pattern, with) =~= text);
    }
}

} // verus!
