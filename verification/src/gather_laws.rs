//! Where the output of a run goes, and what of it reaches the editor.

use crate::backend::{after_run, diagnostic_update, readable, BackendView};
use crate::frames::{frames_fit, lemma_texts_by_line, texts_by_line};
use crate::protocol::{edit_views, Frame, FrameKey, RawEntry, RawEntryKind};
use crate::rope::lines_of;
use crate::runner::{
    all_edits_of, all_reported_at, all_shown_at, edits_of, first_frame, frame_count,
    kept_entry, last_frame, lemma_one_more_item, received_entry, reported_at, reported_frames,
    run_items, shown_at, shown_frames, SentLine,
};
use crate::server_laws::law_output_adds_up;
use crate::text::is_white_space;
use vstd::prelude::*;

verus! {

proof fn lemma_first(frames: Seq<Frame>, path: Seq<char>, i: int)
    requires
        0 <= i < frames.len(),
        frames[i].file@ == path,
        forall|j: int| 0 <= j < i ==> (#[trigger] frames[j]).file@ != path,
    ensures
        first_frame(frames, path) == Some((path, frames[i].line)),
    decreases i,
{
    if i > 0 {
        let rest = frames.skip(1);
        assert(frames[0].file@ != path);
        assert(rest[i - 1] == frames[i]);
        assert forall|j: int| 0 <= j < i - 1 implies (#[trigger] rest[j]).file@ != path by {
            assert(rest[j] == frames[j + 1]);
        }
        lemma_first(rest, path, i - 1);
    }
}

proof fn lemma_last(frames: Seq<Frame>, path: Seq<char>, i: int)
    requires
        0 <= i < frames.len(),
        frames[i].file@ == path,
        forall|j: int| i < j < frames.len() ==> (#[trigger] frames[j]).file@ != path,
    ensures
        last_frame(frames, path) == Some((path, frames[i].line)),
    decreases frames.len(),
{
    if i < frames.len() - 1 {
        let rest = frames.drop_last();
        assert(frames[frames.len() - 1].file@ != path);
        assert(rest[i] == frames[i]);
        assert forall|j: int| i < j < rest.len() implies (#[trigger] rest[j]).file@ != path by {
            assert(rest[j] == frames[j]);
        }
        lemma_last(rest, path, i);
    }
}

proof fn lemma_none(frames: Seq<Frame>, path: Seq<char>)
    requires
        forall|j: int| 0 <= j < frames.len() ==> (#[trigger] frames[j]).file@ != path,
    ensures
        first_frame(frames, path) is None,
        last_frame(frames, path) is None,
    decreases frames.len(),
{
    if frames.len() > 0 {
        let rest = frames.skip(1);
        let before = frames.drop_last();
        assert forall|j: int| 0 <= j < rest.len() implies (#[trigger] rest[j]).file@ != path by {
            assert(rest[j] == frames[j + 1]);
        }
        assert forall|j: int| 0 <= j < before.len() implies (#[trigger] before[j]).file@ != path by {
            assert(before[j] == frames[j]);
        }
        assert(frames[0].file@ != path);
        assert(frames[frames.len() - 1].file@ != path);
        lemma_none(rest, path);
        lemma_none(before, path);
    }
}

/// Plain output is shown at the first of its frames that is in the file, whatever the lines of the
/// other frames are, and nowhere else.
pub proof fn law_output_goes_to_the_first_frame(
    entry: RawEntry,
    path: Seq<char>,
    i: int,
    key: FrameKey,
)
    requires
        entry.inner is Simple,
        entry.inner->kind is None || entry.inner->kind == Some(RawEntryKind::Output)
            || entry.inner->kind == Some(RawEntryKind::Regex),
        0 <= i < entry.frames@.len(),
        entry.frames@[i].file@ == path,
        forall|j: int| 0 <= j < i ==> (#[trigger] entry.frames@[j]).file@ != path,
    ensures
        key == (path, entry.frames@[i].line) ==> shown_at(entry, path, key) == seq![
            entry.inner->out@,
        ],
        key != (path, entry.frames@[i].line) ==> shown_at(entry, path, key).len() == 0,
{
    lemma_first(entry.frames@, path, i);
}

/// Debug output is shown at the last of its frames that is in the file, and nowhere else.
pub proof fn law_debug_output_goes_to_the_last_frame(
    entry: RawEntry,
    path: Seq<char>,
    i: int,
    key: FrameKey,
)
    requires
        entry.inner is Simple,
        entry.inner->kind == Some(RawEntryKind::Debug),
        0 <= i < entry.frames@.len(),
        entry.frames@[i].file@ == path,
        forall|j: int| i < j < entry.frames@.len() ==> (#[trigger] entry.frames@[j]).file@ != path,
    ensures
        key == (path, entry.frames@[i].line) ==> shown_at(entry, path, key) == seq![
            entry.inner->out@,
        ],
        key != (path, entry.frames@[i].line) ==> shown_at(entry, path, key).len() == 0,
{
    lemma_last(entry.frames@, path, i);
}

/// Nothing is shown of an entry without a frame in the file, of an error, or of edits.
pub proof fn law_nothing_else_is_shown(entry: RawEntry, path: Seq<char>, key: FrameKey)
    requires
        entry.inner is Edits || entry.inner->kind == Some(RawEntryKind::Error) || forall|j: int|
            0 <= j < entry.frames@.len() ==> (#[trigger] entry.frames@[j]).file@ != path,
    ensures
        shown_at(entry, path, key).len() == 0,
{
    if entry.inner is Simple && entry.inner->kind != Some(RawEntryKind::Error) {
        lemma_none(entry.frames@, path);
    }
}

/// An error is reported at each of its frames, in whatever file, as often as the frame is among
/// them; nothing else is reported.
pub proof fn law_errors_go_to_all_frames(entry: RawEntry, key: FrameKey)
    ensures
        entry.inner is Simple && entry.inner->kind == Some(RawEntryKind::Error) ==> {
            &&& reported_at(entry, key).len() == entry.frames@.filter(
                |frame: Frame| frame.file@ == key.0 && frame.line == key.1,
            ).len()
            &&& forall|i: int|
                0 <= i < reported_at(entry, key).len() ==> #[trigger] reported_at(entry, key)[i]
                    == entry.inner->out@
        },
        !(entry.inner is Simple && entry.inner->kind == Some(RawEntryKind::Error)) ==> reported_at(
            entry,
            key,
        ).len() == 0,
{
    lemma_count(entry.frames@, key);
}

proof fn lemma_count(frames: Seq<Frame>, key: FrameKey)
    ensures
        frame_count(frames, key) == frames.filter(
            |frame: Frame| frame.file@ == key.0 && frame.line == key.1,
        ).len(),
    decreases frames.len(),
{
    reveal(Seq::filter);
    if frames.len() > 0 {
        lemma_count(frames.drop_last(), key);
    }
}

/// The edits of a run are those of the entries that hold edits, and of no others.
pub proof fn law_edits_are_collected(entry: RawEntry)
    ensures
        entry.inner is Edits ==> all_edits_of(seq![entry]) == edit_views(entry.inner->changes@),
        entry.inner is Simple ==> all_edits_of(seq![entry]).len() == 0,
{
    let raws = seq![entry];
    reveal_with_fuel(all_edits_of, 2);
    assert(raws.drop_last() =~= Seq::<RawEntry>::empty());
    assert(all_edits_of(raws) =~= edits_of(entry));
}

/// Of a run that has sent one entry, what is kept by frame is what this entry shows and reports;
/// frames at which there is nothing are not kept.
pub proof fn law_frames_of_one_entry(entry: RawEntry, path: Seq<char>, key: FrameKey)
    ensures
        shown_frames(seq![entry], path).dom().contains(key) <==> shown_at(entry, path, key).len()
            > 0,
        shown_frames(seq![entry], path).dom().contains(key) ==> shown_frames(seq![entry], path)[key]
            == shown_at(entry, path, key),
        reported_frames(seq![entry]).dom().contains(key) <==> reported_at(entry, key).len() > 0,
        reported_frames(seq![entry]).dom().contains(key) ==> reported_frames(seq![entry])[key]
            == reported_at(entry, key),
{
    let raws = seq![entry];
    reveal_with_fuel(all_shown_at, 2);
    reveal_with_fuel(all_reported_at, 2);
    assert(raws.drop_last() =~= Seq::<RawEntry>::empty());
    assert(all_shown_at(raws, path, key) =~= shown_at(entry, path, key));
    assert(all_reported_at(raws, key) =~= reported_at(entry, key));
}

/// What is kept by frame of two runs in a row is what is kept of the first and behind it what is
/// kept of the second, at every frame.
pub proof fn law_frames_add_up(
    a: Seq<RawEntry>,
    b: Seq<RawEntry>,
    path: Seq<char>,
    key: FrameKey,
)
    ensures
        shown_frames(Seq::empty(), path).dom().is_empty(),
        reported_frames(Seq::empty()).dom().is_empty(),
        ({
            let at = |map: Map<FrameKey, Seq<Seq<char>>>|
                if map.dom().contains(key) {
                    map[key]
                } else {
                    Seq::empty()
                };
            &&& at(shown_frames(a + b, path)) == at(shown_frames(a, path)) + at(
                shown_frames(b, path),
            )
            &&& at(reported_frames(a + b)) == at(reported_frames(a)) + at(reported_frames(b))
        }),
        shown_frames(a, path).dom().contains(key) ==> shown_frames(a, path)[key].len() > 0,
        reported_frames(a).dom().contains(key) ==> reported_frames(a)[key].len() > 0,
{
    law_output_adds_up(a, b, path, key);
    let at = |map: Map<FrameKey, Seq<Seq<char>>>|
        if map.dom().contains(key) {
            map[key]
        } else {
            Seq::empty()
        };
    assert(at(shown_frames(a, path)) =~= all_shown_at(a, path, key));
    assert(at(shown_frames(b, path)) =~= all_shown_at(b, path, key));
    assert(at(shown_frames(a + b, path)) =~= all_shown_at(a + b, path, key));
    assert(at(reported_frames(a)) =~= all_reported_at(a, key));
    assert(at(reported_frames(b)) =~= all_reported_at(b, key));
    assert(at(reported_frames(a + b)) =~= all_reported_at(a + b, key));
    assert(shown_frames(Seq::empty(), path).dom() =~= Set::empty());
    assert(reported_frames(Seq::empty()).dom() =~= Set::empty());
}

/// The entry that could be read from a line is kept if and only if a character of the line is not
/// white space; of a line that was not received there is none.
pub proof fn law_entries_of_lines_with_text_are_kept(sent: SentLine)
    ensures
        (exists|i: int| 0 <= i < sent.line@.len() && !is_white_space(#[trigger] sent.line@[i]))
            ==> kept_entry(sent.line@, sent.parsed) == sent.parsed,
        (forall|i: int| 0 <= i < sent.line@.len() ==> is_white_space(#[trigger] sent.line@[i]))
            ==> kept_entry(sent.line@, sent.parsed) is None,
        received_entry(Some(sent)) == kept_entry(sent.line@, sent.parsed),
        received_entry(None) is None,
{
}

/// The items of a run add up line by line: a line that holds an entry makes an item of it, one that
/// was not received makes one that is not readable, and any other makes none.
pub proof fn law_items_add_up(
    a: Seq<Option<SentLine>>,
    b: Seq<Option<SentLine>>,
    sent: SentLine,
)
    ensures
        run_items(a + b) == run_items(a) + run_items(b),
        run_items(seq![None]) == seq![None::<RawEntry>],
        kept_entry(sent.line@, sent.parsed) is Some ==> run_items(seq![Some(sent)]) == seq![
            kept_entry(sent.line@, sent.parsed),
        ],
        kept_entry(sent.line@, sent.parsed) is None ==> run_items(seq![Some(sent)]).len() == 0,
    decreases b.len(),
{
    let none = Seq::<Option<SentLine>>::empty();
    reveal(Seq::filter);
    assert(run_items(none) =~= Seq::<Option<RawEntry>>::empty());
    lemma_one_more_item(none, None);
    lemma_one_more_item(none, Some(sent));
    assert(none.push(None) =~= seq![None]);
    assert(none.push(Some(sent)) =~= seq![Some(sent)]);
    assert(run_items(seq![None]) =~= seq![None::<RawEntry>]);
    if kept_entry(sent.line@, sent.parsed) is Some {
        assert(run_items(seq![Some(sent)]) =~= seq![kept_entry(sent.line@, sent.parsed)]);
    }
    if b.len() == 0 {
        assert(a + b =~= a);
        assert(run_items(b) =~= Seq::<Option<RawEntry>>::empty());
        assert(run_items(a) + run_items(b) =~= run_items(a));
    } else {
        law_items_add_up(a, b.drop_last(), sent);
        lemma_one_more_item(a + b.drop_last(), b.last());
        lemma_one_more_item(b.drop_last(), b.last());
        assert((a + b.drop_last()).push(b.last()) =~= a + b);
        assert(b.drop_last().push(b.last()) =~= b);
        assert(run_items(a + b) =~= run_items(a) + run_items(b));
    }
}

/// The readable items are the entries among them, in order.
pub proof fn law_readable_items_add_up(
    a: Seq<Option<RawEntry>>,
    b: Seq<Option<RawEntry>>,
    entry: RawEntry,
)
    ensures
        readable(a + b) == readable(a) + readable(b),
        readable(seq![Some(entry)]) == seq![entry],
        readable(seq![None]).len() == 0,
    decreases b.len(),
{
    reveal_with_fuel(readable, 2);
    assert(seq![Some(entry)].drop_last() =~= Seq::<Option<RawEntry>>::empty());
    assert(seq![None::<RawEntry>].drop_last() =~= Seq::<Option<RawEntry>>::empty());
    assert(readable(seq![Some(entry)]) =~= seq![entry]);
    if b.len() == 0 {
        assert(a + b =~= a);
        assert(readable(a) + readable(b) =~= readable(a));
    } else {
        law_readable_items_add_up(a, b.drop_last(), entry);
        assert((a + b).drop_last() =~= a + b.drop_last());
        assert((a + b).last() == b.last());
        assert(readable(a + b) =~= readable(a) + readable(b));
    }
}

/// A run changes nothing but what is kept of runs, and one that could not be started not even that.
/// What is kept is what the run has sent, whatever was kept before.
pub proof fn law_runs_change_only_what_is_kept_of_them(
    state: BackendView,
    other: BackendView,
    path: Seq<char>,
    sent: Result<Vec<Option<RawEntry>>, String>,
    key: FrameKey,
)
    ensures
        after_run(state, path, sent).languages == state.languages,
        after_run(state, path, sent).base_dir == state.base_dir,
        after_run(state, path, sent).buffers == state.buffers,
        sent is Err ==> after_run(state, path, sent) == state,
        sent matches Ok(items) ==> {
            let after = after_run(state, path, sent);
            let raws = readable(items@);
            &&& after.entries == after_run(other, path, sent).entries
            &&& after.hovers == after_run(other, path, sent).hovers
            &&& after.changes == all_edits_of(raws)
            &&& after.entries.dom().contains(key) <==> all_shown_at(raws, path, key).len() > 0
            &&& after.entries.dom().contains(key) ==> after.entries[key] == all_shown_at(
                raws,
                path,
                key,
            )
            &&& after.hovers.dom().contains(key) <==> all_reported_at(raws, key).len() > 0
            &&& after.hovers.dom().contains(key) ==> after.hovers[key] == all_reported_at(raws, key)
        },
{
}

/// Whether what is kept fits a buffer is a matter of each frame in the file: its line must be one
/// of the buffer. Frames in other files do not matter.
pub proof fn law_each_frame_must_fit(
    map: Map<FrameKey, Seq<Seq<char>>>,
    path: Seq<char>,
    count: nat,
    key: FrameKey,
    texts: Seq<Seq<char>>,
)
    ensures
        frames_fit(Map::empty(), path, count),
        key.0 == path ==> (frames_fit(map.insert(key, texts), path, count) <==> frames_fit(
            map,
            path,
            count,
        ) && 1 <= key.1 <= count),
        key.0 != path ==> (frames_fit(map.insert(key, texts), path, count) <==> frames_fit(
            map,
            path,
            count,
        )),
{
    let more = map.insert(key, texts);
    assert(forall|line: u64| map.dom().contains((path, line)) ==> #[trigger] more.dom().contains((
        path,
        line,
    )));
    if frames_fit(more, path, count) {
        assert forall|line: u64| #[trigger] map.dom().contains((path, line)) implies 1 <= line
            <= count by {
            assert(more.dom().contains((path, line)));
        }
        if key.0 == path {
            assert(more.dom().contains((path, key.1)));
        }
    }
    if frames_fit(map, path, count) && (key.0 != path || 1 <= key.1 <= count) {
        assert forall|line: u64| #[trigger] more.dom().contains((path, line)) implies 1 <= line
            <= count by {
            if (path, line) != key {
                assert(map.dom().contains((path, line)));
            }
        }
    }
}

/// Every diagnostic marks the whole of its own line, from its first character to the end of its line
/// break, comes from this server, and says all errors of the line in a row.
pub proof fn law_diagnostics_mark_their_own_line(
    hovers: Map<FrameKey, Seq<Seq<char>>>,
    path: Seq<char>,
    text: Seq<char>,
    i: int,
)
    requires
        0 <= i < diagnostic_update(hovers, path, text).len(),
    ensures
        ({
            let d = diagnostic_update(hovers, path, text)[i];
            &&& 0 <= d.start_line < lines_of(text).len()
            &&& d.end_line == d.start_line
            &&& d.start_character == 0
            &&& d.end_character == lines_of(text)[d.start_line].len()
            &&& d.source == "nwn"@
            &&& d.start_line < u64::MAX
            &&& hovers.dom().contains((path, (d.start_line + 1) as u64))
            &&& d.message == hovers[(path, (d.start_line + 1) as u64)].flatten()
        }),
{
    let lines = lines_of(text);
    let errors = texts_by_line(hovers, path, lines.len() as int);
    lemma_texts_by_line(hovers, path, lines.len() as int);
    lemma_texts_are_held(hovers, path, lines.len() as int);
    assert(diagnostic_update(hovers, path, text).len() == errors.len());
    assert(1 <= errors[i].line <= lines.len());
    assert(errors[i].texts == hovers[(path, errors[i].line as u64)]);
}

proof fn lemma_texts_are_held(map: Map<FrameKey, Seq<Seq<char>>>, path: Seq<char>, last: int)
    ensures
        forall|i: int|
            0 <= i < texts_by_line(map, path, last).len() ==> (#[trigger] texts_by_line(
                map,
                path,
                last,
            )[i]).texts == map[(path, texts_by_line(map, path, last)[i].line as u64)],
    decreases last,
{
    if last > 0 {
        lemma_texts_are_held(map, path, last - 1);
        let before = texts_by_line(map, path, last - 1);
        let now = texts_by_line(map, path, last);
        assert(forall|i: int| 0 <= i < before.len() ==> #[trigger] now[i] == before[i]);
    }
}

} // verus!
