//! Runtimes: how they are started, and what is kept of what they send.

use crate::frames::{texts_for, FrameMap};
use crate::protocol::{
    edit_views, EditView, Frame, FrameKey, RawEntry, RawEntryInner, RawEntryKind, TextEdit,
};
use crate::rope::{rope_string, rope_text};
use crate::text::{decimal, decimal_of, is_blank, is_blank_text, share};
use ropey::Rope;
use std::sync::Arc;
use vstd::prelude::*;
use vstd::string::*;
use vstd::utf8::encode_utf8;

verus! {

/// Information for how to run a runtime.
#[derive(Debug)]
pub struct Runner {
    /// The command to run.
    pub command: String,
    /// The arguments to run it with.
    pub args: Vec<String>,
}

/// A process to start.
#[derive(Debug)]
pub struct RunCommand {
    pub command: String,
    pub args: Vec<String>,
    /// The variables to add to its environment, as names and values.
    pub env: Vec<(String, String)>,
    /// The name of the variable that tells it which socket to connect to.
    pub connection_env: String,
}

/// The same strings once more.
pub fn copy_strings(strings: &Vec<String>) -> (copy: Vec<String>)
    ensures
        copy@ == strings@,
{
    let mut copy: Vec<String> = Vec::new();
    let mut i: usize = 0;
    while i < strings.len()
        invariant
            i <= strings@.len(),
            copy@ == strings@.take(i as int),
        decreases strings@.len() - i,
    {
        copy.push(strings[i].clone());
        assert(strings@.take(i + 1) =~= strings@.take(i as int).push(strings@[i as int]));
        i += 1;
    }
    assert(strings@.take(i as int) =~= strings@);
    copy
}

/// A line that a runtime has sent, and the entry that could be read from it.
#[derive(Debug)]
pub struct SentLine {
    pub line: String,
    pub parsed: Option<RawEntry>,
}

/// What is kept of a line where `parsed` is the entry that could be read from it: nothing of a blank
/// line, and nothing where no entry could be read.
pub open spec fn kept_entry(line: Seq<char>, parsed: Option<RawEntry>) -> Option<RawEntry> {
    if is_blank_text(line) {
        None
    } else {
        parsed
    }
}

/// The entry that is kept of a line, where it was received and there is one.
pub open spec fn received_entry(received: Option<SentLine>) -> Option<RawEntry> {
    match received {
        Some(sent) => kept_entry(sent.line@, sent.parsed),
        None => None,
    }
}

/// Whether a line makes an item of a run: it holds an entry, or could not be received.
pub open spec fn is_item(received: Option<SentLine>) -> bool {
    received is None || received_entry(received) is Some
}

/// The items of a run: the entries of the lines that hold one, and `None` for each line that could
/// not be received, in the order of the lines.
pub open spec fn run_items(sent: Seq<Option<SentLine>>) -> Seq<Option<RawEntry>> {
    sent.filter(|received: Option<SentLine>| is_item(received)).map_values(
        |received: Option<SentLine>| received_entry(received),
    )
}

/// What one more line adds to the items of a run.
pub proof fn lemma_one_more_item(sent: Seq<Option<SentLine>>, received: Option<SentLine>)
    ensures
        run_items(sent.push(received)) == if is_item(received) {
            run_items(sent).push(received_entry(received))
        } else {
            run_items(sent)
        },
{
    reveal(Seq::filter);
    let all = sent.push(received);
    assert(all.drop_last() =~= sent);
    assert(all.last() == received);
    assert(run_items(all) =~= if is_item(received) {
        run_items(sent).push(received_entry(received))
    } else {
        run_items(sent)
    });
}

impl Runner {
    /// The name of the socket that a runtime started at `millis` connects to.
    pub fn socket_name(millis: u128) -> (name: String)
        ensures
            name@ == "nwn_conn"@ + decimal(millis as nat),
    {
        let mut name = "nwn_conn".to_owned();
        name.append(decimal_of(millis).as_str());
        name
    }

    /// The process that runs the file `path`.
    pub fn run(&self, path: &str) -> (process: RunCommand)
        ensures
            process.command@ == self.command@,
            process.args@ == self.args@,
            process.env@.len() == 1,
            process.env@[0].0@ == "NWN_FILE_PATH"@,
            process.env@[0].1@ == path@,
            process.connection_env@ == "NWN_CONNECTION_FD"@,
    {
        let mut env: Vec<(String, String)> = Vec::new();
        env.push(("NWN_FILE_PATH".to_owned(), path.to_owned()));
        RunCommand {
            command: self.command.clone(),
            args: copy_strings(&self.args),
            env,
            connection_env: "NWN_CONNECTION_FD".to_owned(),
        }
    }

    /// What is sent to a runtime: the text to run, and a zero byte behind it.
    pub fn request(input: &Rope) -> (bytes: Vec<u8>)
        ensures
            bytes@ == encode_utf8(rope_text(*input)).push(0),
    {
        let mut bytes = rope_string(input).as_str().as_bytes_vec();
        bytes.push(0);
        bytes
    }

    /// Whether a line that a runtime has sent holds an entry. Blank lines do not.
    pub fn holds_entry(line: &str) -> (holds: bool)
        ensures
            holds == !is_blank_text(line@),
    {
        !is_blank(line)
    }

    /// What is kept of a line that a runtime has sent, where `parsed` is the entry that could be
    /// read from it: nothing of a blank line, and nothing where no entry could be read.
    pub fn entry_of(line: &str, parsed: Option<RawEntry>) -> (kept: Option<RawEntry>)
        ensures
            kept == kept_entry(line@, parsed),
    {
        if Runner::holds_entry(line) {
            parsed
        } else {
            None
        }
    }

    /// What has come of the lines that a runtime has sent, in their order, where `None` is a line
    /// that could not be received: an entry for each line that is not blank and that one could be
    /// read from, and nothing for the other lines that were received.
    pub fn items_of(sent: Vec<Option<SentLine>>) -> (items: Vec<Option<RawEntry>>)
        ensures
            items@ == run_items(sent@),
    {
        let ghost all = sent@;
        let mut items: Vec<Option<RawEntry>> = Vec::new();
        proof {
            reveal(Seq::filter);
            assert(run_items(all.take(0)) =~= Seq::<Option<RawEntry>>::empty());
        }
        for received in it: sent
            invariant
                it.seq() == all,
                items@ == run_items(all.take(it.index())),
        {
            proof {
                lemma_one_more_item(all.take(it.index()), received);
                assert(all.take(it.index() + 1) =~= all.take(it.index()).push(received));
            }
            match received {
                Some(SentLine { line, parsed }) => {
                    if let Some(entry) = Runner::entry_of(line.as_str(), parsed) {
                        items.push(Some(entry));
                    }
                },
                None => {
                    items.push(None);
                },
            }
        }
        assert(all.take(all.len() as int) =~= all);
        items
    }
}

/// The first of `frames` in the file `path`.
pub open spec fn first_frame(frames: Seq<Frame>, path: Seq<char>) -> Option<FrameKey>
    decreases frames.len(),
{
    if frames.len() == 0 {
        None
    } else if frames[0].file@ == path {
        Some(frames[0]@)
    } else {
        first_frame(frames.skip(1), path)
    }
}

/// The last of `frames` in the file `path`.
pub open spec fn last_frame(frames: Seq<Frame>, path: Seq<char>) -> Option<FrameKey>
    decreases frames.len(),
{
    if frames.len() == 0 {
        None
    } else if frames.last().file@ == path {
        Some(frames.last()@)
    } else {
        last_frame(frames.drop_last(), path)
    }
}

/// How often `key` occurs among `frames`.
pub open spec fn frame_count(frames: Seq<Frame>, key: FrameKey) -> nat
    decreases frames.len(),
{
    if frames.len() == 0 {
        0
    } else {
        frame_count(frames.drop_last(), key) + if frames.last()@ == key {
            1nat
        } else {
            0nat
        }
    }
}

/// The text that an entry shows below the line of frame `key` when `path` is run: debug output
/// belongs to the last frame in the file, other output to the first one, and errors to none.
pub open spec fn shown_at(entry: RawEntry, path: Seq<char>, key: FrameKey) -> Seq<Seq<char>> {
    match entry.inner {
        RawEntryInner::Simple { out, kind } => {
            let target = match kind {
                Some(RawEntryKind::Error) => None,
                Some(RawEntryKind::Debug) => last_frame(entry.frames@, path),
                _ => first_frame(entry.frames@, path),
            };
            if target == Some(key) {
                seq![out@]
            } else {
                Seq::empty()
            }
        },
        RawEntryInner::Edits { changes } => Seq::empty(),
    }
}

/// The texts that an entry reports as errors at frame `key`: an error belongs to all its frames,
/// once for each time a frame is among them.
pub open spec fn reported_at(entry: RawEntry, key: FrameKey) -> Seq<Seq<char>> {
    match entry.inner {
        RawEntryInner::Simple { out, kind: Some(RawEntryKind::Error) } => Seq::new(
            frame_count(entry.frames@, key),
            |i: int| out@,
        ),
        _ => Seq::empty(),
    }
}

/// The edits that an entry asks for.
pub open spec fn edits_of(entry: RawEntry) -> Seq<EditView> {
    match entry.inner {
        RawEntryInner::Edits { changes } => edit_views(changes@),
        _ => Seq::empty(),
    }
}

/// All that `raws` show below the line of frame `key`, in the order in which it came.
pub open spec fn all_shown_at(raws: Seq<RawEntry>, path: Seq<char>, key: FrameKey) -> Seq<
    Seq<char>,
>
    decreases raws.len(),
{
    if raws.len() == 0 {
        Seq::empty()
    } else {
        all_shown_at(raws.drop_last(), path, key) + shown_at(raws.last(), path, key)
    }
}

/// All errors that `raws` report at frame `key`, in the order in which they came.
pub open spec fn all_reported_at(raws: Seq<RawEntry>, key: FrameKey) -> Seq<Seq<char>>
    decreases raws.len(),
{
    if raws.len() == 0 {
        Seq::empty()
    } else {
        all_reported_at(raws.drop_last(), key) + reported_at(raws.last(), key)
    }
}

/// All edits that `raws` ask for, in the order in which they came.
pub open spec fn all_edits_of(raws: Seq<RawEntry>) -> Seq<EditView>
    decreases raws.len(),
{
    if raws.len() == 0 {
        Seq::empty()
    } else {
        all_edits_of(raws.drop_last()) + edits_of(raws.last())
    }
}

/// The frames that `raws` show something at, with all that they show there.
pub open spec fn shown_frames(raws: Seq<RawEntry>, path: Seq<char>) -> Map<
    FrameKey,
    Seq<Seq<char>>,
> {
    Map::new(
        |key: FrameKey| all_shown_at(raws, path, key).len() > 0,
        |key: FrameKey| all_shown_at(raws, path, key),
    )
}

/// The frames that `raws` report errors at, with all that they report there.
pub open spec fn reported_frames(raws: Seq<RawEntry>) -> Map<FrameKey, Seq<Seq<char>>> {
    Map::new(
        |key: FrameKey| all_reported_at(raws, key).len() > 0,
        |key: FrameKey| all_reported_at(raws, key),
    )
}

/// What a run has sent.
#[derive(Debug)]
pub struct RunData {
    /// The output to show, by frame.
    pub entries: FrameMap,
    /// The errors, by frame.
    pub hovers: FrameMap,
    /// The edits that the runtime asks for.
    pub changes: Vec<TextEdit>,
}

fn find_first(frames: &Vec<Frame>, path: &String) -> (found: Option<usize>)
    ensures
        match found {
            Some(i) => i < frames@.len() && first_frame(frames@, path@) == Some(frames@[i as int]@),
            None => first_frame(frames@, path@) is None,
        },
{
    let mut i: usize = 0;
    assert(frames@.skip(0) =~= frames@);
    while i < frames.len()
        invariant
            i <= frames@.len(),
            first_frame(frames@, path@) == first_frame(frames@.skip(i as int), path@),
        decreases frames@.len() - i,
    {
        if frames[i].file == *path {
            return Some(i);
        }
        assert(frames@.skip(i as int).skip(1) =~= frames@.skip(i + 1));
        i += 1;
    }
    None
}

fn find_last(frames: &Vec<Frame>, path: &String) -> (found: Option<usize>)
    ensures
        match found {
            Some(i) => i < frames@.len() && last_frame(frames@, path@) == Some(frames@[i as int]@),
            None => last_frame(frames@, path@) is None,
        },
{
    let mut i: usize = frames.len();
    assert(frames@.take(i as int) =~= frames@);
    while i > 0
        invariant
            i <= frames@.len(),
            last_frame(frames@, path@) == last_frame(frames@.take(i as int), path@),
        decreases i,
    {
        if frames[i - 1].file == *path {
            return Some((i - 1) as usize);
        }
        assert(frames@.take(i as int).drop_last() =~= frames@.take(i - 1));
        i -= 1;
    }
    None
}

impl RunData {
    pub open spec fn wf(self) -> bool {
        self.entries.wf() && self.hovers.wf()
    }

    /// What is there before a run.
    pub fn new() -> (data: RunData)
        ensures
            data.wf(),
            data.entries@ == Map::<FrameKey, Seq<Seq<char>>>::empty(),
            data.hovers@ == Map::<FrameKey, Seq<Seq<char>>>::empty(),
            data.changes@.len() == 0,
    {
        RunData { entries: FrameMap::new(), hovers: FrameMap::new(), changes: Vec::new() }
    }

    /// Takes in one entry that a run of `path` has sent.
    pub fn add(&mut self, entry: RawEntry, path: &String)
        requires
            old(self).wf(),
        ensures
            final(self).wf(),
            forall|key: FrameKey|
                #[trigger] texts_for(final(self).entries@, key) == texts_for(
                    old(self).entries@,
                    key,
                ) + shown_at(entry, path@, key),
            forall|key: FrameKey|
                #[trigger] texts_for(final(self).hovers@, key) == texts_for(
                    old(self).hovers@,
                    key,
                ) + reported_at(entry, key),
            edit_views(final(self).changes@) == edit_views(old(self).changes@) + edits_of(entry),
    {
        let RawEntry { frames, inner } = entry;
        match inner {
            RawEntryInner::Simple { out, kind } => {
                let text = Arc::new(out);
                match kind {
                    Some(RawEntryKind::Error) => {
                        let mut i: usize = 0;
                        while i < frames.len()
                            invariant
                                i <= frames@.len(),
                                self.wf(),
                                self.entries == old(self).entries,
                                self.changes == old(self).changes,
                                forall|key: FrameKey|
                                    #[trigger] texts_for(self.hovers@, key) == texts_for(
                                        old(self).hovers@,
                                        key,
                                    ) + Seq::new(
                                        frame_count(frames@.take(i as int), key),
                                        |n: int| text@,
                                    ),
                            decreases frames@.len() - i,
                        {
                            let ghost before = self.hovers@;
                            self.hovers.add(frames[i].copy(), share(&text));
                            proof {
                                assert(frames@.take(i + 1).drop_last() =~= frames@.take(i as int));
                                assert forall|key: FrameKey| #[trigger]
                                    texts_for(self.hovers@, key) == texts_for(
                                        old(self).hovers@,
                                        key,
                                    ) + Seq::new(
                                        frame_count(frames@.take(i + 1), key),
                                        |n: int| text@,
                                    ) by {
                                    assert(texts_for(before, key) == texts_for(
                                        old(self).hovers@,
                                        key,
                                    ) + Seq::new(
                                        frame_count(frames@.take(i as int), key),
                                        |n: int| text@,
                                    ));
                                    assert(texts_for(self.hovers@, key) =~= texts_for(
                                        old(self).hovers@,
                                        key,
                                    ) + Seq::new(
                                        frame_count(frames@.take(i + 1), key),
                                        |n: int| text@,
                                    ));
                                }
                            }
                            i += 1;
                        }
                        assert(frames@.take(i as int) =~= frames@);
                    },
                    Some(RawEntryKind::Debug) => {
                        if let Some(i) = find_last(&frames, path) {
                            self.entries.add(frames[i].copy(), text);
                        }
                    },
                    _ => {
                        if let Some(i) = find_first(&frames, path) {
                            self.entries.add(frames[i].copy(), text);
                        }
                    },
                }
            },
            RawEntryInner::Edits { changes } => {
                let mut changes = changes;
                self.changes.append(&mut changes);
            },
        }
        proof {
            assert forall|key: FrameKey| #[trigger] texts_for(self.entries@, key) == texts_for(
                old(self).entries@,
                key,
            ) + shown_at(entry, path@, key) by {
                assert(texts_for(self.entries@, key) =~= texts_for(old(self).entries@, key)
                    + shown_at(entry, path@, key));
            }
            assert forall|key: FrameKey| #[trigger] texts_for(self.hovers@, key) == texts_for(
                old(self).hovers@,
                key,
            ) + reported_at(entry, key) by {
                assert(texts_for(self.hovers@, key) =~= texts_for(old(self).hovers@, key)
                    + reported_at(entry, key));
            }
            assert(edit_views(self.changes@) =~= edit_views(old(self).changes@) + edits_of(entry));
        }
    }

    /// Sorts the entries that a run of `path` has sent by what is to be done with them.
    pub fn from_raw(raws: Vec<RawEntry>, path: &str) -> (data: RunData)
        ensures
            data.wf(),
            data.entries@ == shown_frames(raws@, path@),
            data.hovers@ == reported_frames(raws@),
            edit_views(data.changes@) == all_edits_of(raws@),
    {
        let ghost all = raws@;
        let path = path.to_owned();
        let mut data = RunData::new();
        assert(all.take(0) =~= Seq::<RawEntry>::empty());
        for entry in it: raws
            invariant
                data.wf(),
                it.seq() == all,
                forall|key: FrameKey|
                    #[trigger] texts_for(data.entries@, key) == all_shown_at(
                        all.take(it.index()),
                        path@,
                        key,
                    ),
                forall|key: FrameKey|
                    #[trigger] texts_for(data.hovers@, key) == all_reported_at(
                        all.take(it.index()),
                        key,
                    ),
                edit_views(data.changes@) == all_edits_of(all.take(it.index())),
        {
            data.add(entry, &path);
            proof {
                assert(all.take(it.index() + 1).drop_last() =~= all.take(it.index()));
                assert(all.take(it.index() + 1).last() == entry);
            }
        }
        proof {
            assert(all.take(all.len() as int) =~= all);
            data.entries.lemma_no_empty();
            data.hovers.lemma_no_empty();
            assert forall|key: FrameKey| #[trigger] data.entries@.dom().contains(key) <==>
                all_shown_at(all, path@, key).len() > 0 by {
                assert(texts_for(data.entries@, key) == all_shown_at(all, path@, key));
            }
            assert forall|key: FrameKey| #[trigger] data.hovers@.dom().contains(key) <==>
                all_reported_at(all, key).len() > 0 by {
                assert(texts_for(data.hovers@, key) == all_reported_at(all, key));
            }
            assert forall|key: FrameKey| #[trigger]
                data.entries@.dom().contains(key) implies data.entries@[key] == all_shown_at(
                all,
                path@,
                key,
            ) by {
                assert(texts_for(data.entries@, key) == all_shown_at(all, path@, key));
            }
            assert forall|key: FrameKey| #[trigger]
                data.hovers@.dom().contains(key) implies data.hovers@[key] == all_reported_at(
                all,
                key,
            ) by {
                assert(texts_for(data.hovers@, key) == all_reported_at(all, key));
            }
            assert(data.entries@ =~= shown_frames(all, path@));
            assert(data.hovers@ =~= reported_frames(all));
        }
        data
    }
}

} // verus!
