//! That the mathematical terms stand for the values: part by part, and element by element.

use crate::comments::{output_views, LineOutput};
use crate::config::{language_views, shared_views, LanguageConfig};
use crate::diagnostics::{diagnostic_views, Diagnostic};
use crate::frames::{is_at, texts, FrameMap};
use crate::protocol::{edit_views, Frame, FrameKey, TextEdit};
use crate::text::string_views;
use std::sync::Arc;
use vstd::prelude::*;
use vstd::string::*;

verus! {

/// An edit is told by its range and its text.
pub proof fn law_edits_stand_for_themselves(edits: Seq<TextEdit>, i: int)
    requires
        0 <= i < edits.len(),
    ensures
        edit_views(edits).len() == edits.len(),
        edit_views(edits)[i].start_line == edits[i].range.start.line,
        edit_views(edits)[i].start_character == edits[i].range.start.character,
        edit_views(edits)[i].end_line == edits[i].range.end.line,
        edit_views(edits)[i].end_character == edits[i].range.end.character,
        edit_views(edits)[i].new_text == edits[i].new_text@,
{
}

/// A diagnostic is told by its range, its source and its message.
pub proof fn law_diagnostics_stand_for_themselves(list: Seq<Diagnostic>, i: int)
    requires
        0 <= i < list.len(),
    ensures
        diagnostic_views(list).len() == list.len(),
        diagnostic_views(list)[i].start_line == list[i].range.start.line,
        diagnostic_views(list)[i].start_character == list[i].range.start.character,
        diagnostic_views(list)[i].end_line == list[i].range.end.line,
        diagnostic_views(list)[i].end_character == list[i].range.end.character,
        diagnostic_views(list)[i].source == list[i].source@,
        diagnostic_views(list)[i].message == list[i].message@,
{
}

/// A language is told by all parts of its config, shared or not.
pub proof fn law_languages_stand_for_themselves(
    list: Seq<LanguageConfig>,
    shared: Seq<Arc<LanguageConfig>>,
    i: int,
    k: int,
)
    requires
        0 <= i < list.len(),
        shared.len() == list.len(),
        *shared[i] == list[i],
        0 <= k < list[i].runner.args@.len(),
    ensures
        language_views(list).len() == list.len(),
        shared_views(shared).len() == shared.len(),
        shared_views(shared)[i] == language_views(list)[i],
        language_views(list)[i].extension == list[i].extension@,
        language_views(list)[i].command == list[i].runner.command@,
        language_views(list)[i].args.len() == list[i].runner.args@.len(),
        language_views(list)[i].args[k] == list[i].runner.args@[k]@,
        language_views(list)[i].line_comment == list[i].line_comment@,
        language_views(list)[i].on_change == list[i].on_change,
        language_views(list)[i].places == list[i].places@,
{
}

/// Texts and outputs are told one by one.
pub proof fn law_texts_stand_for_themselves(
    strings: Seq<String>,
    out: Seq<Arc<String>>,
    outputs: Seq<LineOutput>,
    i: int,
)
    ensures
        string_views(strings).len() == strings.len(),
        0 <= i < strings.len() ==> string_views(strings)[i] == strings[i]@,
        texts(out).len() == out.len(),
        0 <= i < out.len() ==> texts(out)[i] == out[i]@,
        output_views(outputs).len() == outputs.len(),
        0 <= i < outputs.len() ==> output_views(outputs)[i].line == outputs[i].line
            && output_views(outputs)[i].text == outputs[i].text@,
{
}

/// A frame is told by its file and its line, and what is kept by frame by its pairs: each is there,
/// and nothing else is.
pub proof fn law_frames_stand_for_themselves(map: FrameMap, i: int, key: FrameKey, frame: Frame)
    requires
        map.wf(),
        0 <= i < map.pairs@.len(),
    ensures
        frame@.0 == frame.file@,
        frame@.1 == frame.line,
        map@.dom().contains((map.pairs@[i].0.file@, map.pairs@[i].0.line)),
        map@[(map.pairs@[i].0.file@, map.pairs@[i].0.line)] == texts(map.pairs@[i].1.out@),
        map@.dom().contains(key) ==> exists|j: int|
            0 <= j < map.pairs@.len() && (#[trigger] map.pairs@[j]).0.file@ == key.0
                && map.pairs@[j].0.line == key.1,
{
    map.lemma_pair(i);
    if map@.dom().contains(key) {
        let j = choose|j: int| is_at(map.pairs@, key, j);
        assert(map.pairs@[j].0@ == key);
        assert(map.pairs@[j].0.file@ == key.0);
    }
}

} // verus!
