//! How calls of the library relate to what they are given, and to each other.

use crate::backend::{Backend, DocumentUri, Reload, SaveAnswer};
use crate::comments::{find_prev_output, is_output_line};
use crate::config::{Config, ConfigSearch, LanguageConfig};
use crate::config_laws::law_first_config_that_loads_is_taken;
use crate::diagnostics::{diagnostic_views, Diagnostic};
use crate::folding::{
    find_output_ranges, index_views, is_foldable, lemma_output_indices, FoldingRange,
};
use crate::output_laws::law_blocks_end_at_the_first_other_line;
use crate::protocol::{edit_views, RawEntry, TextEdit};
use crate::rope::{lines_of, rope_text, slice_text};
use crate::runner::{RunCommand, Runner};
use crate::text::decimal;
use crate::text_laws::law_digits_give_the_number;
use crate::util::rope_starts_with;
use ropey::{Rope, RopeSlice};
use std::sync::Arc;
use vstd::prelude::*;
use vstd::string::*;
use vstd::utf8::{decode_utf8, encode_utf8, encode_utf8_decode_utf8};

verus! {

/// What is sent to a runtime ends in a zero byte, and what precedes it is the text.
pub proof fn law_requests_end_in_a_zero_byte(input: Rope, bytes: Vec<u8>)
    requires
        call_ensures(Runner::request, (&input,), bytes),
    ensures
        bytes@.len() > 0,
        bytes@.last() == 0,
        decode_utf8(bytes@.drop_last()) == rope_text(input),
{
    assert(bytes@.drop_last() =~= encode_utf8(rope_text(input)));
    encode_utf8_decode_utf8(rope_text(input));
}

/// Runtimes started at different times connect to different sockets, whose names start alike.
pub proof fn law_sockets_are_told_apart(a: u128, name: String, b: u128, other: String)
    requires
        call_ensures(Runner::socket_name, (a,), name),
        call_ensures(Runner::socket_name, (b,), other),
    ensures
        name@ == other@ ==> a == b,
        name@.len() > 8,
        name@.take(8) == "nwn_conn"@,
{
    reveal_strlit("nwn_conn");
    law_digits_give_the_number(a as nat);
    law_digits_give_the_number(b as nat);
    assert(name@.take(8) =~= "nwn_conn"@);
    assert(name@.skip(8) =~= decimal(a as nat));
    assert(other@.skip(8) =~= decimal(b as nat));
}

/// A process runs the command of its runner with all of its arguments, and is told the file and
/// nothing else that depends on it.
pub proof fn law_processes_run_the_command(
    runner: Runner,
    path: &str,
    process: RunCommand,
    other_path: &str,
    other: RunCommand,
)
    requires
        call_ensures(Runner::run, (&runner, path), process),
        call_ensures(Runner::run, (&runner, other_path), other),
    ensures
        process.command@ == runner.command@,
        process.args@.len() == runner.args@.len(),
        forall|i: int|
            0 <= i < runner.args@.len() ==> (#[trigger] process.args@[i])@ == runner.args@[i]@,
        process.env@.len() == 1,
        process.env@[0].0@ == "NWN_FILE_PATH"@,
        process.env@[0].1@ == path@,
        process.connection_env@ == "NWN_CONNECTION_FD"@,
        other.env@[0].0@ == process.env@[0].0@,
        other.connection_env@ == process.connection_env@,
{
}

/// A slice starts with a text if and only if the text is not longer and agrees with it character by
/// character.
pub proof fn law_slices_start_with_their_first_characters(
    slice: RopeSlice<'_>,
    text: &str,
    starts: bool,
)
    requires
        call_ensures(rope_starts_with, (&slice, text), starts),
    ensures
        starts <==> text@.len() <= slice_text(slice).len() && forall|i: int|
            0 <= i < text@.len() ==> #[trigger] text@[i] == slice_text(slice)[i],
{
    if starts {
        assert(slice_text(slice).subrange(0, text@.len() as int) =~= text@);
        assert forall|i: int| 0 <= i < text@.len() implies #[trigger] text@[i] == slice_text(
            slice,
        )[i] by {
            assert(slice_text(slice).subrange(0, text@.len() as int)[i] == text@[i]);
        }
    } else if text@.len() <= slice_text(slice).len() && forall|i: int|
        0 <= i < text@.len() ==> #[trigger] text@[i] == slice_text(slice)[i] {
        assert(slice_text(slice).subrange(0, text@.len() as int) =~= text@);
    }
}

/// The output lines that are found below a line start right below it, are all output, and the line
/// behind them is not; none are found only where the line below is not output.
pub proof fn law_found_output_lines_are_a_block(
    buffer: Rope,
    comment: &str,
    line: usize,
    found: Option<(usize, usize)>,
)
    requires
        call_ensures(find_prev_output, (&buffer, comment, line), found),
    ensures
        ({
            let lines = lines_of(rope_text(buffer));
            match found {
                Some((start, end)) => {
                    &&& start == line + 1
                    &&& start < end <= lines.len()
                    &&& forall|i: int|
                        start <= i < end ==> is_output_line(#[trigger] lines[i], comment@)
                    &&& end < lines.len() ==> !is_output_line(lines[end as int], comment@)
                },
                None => line + 1 >= lines.len() || !is_output_line(lines[line + 1], comment@),
            }
        }),
{
    let lines = lines_of(rope_text(buffer));
    match found {
        Some((start, end)) => {
            law_blocks_end_at_the_first_other_line(lines, comment@, start as int, end as int);
        },
        None => {
            if line + 1 < lines.len() {
                law_blocks_end_at_the_first_other_line(lines, comment@, line + 1, line + 1);
            }
        },
    }
}

/// The lines that are found to hold output are all output lines of the buffer, in order.
pub proof fn law_all_output_lines_are_found(
    contents: Rope,
    comment: &str,
    found: Vec<usize>,
    line: int,
)
    requires
        call_ensures(find_output_ranges, (&contents, comment), found),
    ensures
        ({
            let lines = lines_of(rope_text(contents));
            &&& forall|i: int, j: int|
                0 <= i < j < found@.len() ==> (#[trigger] found@[i]) < (#[trigger] found@[j])
            &&& (exists|i: int| 0 <= i < found@.len() && #[trigger] found@[i] == line) <==> 0 <= line
                < lines.len() && is_output_line(lines[line], comment@)
        }),
{
    let lines = lines_of(rope_text(contents));
    lemma_output_indices(lines, comment@, lines.len() as int);
    let views = index_views(found@);
    assert(forall|i: int| 0 <= i < found@.len() ==> views[i] == #[trigger] found@[i]);
    assert(views.len() == found@.len());
    if 0 <= line < lines.len() && is_output_line(lines[line], comment@) {
        assert(is_foldable(lines, comment@, line));
        let i = choose|i: int| 0 <= i < views.len() && #[trigger] views[i] == line;
        assert(found@[i] == line);
    }
}

/// An opened document has the text that it was opened with, which is also what is handed out;
/// nothing else changes.
pub proof fn law_opened_documents_have_their_text(
    backend: &mut Backend,
    uri: DocumentUri,
    text: &str,
    contents: Rope,
    other: Seq<char>,
)
    requires
        call_ensures(Backend::did_open, (backend, &uri, text), contents),
        other != uri.uri@,
    ensures
        rope_text(contents) == text@,
        final(backend)@.buffers.dom().contains(uri.uri@),
        final(backend)@.buffers[uri.uri@] == text@,
        final(backend)@.buffers.dom().contains(other) <==> old(backend)@.buffers.dom().contains(other),
        old(backend)@.buffers.dom().contains(other) ==> final(backend)@.buffers[other]
            == old(backend)@.buffers[other],
        final(backend)@.languages == old(backend)@.languages,
        final(backend)@.entries == old(backend)@.entries,
        final(backend)@.hovers == old(backend)@.hovers,
{
}

/// A changed document has the text of the first change. It is handed out if and only if its
/// language is run on each change; nothing else changes.
pub proof fn law_changed_documents_have_their_new_text(
    backend: &mut Backend,
    uri: DocumentUri,
    changes: Vec<String>,
    contents: Option<Rope>,
    config: Option<Arc<LanguageConfig>>,
    other: Seq<char>,
)
    requires
        changes@.len() > 0,
        call_ensures(Backend::did_change, (backend, &uri, &changes), contents),
        call_ensures(Backend::language_config_for_uri, (&*backend, &uri), config),
        other != uri.uri@,
    ensures
        contents is Some <==> config is Some && config->0.on_change,
        contents is Some ==> rope_text(contents->0) == changes@[0]@,
        final(backend)@.buffers.dom().contains(uri.uri@),
        final(backend)@.buffers[uri.uri@] == changes@[0]@,
        final(backend)@.buffers.dom().contains(other) <==> old(backend)@.buffers.dom().contains(other),
        old(backend)@.buffers.dom().contains(other) ==> final(backend)@.buffers[other]
            == old(backend)@.buffers[other],
        final(backend)@.languages == old(backend)@.languages,
        final(backend)@.entries == old(backend)@.entries,
        final(backend)@.hovers == old(backend)@.hovers,
{
}

/// A closed document has no text any more; nothing else changes.
pub proof fn law_closed_documents_are_forgotten(
    backend: &mut Backend,
    uri: DocumentUri,
    other: Seq<char>,
)
    requires
        call_ensures(Backend::did_close, (backend, &uri), ()),
        other != uri.uri@,
    ensures
        !final(backend)@.buffers.dom().contains(uri.uri@),
        final(backend)@.buffers.dom().contains(other) <==> old(backend)@.buffers.dom().contains(other),
        old(backend)@.buffers.dom().contains(other) ==> final(backend)@.buffers[other]
            == old(backend)@.buffers[other],
        final(backend)@.languages == old(backend)@.languages,
        final(backend)@.entries == old(backend)@.entries,
        final(backend)@.hovers == old(backend)@.hovers,
{
}

/// What is run when a document is saved is the text that saving it hands out, with the config of its
/// language; and there is a run if and only if it has one.
pub proof fn law_saved_text_is_run(
    backend: Backend,
    uri: DocumentUri,
    due: Option<Reload>,
    contents: Option<Rope>,
    config: Option<Arc<LanguageConfig>>,
)
    requires
        call_ensures(Backend::handle_save, (&backend, &uri), due),
        call_ensures(Backend::did_save, (&backend, &uri), contents),
        call_ensures(Backend::language_config_for_uri, (&backend, &uri), config),
    ensures
        due is Some <==> config is Some,
        due is Some ==> due->0.config@ == config->0@,
        due is Some && contents is Some ==> rope_text(due->0.input) == rope_text(contents->0),
        due is Some && contents is None ==> rope_text(due->0.input).len() == 0,
{
}

/// A document folds if and only if it is open, as it is handed out when it is saved.
pub proof fn law_open_documents_fold(
    backend: Backend,
    uri: DocumentUri,
    folds: Option<Vec<FoldingRange>>,
    contents: Option<Rope>,
)
    requires
        call_ensures(Backend::folding_range, (&backend, &uri), folds),
        call_ensures(Backend::did_save, (&backend, &uri), contents),
    ensures
        folds is Some <==> contents is Some,
{
}

/// The answer to a save is what the edits and the diagnostics are on the state after the run.
pub proof fn law_saves_are_answered_from_the_run(
    backend: &mut Backend,
    uri: DocumentUri,
    contents: Rope,
    sent: Result<Vec<Option<RawEntry>>, String>,
    answer: SaveAnswer,
    edits: Option<Vec<TextEdit>>,
    diagnostics: Vec<Diagnostic>,
)
    requires
        call_ensures(Backend::finish_save, (backend, &uri, &contents, sent), answer),
        call_ensures(Backend::update_comments, (&*final(backend), &uri, &contents), edits),
        call_ensures(
            Backend::update_diagnostics,
            (&*final(backend), &uri, &contents),
            diagnostics,
        ),
    ensures
        answer.edits is Ok ==> {
            &&& answer.edits->Ok_0 is Some <==> edits is Some
            &&& edits is Some ==> edit_views(answer.edits->Ok_0->0@) == edit_views(edits->0@)
        },
        answer.diagnostics is Ok ==> diagnostic_views(answer.diagnostics->Ok_0@)
            == diagnostic_views(diagnostics@),
        final(backend)@.buffers == old(backend)@.buffers,
        final(backend)@.languages == old(backend)@.languages,
{
}

/// A config that was found is taken over as it is; where none was, no language is left, and the
/// warning ends in the reason. Documents and what is kept of runs stay.
pub proof fn law_configs_are_taken_over(
    backend: &mut Backend,
    found: Result<Config, String>,
    warning: Option<String>,
)
    requires
        call_ensures(Backend::load_config, (backend, found), warning),
    ensures
        warning is None <==> found is Ok,
        found matches Ok(config) ==> final(backend)@.languages == config.by_extension()
            && final(backend)@.base_dir == config.base_dir@,
        found matches Err(err) ==> final(backend)@.languages.dom().is_empty()
            && warning->0@.len() >= err@.len() && warning->0@.skip(warning->0@.len() - err@.len())
            == err@,
        final(backend)@.buffers == old(backend)@.buffers,
        final(backend)@.entries == old(backend)@.entries,
        final(backend)@.hovers == old(backend)@.hovers,
{
    if let Err(err) = found {
        assert(warning->0@.skip(warning->0@.len() - err@.len()) =~= err@);
        assert(final(backend)@.languages.dom() =~= Set::empty());
    }
}

/// The search for a config goes through all locations in turn as long as none could be loaded, and
/// then fails; the first that could be loaded ends it.
pub proof fn law_config_search_goes_on(
    home: &str,
    attempts: Vec<Result<Config, String>>,
    step: ConfigSearch,
)
    requires
        call_ensures(Config::from_default_config, (home, attempts), step),
        forall|i: int| 0 <= i < attempts@.len() - 1 ==> (#[trigger] attempts@[i]) is Err,
    ensures
        attempts@.len() > 0 && attempts@.last() is Ok ==> step == ConfigSearch::Found(
            attempts@.last()->Ok_0,
        ),
        attempts@.len() == 0 ==> (step matches ConfigSearch::Load(path) && path@
            == "./.nwn.json"@),
        attempts@.len() == 1 && attempts@[0] is Err ==> (step matches ConfigSearch::Load(path)
            && path@ == home@ + "/.config/nwn/.nwn.json"@),
        attempts@.len() == 2 && attempts@[1] is Err ==> step is Missing,
{
    let tried = attempts@;
    if tried.len() > 0 && tried.last() is Ok {
        law_first_config_that_loads_is_taken(tried, tried.len() - 1);
    } else {
        law_first_config_that_loads_is_taken(tried, tried.len() as int);
    }
}

} // verus!
