//! The state of the server, and what each event does to it.

use crate::buffers::{buffer_texts, buffers_get, buffers_new, buffers_remove, buffers_set};
use crate::comments::{edits_up_to, file_comments, shown_lines};
use crate::config::{Config, LanguageConfig, LanguageView};
use crate::diagnostics::{
    diagnostic_views, file_diagnostics, line_diagnostics, Diagnostic, DiagnosticView,
};
use crate::folding::{are_runs, folding_ranges, is_foldable, FoldingRange};
use crate::frames::{frames_fit, texts_by_line};
use crate::protocol::{edit_views, EditView, FrameKey, RawEntry, TextEdit};
use crate::rope::{lines_of, rope_clone, rope_from_str, rope_len_lines, rope_new, rope_text};
use crate::runner::{all_edits_of, reported_frames, shown_frames, RunData};
use crate::text::{extension, file_extension};
use dashmap::DashMap;
use ropey::Rope;
use std::sync::Arc;
use vstd::prelude::*;
use vstd::string::*;

verus! {

/// What identifies a document: its URI, and the path in it.
#[derive(Debug)]
pub struct DocumentUri {
    pub uri: String,
    pub path: String,
}

/// All the data the server has.
pub struct Backend {
    data: RunData,
    config: Config,
    buffers: DashMap<String, Rope>,
}

/// The state of the server in mathematical terms.
pub struct BackendView {
    /// The languages by their extension.
    pub languages: Map<Seq<char>, LanguageView>,
    /// Where the config was found.
    pub base_dir: Seq<char>,
    /// The output of the last run, by frame.
    pub entries: Map<FrameKey, Seq<Seq<char>>>,
    /// The errors of the last run, by frame.
    pub hovers: Map<FrameKey, Seq<Seq<char>>>,
    /// The edits that the last run asked for.
    pub changes: Seq<EditView>,
    /// The texts of the open documents, by URI.
    pub buffers: Map<Seq<char>, Seq<char>>,
}

impl View for Backend {
    type V = BackendView;

    closed spec fn view(&self) -> BackendView {
        BackendView {
            languages: self.config.by_extension(),
            base_dir: self.config.base_dir@,
            entries: self.data.entries@,
            hovers: self.data.hovers@,
            changes: edit_views(self.data.changes@),
            buffers: buffer_texts(self.buffers),
        }
    }
}

/// The language of the file `path`, by its extension, which may be written without or with its
/// dot. The form without it is looked up first.
pub open spec fn language_of(
    languages: Map<Seq<char>, LanguageView>,
    path: Seq<char>,
) -> Option<LanguageView> {
    match extension(path) {
        Some(ext) => if languages.dom().contains(ext) {
            Some(languages[ext])
        } else if languages.dom().contains(seq!['.'] + ext) {
            Some(languages[seq!['.'] + ext])
        } else {
            None
        },
        None => None,
    }
}

/// What line comments start with in the file `path`, as far as folding goes: a `#` where its
/// language is not known.
pub open spec fn comment_of(languages: Map<Seq<char>, LanguageView>, path: Seq<char>) -> Seq<
    char,
> {
    match language_of(languages, path) {
        Some(language) => language.line_comment,
        None => seq!['#'],
    }
}

/// The text of a document, which is empty where it is not open.
pub open spec fn text_of(buffers: Map<Seq<char>, Seq<char>>, uri: Seq<char>) -> Seq<char> {
    if buffers.dom().contains(uri) {
        buffers[uri]
    } else {
        Seq::empty()
    }
}

/// The edits to the output comments of the file `path` that holds `text`.
pub open spec fn comment_update(
    entries: Map<FrameKey, Seq<Seq<char>>>,
    path: Seq<char>,
    comment: Seq<char>,
    text: Seq<char>,
) -> Seq<EditView> {
    let lines = lines_of(text);
    edits_up_to(
        lines,
        comment,
        shown_lines(entries, path, comment, lines),
        lines.len() as int,
    )
}

/// The diagnostics for the file `path` that holds `text`.
pub open spec fn diagnostic_update(
    hovers: Map<FrameKey, Seq<Seq<char>>>,
    path: Seq<char>,
    text: Seq<char>,
) -> Seq<DiagnosticView> {
    let lines = lines_of(text);
    line_diagnostics(lines, texts_by_line(hovers, path, lines.len() as int))
}

/// The entries among `items`, where a line that could not be read is `None`.
pub open spec fn readable(items: Seq<Option<RawEntry>>) -> Seq<RawEntry>
    decreases items.len(),
{
    if items.len() == 0 {
        Seq::empty()
    } else {
        match items.last() {
            Some(entry) => readable(items.drop_last()).push(entry),
            None => readable(items.drop_last()),
        }
    }
}

/// The state after a run of the file `path` that has sent this, or could not be started.
pub open spec fn after_run(
    state: BackendView,
    path: Seq<char>,
    sent: Result<Vec<Option<RawEntry>>, String>,
) -> BackendView {
    match sent {
        Ok(items) => BackendView {
            entries: shown_frames(readable(items@), path),
            hovers: reported_frames(readable(items@)),
            changes: all_edits_of(readable(items@)),
            ..state
        },
        Err(_) => state,
    }
}

/// Output or errors belong to a line that the document does not have.
#[derive(Clone, Copy, Debug)]
pub struct MissingLine;

/// What is sent to the editor once a document that was saved has been run: first the edits, if any
/// are due, and then the diagnostics.
#[derive(Debug)]
pub struct SaveAnswer {
    /// The edits to the output comments. There are none where the language is not known.
    pub edits: Result<Option<Vec<TextEdit>>, MissingLine>,
    pub diagnostics: Result<Vec<Diagnostic>, MissingLine>,
}

/// A run to start: how the language is run, and the text to run.
pub struct Reload {
    pub config: Arc<LanguageConfig>,
    pub input: Rope,
}

impl Backend {
    pub closed spec fn wf(self) -> bool {
        self.config.wf() && self.data.wf()
    }

    /// A server that has no config yet, has run nothing, and has no documents open.
    pub fn new() -> (backend: Backend)
        ensures
            backend.wf(),
            backend@.languages == Map::<Seq<char>, LanguageView>::empty(),
            backend@.base_dir == Seq::<char>::empty(),
            backend@.entries == Map::<FrameKey, Seq<Seq<char>>>::empty(),
            backend@.hovers == Map::<FrameKey, Seq<Seq<char>>>::empty(),
            backend@.changes == Seq::<EditView>::empty(),
            backend@.buffers == Map::<Seq<char>, Seq<char>>::empty(),
    {
        let backend = Backend {
            data: RunData::new(),
            config: Config::empty(),
            buffers: buffers_new(),
        };
        assert(edit_views(backend.data.changes@) =~= Seq::<EditView>::empty());
        assert(buffer_texts(backend.buffers) =~= Map::<Seq<char>, Seq<char>>::empty());
        backend
    }

    /// Takes over the config that was found. Where there is none, the server goes on without
    /// languages, and the warning to show is handed out.
    pub fn load_config(&mut self, found: Result<Config, String>) -> (warning: Option<String>)
        requires
            old(self).wf(),
            found matches Ok(config) ==> config.wf(),
        ensures
            final(self).wf(),
            match found {
                Ok(config) => {
                    &&& warning is None
                    &&& final(self)@ == (BackendView {
                        languages: config.by_extension(),
                        base_dir: config.base_dir@,
                        ..old(self)@
                    })
                },
                Err(err) => {
                    &&& warning matches Some(message)
                    &&& message@ == "could not find a a config: "@ + err@
                    &&& final(self)@ == (BackendView {
                        languages: Map::empty(),
                        base_dir: Seq::empty(),
                        ..old(self)@
                    })
                },
            },
    {
        match found {
            Ok(config) => {
                self.config = config;
                None
            },
            Err(err) => {
                self.config = Config::empty();
                Some("could not find a a config: ".to_owned().concat(err.as_str()))
            },
        }
    }

    /// The config of the language that a document is written in.
    pub fn language_config_for_uri(&self, uri: &DocumentUri) -> (found: Option<
        Arc<LanguageConfig>,
    >)
        requires
            self.wf(),
        ensures
            match found {
                Some(config) => {
                    &&& language_of(self@.languages, uri.path@) == Some(config@)
                    &&& extension(uri.path@) matches Some(ext)
                    &&& config.extension@ == ext || config.extension@ == seq!['.'] + ext
                },
                None => language_of(self@.languages, uri.path@) is None,
            },
    {
        match file_extension(uri.path.as_str()) {
            Some(ext) => match self.config.language(&ext) {
                Some(config) => Some(config),
                None => {
                    let mut dotted = String::new();
                    dotted.push('.');
                    dotted.append(ext.as_str());
                    assert(dotted@ =~= seq!['.'] + ext@);
                    self.config.language(&dotted)
                },
            },
            None => None,
        }
    }

    /// A document is opened: its text is kept, and handed out to be handled as if it were saved.
    pub fn did_open(&mut self, uri: &DocumentUri, text: &str) -> (contents: Rope)
        requires
            old(self).wf(),
        ensures
            final(self).wf(),
            final(self)@ == (BackendView {
                buffers: old(self)@.buffers.insert(uri.uri@, text@),
                ..old(self)@
            }),
            rope_text(contents) == text@,
    {
        let contents = rope_from_str(text);
        buffers_set(&mut self.buffers, uri.uri.clone(), rope_clone(&contents));
        contents
    }

    /// A document is changed: its new text, the first of `changes`, is kept. It is handed out to
    /// be handled as if it were saved where the language is run on each change.
    pub fn did_change(&mut self, uri: &DocumentUri, changes: &Vec<String>) -> (contents: Option<
        Rope,
    >)
        requires
            old(self).wf(),
            changes@.len() > 0,
        ensures
            final(self).wf(),
            final(self)@ == (BackendView {
                buffers: old(self)@.buffers.insert(uri.uri@, changes@[0]@),
                ..old(self)@
            }),
            contents is Some <==> (language_of(old(self)@.languages, uri.path@) matches Some(
                language,
            ) && language.on_change),
            contents matches Some(rope) ==> rope_text(rope) == changes@[0]@,
    {
        let contents = rope_from_str(changes[0].as_str());
        buffers_set(&mut self.buffers, uri.uri.clone(), rope_clone(&contents));
        match self.language_config_for_uri(uri) {
            Some(config) => if config.on_change {
                Some(contents)
            } else {
                None
            },
            None => None,
        }
    }

    /// A document is saved: its text is handed out to be handled. `None` where it is not open.
    pub fn did_save(&self, uri: &DocumentUri) -> (contents: Option<Rope>)
        requires
            self.wf(),
        ensures
            match contents {
                Some(rope) => self@.buffers.dom().contains(uri.uri@) && rope_text(rope)
                    == self@.buffers[uri.uri@],
                None => !self@.buffers.dom().contains(uri.uri@),
            },
    {
        buffers_get(&self.buffers, &uri.uri)
    }

    /// A document is closed: its text is forgotten.
    pub fn did_close(&mut self, uri: &DocumentUri)
        requires
            old(self).wf(),
        ensures
            final(self).wf(),
            final(self)@ == (BackendView {
                buffers: old(self)@.buffers.remove(uri.uri@),
                ..old(self)@
            }),
    {
        buffers_remove(&mut self.buffers, &uri.uri);
    }

    /// The run that is due when a document is saved: none where its language is not known.
    pub fn handle_save(&self, uri: &DocumentUri) -> (due: Option<Reload>)
        requires
            self.wf(),
        ensures
            match due {
                Some(reload) => {
                    &&& language_of(self@.languages, uri.path@) == Some(reload.config@)
                    &&& rope_text(reload.input) == text_of(self@.buffers, uri.uri@)
                },
                None => language_of(self@.languages, uri.path@) is None,
            },
    {
        match self.language_config_for_uri(uri) {
            Some(config) => {
                let input = match buffers_get(&self.buffers, &uri.uri) {
                    Some(text) => text,
                    None => rope_new(),
                };
                Some(Reload { config, input })
            },
            None => None,
        }
    }

    /// A run of the document is over. What it has sent takes the place of what the last run sent,
    /// without the lines that could not be read; where it could not be started, nothing changes.
    pub fn reload_data(
        &mut self,
        uri: &DocumentUri,
        sent: Result<Vec<Option<RawEntry>>, String>,
    )
        requires
            old(self).wf(),
        ensures
            final(self).wf(),
            final(self)@ == after_run(old(self)@, uri.path@, sent),
    {
        if let Ok(items) = sent {
            let ghost all = items@;
            let mut raws: Vec<RawEntry> = Vec::new();
            for item in it: items
                invariant
                    it.seq() == all,
                    raws@ == readable(all.take(it.index())),
            {
                proof {
                    assert(all.take(it.index() + 1).drop_last() =~= all.take(it.index()));
                    assert(all.take(it.index() + 1).last() == item);
                }
                if let Some(entry) = item {
                    raws.push(entry);
                }
            }
            assert(all.take(all.len() as int) =~= all);
            self.data = RunData::from_raw(raws, uri.path.as_str());
        }
    }

    /// The run that was due when a document was saved is over: what it has sent is taken over, and
    /// the edits and the diagnostics for the contents that were saved come from it. Where it could
    /// not be started, they come from the last run that was.
    pub fn finish_save(
        &mut self,
        uri: &DocumentUri,
        contents: &Rope,
        sent: Result<Vec<Option<RawEntry>>, String>,
    ) -> (answer: SaveAnswer)
        requires
            old(self).wf(),
        ensures
            final(self).wf(),
            final(self)@ == after_run(old(self)@, uri.path@, sent),
            match answer.edits {
                Ok(Some(edits)) => {
                    &&& language_of(final(self)@.languages, uri.path@) matches Some(language)
                    &&& frames_fit(
                        final(self)@.entries,
                        uri.path@,
                        lines_of(rope_text(*contents)).len(),
                    )
                    &&& edit_views(edits@) == comment_update(
                        final(self)@.entries,
                        uri.path@,
                        language.line_comment,
                        rope_text(*contents),
                    )
                },
                Ok(None) => language_of(final(self)@.languages, uri.path@) is None,
                Err(_) => language_of(final(self)@.languages, uri.path@) is Some && !frames_fit(
                    final(self)@.entries,
                    uri.path@,
                    lines_of(rope_text(*contents)).len(),
                ),
            },
            match answer.diagnostics {
                Ok(list) => frames_fit(
                    final(self)@.hovers,
                    uri.path@,
                    lines_of(rope_text(*contents)).len(),
                ) && diagnostic_views(list@) == diagnostic_update(
                    final(self)@.hovers,
                    uri.path@,
                    rope_text(*contents),
                ),
                Err(_) => !frames_fit(
                    final(self)@.hovers,
                    uri.path@,
                    lines_of(rope_text(*contents)).len(),
                ),
            },
    {
        self.reload_data(uri, sent);
        let edits = if self.language_config_for_uri(uri).is_none() || self.output_fits(
            uri,
            contents,
        ) {
            Ok(self.update_comments(uri, contents))
        } else {
            Err(MissingLine)
        };
        let diagnostics = if self.errors_fit(uri, contents) {
            Ok(self.update_diagnostics(uri, contents))
        } else {
            Err(MissingLine)
        };
        SaveAnswer { edits, diagnostics }
    }

    /// Whether the output of the last run belongs to lines that a document has.
    pub fn output_fits(&self, uri: &DocumentUri, contents: &Rope) -> (fits: bool)
        requires
            self.wf(),
        ensures
            fits == frames_fit(self@.entries, uri.path@, lines_of(rope_text(*contents)).len()),
    {
        self.data.entries.fits(&uri.path, rope_len_lines(contents))
    }

    /// Whether the errors of the last run belong to lines that a document has.
    pub fn errors_fit(&self, uri: &DocumentUri, contents: &Rope) -> (fits: bool)
        requires
            self.wf(),
        ensures
            fits == frames_fit(self@.hovers, uri.path@, lines_of(rope_text(*contents)).len()),
    {
        self.data.hovers.fits(&uri.path, rope_len_lines(contents))
    }

    /// Given the contents of a document and the output of the last run, the edits that bring its
    /// output comments up to date. `None` where its language is not known.
    pub fn update_comments(&self, uri: &DocumentUri, contents: &Rope) -> (edits: Option<
        Vec<TextEdit>,
    >)
        requires
            self.wf(),
            language_of(self@.languages, uri.path@) is Some ==> frames_fit(
                self@.entries,
                uri.path@,
                lines_of(rope_text(*contents)).len(),
            ),
        ensures
            match language_of(self@.languages, uri.path@) {
                Some(language) => {
                    &&& edits matches Some(edits)
                    &&& edit_views(edits@) == comment_update(
                        self@.entries,
                        uri.path@,
                        language.line_comment,
                        rope_text(*contents),
                    )
                },
                None => edits is None,
            },
    {
        match self.language_config_for_uri(uri) {
            Some(config) => Some(
                file_comments(
                    &self.data.entries,
                    &uri.path,
                    config.line_comment.as_str(),
                    contents,
                ),
            ),
            None => None,
        }
    }

    /// The diagnostics that show the errors of the last run in a document.
    pub fn update_diagnostics(&self, uri: &DocumentUri, contents: &Rope) -> (list: Vec<Diagnostic>)
        requires
            self.wf(),
            frames_fit(self@.hovers, uri.path@, lines_of(rope_text(*contents)).len()),
        ensures
            diagnostic_views(list@) == diagnostic_update(
                self@.hovers,
                uri.path@,
                rope_text(*contents),
            ),
    {
        file_diagnostics(&self.data.hovers, &uri.path, contents)
    }

    /// The lines of a document that fold away: its output lines. `None` where it is not open.
    pub fn folding_range(&self, uri: &DocumentUri) -> (folds: Option<Vec<FoldingRange>>)
        requires
            self.wf(),
        ensures
            match folds {
                Some(folds) => {
                    &&& self@.buffers.dom().contains(uri.uri@)
                    &&& are_runs(
                        |l: int|
                            is_foldable(
                                lines_of(self@.buffers[uri.uri@]),
                                comment_of(self@.languages, uri.path@),
                                l,
                            ),
                        folds@,
                    )
                },
                None => !self@.buffers.dom().contains(uri.uri@),
            },
    {
        match buffers_get(&self.buffers, &uri.uri) {
            Some(contents) => match self.language_config_for_uri(uri) {
                Some(config) => Some(folding_ranges(&contents, config.line_comment.as_str())),
                None => {
                    proof {
                        reveal_strlit("#");
                        assert("#"@ =~= seq!['#']);
                    }
                    Some(folding_ranges(&contents, "#"))
                },
            },
            None => None,
        }
    }
}

} // verus!
