//! The languages that the server knows, and how each of them is run.

use crate::runner::Runner;
use crate::text::{parent, parent_dir, replace_all, replaced, share, string_views};
use regex::Regex;
use std::sync::Arc;
use vstd::prelude::*;
use vstd::string::*;

verus! {

/// `regex::Regex`, which is only carried along: nothing is said of what it matches.
#[verifier::external_type_specification]
#[verifier::external_body]
pub struct ExRegex(Regex);

/// A place in the text that a language marks by a pattern.
#[derive(Debug)]
pub struct Place {
    pub name: String,
    pub regex: Regex,
    pub insert_place: usize,
}

/// Config for a single programming language.
#[derive(Debug)]
pub struct LanguageConfig {
    /// The file extension this language uses (as in `.rs`). The dot may be left out.
    pub extension: String,
    /// The details for how to run this language.
    pub runner: Runner,
    /// The prefix this language uses for line comments (as in `//`).
    pub line_comment: String,
    /// Whether this language is run on each change in the buffer, or only on save.
    pub on_change: bool,
    pub places: Vec<Place>,
}

/// A `LanguageConfig` in mathematical terms.
pub struct LanguageView {
    pub extension: Seq<char>,
    pub command: Seq<char>,
    pub args: Seq<Seq<char>>,
    pub line_comment: Seq<char>,
    pub on_change: bool,
    pub places: Seq<Place>,
}

impl View for LanguageConfig {
    type V = LanguageView;

    open spec fn view(&self) -> LanguageView {
        LanguageView {
            extension: self.extension@,
            command: self.runner.command@,
            args: string_views(self.runner.args@),
            line_comment: self.line_comment@,
            on_change: self.on_change,
            places: self.places@,
        }
    }
}

/// The languages of a list, in mathematical terms.
pub open spec fn language_views(list: Seq<LanguageConfig>) -> Seq<LanguageView> {
    list.map_values(|language: LanguageConfig| language@)
}

/// The languages of a list of shared configs, in mathematical terms.
pub open spec fn shared_views(list: Seq<Arc<LanguageConfig>>) -> Seq<LanguageView> {
    list.map_values(|language: Arc<LanguageConfig>| language@)
}

/// The languages of a list by their extension. Of several with the same one the last counts.
pub open spec fn by_extension(list: Seq<LanguageView>) -> Map<Seq<char>, LanguageView>
    decreases list.len(),
{
    if list.len() == 0 {
        Map::empty()
    } else {
        by_extension(list.drop_last()).insert(list.last().extension, list.last())
    }
}

/// Whether no two languages of a list have the same extension.
pub open spec fn no_duplicates(list: Seq<LanguageView>) -> bool {
    forall|i: int, j: int|
        0 <= i < j < list.len() ==> (#[trigger] list[i]).extension != (
        #[trigger] list[j]).extension
}

proof fn lemma_by_extension(list: Seq<LanguageView>)
    requires
        no_duplicates(list),
    ensures
        forall|i: int|
            0 <= i < list.len() ==> by_extension(list).dom().contains(
                (#[trigger] list[i]).extension,
            ) && by_extension(list)[list[i].extension] == list[i],
        forall|ext: Seq<char>|
            #[trigger] by_extension(list).dom().contains(ext) ==> exists|i: int|
                0 <= i < list.len() && (#[trigger] list[i]).extension == ext,
    decreases list.len(),
{
    if list.len() > 0 {
        let before = list.drop_last();
        assert(no_duplicates(before)) by {
            assert(forall|i: int| 0 <= i < before.len() ==> #[trigger] before[i] == list[i]);
        }
        lemma_by_extension(before);
        assert forall|i: int| 0 <= i < list.len() implies by_extension(list).dom().contains(
            (#[trigger] list[i]).extension,
        ) && by_extension(list)[list[i].extension] == list[i] by {
            if i < list.len() - 1 {
                assert(before[i] == list[i]);
                assert(list[i].extension != list[list.len() - 1].extension);
            }
        }
        assert forall|ext: Seq<char>| #[trigger]
            by_extension(list).dom().contains(ext) implies exists|i: int|
            0 <= i < list.len() && (#[trigger] list[i]).extension == ext by {
            if ext == list.last().extension {
                assert(list[list.len() - 1].extension == ext);
            } else {
                assert(by_extension(before).dom().contains(ext));
                let i = choose|i: int|
                    0 <= i < before.len() && (#[trigger] before[i]).extension == ext;
                assert(list[i].extension == ext);
            }
        }
    }
}

proof fn lemma_replace_language(list: Seq<LanguageView>, at: int, language: LanguageView)
    requires
        no_duplicates(list),
        0 <= at < list.len(),
        list[at].extension == language.extension,
    ensures
        no_duplicates(list.update(at, language)),
        by_extension(list.update(at, language)) == by_extension(list).insert(
            language.extension,
            language,
        ),
{
    let after = list.update(at, language);
    assert(no_duplicates(after)) by {
        assert(forall|i: int| 0 <= i < list.len() ==> (#[trigger] after[i]).extension
            == list[i].extension);
    }
    lemma_by_extension(list);
    lemma_by_extension(after);
    let want = by_extension(list).insert(language.extension, language);
    assert forall|ext: Seq<char>| #[trigger] by_extension(after).dom().contains(ext)
        <==> want.dom().contains(ext) by {
        if by_extension(after).dom().contains(ext) {
            let i = choose|i: int| 0 <= i < after.len() && (#[trigger] after[i]).extension == ext;
            assert(list[i].extension == ext);
        }
        if want.dom().contains(ext) {
            if ext == language.extension {
                assert(after[at].extension == ext);
            } else {
                let i = choose|i: int| 0 <= i < list.len() && (#[trigger] list[i]).extension == ext;
                assert(after[i].extension == ext);
            }
        }
    }
    assert forall|ext: Seq<char>| #[trigger]
        by_extension(after).dom().contains(ext) implies by_extension(after)[ext] == want[ext] by {
        let i = choose|i: int| 0 <= i < after.len() && (#[trigger] after[i]).extension == ext;
        assert(by_extension(after)[after[i].extension] == after[i]);
        assert(by_extension(list)[list[i].extension] == list[i]);
        if i != at {
            if i < at {
                assert(list[i].extension != list[at].extension);
            } else {
                assert(list[at].extension != list[i].extension);
            }
        }
    }
    assert(by_extension(after) =~= want);
}

/// `language` with the directory `dir` put in for `{runtimes}` in its command and arguments.
pub open spec fn with_runtimes(language: LanguageView, dir: Seq<char>) -> LanguageView {
    LanguageView {
        command: replace_all(language.command, "{runtimes}"@, dir),
        args: language.args.map_values(
            |arg: Seq<char>| replace_all(arg, "{runtimes}"@, dir),
        ),
        ..language
    }
}

/// Each language of a list with the directory `dir` put in for `{runtimes}`.
pub open spec fn all_with_runtimes(list: Seq<LanguageView>, dir: Seq<char>) -> Seq<LanguageView> {
    list.map_values(|language: LanguageView| with_runtimes(language, dir))
}

/// Config for this app.
#[derive(Debug)]
pub struct Config {
    /// The languages, each extension once.
    pub languages: Vec<Arc<LanguageConfig>>,
    /// Where the config was found.
    pub base_dir: String,
}

/// Where to go on looking for a config.
#[derive(Debug)]
pub enum ConfigSearch {
    /// Load the file at this path next.
    Load(String),
    /// This is the config.
    Found(Config),
    /// There is none.
    Missing(String),
}

/// The first config among the outcomes of loading files.
pub open spec fn first_loaded(attempts: Seq<Result<Config, String>>) -> Option<Config>
    decreases attempts.len(),
{
    if attempts.len() == 0 {
        None
    } else {
        match attempts[0] {
            Ok(config) => Some(config),
            Err(_) => first_loaded(attempts.skip(1)),
        }
    }
}

/// Where configs are looked for: in the current directory, then in the home directory.
pub open spec fn locations(home: Seq<char>) -> Seq<Seq<char>> {
    seq!["./.nwn.json"@, home + "/.config/nwn/.nwn.json"@]
}

impl Config {
    pub open spec fn wf(self) -> bool {
        no_duplicates(shared_views(self.languages@))
    }

    /// The languages by their extension.
    pub open spec fn by_extension(self) -> Map<Seq<char>, LanguageView> {
        by_extension(shared_views(self.languages@))
    }

    /// A config without languages.
    pub fn empty() -> (config: Config)
        ensures
            config.wf(),
            config.by_extension() == Map::<Seq<char>, LanguageView>::empty(),
            config.base_dir@ == Seq::<char>::empty(),
    {
        let config = Config { languages: Vec::new(), base_dir: String::new() };
        assert(shared_views(config.languages@) =~= Seq::<LanguageView>::empty());
        config
    }

    /// The language with the extension `ext`.
    pub fn language(&self, ext: &String) -> (found: Option<Arc<LanguageConfig>>)
        requires
            self.wf(),
        ensures
            match found {
                Some(language) => self.by_extension().dom().contains(ext@)
                    && self.by_extension()[ext@] == language@ && language.extension@ == ext@,
                None => !self.by_extension().dom().contains(ext@),
            },
    {
        let ghost views = shared_views(self.languages@);
        proof {
            lemma_by_extension(views);
        }
        let mut i: usize = 0;
        while i < self.languages.len()
            invariant
                views == shared_views(self.languages@),
                i <= views.len(),
                forall|j: int| 0 <= j < i ==> (#[trigger] views[j]).extension != ext@,
                forall|j: int|
                    0 <= j < views.len() ==> self.by_extension().dom().contains(
                        (#[trigger] views[j]).extension,
                    ) && self.by_extension()[views[j].extension] == views[j],
            decreases views.len() - i,
        {
            assert(views[i as int] == self.languages@[i as int]@);
            if self.languages[i].extension == *ext {
                return Some(share(&self.languages[i]));
            }
            i += 1;
        }
        None
    }

    /// The languages of a list, each extension once. Of several with the same one the last is
    /// kept.
    pub fn map_from_list(list: Vec<LanguageConfig>) -> (languages: Vec<Arc<LanguageConfig>>)
        ensures
            no_duplicates(shared_views(languages@)),
            by_extension(shared_views(languages@)) == by_extension(language_views(list@)),
    {
        let ghost all = language_views(list@);
        let mut languages: Vec<Arc<LanguageConfig>> = Vec::new();
        assert(all.take(0) =~= Seq::<LanguageView>::empty());
        assert(shared_views(languages@) =~= Seq::<LanguageView>::empty());
        for config in it: list
            invariant
                language_views(it.seq()) == all,
                no_duplicates(shared_views(languages@)),
                by_extension(shared_views(languages@)) == by_extension(all.take(it.index())),
        {
            let ghost before = shared_views(languages@);
            let ghost view = config@;
            proof {
                assert(all[it.index()] == it.seq()[it.index()]@);
                assert(all.take(it.index() + 1).drop_last() =~= all.take(it.index()));
                assert(all.take(it.index() + 1).last() == view);
            }
            let mut i: usize = 0;
            while i < languages.len() && languages[i].extension != config.extension
                invariant
                    i <= languages@.len(),
                    before == shared_views(languages@),
                    forall|j: int|
                        0 <= j < i ==> (#[trigger] before[j]).extension != config.extension@,
                decreases languages@.len() - i,
            {
                assert(before[i as int] == languages@[i as int]@);
                i += 1;
            }
            if i < languages.len() {
                assert(before[i as int] == languages@[i as int]@);
                languages[i] = Arc::new(config);
                proof {
                    assert(shared_views(languages@) =~= before.update(i as int, view));
                    lemma_replace_language(before, i as int, view);
                }
            } else {
                languages.push(Arc::new(config));
                proof {
                    assert(shared_views(languages@) =~= before.push(view));
                    assert(shared_views(languages@).drop_last() =~= before);
                }
            }
        }
        assert(all.take(all.len() as int) =~= all);
        languages
    }

    /// The config that the file at `path` holds, once it has been read. A file that has been read
    /// is in a directory.
    pub fn from_filepath(path: &str, file: Result<Vec<LanguageConfig>, String>) -> (loaded: Result<
        Config,
        String,
    >)
        requires
            file is Ok ==> parent(path@) is Some,
        ensures
            match file {
                Ok(list) => {
                    &&& loaded matches Ok(config)
                    &&& config.wf()
                    &&& parent(path@) == Some(config.base_dir@)
                    &&& config.by_extension() == by_extension(
                        all_with_runtimes(language_views(list@), config.base_dir@),
                    )
                },
                Err(err) => loaded == Err::<Config, String>(err),
            },
    {
        let list = match file {
            Ok(list) => list,
            Err(err) => {
                return Err(err);
            },
        };
        let base_dir = match parent_dir(path) {
            Some(dir) => dir,
            None => String::new(),
        };
        let ghost all = language_views(list@);
        let mut placed: Vec<LanguageConfig> = Vec::new();
        assert(language_views(placed@) =~= all_with_runtimes(all, base_dir@).take(0));
        for config in it: list
            invariant
                language_views(it.seq()) == all,
                language_views(placed@) == all_with_runtimes(all, base_dir@).take(it.index()),
        {
            let ghost before = placed@;
            let ghost view = config@;
            let config = config.place_runtimes(base_dir.as_str());
            placed.push(config);
            proof {
                assert(all[it.index()] == it.seq()[it.index()]@);
                assert(language_views(placed@) =~= language_views(before).push(
                    with_runtimes(view, base_dir@),
                ));
                assert(language_views(placed@) =~= all_with_runtimes(all, base_dir@).take(
                    it.index() + 1,
                ));
            }
        }
        assert(language_views(placed@) =~= all_with_runtimes(all, base_dir@));
        Ok(Config { languages: Config::map_from_list(placed), base_dir })
    }

    /// The next step in the search for a config, after the files at the first locations have been
    /// tried with the given outcomes.
    pub fn from_default_config(home: &str, attempts: Vec<Result<Config, String>>) -> (step:
        ConfigSearch)
        ensures
            match first_loaded(attempts@) {
                Some(config) => step == ConfigSearch::Found(config),
                None => if attempts@.len() < locations(home@).len() {
                    step matches ConfigSearch::Load(path) && path@ == locations(
                        home@,
                    )[attempts@.len() as int]
                } else {
                    step matches ConfigSearch::Missing(message) && message@ == "no configs found"@
                },
            },
    {
        let ghost all = attempts@;
        let tried = attempts.len();
        assert(all.skip(0) =~= all);
        for attempt in it: attempts
            invariant
                it.seq() == all,
                first_loaded(all) == first_loaded(all.skip(it.index())),
        {
            proof {
                assert(all.skip(it.index())[0] == attempt);
                assert(all.skip(it.index()).skip(1) =~= all.skip(it.index() + 1));
            }
            if let Ok(config) = attempt {
                return ConfigSearch::Found(config);
            }
        }
        assert(first_loaded(all) is None);
        if tried == 0 {
            ConfigSearch::Load("./.nwn.json".to_owned())
        } else if tried == 1 {
            ConfigSearch::Load(home.to_owned().concat("/.config/nwn/.nwn.json"))
        } else {
            ConfigSearch::Missing("no configs found".to_owned())
        }
    }
}

impl LanguageConfig {
    /// This language with the directory `dir` put in for `{runtimes}` in its command and
    /// arguments.
    pub fn place_runtimes(self, dir: &str) -> (placed: LanguageConfig)
        ensures
            placed@ == with_runtimes(self@, dir@),
    {
        proof {
            reveal_strlit("{runtimes}");
        }
        let command = replaced(self.runner.command.as_str(), "{runtimes}", dir);
        let mut args: Vec<String> = Vec::new();
        let mut i: usize = 0;
        assert(string_views(args@) =~= with_runtimes(self@, dir@).args.take(0));
        while i < self.runner.args.len()
            invariant
                "{runtimes}"@.len() > 0,
                i <= self.runner.args@.len(),
                string_views(args@) == with_runtimes(self@, dir@).args.take(i as int),
            decreases self.runner.args@.len() - i,
        {
            let ghost before = args@;
            let arg = replaced(self.runner.args[i].as_str(), "{runtimes}", dir);
            args.push(arg);
            assert(string_views(args@) =~= string_views(before).push(arg@));
            assert(string_views(args@) =~= with_runtimes(self@, dir@).args.take(i + 1));
            i += 1;
        }
        assert(string_views(args@) =~= with_runtimes(self@, dir@).args);
        LanguageConfig {
            extension: self.extension,
            runner: Runner { command, args },
            line_comment: self.line_comment,
            on_change: self.on_change,
            places: self.places,
        }
    }
}

} // verus!
