use nwn::backend::{Backend, DocumentUri};
use nwn::config::{Config, ConfigSearch, LanguageConfig, Place};
use nwn::folding::{FoldingRange, FoldingRangeKind};
use nwn::protocol::{Frame, Position, RawEntry, RawEntryInner, RawEntryKind};
use nwn::runner::Runner;
use regex::Regex;
use ropey::Rope;

fn uri(path: &str) -> DocumentUri {
    DocumentUri { uri: format!("file://{}", path), path: path.to_string() }
}

fn language(extension: &str, command: &str, on_change: bool) -> LanguageConfig {
    LanguageConfig {
        extension: extension.to_string(),
        runner: Runner {
            command: command.to_string(),
            args: vec!["{runtimes}/{runtimes}".to_string(), "x".to_string()],
        },
        line_comment: "#".to_string(),
        on_change,
        places: vec![],
    }
}

fn loaded(list: Vec<LanguageConfig>) -> Config {
    Config::from_filepath("/cfg/.nwn.json", Ok(list)).unwrap()
}

fn backend(list: Vec<LanguageConfig>) -> Backend {
    let mut backend = Backend::new();
    assert!(backend.load_config(Ok(loaded(list))).is_none());
    backend
}

fn entry(line: u64, out: &str, kind: RawEntryKind) -> Option<RawEntry> {
    Some(RawEntry {
        frames: vec![Frame { file: "/a.py".to_string(), line }],
        inner: RawEntryInner::Simple { out: out.to_string(), kind: Some(kind) },
    })
}

#[test]
fn the_directory_of_the_config_is_put_in() {
    let mut with_place = language("py", "{runtimes}/py.sh", true);
    with_place.places.push(Place {
        name: "here".to_string(),
        regex: Regex::new("a+").unwrap(),
        insert_place: 1,
    });
    let config = loaded(vec![with_place]);
    assert_eq!(config.base_dir, "/cfg");
    assert_eq!(config.languages.len(), 1);
    let py = &config.languages[0];
    assert_eq!(py.runner.command, "/cfg/py.sh");
    assert_eq!(py.runner.args, vec!["/cfg//cfg".to_string(), "x".to_string()]);
    assert_eq!(py.extension, "py");
    assert_eq!(py.line_comment, "#");
    assert!(py.on_change);
    assert_eq!(py.places[0].name, "here");
    assert!(py.places[0].regex.is_match("caat"));
}

#[test]
fn files_that_do_not_load_give_their_error() {
    let failed = Config::from_filepath("/", Err("no such file".to_string()));
    assert_eq!(failed.err(), Some("no such file".to_string()));
}

#[test]
fn the_last_language_with_an_extension_counts() {
    let list = vec![
        language("py", "one", false),
        language("rs", "two", false),
        language("py", "three", true),
    ];
    let languages = Config::map_from_list(list);
    let mut found: Vec<(String, String)> = languages
        .iter()
        .map(|l| (l.extension.clone(), l.runner.command.clone()))
        .collect();
    found.sort();
    assert_eq!(
        found,
        vec![
            ("py".to_string(), "three".to_string()),
            ("rs".to_string(), "two".to_string()),
        ]
    );
}

#[test]
fn configs_are_looked_for_in_turn() {
    match Config::from_default_config("/home/me", vec![]) {
        ConfigSearch::Load(path) => assert_eq!(path, "./.nwn.json"),
        _ => panic!("no first location"),
    }
    match Config::from_default_config("/home/me", vec![Err("a".to_string())]) {
        ConfigSearch::Load(path) => assert_eq!(path, "/home/me/.config/nwn/.nwn.json"),
        _ => panic!("no second location"),
    }
    match Config::from_default_config("/", vec![Err("a".to_string()), Err("b".to_string())]) {
        ConfigSearch::Missing(message) => assert_eq!(message, "no configs found"),
        _ => panic!("found"),
    }
    let attempts = vec![Err("a".to_string()), Ok(loaded(vec![language("py", "x", false)]))];
    match Config::from_default_config("/", attempts) {
        ConfigSearch::Found(config) => assert_eq!(config.languages.len(), 1),
        _ => panic!("not found"),
    }
    let attempts = vec![Ok(loaded(vec![])), Ok(loaded(vec![language("py", "x", false)]))];
    match Config::from_default_config("/", attempts) {
        ConfigSearch::Found(config) => assert!(config.languages.is_empty()),
        _ => panic!("not found"),
    }
}

#[test]
fn a_missing_config_leaves_no_languages() {
    let mut backend = backend(vec![language("py", "x", false)]);
    assert!(backend.language_config_for_uri(&uri("/a.py")).is_some());
    let warning = backend.load_config(Err("no configs found".to_string()));
    assert_eq!(warning, Some("could not find a a config: no configs found".to_string()));
    assert!(backend.language_config_for_uri(&uri("/a.py")).is_none());
    assert!(backend.handle_save(&uri("/a.py")).is_none());
    assert!(backend.update_comments(&uri("/a.py"), &Rope::from_str("a\n")).is_none());
}

#[test]
fn languages_are_told_by_extension() {
    let backend = backend(vec![language("py", "one", false), language("rs", "two", false)]);
    let found = backend.language_config_for_uri(&uri("/x/a.rs")).unwrap();
    assert_eq!(found.runner.command, "two");
    assert!(backend.language_config_for_uri(&uri("/x/a.c")).is_none());
    assert!(backend.language_config_for_uri(&uri("/x/py")).is_none());
    assert!(backend.language_config_for_uri(&uri("/x/.py")).is_none());
}

#[test]
fn extensions_may_be_written_with_their_dot() {
    let backend = backend(vec![
        language(".rs", "dotted", false),
        language(".py", "dotted", false),
        language("py", "plain", false),
    ]);
    let found = backend.language_config_for_uri(&uri("/src/a.rs")).unwrap();
    assert_eq!(found.extension, ".rs");
    assert_eq!(found.runner.command, "dotted");
    let found = backend.language_config_for_uri(&uri("/src/a.py")).unwrap();
    assert_eq!(found.runner.command, "plain");
    assert!(backend.language_config_for_uri(&uri("/src/rs")).is_none());
}

#[test]
fn documents_keep_their_text() {
    let mut backend = backend(vec![language("py", "x", false)]);
    let a = uri("/a.py");
    let b = uri("/b.py");
    assert_eq!(backend.handle_save(&a).unwrap().input.to_string(), "");
    assert_eq!(backend.did_open(&a, "one\n").to_string(), "one\n");
    assert_eq!(backend.did_open(&b, "two\n").to_string(), "two\n");
    assert_eq!(backend.handle_save(&a).unwrap().input.to_string(), "one\n");
    assert!(backend.did_change(&a, &vec!["three".to_string(), "four".to_string()]).is_none());
    assert_eq!(backend.handle_save(&a).unwrap().input.to_string(), "three");
    backend.did_close(&a);
    assert_eq!(backend.handle_save(&a).unwrap().input.to_string(), "");
    assert_eq!(backend.handle_save(&b).unwrap().input.to_string(), "two\n");
    assert_eq!(backend.handle_save(&b).unwrap().config.runner.command, "x");
}

#[test]
fn changes_are_run_where_the_language_says_so() {
    let mut backend = backend(vec![language("py", "x", true), language("rs", "x", false)]);
    let changed = backend.did_change(&uri("/a.py"), &vec!["new".to_string()]);
    assert_eq!(changed.unwrap().to_string(), "new");
    assert!(backend.did_change(&uri("/a.rs"), &vec!["new".to_string()]).is_none());
    assert!(backend.did_change(&uri("/a.txt"), &vec!["new".to_string()]).is_none());
}

#[test]
fn output_is_shown_in_the_document() {
    let mut backend = backend(vec![language("py", "x", false)]);
    let a = uri("/a.py");
    let contents = Rope::from_str("def f():\n    print(1)\n    #> 0\nf()\nf()");
    let sent = vec![
        entry(4, "\"two\"", RawEntryKind::Output),
        None,
        entry(2, "1\n\t2", RawEntryKind::Debug),
    ];
    backend.reload_data(&a, Ok(sent));
    assert!(backend.output_fits(&a, &contents));
    let edits = backend.update_comments(&a, &contents).unwrap();
    let plain: Vec<(u64, u64, String)> = edits
        .iter()
        .map(|e| (e.range.start.line, e.range.end.line, e.new_text.clone()))
        .collect();
    assert_eq!(
        plain,
        vec![
            (2, 3, "    #> 1\n    #> \\t2\n".to_string()),
            (4, 4, "#> \\\"two\\\n".to_string()),
        ]
    );
    // A run that could not be started changes nothing.
    backend.reload_data(&a, Err("no such command".to_string()));
    assert_eq!(backend.update_comments(&a, &contents).unwrap().len(), 2);
    // The next run takes the place of this one.
    backend.reload_data(&a, Ok(vec![]));
    assert_eq!(backend.update_comments(&a, &contents).unwrap().len(), 1);
}

#[test]
fn output_for_missing_lines_does_not_fit() {
    let mut backend = backend(vec![language("py", "x", false)]);
    let a = uri("/a.py");
    let contents = Rope::from_str("a\nb");
    backend.reload_data(&a, Ok(vec![entry(2, "x", RawEntryKind::Output)]));
    assert!(backend.output_fits(&a, &contents));
    assert!(backend.errors_fit(&a, &contents));
    backend.reload_data(&a, Ok(vec![entry(3, "x", RawEntryKind::Output)]));
    assert!(!backend.output_fits(&a, &contents));
    assert!(backend.output_fits(&uri("/b.py"), &contents));
    backend.reload_data(&a, Ok(vec![entry(0, "x", RawEntryKind::Error)]));
    assert!(!backend.errors_fit(&a, &contents));
}

#[test]
fn errors_are_shown_as_diagnostics() {
    let mut backend = backend(vec![]);
    let a = uri("/a.py");
    let contents = Rope::from_str("ab\ncde");
    let sent = vec![
        entry(2, "late", RawEntryKind::Error),
        entry(1, "one ", RawEntryKind::Error),
        entry(1, "two", RawEntryKind::Error),
    ];
    backend.reload_data(&a, Ok(sent));
    assert!(backend.errors_fit(&a, &contents));
    let list = backend.update_diagnostics(&a, &contents);
    assert_eq!(list.len(), 2);
    assert_eq!(list[0].range.start, Position { line: 0, character: 0 });
    assert_eq!(list[0].range.end, Position { line: 0, character: 3 });
    assert_eq!(list[0].message, "one two");
    assert_eq!(list[0].source, "nwn");
    assert_eq!(list[1].range.end, Position { line: 1, character: 3 });
    assert_eq!(list[1].message, "late");
    assert!(backend.update_diagnostics(&uri("/b.py"), &contents).is_empty());
}

#[test]
fn open_documents_fold() {
    let mut backend = Backend::new();
    let a = uri("/a.py");
    assert!(backend.folding_range(&a).is_none());
    backend.did_open(&a, "a\n#> 1\n#> 2\n");
    assert_eq!(
        backend.folding_range(&a),
        Some(vec![FoldingRange {
            start_line: 1,
            end_line: 2,
            kind: FoldingRangeKind::Comment,
        }])
    );
    backend.did_close(&a);
    assert!(backend.folding_range(&a).is_none());
}

#[test]
fn documents_fold_by_the_comments_of_their_language() {
    let mut rust = language("rs", "x", false);
    rust.line_comment = "//".to_string();
    let mut backend = backend(vec![rust]);
    let a = uri("/a.rs");
    backend.did_open(&a, "f();\n//> 1\n  //> 2\n#> 3\n");
    assert_eq!(
        backend.folding_range(&a),
        Some(vec![FoldingRange {
            start_line: 1,
            end_line: 2,
            kind: FoldingRangeKind::Comment,
        }])
    );
}

#[test]
fn saved_documents_are_handed_out() {
    let mut backend = backend(vec![language("py", "x", false)]);
    let a = uri("/a.py");
    assert!(backend.did_save(&a).is_none());
    backend.did_open(&a, "one\n");
    backend.did_change(&a, &vec!["two\n".to_string()]);
    assert_eq!(backend.did_save(&a).unwrap().to_string(), "two\n");
}

#[test]
fn a_save_is_answered_from_its_run() {
    let mut backend = backend(vec![language("py", "x", false)]);
    let a = uri("/a.py");
    let contents = Rope::from_str("f()\ng()\n");
    let sent = vec![entry(1, "1", RawEntryKind::Output), entry(2, "bad", RawEntryKind::Error)];
    let answer = backend.finish_save(&a, &contents, Ok(sent));
    let edits = answer.edits.unwrap().unwrap();
    assert_eq!(edits.len(), 1);
    assert_eq!(edits[0].range.start, Position { line: 1, character: 0 });
    assert_eq!(edits[0].new_text, "#> 1\n");
    let list = answer.diagnostics.unwrap();
    assert_eq!(list.len(), 1);
    assert_eq!(list[0].message, "bad");
    // A run that fails is answered from the one before it.
    let answer = backend.finish_save(&a, &contents, Err("no such command".to_string()));
    assert_eq!(answer.edits.unwrap().unwrap().len(), 1);
    assert_eq!(answer.diagnostics.unwrap().len(), 1);
    // Without a language there are no edits.
    let answer = backend.finish_save(&uri("/a.txt"), &contents, Ok(vec![]));
    assert!(answer.edits.unwrap().is_none());
    assert!(answer.diagnostics.unwrap().is_empty());
    // Lines that are not there are told.
    let sent = vec![entry(4, "1", RawEntryKind::Output), entry(0, "bad", RawEntryKind::Error)];
    let answer = backend.finish_save(&a, &contents, Ok(sent));
    assert!(answer.edits.is_err());
    assert!(answer.diagnostics.is_err());
}

#[test]
fn an_update_settles() {
    let mut backend = backend(vec![language("py", "x", false)]);
    let a = uri("/a.py");
    backend.reload_data(&a, Ok(vec![entry(2, "1\n2", RawEntryKind::Output)]));
    let before = Rope::from_str("x\n  f()\n  #> 0\ny\n");
    let edits = backend.update_comments(&a, &before).unwrap();
    assert_eq!(edits.len(), 1);
    assert_eq!(edits[0].range.start.line, 2);
    assert_eq!(edits[0].range.end.line, 3);
    let after = Rope::from_str(&format!("x\n  f()\n{}y\n", edits[0].new_text));
    assert!(backend.update_comments(&a, &after).unwrap().is_empty());
}

#[test]
fn an_update_settles_where_line_breaks_join() {
    let mut backend = backend(vec![language("py", "x", false)]);
    let a = uri("/a.py");
    backend.reload_data(&a, Ok(vec![entry(1, "", RawEntryKind::Output)]));
    let before = Rope::from_str("a\r#> 0\n\n#> 1\nb\r#> 2\n\nc");
    let edits = backend.update_comments(&a, &before).unwrap();
    let plain: Vec<(u64, u64, String)> = edits
        .iter()
        .map(|e| (e.range.start.line, e.range.end.line, e.new_text.clone()))
        .collect();
    assert_eq!(
        plain,
        vec![
            (1, 2, "".to_string()),
            (3, 4, "".to_string()),
            (5, 6, "".to_string()),
        ]
    );
    let after = Rope::from_str("a\r\nb\r\nc");
    assert!(backend.update_comments(&a, &after).unwrap().is_empty());
}
