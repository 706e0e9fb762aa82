use nwn::frames::FrameMap;
use nwn::protocol::{Frame, Position, Range, RawEntry, RawEntryInner, RawEntryKind, TextEdit};
use nwn::runner::{copy_strings, RunData, Runner, SentLine};
use ropey::Rope;
use std::sync::Arc;

fn frame(file: &str, line: u64) -> Frame {
    Frame { file: file.to_string(), line }
}

fn simple(frames: Vec<Frame>, out: &str, kind: Option<RawEntryKind>) -> RawEntry {
    RawEntry { frames, inner: RawEntryInner::Simple { out: out.to_string(), kind } }
}

fn listed(map: &FrameMap) -> Vec<(String, u64, Vec<String>)> {
    map.pairs
        .iter()
        .map(|(frame, entry)| {
            assert!(entry.insert_type.is_none());
            let out = entry.out.iter().map(|t| t.to_string()).collect();
            (frame.file.clone(), frame.line, out)
        })
        .collect()
}

fn strings(list: &[&str]) -> Vec<String> {
    list.iter().map(|s| s.to_string()).collect()
}

#[test]
fn output_goes_to_the_first_frame_in_the_file() {
    for kind in [None, Some(RawEntryKind::Output), Some(RawEntryKind::Regex)] {
        let frames = vec![frame("/lib", 9), frame("/a", 3), frame("/a", 1)];
        let data = RunData::from_raw(vec![simple(frames, "x", kind)], "/a");
        assert_eq!(listed(&data.entries), vec![("/a".to_string(), 3, strings(&["x"]))]);
        assert!(listed(&data.hovers).is_empty());
        assert!(data.changes.is_empty());
    }
}

#[test]
fn debug_output_goes_to_the_last_frame_in_the_file() {
    let frames = vec![frame("/a", 3), frame("/a", 1), frame("/lib", 9)];
    let data = RunData::from_raw(vec![simple(frames, "x", Some(RawEntryKind::Debug))], "/a");
    assert_eq!(listed(&data.entries), vec![("/a".to_string(), 1, strings(&["x"]))]);
}

#[test]
fn errors_go_to_all_frames() {
    let frames = vec![frame("/a", 3), frame("/lib", 9), frame("/a", 3)];
    let data = RunData::from_raw(vec![simple(frames, "x", Some(RawEntryKind::Error))], "/a");
    assert!(listed(&data.entries).is_empty());
    assert_eq!(
        listed(&data.hovers),
        vec![
            ("/a".to_string(), 3, strings(&["x", "x"])),
            ("/lib".to_string(), 9, strings(&["x"])),
        ]
    );
}

#[test]
fn output_for_other_files_is_dropped() {
    let raws = vec![
        simple(vec![frame("/lib", 9)], "x", None),
        simple(vec![], "y", None),
        simple(vec![frame("/lib", 9)], "z", Some(RawEntryKind::Debug)),
    ];
    let data = RunData::from_raw(raws, "/a");
    assert!(listed(&data.entries).is_empty());
}

#[test]
fn output_adds_up_in_order() {
    let raws = vec![
        simple(vec![frame("/a", 2)], "1", None),
        simple(vec![frame("/a", 1)], "2", None),
        simple(vec![frame("/a", 2)], "3", Some(RawEntryKind::Debug)),
        simple(vec![frame("/a", 2)], "1", None),
    ];
    let mut data = RunData::from_raw(raws, "/a");
    data.add(simple(vec![frame("/a", 1)], "4", None), &"/a".to_string());
    assert_eq!(
        listed(&data.entries),
        vec![
            ("/a".to_string(), 2, strings(&["1", "3", "1"])),
            ("/a".to_string(), 1, strings(&["2", "4"])),
        ]
    );
}

fn edit(line: u64, text: &str) -> TextEdit {
    let place = Position { line, character: 1 };
    TextEdit { range: Range { start: place, end: place }, new_text: text.to_string() }
}

#[test]
fn edits_are_collected() {
    let raws = vec![
        RawEntry { frames: vec![], inner: RawEntryInner::Edits { changes: vec![edit(1, "a"), edit(2, "b")] } },
        simple(vec![frame("/a", 2)], "1", None),
        RawEntry { frames: vec![], inner: RawEntryInner::Edits { changes: vec![edit(3, "c")] } },
    ];
    let data = RunData::from_raw(raws, "/a");
    let texts: Vec<String> = data.changes.iter().map(|e| e.new_text.clone()).collect();
    assert_eq!(texts, strings(&["a", "b", "c"]));
    assert_eq!(data.changes[1].range.start, Position { line: 2, character: 1 });
}

#[test]
fn frames_are_kept_apart_by_file_and_line() {
    let mut map = FrameMap::new();
    map.add(frame("/a", 1), Arc::new("x".to_string()));
    map.add(frame("/b", 1), Arc::new("y".to_string()));
    map.add(frame("/a", 2), Arc::new("z".to_string()));
    map.add(frame("/a", 1), Arc::new("w".to_string()));
    assert_eq!(
        listed(&map),
        vec![
            ("/a".to_string(), 1, strings(&["x", "w"])),
            ("/b".to_string(), 1, strings(&["y"])),
            ("/a".to_string(), 2, strings(&["z"])),
        ]
    );
}

#[test]
fn frames_of_a_file_are_sorted_by_line() {
    let mut map = FrameMap::new();
    for (file, line) in [("/a", 7u64), ("/b", 1), ("/a", 2), ("/a", 9), ("/a", 3)] {
        map.add(frame(file, line), Arc::new("x".to_string()));
    }
    assert_eq!(map.by_line(&"/a".to_string()), vec![2, 4, 0, 3]);
    assert_eq!(map.by_line(&"/b".to_string()), vec![1]);
    assert!(map.by_line(&"/c".to_string()).is_empty());
    assert!(map.fits(&"/a".to_string(), 9));
    assert!(!map.fits(&"/a".to_string(), 8));
    assert!(map.fits(&"/c".to_string(), 0));
    map.add(frame("/b", 0), Arc::new("x".to_string()));
    assert!(!map.fits(&"/b".to_string(), 9));
}

#[test]
fn frames_are_copied() {
    let copy = frame("/a", 3).copy();
    assert_eq!(copy, frame("/a", 3));
    assert_eq!(copy_strings(&strings(&["a", "b"])), strings(&["a", "b"]));
}

#[test]
fn runtimes_are_started_with_file_and_connection() {
    let runner = Runner { command: "python".to_string(), args: strings(&["-m", "nwn"]) };
    let process = runner.run("/a.py");
    assert_eq!(process.command, "python");
    assert_eq!(process.args, strings(&["-m", "nwn"]));
    assert_eq!(
        process.env,
        vec![("NWN_FILE_PATH".to_string(), "/a.py".to_string())]
    );
    assert_eq!(process.connection_env, "NWN_CONNECTION_FD");
    assert_eq!(Runner::socket_name(1605), "nwn_conn1605");
}

#[test]
fn runtimes_are_sent_the_text_and_a_zero_byte() {
    assert_eq!(Runner::request(&Rope::from_str("aé\n")), vec![97, 0xc3, 0xa9, 10, 0]);
    assert_eq!(Runner::request(&Rope::new()), vec![0]);
}

#[test]
fn blank_lines_hold_no_entry() {
    assert!(!Runner::holds_entry(""));
    assert!(!Runner::holds_entry(" \t\u{3000}"));
    assert!(Runner::holds_entry(" {}"));
}

#[test]
fn lines_without_an_entry_are_skipped() {
    let parsed = || Some(simple(vec![frame("/a", 1)], "x", None));
    assert!(Runner::entry_of(" \t", parsed()).is_none());
    assert!(Runner::entry_of("{}", None).is_none());
    assert_eq!(Runner::entry_of(" {}", parsed()).unwrap().frames, vec![frame("/a", 1)]);
}

#[test]
fn entries_of_a_run_come_in_the_order_of_its_lines() {
    let sent = |line: &str, out: Option<&str>| {
        Some(SentLine {
            line: line.to_string(),
            parsed: out.map(|out| simple(vec![frame("/a", 1)], out, None)),
        })
    };
    let items = Runner::items_of(vec![
        sent("{1}", Some("one")),
        sent("  ", Some("blank")),
        None,
        sent("{2", None),
        sent("{3}", Some("three")),
        sent("", None),
    ]);
    let outs: Vec<Option<String>> = items
        .into_iter()
        .map(|item| {
            item.map(|entry| match entry.inner {
                RawEntryInner::Simple { out, .. } => out,
                RawEntryInner::Edits { .. } => panic!("edits"),
            })
        })
        .collect();
    assert_eq!(outs, vec![Some("one".to_string()), None, Some("three".to_string())]);
    assert!(Runner::items_of(vec![]).is_empty());
}
