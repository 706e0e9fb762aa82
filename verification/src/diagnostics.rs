//! Errors of a run, as the editor shows them.

use crate::frames::{frames_fit, picked_texts, texts, texts_by_line, FrameMap, LineTexts};
use crate::protocol::{Position, Range};
use crate::rope::{lines_of, rope_len_lines, rope_line, rope_text, slice_len_chars};
use ropey::Rope;
use std::sync::Arc;
use vstd::prelude::*;
use vstd::string::*;

verus! {

/// A message on part of a document.
#[derive(Debug)]
pub struct Diagnostic {
    pub range: Range,
    pub source: String,
    pub message: String,
}

/// A `Diagnostic` in mathematical terms.
pub struct DiagnosticView {
    pub start_line: int,
    pub start_character: int,
    pub end_line: int,
    pub end_character: int,
    pub source: Seq<char>,
    pub message: Seq<char>,
}

impl View for Diagnostic {
    type V = DiagnosticView;

    open spec fn view(&self) -> DiagnosticView {
        DiagnosticView {
            start_line: self.range.start.line as int,
            start_character: self.range.start.character as int,
            end_line: self.range.end.line as int,
            end_character: self.range.end.character as int,
            source: self.source@,
            message: self.message@,
        }
    }
}

/// The diagnostics of a list, in mathematical terms.
pub open spec fn diagnostic_views(list: Seq<Diagnostic>) -> Seq<DiagnosticView> {
    list.map_values(|diagnostic: Diagnostic| diagnostic@)
}

/// The diagnostic for the errors at one line: it spans the line, its line break included, and says
/// all errors in a row.
pub open spec fn line_diagnostic(lines: Seq<Seq<char>>, errors: LineTexts) -> DiagnosticView {
    DiagnosticView {
        start_line: errors.line - 1,
        start_character: 0,
        end_line: errors.line - 1,
        end_character: lines[errors.line - 1].len() as int,
        source: "nwn"@,
        message: errors.texts.flatten(),
    }
}

/// The diagnostics for errors, in their order.
pub open spec fn line_diagnostics(lines: Seq<Seq<char>>, errors: Seq<LineTexts>) -> Seq<
    DiagnosticView,
> {
    errors.map_values(|e: LineTexts| line_diagnostic(lines, e))
}

fn joined(out: &Vec<Arc<String>>) -> (message: String)
    ensures
        message@ == texts(out@).flatten(),
{
    let mut message = String::new();
    let mut i: usize = 0;
    assert(texts(out@).take(0).flatten() =~= Seq::<char>::empty());
    while i < out.len()
        invariant
            i <= out@.len(),
            message@ == texts(out@).take(i as int).flatten(),
        decreases out@.len() - i,
    {
        message.append(out[i].as_str());
        proof {
            texts(out@).take(i as int).lemma_flatten_push(out@[i as int]@);
            assert(texts(out@).take(i + 1) =~= texts(out@).take(i as int).push(out@[i as int]@));
        }
        i += 1;
    }
    assert(texts(out@).take(i as int) =~= texts(out@));
    message
}

/// The diagnostics for the errors in the file `path`, sorted by line.
pub fn file_diagnostics(hovers: &FrameMap, path: &String, contents: &Rope) -> (list: Vec<
    Diagnostic,
>)
    requires
        hovers.wf(),
        frames_fit(hovers@, path@, lines_of(rope_text(*contents)).len()),
    ensures
        diagnostic_views(list@) == line_diagnostics(
            lines_of(rope_text(*contents)),
            texts_by_line(hovers@, path@, lines_of(rope_text(*contents)).len() as int),
        ),
{
    let ghost lines = lines_of(rope_text(*contents));
    let count = rope_len_lines(contents);
    let picked = hovers.by_line(path);
    let ghost errors = picked_texts(hovers.pairs@, picked@);
    proof {
        assert forall|a: int| 0 <= a < picked@.len() implies 1 <= hovers.pairs@[(
        #[trigger] picked@[a]) as int].0.line <= count by {
            hovers.lemma_pair(picked@[a] as int);
            assert(hovers@.dom().contains((path@, hovers.pairs@[picked@[a] as int].0.line)));
        }
        hovers.lemma_picked(path@, picked@, count as int);
    }
    let mut list: Vec<Diagnostic> = Vec::new();
    let mut a: usize = 0;
    assert(diagnostic_views(list@) =~= line_diagnostics(lines, errors).take(0));
    while a < picked.len()
        invariant
            lines == lines_of(rope_text(*contents)),
            count == lines.len(),
            a <= picked@.len(),
            errors == picked_texts(hovers.pairs@, picked@),
            forall|a: int|
                0 <= a < picked@.len() ==> (#[trigger] picked@[a]) < hovers.pairs@.len() && 1
                    <= hovers.pairs@[picked@[a] as int].0.line <= count,
            diagnostic_views(list@) == line_diagnostics(lines, errors).take(a as int),
        decreases picked@.len() - a,
    {
        let ghost before = list@;
        let i = picked[a];
        let line: u64 = hovers.pairs[i].0.line - 1;
        let length = slice_len_chars(&rope_line(contents, line as usize));
        let diagnostic = Diagnostic {
            range: Range {
                start: Position { line, character: 0 },
                end: Position { line, character: length as u64 },
            },
            source: "nwn".to_owned(),
            message: joined(&hovers.pairs[i].1.out),
        };
        list.push(diagnostic);
        proof {
            assert(errors[a as int].line == line + 1);
            assert(diagnostic@ == line_diagnostic(lines, errors[a as int]));
            assert(diagnostic_views(list@) =~= diagnostic_views(before).push(diagnostic@));
            assert(diagnostic_views(list@) =~= line_diagnostics(lines, errors).take(a + 1));
        }
        a += 1;
    }
    assert(diagnostic_views(list@) =~= line_diagnostics(lines, errors));
    list
}

} // verus!
