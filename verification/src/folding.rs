//! Output lines that the editor can fold away.

use crate::comments::{is_marked, is_output_line, marker_of};
use crate::rope::{lines_of, rope_len_lines, rope_text};
use ropey::Rope;
use vstd::prelude::*;

verus! {

/// The output lines among the first `count` lines.
pub open spec fn output_indices(
    lines: Seq<Seq<char>>,
    comment: Seq<char>,
    count: int,
) -> Seq<int>
    decreases count,
{
    if count <= 0 {
        Seq::empty()
    } else {
        let before = output_indices(lines, comment, count - 1);
        if is_output_line(lines[count - 1], comment) {
            before.push(count - 1)
        } else {
            before
        }
    }
}

/// Line numbers, in mathematical terms.
pub open spec fn index_views(list: Seq<usize>) -> Seq<int> {
    list.map_values(|i: usize| i as int)
}

/// All lines that hold output, where line comments start with `comment`: those that start with
/// `comment` and a `>` behind their indentation.
pub fn find_output_ranges(contents: &Rope, comment: &str) -> (found: Vec<usize>)
    ensures
        index_views(found@) == output_indices(
            lines_of(rope_text(*contents)),
            comment@,
            lines_of(rope_text(*contents)).len() as int,
        ),
{
    let ghost lines = lines_of(rope_text(*contents));
    let count = rope_len_lines(contents);
    let marker = marker_of(comment);
    let mut found: Vec<usize> = Vec::new();
    let mut i: usize = 0;
    assert(index_views(found@) =~= Seq::<int>::empty());
    while i < count
        invariant
            lines == lines_of(rope_text(*contents)),
            count == lines.len(),
            marker@ == comment@.push('>'),
            i <= count,
            index_views(found@) == output_indices(lines, comment@, i as int),
        decreases count - i,
    {
        let ghost before = found@;
        if is_marked(contents, i, &marker) {
            found.push(i);
            assert(index_views(found@) =~= index_views(before).push(i as int));
        }
        i += 1;
    }
    found
}

/// What lines that fold away are.
#[derive(Clone, Copy, Debug, PartialEq, Eq, Structural)]
pub enum FoldingRangeKind {
    Comment,
    Imports,
    Region,
}

/// Lines that fold away together, from the first to the last one.
#[derive(Clone, Copy, Debug, PartialEq, Eq, Structural)]
pub struct FoldingRange {
    pub start_line: u64,
    pub end_line: u64,
    pub kind: FoldingRangeKind,
}

/// Whether `folds` are the runs of `lines`: together they hold these lines and no others, they are
/// in order, and between one and the next there is a line that is in neither. They are comments.
pub open spec fn are_runs(lines: spec_fn(int) -> bool, folds: Seq<FoldingRange>) -> bool {
    &&& forall|i: int|
        0 <= i < folds.len() ==> (#[trigger] folds[i]).start_line <= folds[i].end_line
            && folds[i].kind == FoldingRangeKind::Comment
    &&& forall|i: int, j: int|
        0 <= i < j < folds.len() ==> (#[trigger] folds[i]).end_line + 1 < (
        #[trigger] folds[j]).start_line
    &&& forall|l: int| #[trigger] lines(l) <==> in_a_fold(folds, l)
}

/// Whether one of `folds` holds `line`.
pub open spec fn in_a_fold(folds: Seq<FoldingRange>, line: int) -> bool {
    exists|i: int| #[trigger] holds(folds, i, line)
}

/// Whether the fold at `i` holds `line`.
pub open spec fn holds(folds: Seq<FoldingRange>, i: int, line: int) -> bool {
    0 <= i < folds.len() && folds[i].start_line <= line <= folds[i].end_line
}

/// Whether line `line` of a buffer holds output.
pub open spec fn is_foldable(lines: Seq<Seq<char>>, comment: Seq<char>, line: int) -> bool {
    0 <= line < lines.len() && is_output_line(lines[line], comment)
}

pub proof fn lemma_output_indices(lines: Seq<Seq<char>>, comment: Seq<char>, count: int)
    requires
        0 <= count <= lines.len(),
    ensures
        forall|a: int|
            0 <= a < output_indices(lines, comment, count).len() ==> 0 <= #[trigger] output_indices(
                lines,
                comment,
                count,
            )[a] < count && is_foldable(lines, comment, output_indices(lines, comment, count)[a]),
        forall|a: int, b: int|
            0 <= a < b < output_indices(lines, comment, count).len() ==> (#[trigger] output_indices(
                lines,
                comment,
                count,
            )[a]) < (#[trigger] output_indices(lines, comment, count)[b]),
        forall|l: int|
            #![trigger is_foldable(lines, comment, l)]
            is_foldable(lines, comment, l) && l < count ==> exists|a: int|
                0 <= a < output_indices(lines, comment, count).len() && #[trigger] output_indices(
                    lines,
                    comment,
                    count,
                )[a] == l,
    decreases count,
{
    if count > 0 {
        lemma_output_indices(lines, comment, count - 1);
        let before = output_indices(lines, comment, count - 1);
        let now = output_indices(lines, comment, count);
        assert forall|l: int|
            #![trigger is_foldable(lines, comment, l)]
            is_foldable(lines, comment, l) && l < count implies exists|a: int|
            0 <= a < now.len() && #[trigger] now[a] == l by {
            if l < count - 1 {
                let a = choose|a: int| 0 <= a < before.len() && #[trigger] before[a] == l;
                assert(now[a] == l);
            } else {
                assert(now[before.len() as int] == l);
            }
        }
    }
}

/// Whether `line` is among the first `count` of `list`.
pub open spec fn among(list: Seq<usize>, count: int, line: int) -> bool {
    exists|a: int| 0 <= a < count && #[trigger] list[a] == line
}

/// Joins line numbers that follow each other.
pub fn join_lines(list: &Vec<usize>) -> (folds: Vec<FoldingRange>)
    requires
        forall|a: int, b: int|
            0 <= a < b < list@.len() ==> (#[trigger] list@[a]) < (#[trigger] list@[b]),
    ensures
        are_runs(|l: int| among(list@, list@.len() as int, l), folds@),
{
    let mut folds: Vec<FoldingRange> = Vec::new();
    let mut k: usize = 0;
    while k < list.len()
        invariant
            forall|a: int, b: int|
                0 <= a < b < list@.len() ==> (#[trigger] list@[a]) < (#[trigger] list@[b]),
            k <= list@.len(),
            k == 0 <==> folds@.len() == 0,
            k > 0 ==> folds@.last().end_line == list@[k - 1],
            are_runs(|l: int| among(list@, k as int, l), folds@),
        decreases list@.len() - k,
    {
        let ghost before = folds@;
        let ghost old_lines = |l: int| among(list@, k as int, l);
        let ghost new_lines = |l: int| among(list@, k + 1, l);
        let line = list[k] as u64;
        let count = folds.len();
        proof {
            assert(k > 0 ==> list@[k - 1] < list@[k as int]);
            assert forall|l: int| #[trigger] new_lines(l) <==> old_lines(l) || l == line by {
                if old_lines(l) {
                    let a = choose|a: int| 0 <= a < k && #[trigger] list@[a] == l;
                    assert(0 <= a < k + 1 && list@[a] == l);
                }
                if l == line {
                    assert(list@[k as int] == l);
                }
            }
        }
        if count > 0 && folds[count - 1].end_line + 1 == line {
            let start = folds[count - 1].start_line;
            folds[count - 1] = FoldingRange {
                start_line: start,
                end_line: line,
                kind: FoldingRangeKind::Comment,
            };
            proof {
                let last = count - 1;
                assert(forall|i: int| 0 <= i < last ==> #[trigger] folds@[i] == before[i]);
                assert forall|l: int| #[trigger] new_lines(l) <==> in_a_fold(folds@, l) by {
                    if old_lines(l) {
                        let i = choose|i: int| #[trigger] holds(before, i, l);
                        assert(holds(folds@, i, l));
                    }
                    if l == line {
                        assert(holds(folds@, last, l));
                    }
                    if in_a_fold(folds@, l) {
                        let i = choose|i: int| #[trigger] holds(folds@, i, l);
                        if l != line {
                            assert(holds(before, i, l));
                            assert(old_lines(l));
                        }
                    }
                }
            }
        } else {
            folds.push(
                FoldingRange {
                    start_line: line,
                    end_line: line,
                    kind: FoldingRangeKind::Comment,
                },
            );
            proof {
                assert(forall|i: int| 0 <= i < before.len() ==> #[trigger] folds@[i] == before[i]);
                assert forall|l: int| #[trigger] new_lines(l) <==> in_a_fold(folds@, l) by {
                    if old_lines(l) {
                        let i = choose|i: int| #[trigger] holds(before, i, l);
                        assert(holds(folds@, i, l));
                    }
                    if l == line {
                        assert(holds(folds@, before.len() as int, l));
                    }
                    if in_a_fold(folds@, l) {
                        let i = choose|i: int| #[trigger] holds(folds@, i, l);
                        if i < before.len() {
                            assert(holds(before, i, l));
                            assert(old_lines(l));
                        }
                    }
                }
                assert forall|i: int, j: int| 0 <= i < j < folds@.len() implies (
                #[trigger] folds@[i]).end_line + 1 < (#[trigger] folds@[j]).start_line by {
                    if j == before.len() {
                        if i < before.len() - 1 {
                            assert(before[i].end_line + 1 < before.last().start_line);
                        }
                    } else {
                        assert(before[i].end_line + 1 < before[j].start_line);
                    }
                }
            }
        }
        k += 1;
        assert(are_runs(new_lines, folds@));
    }
    folds
}

/// The lines of a buffer that fold away: each run of output lines, as one.
pub fn folding_ranges(contents: &Rope, comment: &str) -> (folds: Vec<FoldingRange>)
    ensures
        are_runs(|l: int| is_foldable(lines_of(rope_text(*contents)), comment@, l), folds@),
{
    let ghost lines = lines_of(rope_text(*contents));
    let found = find_output_ranges(contents, comment);
    let ghost indices = output_indices(lines, comment@, lines.len() as int);
    proof {
        lemma_output_indices(lines, comment@, lines.len() as int);
        assert(forall|a: int| 0 <= a < found@.len() ==> indices[a] == #[trigger] found@[a]);
        assert(indices.len() == found@.len());
    }
    let folds = join_lines(&found);
    proof {
        let listed = |l: int| among(found@, found@.len() as int, l);
        assert forall|l: int| is_foldable(lines, comment@, l) <==> #[trigger] listed(l) by {
            if is_foldable(lines, comment@, l) {
                let a = choose|a: int| 0 <= a < indices.len() && #[trigger] indices[a] == l;
                assert(found@[a] == l);
            }
        }
        assert forall|l: int| is_foldable(lines, comment@, l) <==> in_a_fold(folds@, l) by {
            assert(listed(l) <==> in_a_fold(folds@, l));
        }
    }
    folds
}

/// Lines fall into runs in one way only.
pub proof fn law_runs_are_unique(
    lines: spec_fn(int) -> bool,
    a: Seq<FoldingRange>,
    b: Seq<FoldingRange>,
)
    requires
        are_runs(lines, a),
        are_runs(lines, b),
    ensures
        a == b,
    decreases a.len(),
{
    if a.len() == 0 || b.len() == 0 {
        if a.len() > 0 {
            assert(holds(a, 0, a[0].start_line as int));
            assert(lines(a[0].start_line as int));
            assert(in_a_fold(b, a[0].start_line as int));
        }
        if b.len() > 0 {
            assert(holds(b, 0, b[0].start_line as int));
            assert(lines(b[0].start_line as int));
            assert(in_a_fold(a, b[0].start_line as int));
        }
        assert(a =~= b);
    } else {
        lemma_first_run(lines, a, b);
        lemma_first_run(lines, b, a);
        let rest = |l: int| lines(l) && l > a[0].end_line;
        lemma_later_runs(lines, a);
        lemma_later_runs(lines, b);
        law_runs_are_unique(rest, a.skip(1), b.skip(1));
        assert(a =~= seq![a[0]] + a.skip(1));
        assert(b =~= seq![b[0]] + b.skip(1));
    }
}

proof fn lemma_first_run(
    lines: spec_fn(int) -> bool,
    a: Seq<FoldingRange>,
    b: Seq<FoldingRange>,
)
    requires
        are_runs(lines, a),
        are_runs(lines, b),
        a.len() > 0,
        b.len() > 0,
    ensures
        b[0].start_line <= a[0].start_line,
        a[0].start_line == b[0].start_line ==> a[0].end_line <= b[0].end_line,
{
    let first = a[0].start_line as int;
    assert(holds(a, 0, first));
    assert(lines(first));
    let i = choose|i: int| #[trigger] holds(b, i, first);
    if i > 0 {
        assert(b[0].end_line + 1 < b[i].start_line);
    }
    if a[0].start_line == b[0].start_line && a[0].end_line > b[0].end_line {
        let next = b[0].end_line + 1;
        assert(holds(a, 0, next));
        assert(lines(next));
        let j = choose|j: int| #[trigger] holds(b, j, next);
        assert(j > 0);
        assert(b[0].end_line + 1 < b[j].start_line);
    }
}

proof fn lemma_later_runs(lines: spec_fn(int) -> bool, a: Seq<FoldingRange>)
    requires
        are_runs(lines, a),
        a.len() > 0,
    ensures
        are_runs(|l: int| lines(l) && l > a[0].end_line, a.skip(1)),
{
    let rest = |l: int| lines(l) && l > a[0].end_line;
    let tail = a.skip(1);
    assert(forall|i: int| 0 <= i < tail.len() ==> #[trigger] tail[i] == a[i + 1]);
    assert forall|l: int| #[trigger] rest(l) <==> in_a_fold(tail, l) by {
        if rest(l) {
            assert(lines(l));
            let i = choose|i: int| #[trigger] holds(a, i, l);
            assert(i > 0);
            assert(holds(tail, i - 1, l));
        }
        if in_a_fold(tail, l) {
            let i = choose|i: int| #[trigger] holds(tail, i, l);
            assert(holds(a, i + 1, l));
            assert(lines(l));
            assert(a[0].end_line + 1 < a[i + 1].start_line);
        }
    }
}

} // verus!
