//! Output by the frame that it came from.

use crate::protocol::{Frame, FrameKey};
use std::sync::Arc;
use vstd::prelude::*;
use vstd::string::*;

verus! {

/// The output that belongs to one frame, in the order in which it came.
#[derive(Debug)]
pub struct RunEntry {
    pub insert_type: Option<String>,
    pub out: Vec<Arc<String>>,
}

/// Shared texts, in mathematical terms.
pub open spec fn texts(out: Seq<Arc<String>>) -> Seq<Seq<char>> {
    out.map_values(|text: Arc<String>| text@)
}

/// Output by frame. Each frame occurs once, has at least one text, and has no insert type; the
/// order of the frames does not matter.
#[derive(Debug)]
pub struct FrameMap {
    pub pairs: Vec<(Frame, RunEntry)>,
}

/// Whether the pair at `i` is the one for `key`.
pub open spec fn is_at(pairs: Seq<(Frame, RunEntry)>, key: FrameKey, i: int) -> bool {
    0 <= i < pairs.len() && pairs[i].0@ == key
}

impl View for FrameMap {
    type V = Map<FrameKey, Seq<Seq<char>>>;

    open spec fn view(&self) -> Map<FrameKey, Seq<Seq<char>>> {
        Map::new(
            |key: FrameKey| exists|i: int| is_at(self.pairs@, key, i),
            |key: FrameKey| texts(self.pairs@[choose|i: int| is_at(self.pairs@, key, i)].1.out@),
        )
    }
}

/// The texts that `map` holds for `key`: none where it does not know it.
pub open spec fn texts_for(map: Map<FrameKey, Seq<Seq<char>>>, key: FrameKey) -> Seq<Seq<char>> {
    if map.dom().contains(key) {
        map[key]
    } else {
        Seq::empty()
    }
}

impl FrameMap {
    pub open spec fn wf(self) -> bool {
        &&& forall|i: int, j: int|
            0 <= i < j < self.pairs@.len() ==> (#[trigger] self.pairs@[i]).0@ != (
            #[trigger] self.pairs@[j]).0@
        &&& forall|i: int|
            0 <= i < self.pairs@.len() ==> (#[trigger] self.pairs@[i]).1.out@.len() > 0
                && self.pairs@[i].1.insert_type is None
    }

    /// The pair at `i` is what the map holds for its frame.
    pub proof fn lemma_pair(self, i: int)
        requires
            self.wf(),
            0 <= i < self.pairs@.len(),
        ensures
            self@.dom().contains(self.pairs@[i].0@),
            self@[self.pairs@[i].0@] == texts(self.pairs@[i].1.out@),
    {
        let key = self.pairs@[i].0@;
        assert(is_at(self.pairs@, key, i));
        let j = choose|j: int| is_at(self.pairs@, key, j);
        assert(j == i) by {
            if j < i {
                assert(self.pairs@[j].0@ != self.pairs@[i].0@);
            } else if i < j {
                assert(self.pairs@[i].0@ != self.pairs@[j].0@);
            }
        }
    }

    /// Every frame of a map has texts.
    pub proof fn lemma_no_empty(self)
        requires
            self.wf(),
        ensures
            forall|key: FrameKey| #[trigger] self@.dom().contains(key) ==> self@[key].len() > 0,
    {
        assert forall|key: FrameKey| #[trigger] self@.dom().contains(key) implies self@[key].len()
            > 0 by {
            let i = choose|i: int| is_at(self.pairs@, key, i);
            self.lemma_pair(i);
        }
    }

    /// A map without frames.
    pub fn new() -> (map: FrameMap)
        ensures
            map.wf(),
            map@ == Map::<FrameKey, Seq<Seq<char>>>::empty(),
    {
        let map = FrameMap { pairs: Vec::new() };
        assert(map@ =~= Map::<FrameKey, Seq<Seq<char>>>::empty()) by {
            assert(forall|key: FrameKey, i: int| !is_at(map.pairs@, key, i));
        }
        map
    }

    /// Adds `text` behind the texts of `frame`.
    pub fn add(&mut self, frame: Frame, text: Arc<String>)
        requires
            old(self).wf(),
        ensures
            final(self).wf(),
            final(self)@ == old(self)@.insert(
                frame@,
                texts_for(old(self)@, frame@).push(text@),
            ),
    {
        let ghost before = *self;
        let mut i: usize = 0;
        while i < self.pairs.len()
            invariant
                i <= self.pairs@.len(),
                *self == before,
                before == *old(self),
                before.wf(),
                forall|j: int| 0 <= j < i ==> (#[trigger] self.pairs@[j]).0@ != frame@,
            decreases self.pairs@.len() - i,
        {
            if self.pairs[i].0.line == frame.line && self.pairs[i].0.file == frame.file {
                self.pairs[i].1.out.push(text);
                proof {
                    before.lemma_added(*self, frame@, text@, i as int);
                }
                return ;
            }
            i += 1;
        }
        let mut out: Vec<Arc<String>> = Vec::new();
        out.push(text);
        self.pairs.push((frame, RunEntry { insert_type: None, out }));
        proof {
            assert(texts(out@) =~= Seq::empty().push(text@));
            before.lemma_new_frame(*self, frame@, text@);
        }
    }

    proof fn lemma_added(self, after: FrameMap, key: FrameKey, text: Seq<char>, at: int)
        requires
            self.wf(),
            0 <= at < self.pairs@.len(),
            self.pairs@[at].0@ == key,
            after.pairs@.len() == self.pairs@.len(),
            forall|i: int|
                0 <= i < self.pairs@.len() && i != at ==> #[trigger] after.pairs@[i]
                    == self.pairs@[i],
            after.pairs@[at].0 == self.pairs@[at].0,
            after.pairs@[at].1.insert_type is None,
            after.pairs@[at].1.out@.len() == self.pairs@[at].1.out@.len() + 1,
            texts(after.pairs@[at].1.out@) =~= texts(self.pairs@[at].1.out@).push(text),
        ensures
            after.wf(),
            after@ == self@.insert(key, texts_for(self@, key).push(text)),
    {
        self.lemma_pair(at);
        assert(forall|i: int| 0 <= i < self.pairs@.len() ==> (#[trigger] after.pairs@[i]).0
            == self.pairs@[i].0);
        assert(after.wf());
        assert forall|k: FrameKey| #[trigger] after@.dom().contains(k) <==> self@.dom().contains(
            k,
        ) by {
            assert forall|i: int| is_at(after.pairs@, k, i) == is_at(self.pairs@, k, i) by {}
        }
        assert forall|k: FrameKey| #[trigger] after@.dom().contains(k) implies after@[k]
            == self@.insert(key, texts_for(self@, key).push(text))[k] by {
            let i = choose|i: int| is_at(after.pairs@, k, i);
            after.lemma_pair(i);
            assert(is_at(self.pairs@, k, i));
            self.lemma_pair(i);
        }
        assert(after@ =~= self@.insert(key, texts_for(self@, key).push(text)));
    }

    proof fn lemma_new_frame(self, after: FrameMap, key: FrameKey, text: Seq<char>)
        requires
            self.wf(),
            forall|i: int| 0 <= i < self.pairs@.len() ==> (#[trigger] self.pairs@[i]).0@ != key,
            after.pairs@.len() == self.pairs@.len() + 1,
            after.pairs@.drop_last() =~= self.pairs@,
            after.pairs@.last().0@ == key,
            after.pairs@.last().1.insert_type is None,
            after.pairs@.last().1.out@.len() == 1,
            texts(after.pairs@.last().1.out@) == Seq::empty().push(text),
        ensures
            after.wf(),
            after@ == self@.insert(key, texts_for(self@, key).push(text)),
    {
        let n = self.pairs@.len() as int;
        assert(forall|i: int| 0 <= i < n ==> #[trigger] after.pairs@[i] == self.pairs@[i]) by {
            assert(forall|i: int| 0 <= i < n ==> after.pairs@.drop_last()[i] == after.pairs@[i]);
        }
        assert(after.wf());
        assert(!self@.dom().contains(key)) by {
            assert(forall|i: int| !is_at(self.pairs@, key, i));
        }
        assert forall|k: FrameKey| #[trigger] after@.dom().contains(k) <==> self@.dom().contains(k)
            || k == key by {
            if self@.dom().contains(k) {
                let i = choose|i: int| is_at(self.pairs@, k, i);
                assert(is_at(after.pairs@, k, i));
            }
            if k == key {
                assert(is_at(after.pairs@, k, n));
            }
            if after@.dom().contains(k) {
                let i = choose|i: int| is_at(after.pairs@, k, i);
                if i < n {
                    assert(is_at(self.pairs@, k, i));
                }
            }
        }
        assert forall|k: FrameKey| #[trigger] after@.dom().contains(k) implies after@[k]
            == self@.insert(key, texts_for(self@, key).push(text))[k] by {
            let i = choose|i: int| is_at(after.pairs@, k, i);
            after.lemma_pair(i);
            if i < n {
                self.lemma_pair(i);
            }
        }
        assert(after@ =~= self@.insert(key, texts_for(self@, key).push(text)));
    }
}

/// The texts for one line of a file. Lines are counted from one, as in a `Frame`.
pub struct LineTexts {
    pub line: int,
    pub texts: Seq<Seq<char>>,
}

/// The texts that `map` holds for the lines of the file `path`, up to and including line `last`,
/// in the order of the lines.
pub open spec fn texts_by_line(
    map: Map<FrameKey, Seq<Seq<char>>>,
    path: Seq<char>,
    last: int,
) -> Seq<LineTexts>
    decreases last,
{
    if last <= 0 {
        Seq::empty()
    } else {
        let before = texts_by_line(map, path, last - 1);
        let key = (path, last as u64);
        if last <= u64::MAX && map.dom().contains(key) {
            before.push(LineTexts { line: last, texts: map[key] })
        } else {
            before
        }
    }
}

/// The texts by line are sorted, and stand for what the map holds for the lines up to `last`.
pub proof fn lemma_texts_by_line(
    map: Map<FrameKey, Seq<Seq<char>>>,
    path: Seq<char>,
    last: int,
)
    ensures
        forall|i: int|
            0 <= i < texts_by_line(map, path, last).len() ==> 1 <= (#[trigger] texts_by_line(
                map,
                path,
                last,
            )[i]).line <= last && texts_by_line(map, path, last)[i].line <= u64::MAX
                && map.dom().contains(
                (path, texts_by_line(map, path, last)[i].line as u64),
            ),
        forall|i: int, j: int|
            0 <= i < j < texts_by_line(map, path, last).len() ==> (#[trigger] texts_by_line(
                map,
                path,
                last,
            )[i]).line < (#[trigger] texts_by_line(map, path, last)[j]).line,
        forall|line: u64|
            1 <= line <= last && #[trigger] map.dom().contains((path, line)) ==> exists|i: int|
                0 <= i < texts_by_line(map, path, last).len() && #[trigger] texts_by_line(
                    map,
                    path,
                    last,
                )[i] == (LineTexts { line: line as int, texts: map[(path, line)] }),
    decreases last,
{
    if last > 0 {
        lemma_texts_by_line(map, path, last - 1);
        let before = texts_by_line(map, path, last - 1);
        let all = texts_by_line(map, path, last);
        assert forall|line: u64| 1 <= line <= last && #[trigger]
            map.dom().contains((path, line)) implies exists|i: int|
            0 <= i < all.len() && #[trigger] all[i] == (LineTexts {
                line: line as int,
                texts: map[(path, line)],
            }) by {
            let wanted = LineTexts { line: line as int, texts: map[(path, line)] };
            if line < last {
                let i = choose|i: int| 0 <= i < before.len() && #[trigger] before[i] == wanted;
                assert(all[i] == wanted);
            } else {
                assert(all[before.len() as int] == wanted);
            }
        }
    }
}

/// Whether the frames in the file `path` all belong to lines of a buffer with `count` lines.
pub open spec fn frames_fit(
    map: Map<FrameKey, Seq<Seq<char>>>,
    path: Seq<char>,
    count: nat,
) -> bool {
    forall|line: u64| #[trigger] map.dom().contains((path, line)) ==> 1 <= line <= count
}

/// Whether `picked` lists the pairs for the file `path`, sorted by line.
pub open spec fn is_picked(
    pairs: Seq<(Frame, RunEntry)>,
    path: Seq<char>,
    picked: Seq<usize>,
) -> bool {
    &&& forall|a: int|
        0 <= a < picked.len() ==> (#[trigger] picked[a]) < pairs.len()
            && pairs[picked[a] as int].0.file@ == path
    &&& forall|a: int, b: int|
        0 <= a < b < picked.len() ==> pairs[(#[trigger] picked[a]) as int].0.line < pairs[(
        #[trigger] picked[b]) as int].0.line
    &&& forall|i: int|
        0 <= i < pairs.len() && (#[trigger] pairs[i]).0.file@ == path ==> exists|a: int|
            0 <= a < picked.len() && #[trigger] picked[a] == i
}

/// What the picked pairs say.
pub open spec fn picked_texts(pairs: Seq<(Frame, RunEntry)>, picked: Seq<usize>) -> Seq<
    LineTexts,
> {
    Seq::new(
        picked.len(),
        |a: int|
            LineTexts {
                line: pairs[picked[a] as int].0.line as int,
                texts: texts(pairs[picked[a] as int].1.out@),
            },
    )
}

proof fn lemma_pick_one_more(
    pairs: Seq<(Frame, RunEntry)>,
    path: Seq<char>,
    before: Seq<usize>,
    at: int,
    i: usize,
)
    requires
        i < pairs.len(),
        pairs[i as int].0.file@ == path,
        is_picked(pairs.take(i as int), path, before),
        0 <= at <= before.len(),
        forall|a: int|
            0 <= a < at ==> pairs[(#[trigger] before[a]) as int].0.line < pairs[i as int].0.line,
        forall|a: int|
            at <= a < before.len() ==> pairs[(#[trigger] before[a]) as int].0.line
                > pairs[i as int].0.line,
    ensures
        is_picked(pairs.take(i + 1), path, before.insert(at, i)),
{
    let so_far = pairs.take(i as int);
    let now = pairs.take(i + 1);
    let picked = before.insert(at, i);
    assert(forall|j: int| 0 <= j < i ==> #[trigger] now[j] == so_far[j]);
    assert forall|a: int| 0 <= a < picked.len() implies (#[trigger] picked[a]) < now.len()
        && now[picked[a] as int].0.file@ == path by {
        if a < at {
            assert(picked[a] == before[a]);
        } else if a > at {
            assert(picked[a] == before[a - 1]);
        }
    }
    assert forall|a: int, b: int| 0 <= a < b < picked.len() implies now[(
    #[trigger] picked[a]) as int].0.line < now[(#[trigger] picked[b]) as int].0.line by {
        let a0 = if a < at {
            a
        } else {
            a - 1
        };
        let b0 = if b < at {
            b
        } else {
            b - 1
        };
        if a != at {
            assert(picked[a] == before[a0]);
        }
        if b != at {
            assert(picked[b] == before[b0]);
        }
        if a != at && b != at {
            assert(so_far[before[a0] as int].0.line < so_far[before[b0] as int].0.line);
        }
    }
    assert forall|j: int| 0 <= j < now.len() && (#[trigger] now[j]).0.file@ == path implies exists|
        a: int,
    | 0 <= a < picked.len() && #[trigger] picked[a] == j by {
        if j == i {
            assert(picked[at] == j);
        } else {
            assert(so_far[j].0.file@ == path);
            let a = choose|a: int| 0 <= a < before.len() && #[trigger] before[a] == j;
            if a < at {
                assert(picked[a] == j);
            } else {
                assert(picked[a + 1] == j);
            }
        }
    }
}

proof fn lemma_pick_no_more(
    pairs: Seq<(Frame, RunEntry)>,
    path: Seq<char>,
    picked: Seq<usize>,
    i: usize,
)
    requires
        i < pairs.len(),
        pairs[i as int].0.file@ != path,
        is_picked(pairs.take(i as int), path, picked),
    ensures
        is_picked(pairs.take(i + 1), path, picked),
{
    let so_far = pairs.take(i as int);
    let now = pairs.take(i + 1);
    assert(forall|j: int| 0 <= j < i ==> #[trigger] now[j] == so_far[j]);
    assert forall|j: int| 0 <= j < now.len() && (#[trigger] now[j]).0.file@ == path implies exists|
        a: int,
    | 0 <= a < picked.len() && #[trigger] picked[a] == j by {
        assert(so_far[j].0.file@ == path);
    }
}

impl FrameMap {
    proof fn lemma_picked_up_to(
        self,
        path: Seq<char>,
        picked: Seq<usize>,
        last: int,
        count: int,
    )
        requires
            self.wf(),
            is_picked(self.pairs@, path, picked),
            0 <= last <= u64::MAX,
            0 <= count <= picked.len(),
            forall|a: int|
                0 <= a < picked.len() ==> 1 <= self.pairs@[(#[trigger] picked[a]) as int].0.line
                    && (a < count <==> self.pairs@[picked[a] as int].0.line <= last),
        ensures
            texts_by_line(self@, path, last) == picked_texts(self.pairs@, picked).take(count),
        decreases last,
    {
        let listed = picked_texts(self.pairs@, picked);
        if last == 0 {
            if count > 0 {
                assert(self.pairs@[picked[0] as int].0.line <= last);
            }
            assert(listed.take(count) =~= Seq::<LineTexts>::empty());
        } else {
            let key = (path, last as u64);
            if count > 0 && self.pairs@[picked[count - 1] as int].0.line == last {
                let i = picked[count - 1] as int;
                self.lemma_pair(i);
                assert(self.pairs@[i].0@ == key);
                self.lemma_picked_up_to(path, picked, last - 1, count - 1);
                assert(listed.take(count) =~= listed.take(count - 1).push(listed[count - 1]));
            } else {
                if self@.dom().contains(key) {
                    let i = choose|i: int| is_at(self.pairs@, key, i);
                    assert(self.pairs@[i].0.file@ == path);
                    let a = choose|a: int| 0 <= a < picked.len() && #[trigger] picked[a] == i;
                    assert(a < count);
                    if a < count - 1 {
                        assert(self.pairs@[picked[a] as int].0.line < self.pairs@[picked[count
                            - 1] as int].0.line);
                    }
                    assert(false);
                }
                assert forall|a: int| 0 <= a < picked.len() implies (a < count
                    <==> self.pairs@[(#[trigger] picked[a]) as int].0.line <= last - 1) by {
                    if a < count && self.pairs@[picked[a] as int].0.line == last {
                        if a < count - 1 {
                            assert(self.pairs@[picked[a] as int].0.line < self.pairs@[picked[count
                                - 1] as int].0.line);
                        }
                    }
                }
                self.lemma_picked_up_to(path, picked, last - 1, count);
            }
        }
    }

    /// The pairs that are picked for a file are what the map holds for its lines.
    pub proof fn lemma_picked(self, path: Seq<char>, picked: Seq<usize>, last: int)
        requires
            self.wf(),
            is_picked(self.pairs@, path, picked),
            0 <= last <= u64::MAX,
            forall|a: int|
                0 <= a < picked.len() ==> 1 <= self.pairs@[(#[trigger] picked[a]) as int].0.line
                    <= last,
        ensures
            texts_by_line(self@, path, last) == picked_texts(self.pairs@, picked),
    {
        self.lemma_picked_up_to(path, picked, last, picked.len() as int);
        assert(picked_texts(self.pairs@, picked).take(picked.len() as int) =~= picked_texts(
            self.pairs@,
            picked,
        ));
    }

    /// Whether the frames in the file `path` all belong to lines of a buffer with `count` lines.
    pub fn fits(&self, path: &String, count: usize) -> (fits: bool)
        requires
            self.wf(),
        ensures
            fits == frames_fit(self@, path@, count as nat),
    {
        let mut i: usize = 0;
        while i < self.pairs.len()
            invariant
                self.wf(),
                i <= self.pairs@.len(),
                forall|j: int|
                    0 <= j < i && (#[trigger] self.pairs@[j]).0.file@ == path@ ==> 1
                        <= self.pairs@[j].0.line <= count,
            decreases self.pairs@.len() - i,
        {
            let line = self.pairs[i].0.line;
            if self.pairs[i].0.file == *path && (line < 1 || line > count as u64) {
                proof {
                    self.lemma_pair(i as int);
                    assert(self@.dom().contains((path@, line)));
                }
                return false;
            }
            i += 1;
        }
        assert forall|line: u64| #[trigger] self@.dom().contains((path@, line)) implies 1 <= line
            <= count by {
            let j = choose|j: int| is_at(self.pairs@, (path@, line), j);
            assert(self.pairs@[j].0.file@ == path@);
        }
        true
    }

    /// Where the pairs for the file `path` are, sorted by line.
    pub fn by_line(&self, path: &String) -> (picked: Vec<usize>)
        requires
            self.wf(),
        ensures
            is_picked(self.pairs@, path@, picked@),
    {
        let mut picked: Vec<usize> = Vec::new();
        let mut i: usize = 0;
        while i < self.pairs.len()
            invariant
                self.wf(),
                i <= self.pairs@.len(),
                is_picked(self.pairs@.take(i as int), path@, picked@),
            decreases self.pairs@.len() - i,
        {
            let ghost before = picked@;
            let ghost so_far = self.pairs@.take(i as int);
            if self.pairs[i].0.file == *path {
                let line = self.pairs[i].0.line;
                let mut at: usize = picked.len();
                while at > 0 && self.pairs[picked[at - 1]].0.line > line
                    invariant
                        at <= picked@.len(),
                        i < self.pairs@.len(),
                        picked@ == before,
                        is_picked(self.pairs@.take(i as int), path@, picked@),
                        line == self.pairs@[i as int].0.line,
                        forall|a: int|
                            at <= a < picked@.len() ==> self.pairs@[(
                            #[trigger] picked@[a]) as int].0.line > line,
                    decreases at,
                {
                    at -= 1;
                }
                proof {
                    assert(forall|a: int|
                        0 <= a < before.len() ==> so_far[(#[trigger] before[a]) as int]
                            == self.pairs@[before[a] as int]);
                    assert forall|a: int| 0 <= a < at implies self.pairs@[(
                    #[trigger] before[a]) as int].0.line < line by {
                        let j = before[a] as int;
                        let k = before[at - 1] as int;
                        if a < at - 1 {
                            assert(so_far[j].0.line < so_far[k].0.line);
                        }
                        assert(self.pairs@[k].0@ != self.pairs@[i as int].0@);
                        assert(self.pairs@[k].0.line != line);
                    }
                }
                picked.insert(at, i);
                proof {
                    lemma_pick_one_more(self.pairs@, path@, before, at as int, i);
                }
            } else {
                proof {
                    lemma_pick_no_more(self.pairs@, path@, before, i);
                }
            }
            i += 1;
        }
        assert(self.pairs@.take(i as int) =~= self.pairs@);
        picked
    }
}

} // verus!
