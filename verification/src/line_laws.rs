//! What holds of the lines of every text.

use crate::rope::{ends_in_break, first_line_len, is_line_break, lines_of};
use vstd::prelude::*;

verus! {

/// The first line has at most as many characters as the text. Where it does not end in a line
/// break, it is the whole text, and where it ends in a carriage return, no line feed follows.
pub proof fn lemma_first_line(text: Seq<char>)
    ensures
        first_line_len(text) <= text.len(),
        text.len() > 0 ==> first_line_len(text) > 0,
        first_line_len(text) < text.len() ==> ends_in_break(
            text.take(first_line_len(text) as int),
        ),
        0 < first_line_len(text) < text.len() && text[first_line_len(text) - 1] == '\r'
            ==> text[first_line_len(text) as int] != '\n',
        ends_in_break(text) ==> ends_in_break(text.take(first_line_len(text) as int)),
    decreases text.len(),
{
    if text.len() > 0 && !(text[0] == '\r' && text.len() > 1 && text[1] == '\n') && !is_line_break(
        text[0],
    ) {
        let rest = text.skip(1);
        lemma_first_line(rest);
        let n = first_line_len(rest) as int;
        assert(rest.take(n) =~= text.take(n + 1).skip(1));
        if n > 0 {
            assert(text.take(n + 1).last() == rest.take(n).last());
        }
        if rest.len() > 0 {
            assert(rest.last() == text.last());
        }
    }
}

proof fn lemma_first_line_extended(text: Seq<char>, more: Seq<char>)
    requires
        ends_in_break(text),
        text.last() == '\r' && more.len() > 0 ==> more[0] != '\n',
    ensures
        first_line_len(text + more) == first_line_len(text),
    decreases text.len(),
{
    let all = text + more;
    assert(all[0] == text[0]);
    if !(text[0] == '\r' && text.len() > 1 && text[1] == '\n') && !is_line_break(text[0]) {
        let rest = text.skip(1);
        assert(text.len() > 1);
        assert(rest.last() == text.last());
        lemma_first_line_extended(rest, more);
        assert(all.skip(1) =~= rest + more);
    } else if text.len() > 1 {
        assert(all[1] == text[1]);
    }
}

/// A text that ends in a line break can be cut off from what follows: the lines of both together
/// are the lines of the one and then those of the other, unless the cut goes between a carriage
/// return and its line feed.
pub proof fn law_lines_of_joined_texts(text: Seq<char>, more: Seq<char>)
    requires
        ends_in_break(text),
        text.last() == '\r' && more.len() > 0 ==> more[0] != '\n',
    ensures
        lines_of(text).len() > 0,
        lines_of(text).last() == Seq::<char>::empty(),
        lines_of(text + more) == lines_of(text).drop_last() + lines_of(more),
    decreases text.len(),
{
    let all = text + more;
    let n = first_line_len(text) as int;
    lemma_first_line(text);
    lemma_first_line_extended(text, more);
    let head = text.take(n);
    let rest = text.skip(n);
    assert(all.take(n) =~= head);
    assert(all.skip(n) =~= rest + more);
    assert(lines_of(all) == seq![head] + lines_of(rest + more));
    assert(lines_of(text) == seq![head] + lines_of(rest));
    if rest.len() == 0 {
        assert(rest + more =~= more);
        assert(rest =~= Seq::<char>::empty());
        assert(lines_of(rest) =~= seq![rest]);
        assert(lines_of(text).drop_last() =~= seq![head]);
    } else {
        assert(rest.last() == text.last());
        law_lines_of_joined_texts(rest, more);
        assert(lines_of(text).drop_last() =~= seq![head] + lines_of(rest).drop_last());
        assert(lines_of(all) =~= lines_of(text).drop_last() + lines_of(more));
    }
}

/// The lines of a text make up the text. Every line but the last ends in a line break, and the
/// last one does not.
pub proof fn law_lines_make_up_the_text(text: Seq<char>)
    ensures
        lines_of(text).len() > 0,
        lines_of(text).flatten() == text,
        forall|i: int|
            0 <= i < lines_of(text).len() - 1 ==> ends_in_break(#[trigger] lines_of(text)[i]),
        !ends_in_break(lines_of(text).last()),
    decreases text.len(),
{
    let n = first_line_len(text) as int;
    lemma_first_line(text);
    let lines = lines_of(text);
    if 0 < n <= text.len() && ends_in_break(text.take(n)) {
        let rest = text.skip(n);
        law_lines_make_up_the_text(rest);
        assert(lines == seq![text.take(n)] + lines_of(rest));
        assert(lines.drop_first() =~= lines_of(rest));
        assert(lines.flatten() == lines.first() + lines.drop_first().flatten());
        assert(text =~= text.take(n) + rest);
        assert(lines.last() == lines_of(rest).last());
        assert forall|i: int| 0 <= i < lines.len() - 1 implies ends_in_break(#[trigger] lines[i]) by {
            if i > 0 {
                assert(lines[i] == lines_of(rest)[i - 1]);
            }
        }
    } else {
        assert(lines =~= seq![text]);
        lines.lemma_flatten_one_element();
        assert(text.take(n) =~= text);
    }
}

/// A text can be cut in front of each of its lines: the lines before the cut are the lines of the
/// text before it, and those behind it the lines of the rest.
pub proof fn lemma_cut(text: Seq<char>, k: int)
    requires
        0 <= k < lines_of(text).len(),
    ensures
        lines_of(lines_of(text).skip(k).flatten()) == lines_of(text).skip(k),
        text == lines_of(text).take(k).flatten() + lines_of(text).skip(k).flatten(),
        k > 0 ==> ends_in_break(lines_of(text).take(k).flatten()),
        k > 0 ==> lines_of(text).take(k).flatten().last() == lines_of(text)[k - 1].last(),
        k > 0 ==> lines_of(lines_of(text).take(k).flatten()) == lines_of(text).take(k).push(
            Seq::empty(),
        ),
    decreases k,
{
    let lines = lines_of(text);
    law_lines_make_up_the_text(text);
    if k == 0 {
        assert(lines.skip(0) =~= lines);
        assert(lines.take(0).flatten() =~= Seq::<char>::empty());
        assert(text =~= Seq::<char>::empty() + text);
    } else {
        let n = first_line_len(text) as int;
        lemma_first_line(text);
        let head = text.take(n);
        let rest = text.skip(n);
        assert(lines == seq![head] + lines_of(rest));
        lemma_cut(rest, k - 1);
        let before = lines_of(rest).take(k - 1);
        let after = lines_of(rest).skip(k - 1);
        assert(lines.skip(k) =~= after);
        assert(lines.take(k).drop_first() =~= before);
        assert(lines.take(k).flatten() == head + before.flatten());
        assert(text =~= head + rest);
        assert(text =~= (head + before.flatten()) + after.flatten());
        if before.flatten().len() > 0 {
            assert(rest[0] == before.flatten()[0]);
            assert(rest[0] == text[n]);
        }
        assert(head.last() == text[n - 1]);
        law_lines_of_joined_texts(head, before.flatten());
        lemma_single_line(text);
        assert(lines_of(head).drop_last() =~= seq![head]);
        if k == 1 {
            assert(before.flatten() =~= Seq::<char>::empty());
            assert(lines_of(before.flatten()) =~= seq![Seq::<char>::empty()]);
            assert(head + before.flatten() =~= head);
            assert(lines[0] == head);
        } else {
            assert((head + before.flatten()).last() == before.flatten().last());
            assert(lines[k - 1] == lines_of(rest)[k - 2]);
        }
        assert(lines_of(lines.take(k).flatten()) =~= lines.take(k).push(Seq::empty()));
    }
}

proof fn lemma_first_line_alone(text: Seq<char>)
    ensures
        first_line_len(text.take(first_line_len(text) as int)) == first_line_len(text),
    decreases text.len(),
{
    lemma_first_line(text);
    let n = first_line_len(text) as int;
    let head = text.take(n);
    if text.len() > 0 {
        assert(head[0] == text[0]);
        if text[0] == '\r' && text.len() > 1 && text[1] == '\n' {
            assert(head[1] == text[1]);
        } else if !is_line_break(text[0]) {
            lemma_first_line_alone(text.skip(1));
            assert(head.skip(1) =~= text.skip(1).take(n - 1));
        }
    }
}

/// The first line of a text is all that it has itself, where it ends in a line break.
pub proof fn lemma_single_line(text: Seq<char>)
    requires
        ends_in_break(text.take(first_line_len(text) as int)),
    ensures
        lines_of(text.take(first_line_len(text) as int)) == seq![
            text.take(first_line_len(text) as int),
            Seq::empty(),
        ],
{
    lemma_first_line(text);
    lemma_first_line_alone(text);
    let n = first_line_len(text) as int;
    let head = text.take(n);
    assert(head.take(n) =~= head);
    assert(head.skip(n) =~= Seq::<char>::empty());
    assert(lines_of(Seq::<char>::empty()) =~= seq![Seq::<char>::empty()]);
    assert(lines_of(head) =~= seq![head, Seq::<char>::empty()]);
}

/// Whether the texts of a list are lines one below the other: each is one line, all but the last
/// end in a line break, and none ends in a carriage return that the next one would go on from with
/// a line feed.
pub open spec fn are_lines(list: Seq<Seq<char>>) -> bool {
    &&& forall|i: int|
        0 <= i < list.len() ==> first_line_len(#[trigger] list[i]) == list[i].len() && (i
            < list.len() - 1 ==> ends_in_break(list[i]))
    &&& forall|i: int, j: int|
        0 <= i && j == i + 1 && j < list.len() ==> !joins(#[trigger] list[i], #[trigger] list[j])
}

/// Whether a carriage return at the end of `a` and a line feed at the start of `b` would become one
/// line break.
pub open spec fn joins(a: Seq<char>, b: Seq<char>) -> bool {
    a.len() > 0 && b.len() > 0 && a.last() == '\r' && b[0] == '\n'
}

/// The lines of a text are lines.
pub proof fn lemma_are_lines(text: Seq<char>)
    ensures
        are_lines(lines_of(text)),
    decreases text.len(),
{
    let n = first_line_len(text) as int;
    let lines = lines_of(text);
    lemma_first_line(text);
    law_lines_make_up_the_text(text);
    if 0 < n <= text.len() && ends_in_break(text.take(n)) {
        let head = text.take(n);
        let rest = text.skip(n);
        lemma_are_lines(rest);
        lemma_first_line_alone(text);
        assert(lines == seq![head] + lines_of(rest));
        assert(forall|i: int| 0 < i < lines.len() ==> #[trigger] lines[i] == lines_of(rest)[i - 1]);
        assert forall|i: int, j: int| 0 <= i && j == i + 1 && j < lines.len() implies !joins(
            #[trigger] lines[i],
            #[trigger] lines[j],
        ) by {
            if i > 0 {
                assert(!joins(lines_of(rest)[i - 1], lines_of(rest)[j - 1]));
            } else if lines[1].len() > 0 {
                lemma_first_line(rest);
                assert(lines[1] == lines_of(rest)[0]);
                assert(lines[1][0] == rest[0]);
                assert(rest[0] == text[n]);
            }
        }
    } else {
        assert(lines =~= seq![text]);
    }
}

/// Lines one below the other are the lines of the text that they make up, up to the empty line
/// behind a line break at its end.
pub proof fn lemma_lines_of_lines(list: Seq<Seq<char>>)
    requires
        list.len() > 0,
        are_lines(list),
    ensures
        lines_of(list.flatten()) == if ends_in_break(list.last()) {
            list.push(Seq::empty())
        } else {
            list
        },
    decreases list.len(),
{
    let head = list[0];
    let rest = list.drop_first();
    assert(head.take(head.len() as int) =~= head);
    if rest.len() == 0 {
        assert(list =~= seq![head]);
        list.lemma_flatten_one_element();
        if ends_in_break(head) {
            lemma_single_line(head);
            assert(lines_of(head) =~= list.push(Seq::empty()));
        }
    } else {
        assert(forall|i: int| 0 <= i < rest.len() ==> #[trigger] rest[i] == list[i + 1]);
        assert(are_lines(rest)) by {
            assert forall|i: int, j: int| 0 <= i && j == i + 1 && j < rest.len() implies !joins(
                #[trigger] rest[i],
                #[trigger] rest[j],
            ) by {
                assert(!joins(list[i + 1], list[j + 1]));
            }
        }
        lemma_lines_of_lines(rest);
        lemma_single_line(head);
        let more = rest.flatten();
        assert(list.flatten() == head + more);
        assert(!joins(list[0], list[1]));
        assert(more == rest[0] + rest.drop_first().flatten());
        if rest[0].len() > 0 {
            assert(more[0] == rest[0][0]);
        } else {
            assert(rest.len() == 1);
            assert(rest.drop_first() =~= Seq::<Seq<char>>::empty());
        }
        law_lines_of_joined_texts(head, more);
        assert(lines_of(head).drop_last() =~= seq![head]);
        assert(list.last() == rest.last());
        assert(lines_of(list.flatten()) =~= seq![head] + lines_of(more));
        assert(list =~= seq![head] + rest);
        assert(list.push(Seq::empty()) =~= seq![head] + rest.push(Seq::empty()));
    }
}

} // verus!
