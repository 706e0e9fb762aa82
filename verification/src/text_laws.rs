//! What holds of the text helpers on every text.

use crate::text::{
    before_newline, decimal, digit, is_blank_text, is_white_space, replace_all, split_lines,
    trim_back_quotes, trim_front_quotes, trim_quotes,
};
use vstd::prelude::*;

verus! {

/// Lines are split at the first line feed: what precedes it is the first line, without a carriage
/// return at its end, and the other lines are those of what follows it.
pub proof fn law_lines_split_at_line_feeds(first: Seq<char>, rest: Seq<char>)
    requires
        !first.contains('\n'),
    ensures
        split_lines(first + seq!['\n'] + rest).len() == 1 + split_lines(rest).len(),
        split_lines(first + seq!['\n'] + rest).skip(1) == split_lines(rest),
        (first.len() == 0 || first.last() != '\r') ==> split_lines(first + seq!['\n'] + rest)[0]
            == first,
        (first.len() > 0 && first.last() == '\r') ==> split_lines(
            first + seq!['\n'] + rest,
        )[0].push('\r') == first,
{
    let text = first + seq!['\n'] + rest;
    let n = first.len() as int;
    lemma_before_first(text, n, first);
    assert(text.take(n) =~= first);
    assert(text.skip(n + 1) =~= rest);
    assert(split_lines(text).skip(1) =~= split_lines(rest));
    if first.len() > 0 && first.last() == '\r' {
        assert(first.drop_last().push('\r') =~= first);
    }
}

proof fn lemma_before_first(text: Seq<char>, n: int, first: Seq<char>)
    requires
        !first.contains('\n'),
        n == first.len(),
        n < text.len(),
        text.take(n) =~= first,
        text[n] == '\n',
    ensures
        before_newline(text) == n,
    decreases n,
{
    if n > 0 {
        assert(first[0] == text.take(n)[0]);
        assert(first.contains(first[0]));
        assert(text.skip(1).take(n - 1) =~= first.skip(1));
        assert(!first.skip(1).contains('\n')) by {
            if first.skip(1).contains('\n') {
                let i = first.skip(1).index_of('\n');
                assert(first[i + 1] == '\n');
            }
        }
        lemma_before_first(text.skip(1), n - 1, first.skip(1));
    }
}

/// A text without line feeds is one line, and an empty one is none.
pub proof fn law_text_without_line_feeds_is_one_line(text: Seq<char>)
    requires
        !text.contains('\n'),
    ensures
        text.len() == 0 ==> split_lines(text).len() == 0,
        text.len() > 0 ==> split_lines(text) == seq![text],
{
    lemma_no_newline(text);
}

proof fn lemma_no_newline(text: Seq<char>)
    requires
        !text.contains('\n'),
    ensures
        before_newline(text) == text.len(),
    decreases text.len(),
{
    if text.len() > 0 {
        assert(text.contains(text[0]));
        assert(!text.skip(1).contains('\n')) by {
            if text.skip(1).contains('\n') {
                let i = text.skip(1).index_of('\n');
                assert(text[i + 1] == '\n');
            }
        }
        lemma_no_newline(text.skip(1));
    }
}

/// Trimming quotes takes nothing but double quotes off the two ends, and leaves none there.
pub proof fn law_only_quotes_are_trimmed(text: Seq<char>) -> (cut: (int, int))
    ensures
        0 <= cut.0 <= cut.1 <= text.len(),
        trim_quotes(text) == text.subrange(cut.0, cut.1),
        forall|i: int| 0 <= i < cut.0 ==> text[i] == '"',
        forall|i: int| cut.1 <= i < text.len() ==> text[i] == '"',
        trim_quotes(text).len() > 0 ==> trim_quotes(text)[0] != '"' && trim_quotes(text).last()
            != '"',
{
    let from = lemma_front(text);
    let front = trim_front_quotes(text);
    let len = lemma_back(front);
    assert(front.take(len) =~= text.subrange(from, from + len));
    assert forall|i: int| from + len <= i < text.len() implies text[i] == '"' by {
        assert(front[i - from] == text[i]);
    }
    if len > 0 {
        assert(trim_quotes(text)[0] == front[0]);
        assert(trim_quotes(text).last() == front[len - 1]);
    }
    (from, from + len)
}

proof fn lemma_front(text: Seq<char>) -> (from: int)
    ensures
        0 <= from <= text.len(),
        trim_front_quotes(text) == text.skip(from),
        forall|i: int| 0 <= i < from ==> text[i] == '"',
        from < text.len() ==> text[from] != '"',
    decreases text.len(),
{
    if text.len() > 0 && text[0] == '"' {
        let from = lemma_front(text.skip(1));
        assert(text.skip(1).skip(from) =~= text.skip(from + 1));
        assert forall|i: int| 0 <= i < from + 1 implies text[i] == '"' by {
            if i > 0 {
                assert(text.skip(1)[i - 1] == text[i]);
            }
        }
        from + 1
    } else {
        assert(text.skip(0) =~= text);
        0
    }
}

proof fn lemma_back(text: Seq<char>) -> (len: int)
    ensures
        0 <= len <= text.len(),
        trim_back_quotes(text) == text.take(len),
        forall|i: int| len <= i < text.len() ==> text[i] == '"',
        len > 0 ==> text[len - 1] != '"',
    decreases text.len(),
{
    if text.len() > 0 && text.last() == '"' {
        let len = lemma_back(text.drop_last());
        assert(text.drop_last().take(len) =~= text.take(len));
        assert forall|i: int| len <= i < text.len() implies text[i] == '"' by {
            if i < text.len() - 1 {
                assert(text.drop_last()[i] == text[i]);
            }
        }
        len
    } else {
        assert(text.take(text.len() as int) =~= text);
        text.len() as int
    }
}

/// Where `pattern` stands in a text for the first time, `with` takes its place, what precedes it is
/// kept, and the same is done with what follows it.
pub proof fn law_first_pattern_is_replaced(
    text: Seq<char>,
    pattern: Seq<char>,
    with: Seq<char>,
    at: int,
)
    requires
        pattern.len() > 0,
        0 <= at <= text.len() - pattern.len(),
        text.skip(at).take(pattern.len() as int) == pattern,
        forall|i: int| 0 <= i < at ==> (#[trigger] text.skip(i)).take(pattern.len() as int) != pattern,
    ensures
        replace_all(text, pattern, with) == text.take(at) + with + replace_all(
            text.skip(at).skip(pattern.len() as int),
            pattern,
            with,
        ),
    decreases at,
{
    let rest = replace_all(text.skip(at).skip(pattern.len() as int), pattern, with);
    assert(text.skip(0) =~= text);
    if at == 0 {
        assert(text.take(0) + with + rest =~= with + rest);
    } else {
        let tail = text.skip(1);
        assert(text.take(pattern.len() as int) != pattern) by {
            assert(text.skip(0).take(pattern.len() as int) != pattern);
        }
        assert(tail.skip(at - 1) =~= text.skip(at));
        assert forall|i: int| 0 <= i < at - 1 implies (#[trigger] tail.skip(i)).take(
            pattern.len() as int,
        ) != pattern by {
            assert(tail.skip(i) =~= text.skip(i + 1));
        }
        law_first_pattern_is_replaced(tail, pattern, with, at - 1);
        assert(text.take(at) =~= seq![text[0]] + tail.take(at - 1));
        assert(replace_all(text, pattern, with) =~= text.take(at) + with + rest);
    }
}

/// Where what is put in holds neither the first nor the last character of the pattern, but one that
/// the pattern has nowhere, the pattern stands nowhere in the result.
pub proof fn law_no_pattern_is_left(
    text: Seq<char>,
    pattern: Seq<char>,
    with: Seq<char>,
    strange: char,
    at: int,
)
    requires
        pattern.len() > 0,
        !with.contains(pattern[0]),
        !with.contains(pattern.last()),
        with.contains(strange),
        !pattern.contains(strange),
        0 <= at <= replace_all(text, pattern, with).len() - pattern.len(),
    ensures
        replace_all(text, pattern, with).skip(at).take(pattern.len() as int) != pattern,
    decreases text.len(),
{
    let result = replace_all(text, pattern, with);
    let found = result.skip(at).take(pattern.len() as int);
    let n = pattern.len() as int;
    if found == pattern {
        assert forall|i: int| 0 <= i < n implies result[at + i] == pattern[i] by {
            assert(found[i] == pattern[i]);
        }
        if text.len() < n {
        } else if text.take(n) == pattern {
            let rest = replace_all(text.skip(n), pattern, with);
            assert(result == with + rest);
            let m = with.len() as int;
            if at >= m {
                law_no_pattern_is_left(text.skip(n), pattern, with, strange, at - m);
                assert(rest.skip(at - m).take(n) =~= found);
            } else {
                assert(result[at] == with[at]);
                assert(with.contains(with[at]));
            }
        } else {
            let rest = replace_all(text.skip(1), pattern, with);
            assert(result == seq![text[0]] + rest);
            if at >= 1 {
                law_no_pattern_is_left(text.skip(1), pattern, with, strange, at - 1);
                assert(rest.skip(at - 1).take(n) =~= found);
            } else {
                lemma_unchanged_start(text, pattern, with, strange, n);
                assert(text.take(n) =~= pattern);
            }
        }
    }
}

/// As long as a result agrees with the pattern, nothing has been put in yet.
proof fn lemma_unchanged_start(
    text: Seq<char>,
    pattern: Seq<char>,
    with: Seq<char>,
    strange: char,
    n: int,
)
    requires
        pattern.len() > 0,
        !with.contains(pattern[0]),
        !with.contains(pattern.last()),
        with.contains(strange),
        !pattern.contains(strange),
        n == pattern.len(),
        text.len() >= n,
        text.take(n) != pattern,
        replace_all(text, pattern, with).len() >= n,
        forall|i: int| 0 <= i < n ==> replace_all(text, pattern, with)[i] == pattern[i],
    ensures
        text.take(n) == pattern,
{
    let result = replace_all(text, pattern, with);
    let first = lemma_first_change(text, pattern, with, n);
    if first < n {
        let m = with.len() as int;
        let k = with.index_of(strange);
        assert(with[k] == strange);
        if first + m <= n {
            assert(result[first + k] == strange);
            assert(pattern[first + k] == strange);
            assert(pattern.contains(strange));
        } else {
            assert(result[n - 1] == with[n - 1 - first]);
            assert(with.contains(pattern.last()));
        }
        assert(false);
    }
    assert(text.take(n) =~= pattern);
}

/// Up to the first place where something is put in, a result is the text.
proof fn lemma_first_change(
    text: Seq<char>,
    pattern: Seq<char>,
    with: Seq<char>,
    n: int,
) -> (first: int)
    requires
        pattern.len() > 0,
        0 <= n <= text.len(),
    ensures
        0 <= first <= n,
        first <= replace_all(text, pattern, with).len(),
        forall|i: int|
            0 <= i < first ==> replace_all(text, pattern, with)[i] == #[trigger] text[i],
        first < n ==> first + with.len() <= replace_all(text, pattern, with).len() && forall|i: int|
            0 <= i < with.len() ==> replace_all(text, pattern, with)[first + i] == #[trigger] with[i],
    decreases text.len(),
{
    let result = replace_all(text, pattern, with);
    if n == 0 {
        0
    } else if text.len() < pattern.len() {
        n
    } else if text.take(pattern.len() as int) == pattern {
        0
    } else {
        let rest = replace_all(text.skip(1), pattern, with);
        let first = lemma_first_change(text.skip(1), pattern, with, n - 1);
        assert(result == seq![text[0]] + rest);
        assert forall|i: int| 0 <= i < first + 1 implies result[i] == #[trigger] text[i] by {
            if i > 0 {
                assert(rest[i - 1] == text.skip(1)[i - 1]);
            }
        }
        if first + 1 < n {
            assert forall|i: int| 0 <= i < with.len() implies result[first + 1 + i]
                == #[trigger] with[i] by {
                assert(rest[first + i] == with[i]);
            }
        }
        first + 1
    }
}

/// White space is what lies in these ranges of code points.
pub proof fn law_white_space_by_code_point(c: char)
    ensures
        is_white_space(c) <==> {
            let code = c as u32;
            ||| 9 <= code <= 13
            ||| code == 32 || code == 133 || code == 160 || code == 5760
            ||| 8192 <= code <= 8202
            ||| code == 8232 || code == 8233 || code == 8239 || code == 8287 || code == 12288
        },
{
}

/// A text is blank if and only if none of its parts is more than blank.
pub proof fn law_blank_parts_make_blank_text(a: Seq<char>, b: Seq<char>, c: char)
    ensures
        is_blank_text(Seq::empty()),
        is_blank_text(a + b) <==> is_blank_text(a) && is_blank_text(b),
        is_blank_text(seq![c]) <==> is_white_space(c),
{
    if is_blank_text(a + b) {
        assert forall|i: int| 0 <= i < a.len() implies is_white_space(#[trigger] a[i]) by {
            assert((a + b)[i] == a[i]);
        }
        assert forall|i: int| 0 <= i < b.len() implies is_white_space(#[trigger] b[i]) by {
            assert((a + b)[a.len() + i] == b[i]);
        }
    }
    if is_blank_text(seq![c]) {
        assert(is_white_space(seq![c][0]));
    }
}

/// The digits of a number give the number back, and do not start with a zero where there are more
/// than one.
pub proof fn law_digits_give_the_number(n: nat)
    ensures
        decimal(n).fold_left(0, |value: int, c: char| value * 10 + (c as int - '0' as int)) == n,
        forall|i: int| 0 <= i < decimal(n).len() ==> '0' <= #[trigger] decimal(n)[i] <= '9',
        decimal(n).len() > 0,
        decimal(n).len() > 1 ==> decimal(n)[0] != '0',
    decreases n,
{
    let f = |value: int, c: char| value * 10 + (c as int - '0' as int);
    reveal_with_fuel(Seq::fold_left, 2);
    lemma_digit(n % 10);
    if n < 10 {
        let digits = decimal(n);
        assert(digits.drop_last() =~= Seq::<char>::empty());
        assert(digits.fold_left(0, f) == f(0, digits.last()));
    } else {
        law_digits_give_the_number(n / 10);
        let digits = decimal(n);
        assert(digits.drop_last() =~= decimal(n / 10));
        assert(digits.fold_left(0, f) == f(decimal(n / 10).fold_left(0, f), digits.last()));
        assert(decimal(n / 10).len() == 1 ==> decimal(n / 10)[0] != '0') by {
            if n / 10 < 10 {
                lemma_digit(n / 10);
            }
        }
        assert(digits[0] == decimal(n / 10)[0]);
    }
}

proof fn lemma_digit(d: nat)
    requires
        d < 10,
    ensures
        digit(d) as int == '0' as int + d,
{
}

} // verus!
