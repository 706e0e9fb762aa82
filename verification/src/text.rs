//! Text helpers: exact models of the few string operations that the server's
//! rules are written in, each with an executable counterpart.

use std::sync::Arc;
use vstd::prelude::*;
use vstd::string::*;

verus! {

/// `String::push` appends one character to the end of the string.
pub assume_specification[ String::push ](s: &mut String, ch: char)
    ensures
        final(s)@ == old(s)@.push(ch),
;

/// `Arc::clone` hands out another pointer to the value that `shared` points to.
#[verifier::external_body]
pub(crate) fn share<T>(shared: &Arc<T>) -> (other: Arc<T>)
    ensures
        other == *shared,
{
    Arc::clone(shared)
}

/// The text that the `Debug` format of a string produces, quotes and escapes included.
pub uninterp spec fn debug_form(text: Seq<char>) -> Seq<char>;

/// `Debug` formatting of a string slice, by way of `format!`. What the escapes look like is
/// left to the standard library: the result is only named, as a function of the text.
#[verifier::external_body]
pub(crate) fn debug_format(text: &str) -> (quoted: String)
    ensures
        quoted@ == debug_form(text@),
{
    format!("{:?}", text)
}

/// The characters of `text`, in order.
pub fn chars_of(text: &str) -> (chars: Vec<char>)
    ensures
        chars@ == text@,
{
    let mut chars: Vec<char> = Vec::new();
    for c in it: text.chars()
        invariant
            chars@ == it.seq().take(it.index()),
            it.seq() == text@,
    {
        chars.push(c);
        assert(it.seq().take(it.index() + 1) =~= it.seq().take(it.index()).push(c));
    }
    assert(text@.take(text@.len() as int) =~= text@);
    chars
}

/// The string made of the characters from `from` up to, but not including, `to`.
pub fn string_of(chars: &Vec<char>, from: usize, to: usize) -> (text: String)
    requires
        from <= to <= chars@.len(),
    ensures
        text@ == chars@.subrange(from as int, to as int),
{
    let mut text = String::new();
    let mut i: usize = from;
    while i < to
        invariant
            from <= i <= to <= chars@.len(),
            text@ == chars@.subrange(from as int, i as int),
        decreases to - i,
    {
        text.push(chars[i]);
        i += 1;
        assert(chars@.subrange(from as int, i as int) =~= chars@.subrange(
            from as int,
            i - 1,
        ).push(chars@[i - 1]));
    }
    text
}

/// Whether `a` and `b` hold the same characters.
pub fn same_chars(a: &Vec<char>, b: &Vec<char>) -> (same: bool)
    ensures
        same == (a@ == b@),
{
    if a.len() != b.len() {
        return false;
    }
    let mut i: usize = 0;
    while i < a.len()
        invariant
            i <= a@.len() == b@.len(),
            forall|j: int| 0 <= j < i ==> a@[j] == b@[j],
        decreases a@.len() - i,
    {
        if a[i] != b[i] {
            return false;
        }
        i += 1;
    }
    assert(a@ =~= b@);
    true
}

/// How many characters `text` has before its first `\n`, or in all where it has none.
pub open spec fn before_newline(text: Seq<char>) -> nat
    decreases text.len(),
{
    if text.len() == 0 || text[0] == '\n' {
        0
    } else {
        1 + before_newline(text.skip(1))
    }
}

/// `line` without the `\r` at its end, where it has one.
pub open spec fn strip_return(line: Seq<char>) -> Seq<char> {
    if line.len() > 0 && line.last() == '\r' {
        line.drop_last()
    } else {
        line
    }
}

/// The lines of `text`, without the `\n` or `\r\n` that end them. Nothing follows the last line
/// break: a text that ends in one has no further, empty line.
pub open spec fn split_lines(text: Seq<char>) -> Seq<Seq<char>>
    decreases text.len(),
{
    let n = before_newline(text) as int;
    if text.len() == 0 {
        Seq::empty()
    } else if n < text.len() {
        seq![strip_return(text.take(n))] + split_lines(text.skip(n + 1))
    } else {
        seq![text]
    }
}

proof fn lemma_before_newline(text: Seq<char>, n: int)
    requires
        0 <= n <= text.len(),
        forall|i: int| 0 <= i < n ==> text[i] != '\n',
        n < text.len() ==> text[n] == '\n',
    ensures
        before_newline(text) == n,
    decreases n,
{
    if n > 0 {
        lemma_before_newline(text.skip(1), n - 1);
    }
}

/// The strings of a list, in mathematical terms.
pub open spec fn string_views(strings: Seq<String>) -> Seq<Seq<char>> {
    strings.map_values(|s: String| s@)
}

/// The lines of `text`, without their line breaks.
pub fn lines(text: &str) -> (list: Vec<String>)
    ensures
        string_views(list@) == split_lines(text@),
{
    let chars = chars_of(text);
    let mut list: Vec<String> = Vec::new();
    let mut start: usize = 0;
    assert(chars@.skip(0) =~= text@);
    assert(string_views(list@) + split_lines(text@) =~= split_lines(text@));
    while start < chars.len()
        invariant
            start <= chars@.len(),
            chars@ == text@,
            split_lines(text@) == string_views(list@) + split_lines(chars@.skip(start as int)),
        decreases chars@.len() - start,
    {
        let ghost rest = chars@.skip(start as int);
        let ghost so_far = list@;
        let mut end: usize = start;
        while end < chars.len() && chars[end] != '\n'
            invariant
                start <= end <= chars@.len(),
                forall|i: int| start <= i < end ==> chars@[i] != '\n',
            decreases chars@.len() - end,
        {
            end += 1;
        }
        proof {
            lemma_before_newline(rest, end - start);
            assert(rest.take(end - start) =~= chars@.subrange(start as int, end as int));
        }
        if end < chars.len() {
            let mut stop: usize = end;
            if start < stop && chars[stop - 1] == '\r' {
                stop -= 1;
            }
            let line = string_of(&chars, start, stop);
            proof {
                assert(line@ =~= strip_return(rest.take(end - start)));
                assert(rest.skip(end - start + 1) =~= chars@.skip(end + 1));
            }
            list.push(line);
            assert(string_views(list@) =~= string_views(so_far).push(line@));
            start = end + 1;
        } else {
            let line = string_of(&chars, start, end);
            assert(line@ =~= rest);
            list.push(line);
            assert(string_views(list@) =~= string_views(so_far).push(line@));
            start = end;
            assert(chars@.skip(start as int) =~= Seq::<char>::empty());
        }
        assert(split_lines(text@) =~= string_views(list@) + split_lines(
            chars@.skip(start as int),
        ));
    }
    assert(chars@.skip(start as int) =~= Seq::<char>::empty());
    assert(split_lines(text@) =~= string_views(list@));
    list
}

/// `text` without the double quotes that it starts with.
pub open spec fn trim_front_quotes(text: Seq<char>) -> Seq<char>
    decreases text.len(),
{
    if text.len() > 0 && text[0] == '"' {
        trim_front_quotes(text.skip(1))
    } else {
        text
    }
}

/// `text` without the double quotes that it ends in.
pub open spec fn trim_back_quotes(text: Seq<char>) -> Seq<char>
    decreases text.len(),
{
    if text.len() > 0 && text.last() == '"' {
        trim_back_quotes(text.drop_last())
    } else {
        text
    }
}

/// `text` without the double quotes at either end, however many there are.
pub open spec fn trim_quotes(text: Seq<char>) -> Seq<char> {
    trim_back_quotes(trim_front_quotes(text))
}

/// `text` without the double quotes at either end, however many there are.
pub fn without_quotes(text: &str) -> (trimmed: String)
    ensures
        trimmed@ == trim_quotes(text@),
{
    let chars = chars_of(text);
    let mut start: usize = 0;
    assert(chars@.skip(0) =~= text@);
    while start < chars.len() && chars[start] == '"'
        invariant
            start <= chars@.len(),
            trim_front_quotes(text@) == trim_front_quotes(chars@.skip(start as int)),
        decreases chars@.len() - start,
    {
        assert(chars@.skip(start as int).skip(1) =~= chars@.skip(start + 1));
        start += 1;
    }
    let mut end: usize = chars.len();
    assert(chars@.subrange(start as int, end as int) =~= chars@.skip(start as int));
    assert(trim_front_quotes(text@) == chars@.subrange(start as int, end as int));
    while start < end && chars[end - 1] == '"'
        invariant
            start <= end <= chars@.len(),
            trim_quotes(text@) == trim_back_quotes(chars@.subrange(start as int, end as int)),
        decreases end - start,
    {
        assert(chars@.subrange(start as int, end as int).drop_last() =~= chars@.subrange(
            start as int,
            end - 1,
        ));
        end -= 1;
    }
    string_of(&chars, start, end)
}

/// `text` with `with` in place of each `pattern`, found from the front on without overlaps.
pub open spec fn replace_all(text: Seq<char>, pattern: Seq<char>, with: Seq<char>) -> Seq<char>
    decreases text.len(),
{
    if pattern.len() == 0 || text.len() < pattern.len() {
        text
    } else if text.take(pattern.len() as int) == pattern {
        with + replace_all(text.skip(pattern.len() as int), pattern, with)
    } else {
        seq![text[0]] + replace_all(text.skip(1), pattern, with)
    }
}

/// Whether `pattern` stands in `text` at `at`.
fn matches_at(text: &Vec<char>, at: usize, pattern: &Vec<char>) -> (found: bool)
    requires
        at + pattern@.len() <= text@.len(),
    ensures
        found == (text@.subrange(at as int, at + pattern@.len()) == pattern@),
{
    let mut i: usize = 0;
    while i < pattern.len()
        invariant
            at + pattern@.len() <= text.len(),
            i <= pattern@.len(),
            forall|j: int| 0 <= j < i ==> text@[at + j] == pattern@[j],
        decreases pattern@.len() - i,
    {
        if text[at + i] != pattern[i] {
            assert(text@.subrange(at as int, at + pattern@.len())[i as int] != pattern@[i as int]);
            return false;
        }
        i += 1;
    }
    assert(text@.subrange(at as int, at + pattern@.len()) =~= pattern@);
    true
}

/// `text` with `with` in place of each `pattern`, found from the front on without overlaps.
pub fn replaced(text: &str, pattern: &str, with: &str) -> (result: String)
    requires
        pattern@.len() > 0,
    ensures
        result@ == replace_all(text@, pattern@, with@),
{
    let chars = chars_of(text);
    let wanted = chars_of(pattern);
    let mut result = String::new();
    let mut at: usize = 0;
    assert(chars@.skip(0) =~= text@);
    assert(result@ + replace_all(text@, pattern@, with@) =~= replace_all(
        text@,
        pattern@,
        with@,
    ));
    while at < chars.len()
        invariant
            at <= chars@.len(),
            chars@ == text@,
            wanted@ == pattern@,
            pattern@.len() > 0,
            replace_all(text@, pattern@, with@) == result@ + replace_all(
                chars@.skip(at as int),
                pattern@,
                with@,
            ),
        decreases chars@.len() - at,
    {
        let ghost rest = chars@.skip(at as int);
        let ghost so_far = result@;
        if chars.len() - at >= wanted.len() && matches_at(&chars, at, &wanted) {
            proof {
                assert(rest.take(pattern@.len() as int) =~= chars@.subrange(
                    at as int,
                    at + pattern@.len(),
                ));
                assert(rest.skip(pattern@.len() as int) =~= chars@.skip(at + pattern@.len()));
            }
            result.append(with);
            at += wanted.len();
        } else {
            let ghost tail = replace_all(rest.skip(1), pattern@, with@);
            proof {
                assert(rest.skip(1) =~= chars@.skip(at + 1));
                if rest.len() >= pattern@.len() {
                    assert(rest.take(pattern@.len() as int) =~= chars@.subrange(
                        at as int,
                        at + pattern@.len(),
                    ));
                } else {
                    assert(tail =~= rest.skip(1));
                }
                assert(replace_all(rest, pattern@, with@) =~= seq![rest[0]] + tail);
            }
            result.push(chars[at]);
            at += 1;
        }
        assert(replace_all(text@, pattern@, with@) =~= result@ + replace_all(
            chars@.skip(at as int),
            pattern@,
            with@,
        ));
    }
    assert(chars@.skip(at as int) =~= Seq::<char>::empty());
    assert(result@ + Seq::<char>::empty() =~= result@);
    result
}

/// Where the part of `path` behind its last `/` starts.
pub open spec fn tail_start(path: Seq<char>) -> int
    decreases path.len(),
{
    if path.len() == 0 || path.last() == '/' {
        path.len() as int
    } else {
        tail_start(path.drop_last())
    }
}

/// The last component of a `/`-separated path. Empty components and `.` do not count.
pub open spec fn last_component(path: Seq<char>) -> Option<Seq<char>>
    decreases path.len(),
{
    let start = tail_start(path);
    if start < 0 || start > path.len() {
        None
    } else {
        let tail = path.skip(start);
        if tail.len() > 0 && tail != seq!['.'] {
            Some(tail)
        } else if start == 0 {
            None
        } else {
            last_component(path.take(start - 1))
        }
    }
}

/// Where the last `.` of `name` is, or -1 where it has none.
pub open spec fn last_dot(name: Seq<char>) -> int
    decreases name.len(),
{
    if name.len() == 0 {
        -1
    } else if name.last() == '.' {
        name.len() - 1
    } else {
        last_dot(name.drop_last())
    }
}

/// The extension of the file that `path` names: what follows the last `.` of its last component.
/// A component that starts with its only `.`, or that is `..`, has none.
pub open spec fn extension(path: Seq<char>) -> Option<Seq<char>> {
    match last_component(path) {
        None => None,
        Some(name) => if name == seq!['.', '.'] || last_dot(name) <= 0 {
            None
        } else {
            Some(name.skip(last_dot(name) + 1))
        },
    }
}

pub proof fn lemma_tail_start(path: Seq<char>, start: int)
    requires
        0 <= start <= path.len(),
        forall|i: int| start <= i < path.len() ==> path[i] != '/',
        start > 0 ==> path[start - 1] == '/',
    ensures
        tail_start(path) == start,
    decreases path.len(),
{
    if path.len() > start {
        lemma_tail_start(path.drop_last(), start);
    }
}

pub proof fn lemma_last_dot(name: Seq<char>, dot: int)
    requires
        -1 <= dot < name.len(),
        forall|i: int| dot < i < name.len() ==> name[i] != '.',
        dot >= 0 ==> name[dot] == '.',
    ensures
        last_dot(name) == dot,
    decreases name.len(),
{
    if name.len() > dot + 1 {
        lemma_last_dot(name.drop_last(), dot);
    }
}

/// The extension of the file that `path` names, where it has one.
pub fn file_extension(path: &str) -> (found: Option<String>)
    ensures
        match found {
            Some(ext) => extension(path@) == Some(ext@),
            None => extension(path@) is None,
        },
{
    let chars = chars_of(path);
    let mut end: usize = chars.len();
    assert(chars@.take(end as int) =~= path@);
    loop
        invariant
            end <= chars@.len(),
            last_component(path@) == last_component(chars@.take(end as int)),
        decreases end,
    {
        let mut start: usize = end;
        while start > 0 && chars[start - 1] != '/'
            invariant
                start <= end <= chars@.len(),
                forall|i: int| start <= i < end ==> chars@[i] != '/',
            decreases start,
        {
            start -= 1;
        }
        let ghost tail = chars@.subrange(start as int, end as int);
        proof {
            lemma_tail_start(chars@.take(end as int), start as int);
            assert(chars@.take(end as int).skip(start as int) =~= tail);
            if tail.len() == 1 && tail[0] == '.' {
                assert(tail =~= seq!['.']);
            }
        }
        if start == end || (end - start == 1 && chars[start] == '.') {
            if start == 0 {
                return None;
            }
            proof {
                assert(start == end ==> tail.len() == 0);
                assert(chars@.take(end as int).take(start - 1) =~= chars@.take(start - 1));
            }
            end = start - 1;
        } else {
            assert(tail != seq!['.']) by {
                if tail == seq!['.'] {
                    assert(tail[0] == '.' && tail.len() == 1);
                }
            }
            assert(last_component(path@) == Some(tail));
            if end - start == 2 && chars[start] == '.' && chars[start + 1] == '.' {
                assert(tail =~= seq!['.', '.']);
                return None;
            }
            assert(tail != seq!['.', '.']) by {
                if tail == seq!['.', '.'] {
                    assert(tail[0] == '.' && tail[1] == '.' && tail.len() == 2);
                }
            }
            let mut dot: usize = end;
            while dot > start && chars[dot - 1] != '.'
                invariant
                    start <= dot <= end <= chars@.len(),
                    forall|i: int| dot <= i < end ==> chars@[i] != '.',
                decreases dot,
            {
                dot -= 1;
            }
            proof {
                lemma_last_dot(tail, dot - start - 1);
            }
            if dot <= start + 1 {
                return None;
            }
            assert(tail.skip(dot - start) =~= chars@.subrange(dot as int, end as int));
            return Some(string_of(&chars, dot, end));
        }
    }
}

/// `path` without the `/` and the `.` components that it ends in.
pub open spec fn trim_path(path: Seq<char>) -> Seq<char>
    decreases path.len(),
{
    if path.len() > 1 && (path.last() == '/' || (path.last() == '.' && path[path.len() - 2]
        == '/')) {
        trim_path(path.drop_last())
    } else {
        path
    }
}

/// The directory that `path` is in: what precedes its last component. The root and the empty path
/// are in none.
pub open spec fn parent(path: Seq<char>) -> Option<Seq<char>> {
    let trimmed = trim_path(path);
    if trimmed.len() == 0 || trimmed == seq!['/'] {
        None
    } else {
        Some(trim_path(trimmed.take(tail_start(trimmed))))
    }
}

/// How much of the first `end` characters is left without the `/` and the `.` components that they
/// end in.
fn trimmed_end(chars: &Vec<char>, end: usize) -> (rest: usize)
    requires
        end <= chars@.len(),
    ensures
        rest <= end,
        chars@.take(rest as int) == trim_path(chars@.take(end as int)),
{
    let mut rest: usize = end;
    while rest > 1 && (chars[rest - 1] == '/' || (chars[rest - 1] == '.' && chars[rest - 2]
        == '/'))
        invariant
            rest <= end <= chars@.len(),
            trim_path(chars@.take(end as int)) == trim_path(chars@.take(rest as int)),
        decreases rest,
    {
        assert(chars@.take(rest as int).drop_last() =~= chars@.take(rest - 1));
        rest -= 1;
    }
    rest
}

/// The directory that `path` is in, where it is in one.
pub fn parent_dir(path: &str) -> (found: Option<String>)
    ensures
        match found {
            Some(dir) => parent(path@) == Some(dir@),
            None => parent(path@) is None,
        },
{
    let chars = chars_of(path);
    assert(chars@.take(chars@.len() as int) =~= path@);
    let end = trimmed_end(&chars, chars.len());
    let ghost trimmed = chars@.take(end as int);
    if end == 0 {
        return None;
    }
    if end == 1 && chars[0] == '/' {
        assert(trimmed =~= seq!['/']);
        return None;
    }
    assert(trimmed != seq!['/']) by {
        if trimmed == seq!['/'] {
            assert(trimmed[0] == '/' && trimmed.len() == 1);
        }
    }
    let mut start: usize = end;
    while start > 0 && chars[start - 1] != '/'
        invariant
            start <= end <= chars@.len(),
            forall|i: int| start <= i < end ==> chars@[i] != '/',
        decreases start,
    {
        start -= 1;
    }
    proof {
        lemma_tail_start(trimmed, start as int);
        assert(trimmed.take(start as int) =~= chars@.take(start as int));
    }
    let stop = trimmed_end(&chars, start);
    assert(chars@.subrange(0, stop as int) =~= chars@.take(stop as int));
    Some(string_of(&chars, 0, stop))
}

/// Whether `c` has the Unicode property White_Space.
pub open spec fn is_white_space(c: char) -> bool {
    ||| '\u{9}' <= c <= '\u{d}'
    ||| c == ' ' || c == '\u{85}' || c == '\u{a0}' || c == '\u{1680}'
    ||| '\u{2000}' <= c <= '\u{200a}'
    ||| c == '\u{2028}' || c == '\u{2029}' || c == '\u{202f}' || c == '\u{205f}' || c
        == '\u{3000}'
}

/// Whether `text` holds nothing but white space.
pub open spec fn is_blank_text(text: Seq<char>) -> bool {
    forall|i: int| 0 <= i < text.len() ==> is_white_space(#[trigger] text[i])
}

/// Whether `text` holds nothing but white space.
pub fn is_blank(text: &str) -> (blank: bool)
    ensures
        blank == is_blank_text(text@),
{
    let chars = chars_of(text);
    let mut i: usize = 0;
    while i < chars.len()
        invariant
            chars@ == text@,
            i <= chars@.len(),
            forall|j: int| 0 <= j < i ==> is_white_space(#[trigger] text@[j]),
        decreases chars@.len() - i,
    {
        let c = chars[i];
        let white = ('\u{9}' <= c && c <= '\u{d}') || c == ' ' || c == '\u{85}' || c == '\u{a0}'
            || c == '\u{1680}' || ('\u{2000}' <= c && c <= '\u{200a}') || c == '\u{2028}' || c
            == '\u{2029}' || c == '\u{202f}' || c == '\u{205f}' || c == '\u{3000}';
        if !white {
            assert(!is_white_space(text@[i as int]));
            return false;
        }
        i += 1;
    }
    true
}

/// The character for a digit.
pub open spec fn digit(d: nat) -> char {
    if d == 0 {
        '0'
    } else if d == 1 {
        '1'
    } else if d == 2 {
        '2'
    } else if d == 3 {
        '3'
    } else if d == 4 {
        '4'
    } else if d == 5 {
        '5'
    } else if d == 6 {
        '6'
    } else if d == 7 {
        '7'
    } else if d == 8 {
        '8'
    } else {
        '9'
    }
}

/// The decimal digits of `n`, without leading zeros.
pub open spec fn decimal(n: nat) -> Seq<char>
    decreases n,
{
    if n < 10 {
        seq![digit(n)]
    } else {
        decimal(n / 10).push(digit(n % 10))
    }
}

/// The decimal digits of `n`, without leading zeros.
pub fn decimal_of(n: u128) -> (digits: String)
    ensures
        digits@ == decimal(n as nat),
    decreases n,
{
    let last = match n % 10 {
        0 => '0',
        1 => '1',
        2 => '2',
        3 => '3',
        4 => '4',
        5 => '5',
        6 => '6',
        7 => '7',
        8 => '8',
        _ => '9',
    };
    let mut digits = if n < 10 {
        String::new()
    } else {
        decimal_of(n / 10)
    };
    digits.push(last);
    assert(n < 10 ==> digits@ =~= seq![digit(n as nat)]);
    digits
}

} // verus!
