//! Which config is taken, what becomes of its languages, and how paths are read.

use crate::backend::{comment_of, language_of};
use crate::config::{
    all_with_runtimes, by_extension, first_loaded, locations, with_runtimes, Config, LanguageView,
};
use crate::server_laws::law_last_language_counts;
use crate::text::{
    extension, last_component, lemma_last_dot, lemma_tail_start, parent, replace_all, trim_path,
};
use crate::text_laws::law_no_pattern_is_left;
use crate::util::whole_millis;
use vstd::prelude::*;
use vstd::string::*;

verus! {

/// The directory of the config is put in for `{runtimes}` in the command and in each of the
/// arguments, and nothing else of a language changes.
pub proof fn law_runtimes_are_put_in_everywhere(language: LanguageView, dir: Seq<char>)
    ensures
        ({
            let placed = with_runtimes(language, dir);
            &&& placed.command == replace_all(language.command, "{runtimes}"@, dir)
            &&& placed.args.len() == language.args.len()
            &&& forall|i: int|
                0 <= i < language.args.len() ==> #[trigger] placed.args[i] == replace_all(
                    language.args[i],
                    "{runtimes}"@,
                    dir,
                )
            &&& placed.extension == language.extension
            &&& placed.line_comment == language.line_comment
            &&& placed.on_change == language.on_change
            &&& placed.places == language.places
        }),
{
}

/// A loaded language is the last one that the file lists with its extension, and has the directory
/// put in for `{runtimes}` in its command and in each of its arguments.
pub proof fn law_loaded_languages_have_their_runtimes(
    list: Seq<LanguageView>,
    dir: Seq<char>,
    i: int,
)
    requires
        0 <= i < list.len(),
        forall|j: int| i < j < list.len() ==> (#[trigger] list[j]).extension != list[i].extension,
    ensures
        ({
            let loaded = by_extension(all_with_runtimes(list, dir));
            let language = loaded[list[i].extension];
            &&& loaded.dom().contains(list[i].extension)
            &&& language.extension == list[i].extension
            &&& language.command == replace_all(list[i].command, "{runtimes}"@, dir)
            &&& language.args.len() == list[i].args.len()
            &&& forall|k: int|
                0 <= k < list[i].args.len() ==> #[trigger] language.args[k] == replace_all(
                    list[i].args[k],
                    "{runtimes}"@,
                    dir,
                )
            &&& language.line_comment == list[i].line_comment
            &&& language.on_change == list[i].on_change
            &&& language.places == list[i].places
        }),
{
    let placed = all_with_runtimes(list, dir);
    assert(placed.len() == list.len());
    assert(forall|j: int| 0 <= j < list.len() ==> (#[trigger] placed[j]).extension
        == list[j].extension);
    assert forall|j: int| i < j < placed.len() implies (#[trigger] placed[j]).extension
        != placed[i].extension by {
        assert(list[j].extension != list[i].extension);
    }
    law_last_language_counts(placed, i);
    law_runtimes_are_put_in_everywhere(list[i], dir);
}

/// In the command and the arguments of a loaded language no `{runtimes}` is left, where the
/// directory has a `/` or a `.` and no braces.
pub proof fn law_no_runtimes_are_left(language: LanguageView, dir: Seq<char>, i: int, at: int)
    requires
        !dir.contains('{'),
        !dir.contains('}'),
        dir.contains('/') || dir.contains('.'),
    ensures
        0 <= at <= with_runtimes(language, dir).command.len() - 10 ==> with_runtimes(
            language,
            dir,
        ).command.skip(at).take(10) != "{runtimes}"@,
        0 <= i < language.args.len() && 0 <= at <= with_runtimes(language, dir).args[i].len() - 10
            ==> with_runtimes(language, dir).args[i].skip(at).take(10) != "{runtimes}"@,
{
    reveal_strlit("{runtimes}");
    let pattern = "{runtimes}"@;
    assert(pattern.len() == 10);
    assert(pattern[0] == '{' && pattern.last() == '}');
    let strange = if dir.contains('/') {
        '/'
    } else {
        '.'
    };
    assert(!pattern.contains(strange));
    law_runtimes_are_put_in_everywhere(language, dir);
    if 0 <= at <= with_runtimes(language, dir).command.len() - 10 {
        law_no_pattern_is_left(language.command, pattern, dir, strange, at);
    }
    if 0 <= i < language.args.len() && 0 <= at <= with_runtimes(language, dir).args[i].len() - 10 {
        assert(with_runtimes(language, dir).args[i] == replace_all(language.args[i], pattern, dir));
        law_no_pattern_is_left(language.args[i], pattern, dir, strange, at);
    }
}

/// The config that is taken is the first one that could be loaded, and there is none where none
/// could be.
pub proof fn law_first_config_that_loads_is_taken(
    attempts: Seq<Result<Config, String>>,
    i: int,
)
    requires
        0 <= i <= attempts.len(),
        forall|j: int| 0 <= j < i ==> (#[trigger] attempts[j]) is Err,
        i < attempts.len() ==> attempts[i] is Ok,
    ensures
        i < attempts.len() ==> first_loaded(attempts) == Some(attempts[i]->Ok_0),
        i == attempts.len() ==> first_loaded(attempts) is None,
    decreases i,
{
    if i > 0 {
        let rest = attempts.skip(1);
        assert(attempts[0] is Err);
        assert forall|j: int| 0 <= j < i - 1 implies (#[trigger] rest[j]) is Err by {
            assert(rest[j] == attempts[j + 1]);
        }
        law_first_config_that_loads_is_taken(rest, i - 1);
    }
}

/// Configs are looked for in two places, of which only the second depends on the home directory.
pub proof fn law_configs_are_looked_for_here_and_at_home(home: Seq<char>, other: Seq<char>)
    ensures
        locations(home).len() == 2,
        locations(home)[0] == locations(other)[0],
        locations(home)[0] == "./.nwn.json"@,
        locations(home)[1].take(home.len() as int) == home,
        locations(home)[1].skip(home.len() as int) == "/.config/nwn/.nwn.json"@,
{
    assert(locations(home)[1].take(home.len() as int) =~= home);
    assert(locations(home)[1].skip(home.len() as int) =~= "/.config/nwn/.nwn.json"@);
}

/// The language of a file is the one listed under the extension of its path, or else the one listed
/// under the extension with its dot; a file without extension has none. Without a language, comments
/// start with a `#` as far as folding goes.
pub proof fn law_languages_are_looked_up_by_extension(
    languages: Map<Seq<char>, LanguageView>,
    path: Seq<char>,
    ext: Seq<char>,
)
    ensures
        extension(path) is None ==> language_of(languages, path) is None,
        extension(path) == Some(ext) && languages.dom().contains(ext) ==> language_of(
            languages,
            path,
        ) == Some(languages[ext]),
        extension(path) == Some(ext) && !languages.dom().contains(ext)
            && languages.dom().contains(seq!['.'] + ext) ==> language_of(languages, path) == Some(
            languages[seq!['.'] + ext],
        ),
        extension(path) == Some(ext) && !languages.dom().contains(ext) && !languages.dom().contains(
            seq!['.'] + ext,
        ) ==> language_of(languages, path) is None,
        language_of(languages, path) matches Some(language) ==> comment_of(languages, path)
            == language.line_comment,
        language_of(languages, path) is None ==> comment_of(languages, path) == seq!['#'],
{
}

/// The extension of a file is what follows the last dot of its name, where something precedes that
/// dot, in whatever directory the file is.
pub proof fn law_extension_follows_the_last_dot(
    dir: Seq<char>,
    stem: Seq<char>,
    ext: Seq<char>,
)
    requires
        dir.len() == 0 || dir.last() == '/',
        stem.len() > 0,
        !stem.contains('/'),
        !ext.contains('/'),
        !ext.contains('.'),
        !(stem == seq!['.'] && ext.len() == 0),
    ensures
        extension(dir + stem + seq!['.'] + ext) == Some(ext),
{
    let path = dir + stem + seq!['.'] + ext;
    let name = stem + seq!['.'] + ext;
    assert forall|i: int| dir.len() <= i < path.len() implies path[i] != '/' by {
        if i < dir.len() + stem.len() {
            assert(stem.contains(stem[i - dir.len()]));
            assert(path[i] == stem[i - dir.len()]);
        } else if i > dir.len() + stem.len() {
            let k = i - dir.len() - stem.len() - 1;
            assert(ext.contains(ext[k]));
            assert(path[i] == ext[k]);
        }
    }
    if dir.len() > 0 {
        assert(path[dir.len() - 1] == dir.last());
    }
    lemma_tail_start(path, dir.len() as int);
    assert(path.skip(dir.len() as int) =~= name);
    assert(name != seq!['.']) by {
        assert(name.len() >= 2);
    }
    assert(last_component(path) == Some(name));
    assert(name != seq!['.', '.']) by {
        if name == seq!['.', '.'] {
            assert(stem.len() + ext.len() == 1);
            assert(stem[0] == name[0]);
            assert(stem =~= seq!['.']);
        }
    }
    assert forall|i: int| stem.len() < i < name.len() implies name[i] != '.' by {
        let k = i - stem.len() - 1;
        assert(ext.contains(ext[k]));
        assert(name[i] == ext[k]);
    }
    assert(name[stem.len() as int] == '.');
    lemma_last_dot(name, stem.len() as int);
    assert(name.skip(stem.len() as int + 1) =~= ext);
}

/// A name without a dot behind its first character has no extension, nor has `..`.
pub proof fn law_names_without_inner_dot_have_no_extension(dir: Seq<char>, name: Seq<char>)
    requires
        dir.len() == 0 || dir.last() == '/',
        name.len() > 0,
        !name.contains('/'),
        name != seq!['.'],
        name == seq!['.', '.'] || forall|i: int| 0 < i < name.len() ==> name[i] != '.',
    ensures
        extension(dir + name) is None,
{
    let path = dir + name;
    assert forall|i: int| dir.len() <= i < path.len() implies path[i] != '/' by {
        assert(name.contains(name[i - dir.len()]));
        assert(path[i] == name[i - dir.len()]);
    }
    if dir.len() > 0 {
        assert(path[dir.len() - 1] == dir.last());
    }
    lemma_tail_start(path, dir.len() as int);
    assert(path.skip(dir.len() as int) =~= name);
    assert(last_component(path) == Some(name));
    if name != seq!['.', '.'] {
        if name[0] == '.' {
            lemma_last_dot(name, 0);
        } else {
            lemma_last_dot(name, -1);
        }
    }
}

/// A slash at the end of a path, or a slash and a dot, does not matter for its extension; the empty
/// path and `.` have none.
pub proof fn law_trailing_slash_keeps_the_extension(path: Seq<char>)
    ensures
        extension(path.push('/')) == extension(path),
        extension(path.push('/').push('.')) == extension(path),
        extension(Seq::empty()) is None,
        extension(seq!['.']) is None,
{
    let a = path.push('/');
    let b = a.push('.');
    lemma_tail_start(a, a.len() as int);
    assert(a.skip(a.len() as int).len() == 0);
    assert(a.take(a.len() - 1) =~= path);
    lemma_tail_start(b, a.len() as int);
    assert(b.skip(a.len() as int) =~= seq!['.']);
    assert(b.take(a.len() - 1) =~= path);
    let none = Seq::<char>::empty();
    lemma_tail_start(none, 0);
    assert(none.skip(0).len() == 0);
    let dot = seq!['.'];
    lemma_tail_start(dot, 0);
    assert(dot.skip(0) =~= seq!['.']);
}

/// A file is in the directory that its path gives before the last slash.
pub proof fn law_directory_precedes_the_last_slash(dir: Seq<char>, name: Seq<char>)
    requires
        name.len() > 0,
        !name.contains('/'),
        name != seq!['.'],
        dir.len() > 1 ==> dir.last() != '/' && !(dir.last() == '.' && dir[dir.len() - 2] == '/'),
    ensures
        dir.len() > 0 ==> parent(dir.push('/') + name) == Some(dir),
        parent(seq!['/'] + name) == Some(seq!['/']),
        parent(name) == Some(Seq::<char>::empty()),
{
    assert(name.contains(name.last()));
    assert(name.contains(name[0]));
    assert forall|i: int| 0 <= i < name.len() implies name[i] != '/' by {
        assert(name.contains(name[i]));
    }
    if name.len() == 1 && name[0] == '.' {
        assert(name =~= seq!['.']);
    }
    let path = dir.push('/') + name;
    assert(path.last() == name.last());
    if name.len() > 1 {
        assert(path[path.len() - 2] == name[name.len() - 2]);
    }
    assert(trim_path(path) == path);
    assert(path != seq!['/']) by {
        assert(path.len() > 1);
    }
    lemma_tail_start(path, dir.len() as int + 1);
    assert(path.take(dir.len() as int + 1) =~= dir.push('/'));
    if dir.len() > 0 {
        assert(dir.push('/').drop_last() =~= dir);
        assert(trim_path(dir.push('/')) == trim_path(dir));
        assert(trim_path(dir) == dir);
    }
    let rooted = seq!['/'] + name;
    assert(rooted.last() == name.last());
    if name.len() > 1 {
        assert(rooted[rooted.len() - 2] == name[name.len() - 2]);
    }
    assert(trim_path(rooted) == rooted);
    assert(rooted != seq!['/']) by {
        assert(rooted.len() > 1);
    }
    lemma_tail_start(rooted, 1);
    assert(rooted.take(1) =~= seq!['/']);
    assert(trim_path(name) == name);
    assert(name != seq!['/']) by {
        if name == seq!['/'] {
            assert(name[0] == '/');
        }
    }
    lemma_tail_start(name, 0);
    assert(name.take(0) =~= Seq::<char>::empty());
}

/// A slash too many before the name of a file, or a dot between two slashes, does not matter for its
/// directory.
pub proof fn law_slashes_in_a_row_keep_the_directory(dir: Seq<char>, name: Seq<char>)
    requires
        name.len() > 0,
        !name.contains('/'),
        name != seq!['.'],
    ensures
        parent(dir.push('/').push('/') + name) == parent(dir.push('/') + name),
        parent(dir.push('/').push('.').push('/') + name) == parent(dir.push('/') + name),
{
    let a = dir.push('/');
    let b = a.push('/');
    let c = a.push('.').push('/');
    lemma_parent_of_name(a, name);
    lemma_parent_of_name(b, name);
    lemma_parent_of_name(c, name);
    assert(b.drop_last() =~= a);
    assert(c.drop_last() =~= a.push('.'));
    assert(c.drop_last().drop_last() =~= a);
    assert(trim_path(b) == trim_path(a));
    assert(trim_path(c) == trim_path(a.push('.')));
    assert(trim_path(a.push('.')) == trim_path(a));
}

proof fn lemma_parent_of_name(dir: Seq<char>, name: Seq<char>)
    requires
        dir.len() > 0,
        dir.last() == '/',
        name.len() > 0,
        !name.contains('/'),
        name != seq!['.'],
    ensures
        parent(dir + name) == Some(trim_path(dir)),
{
    let path = dir + name;
    assert forall|i: int| 0 <= i < name.len() implies name[i] != '/' by {
        assert(name.contains(name[i]));
    }
    if name.len() == 1 && name[0] == '.' {
        assert(name =~= seq!['.']);
    }
    assert(path.last() == name.last());
    if name.len() > 1 {
        assert(path[path.len() - 2] == name[name.len() - 2]);
    }
    assert(trim_path(path) == path);
    assert(path != seq!['/']) by {
        assert(path.len() > 1);
    }
    lemma_tail_start(path, dir.len() as int);
    assert(path.take(dir.len() as int) =~= dir);
}

/// A slash at the end of a path, or a slash and a dot, does not matter for its directory; the empty
/// path and the root are in none.
pub proof fn law_trailing_slash_keeps_the_directory(path: Seq<char>)
    requires
        path.len() > 0,
    ensures
        parent(path.push('/')) == parent(path),
        parent(path.push('/').push('.')) == parent(path),
        parent(Seq::empty()) is None,
        parent(seq!['/']) is None,
{
    let a = path.push('/');
    let b = a.push('.');
    assert(a.drop_last() =~= path);
    assert(b.drop_last() =~= a);
    assert(trim_path(a) == trim_path(path));
    assert(trim_path(b) == trim_path(a));
}

/// Whole milliseconds are as many as fit in the seconds and nanoseconds together.
pub proof fn law_whole_millis_fit(secs: u64, nanos: u32)
    ensures
        whole_millis(secs, nanos) * 1_000_000 <= secs * 1_000_000_000 + nanos,
        secs * 1_000_000_000 + nanos < (whole_millis(secs, nanos) + 1) * 1_000_000,
{
}

} // verus!
