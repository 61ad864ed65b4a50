//! Mentions of files.

use crate::disk::{Answer, DiskView, Kind};
use crate::laws::infer::lemma_filter_last;
use crate::laws::unix as unix_laws;
use crate::laws::windows as windows_laws;
use crate::mentions::{
    all_mentions, body_mentions, credible, extensionless_file, last_name, lemma_occurrences, listed,
    occurrences, precedes, qualified, ranking, relative, source_extension, source_name,
    MAX_FILES_PER_CONVERSATION,
};
use crate::path::{join_path, Platform};
use crate::text::{
    ascii_letter, find_str, join, lemma_rfind_unique, lex_less, lower, to_lower, words, Class,
};
use crate::token::clean;
use crate::{unix, windows};
use vstd::prelude::*;

verus! {

/// A file name is a source name where what follows its last dot is, in any case, the
/// extension of a source file, and something stands before that dot. What the stem
/// holds, dots too, is of no account.
pub proof fn law_source_names_end_in_an_extension(stem: Seq<char>, ext: Seq<char>)
    requires
        !ext.contains('.'),
    ensures
        source_name(stem + seq!['.'] + ext) <==> stem.len() > 0 && source_extension(to_lower(ext)),
        !source_name(ext),
{
    let name = stem + seq!['.'] + ext;
    let k = stem.len() as int;
    assert(name[k] == '.');
    assert forall|i: int| k < i < name.len() implies name[i] != '.' by {
        assert(name[i] == ext[i - k - 1]);
    }
    lemma_rfind_unique(name, '.', k);
    assert(name.skip(k + 1) =~= ext);
    lemma_rfind_unique(ext, '.', -1);
}

/// A path below a directory is credible by its last component, where that is a
/// source name or one of the well-known names; of bare names only the well-known
/// ones are.
pub proof fn law_credible_paths(dir: Seq<char>, name: Seq<char>)
    requires
        !name.contains('/'),
    ensures
        credible(dir + seq!['/'] + name) <==> extensionless_file(name) || source_name(name),
        credible(name) <==> extensionless_file(name),
{
    let path = dir + seq!['/'] + name;
    let k = dir.len() as int;
    assert(path[k] == '/');
    assert(path.contains('/'));
    assert forall|i: int| k < i < path.len() implies path[i] != '/' by {
        assert(path[i] == name[i - k - 1]);
    }
    lemma_rfind_unique(path, '/', k);
    assert(last_name(path) =~= name);
    lemma_rfind_unique(name, '/', -1);
    assert(last_name(name) =~= name);
}

/// A path with a directory, a stem and a source extension is credible, whatever the
/// directory and the stem hold.
pub proof fn law_source_files_are_credible(dir: Seq<char>, stem: Seq<char>, ext: Seq<char>)
    requires
        stem.len() > 0,
        !stem.contains('/'),
        !ext.contains('/'),
        !ext.contains('.'),
        source_extension(to_lower(ext)),
    ensures
        credible(dir + seq!['/'] + (stem + seq!['.'] + ext)),
{
    let name = stem + seq!['.'] + ext;
    assert forall|i: int| 0 <= i < name.len() implies name[i] != '/' by {
        if i < stem.len() {
            assert(name[i] == stem[i]);
        } else if i > stem.len() {
            assert(name[i] == ext[i - stem.len() - 1]);
        }
    }
    law_source_names_end_in_an_extension(stem, ext);
    law_credible_paths(dir, name);
}

/// The extensions that make a name credible, and no others, shortest first.
pub proof fn law_known_extensions(e: Seq<char>)
    ensures
        source_extension(e) <==> {
            ||| e == "c"@ || e == "h"@ || e == "m"@ || e == "cc"@ || e == "cs"@ || e == "el"@
            ||| e == "ex"@ || e == "go"@ || e == "hs"@ || e == "js"@ || e == "kt"@ || e == "md"@
            ||| e == "mk"@ || e == "ml"@ || e == "mm"@ || e == "pl"@ || e == "py"@ || e == "rb"@
            ||| e == "rs"@ || e == "sh"@ || e == "tf"@ || e == "ts"@ || e == "bzl"@ || e == "cfg"@
            ||| e == "cjs"@ || e == "clj"@ || e == "cpp"@ || e == "css"@ || e == "env"@
            ||| e == "erl"@ || e == "exs"@ || e == "hpp"@ || e == "ini"@ || e == "jsx"@
            ||| e == "kts"@ || e == "lua"@ || e == "mdx"@ || e == "mjs"@ || e == "mod"@
            ||| e == "nix"@ || e == "php"@ || e == "ps1"@ || e == "pyi"@ || e == "rst"@
            ||| e == "sql"@ || e == "tsx"@ || e == "txt"@ || e == "vim"@ || e == "vue"@
            ||| e == "xml"@ || e == "yml"@ || e == "zig"@ || e == "zsh"@ || e == "bash"@
            ||| e == "cljs"@ || e == "conf"@ || e == "dart"@ || e == "fish"@ || e == "html"@
            ||| e == "java"@ || e == "json"@ || e == "less"@ || e == "lock"@ || e == "sass"@
            ||| e == "scss"@ || e == "toml"@ || e == "yaml"@ || e == "bazel"@ || e == "cmake"@
            ||| e == "proto"@ || e == "scala"@ || e == "swift"@ || e == "gradle"@
            ||| e == "svelte"@ || e == "tfvars"@ || e == "graphql"@ || e == "dockerfile"@
        },
{
}

/// The names that are credible by themselves, and no others.
pub proof fn law_well_known_names(n: Seq<char>)
    ensures
        extensionless_file(n) <==> {
            ||| n == "BUILD"@ || n == "CMakeLists.txt"@ || n == "Dockerfile"@ || n == "Gemfile"@
            ||| n == "Justfile"@ || n == "Makefile"@ || n == "Procfile"@ || n == "Rakefile"@
            ||| n == "WORKSPACE"@
        },
{
}

/// A list of files is cut off at 200.
pub proof fn law_two_hundred_files_at_most(
    out: Seq<(Seq<char>, i64)>,
    paths: Seq<Seq<char>>,
    k: int,
)
    requires
        ranking(out, paths, MAX_FILES_PER_CONVERSATION as nat),
        0 <= k < paths.len(),
    ensures
        out.len() <= 200,
        out.len() < 200 ==> exists|i: int| 0 <= i < out.len() && (#[trigger] out[i]).0 == paths[k],
{
    assert(listed(out, paths[k]) || out.len() == 200);
}

/// A path below the root, on Unix, is known by its names below it; a relative path by its
/// own.
pub proof fn law_files_are_known_by_their_names(root: Seq<char>, parts: Seq<Seq<char>>)
    requires
        unix::absolute(root),
        root.last() != '/',
        parts.len() > 0,
        unix_laws::all_names(parts),
        !".."@.is_prefix_of(join(parts, unix::root())),
        find_str(join(parts, unix::root()), "://"@) is None,
        find_str(root + unix::root() + join(parts, unix::root()), "://"@) is None,
    ensures
        relative(
            Platform::Unix,
            root + unix::root() + join(parts, unix::root()),
            Some(root),
        ) == Some(join(parts, unix::root())),
        join(parts, unix::root()).first() != '-' && join(parts, unix::root()).first() != '@' ==> {
            &&& relative(Platform::Unix, join(parts, unix::root()), Some(root)) == Some(
                join(parts, unix::root()),
            )
            &&& relative(Platform::Unix, join(parts, unix::root()), None) == Some(
                join(parts, unix::root()),
            )
        },
{
    let path = join(parts, unix::root());
    let token = root + unix::root() + path;
    unix_laws::law_below_is_what_follows(root, path, token);
    unix_laws::law_plain_paths_are_their_own_keys(parts);
    unix_laws::lemma_joined_components(parts);
    unix_laws::lemma_joined_text(parts);
    assert(token.first() == '/');
    let n = seq!['a'];
    assert(n[0] == 'a' && unix::dot()[0] == '.' && unix::dot_dot()[0] == '.');
    unix_laws::law_which_paths_climb_out(n, parts);
    assert(!unix::absolute(path)) by {
        if unix::absolute(path) {
            let comps = unix::components(path);
            assert(comps[0] == unix::root());
            assert(parts[0].contains(parts[0][0]));
        }
    }
}

/// Going down into a directory below the root and up again makes no difference to which
/// file a path names.
pub proof fn law_detours_below_the_root_are_free(
    root: Seq<char>,
    n: Seq<char>,
    rest: Seq<char>,
)
    requires
        unix::absolute(root),
        unix_laws::name(n),
        find_str(root + unix::root() + rest, "://"@) is None,
        find_str(
            root + unix::root() + (n + unix::root() + (unix::dot_dot() + unix::root() + rest)),
            "://"@,
        ) is None,
    ensures
        relative(
            Platform::Unix,
            root + unix::root() + (n + unix::root() + (unix::dot_dot() + unix::root() + rest)),
            Some(root),
        ) == relative(Platform::Unix, root + unix::root() + rest, Some(root)),
{
    let up = unix::dot_dot() + unix::root() + rest;
    let detour = n + unix::root() + up;
    let token = root + unix::root() + detour;
    let short = root + unix::root() + rest;
    let comps = unix_laws::inner(rest);
    lemma_detour_components(root, n, rest);
    unix_laws::law_below_is_what_follows(root, detour, token);
    unix_laws::law_below_is_what_follows(root, rest, short);
    unix_laws::law_which_paths_climb_out(n, comps);
    let nothing = Seq::<Seq<char>>::empty();
    unix_laws::law_dots_cancel(nothing, n, comps);
    assert(nothing + seq![n, unix::dot_dot()] + comps =~= seq![n, unix::dot_dot()] + comps);
    assert(nothing + comps =~= comps);
    assert(unix::key_of(seq![n, unix::dot_dot()] + comps) == unix::key_of(comps));
    unix_laws::law_dots_cancel(unix::components(root), n, comps);
    assert(token.first() == '/' && short.first() == '/');
}

proof fn lemma_detour_components(root: Seq<char>, n: Seq<char>, rest: Seq<char>)
    requires
        root.len() > 0,
        unix_laws::name(n),
    ensures
        ({
            let detour = n + unix::root() + (unix::dot_dot() + unix::root() + rest);
            &&& unix_laws::inner(detour) == seq![n, unix::dot_dot()] + unix_laws::inner(rest)
            &&& unix::components(root + unix::root() + detour) == unix::components(root) + seq![
                n,
                unix::dot_dot(),
            ] + unix_laws::inner(rest)
            &&& unix::components(root + unix::root() + rest) == unix::components(root)
                + unix_laws::inner(rest)
        }),
{
    let up = unix::dot_dot() + unix::root() + rest;
    let detour = n + unix::root() + up;
    assert(unix::dot_dot().len() == 2 && unix::dot().len() == 1);
    assert(!unix::dot_dot().contains('/'));
    unix_laws::law_components_stand_between_slashes(unix::dot_dot(), rest);
    unix_laws::law_components_stand_between_slashes(n, up);
    unix_laws::law_components_stand_between_slashes(root, detour);
    unix_laws::law_components_stand_between_slashes(root, rest);
    assert(unix_laws::inner(detour) =~= seq![n, unix::dot_dot()] + unix_laws::inner(rest));
    assert(unix::components(root + unix::root() + detour) =~= unix::components(root) + seq![
        n,
        unix::dot_dot(),
    ] + unix_laws::inner(rest));
}

/// A path that climbs out of the root and comes back into it names the file that it
/// names without; one that goes into another directory instead names none.
pub proof fn law_climbing_out_and_back(
    dir: Seq<char>,
    last: Seq<char>,
    other: Seq<char>,
    parts: Seq<Seq<char>>,
)
    requires
        unix::absolute(dir),
        unix_laws::name(last),
        unix_laws::name(other),
        parts.len() > 0,
        unix_laws::all_names(parts),
        !".."@.is_prefix_of(join(parts, unix::root())),
        find_str(
            dir + unix::root() + last + unix::root() + (unix::dot_dot() + unix::root() + (other
                + unix::root() + join(parts, unix::root()))),
            "://"@,
        ) is None,
    ensures
        relative(
            Platform::Unix,
            dir + unix::root() + last + unix::root() + (unix::dot_dot() + unix::root() + (other
                + unix::root() + join(parts, unix::root()))),
            Some(dir + unix::root() + last),
        ) == if other == last {
            Some(join(parts, unix::root()))
        } else {
            None
        },
{
    let root = dir + unix::root() + last;
    let tail = other + unix::root() + join(parts, unix::root());
    let climb = unix::dot_dot() + unix::root() + tail;
    let token = root + unix::root() + climb;
    let base = unix::settle(unix::components(dir));
    assert(root.first() == '/' && token.first() == '/');
    lemma_climb_components(dir, last, other, parts);
    unix_laws::law_below_is_what_follows(root, climb, token);
    unix_laws::law_which_paths_climb_out(last, seq![other] + parts);
    let here = unix::settle(unix::components(root));
    let there = unix::settle(unix::components(token));
    assert(here == base.push(last));
    assert(there == base.push(other) + parts);
    let k = here.len() as int;
    if other == last {
        assert(there.subrange(0, k) =~= here);
        assert(there.skip(k) =~= parts);
        unix_laws::law_plain_paths_are_their_own_keys(parts);
        unix_laws::lemma_joined_components(parts);
        unix_laws::lemma_joined_text(parts);
    } else {
        if here.is_prefix_of(there) {
            assert(here[k - 1] == there[k - 1]);
        }
    }
}

proof fn lemma_climb_components(
    dir: Seq<char>,
    last: Seq<char>,
    other: Seq<char>,
    parts: Seq<Seq<char>>,
)
    requires
        dir.len() > 0,
        unix_laws::name(last),
        unix_laws::name(other),
        parts.len() > 0,
        unix_laws::all_names(parts),
    ensures
        ({
            let root = dir + unix::root() + last;
            let tail = other + unix::root() + join(parts, unix::root());
            let climb = unix::dot_dot() + unix::root() + tail;
            let base = unix::settle(unix::components(dir));
            &&& unix_laws::inner(climb) == seq![unix::dot_dot()] + (seq![other] + parts)
            &&& unix::settle(unix::components(root)) == base.push(last)
            &&& unix::settle(unix::components(root + unix::root() + climb)) == base.push(other)
                + parts
        }),
{
    let root = dir + unix::root() + last;
    let text = join(parts, unix::root());
    let tail = other + unix::root() + text;
    let climb = unix::dot_dot() + unix::root() + tail;
    let comps = unix::components(dir);
    assert(unix::dot_dot().len() == 2 && unix::dot().len() == 1);
    assert(!unix::dot_dot().contains('/'));
    unix_laws::lemma_joined_components(parts);
    unix_laws::law_components_stand_between_slashes(other, text);
    unix_laws::law_components_stand_between_slashes(unix::dot_dot(), tail);
    unix_laws::law_components_stand_between_slashes(last, last);
    unix_laws::law_components_stand_between_slashes(dir, last);
    unix_laws::law_components_stand_between_slashes(root, climb);
    assert(unix::components(root) =~= comps.push(last));
    let nothing = Seq::<Seq<char>>::empty();
    unix_laws::law_dots_cancel(comps, last, seq![other] + parts);
    assert(unix::components(root + unix::root() + climb) =~= comps + seq![last, unix::dot_dot()] + (
    seq![other] + parts));
    unix_laws::law_dots_cancel(comps, other, nothing);
    assert(comps + (seq![other] + parts) =~= comps.push(other) + parts);
    unix_laws::lemma_settle_names(comps.push(other), parts);
}

/// What leads nowhere is no file, and neither is what starts with two dots.
pub proof fn law_what_is_no_file(parts: Seq<Seq<char>>, root: Option<Seq<char>>)
    requires
        parts.len() > 0,
        unix_laws::all_names(parts),
    ensures
        ".."@.is_prefix_of(join(parts, unix::root())) ==> relative(
            Platform::Unix,
            join(parts, unix::root()),
            root,
        ) is None,
        relative(Platform::Unix, unix::dot(), root) is None,
        relative(Platform::Unix, unix::dot_dot(), root) is None,
{
    let path = join(parts, unix::root());
    unix_laws::law_plain_paths_are_their_own_keys(parts);
    unix_laws::lemma_joined_components(parts);
    assert(!unix::absolute(path)) by {
        if unix::absolute(path) {
            let comps = unix::components(path);
            assert(comps[0] == unix::root());
            assert(parts[0].contains(parts[0][0]));
        }
    }
    let none = Seq::<char>::empty();
    let nothing = Seq::<Seq<char>>::empty();
    let n = seq!['a'];
    assert(n[0] == 'a' && unix::dot()[0] == '.' && unix::dot_dot()[0] == '.');
    unix_laws::law_components_stand_between_slashes(unix::dot(), none);
    unix_laws::law_components_stand_between_slashes(unix::dot_dot(), none);
    unix_laws::law_dots_cancel(nothing, n, nothing);
    assert(nothing + seq![unix::dot()] + nothing =~= seq![unix::dot()]);
    assert(nothing + seq![unix::dot_dot()] + nothing =~= seq![unix::dot_dot()]);
    assert(nothing + nothing =~= nothing);
    assert(unix::key_of(nothing) =~= none);
}

/// The same on Windows, from the root of a drive on.
pub proof fn law_files_are_known_by_their_names_on_windows(
    d: char,
    s: char,
    base: Seq<char>,
    e: char,
    t: char,
    u: char,
    parts: Seq<Seq<char>>,
)
    requires
        ascii_letter(d) && ascii_letter(e) && lower(d) == lower(e),
        windows_laws::slash(s) && windows_laws::slash(t) && windows_laws::slash(u),
        parts.len() > 0,
        windows_laws::all_names(parts),
        !".."@.is_prefix_of(join(parts, seq!['/'])),
        find_str(
            windows_laws::top(e, t) + (base + seq![u] + join(parts, windows::root())),
            "://"@,
        ) is None,
    ensures
        relative(
            Platform::Windows,
            windows_laws::top(e, t) + (base + seq![u] + join(parts, windows::root())),
            Some(windows_laws::top(d, s) + base),
        ) == Some(join(parts, seq!['/'])),
{
    let path = join(parts, windows::root());
    let token = windows_laws::top(e, t) + (base + seq![u] + path);
    windows_laws::law_below_is_what_follows(d, s, e, t, base, u, path);
    windows_laws::lemma_joined_inner(parts);
    windows_laws::law_names_are_their_own_keys(parts);
    windows_laws::law_absolute_paths_name_a_drive(e, t, base + seq![u] + path, seq![]);
    assert(token.first() == e);
    windows_laws::lemma_names_stay(parts);
}

/// A name that is not credible counts where the file is there below the root: any
/// kind of thing will do, and only where nothing is there it does not count.
pub proof fn law_what_is_on_disk_counts(
    token: Seq<char>,
    root: Seq<char>,
    disk: DiskView,
    path: Seq<char>,
    kind: Kind,
)
    requires
        relative(disk.platform, token, Some(root)) == Some(path),
        !credible(path),
        disk.kinds.contains_pair(join_path(disk.platform, root, path), kind),
    ensures
        kind == Kind::Missing ==> qualified(token, Some(root), disk) == Answer::Known(
            None::<Seq<char>>,
        ),
        kind != Kind::Missing ==> qualified(token, Some(root), disk) == Answer::Known(Some(path)),
{
}

/// Does this token name a file of the repository?
pub open spec fn names_file(token: Seq<char>, root: Option<Seq<char>>, disk: DiskView) -> bool {
    clean(token) matches Some(t) && qualified(t, root, disk) matches Answer::Known(Some(path))
}

/// Every token that names a file is one mention, also where the file was mentioned
/// before: the mentions are what those tokens name, in their order.
pub proof fn law_every_token_is_a_mention(
    tokens: Seq<Seq<char>>,
    root: Option<Seq<char>>,
    disk: DiskView,
    paths: Seq<Seq<char>>,
    i: int,
)
    requires
        all_mentions(tokens, root, disk) == Answer::Known(paths),
    ensures
        paths.len() == tokens.filter(|t: Seq<char>| names_file(t, root, disk)).len(),
        0 <= i < paths.len() ==> qualified(
            clean(tokens.filter(|t: Seq<char>| names_file(t, root, disk))[i])->0,
            root,
            disk,
        ) == Answer::Known(Some(paths[i])),
    decreases tokens.len(),
{
    let f = |t: Seq<char>| names_file(t, root, disk);
    if tokens.len() == 0 {
        reveal(Seq::filter);
    } else {
        let rest = tokens.drop_last();
        let before = all_mentions(rest, root, disk)->Known_0;
        law_every_token_is_a_mention(rest, root, disk, before, i);
        lemma_filter_last(tokens, f);
        if names_file(tokens.last(), root, disk) {
            assert(paths.drop_last() =~= before);
            if 0 <= i < before.len() {
                assert(paths[i] == before[i]);
                assert(tokens.filter(f)[i] == rest.filter(f)[i]);
            }
        }
    }
}

/// The mentions in a transcript are those of its words.
pub proof fn law_transcripts_mention_word_by_word(
    body: Seq<char>,
    root: Option<Seq<char>>,
    disk: DiskView,
    paths: Seq<Seq<char>>,
)
    requires
        body_mentions(body, root, disk) == Answer::Known(paths),
    ensures
        paths.len() == words(body, Class::White).filter(
            |t: Seq<char>| names_file(t, root, disk),
        ).len(),
{
    law_every_token_is_a_mention(words(body, Class::White), root, disk, paths, 0);
}

/// Is a path this one?
pub open spec fn exactly(path: Seq<char>) -> spec_fn(Seq<char>) -> bool {
    |p: Seq<char>| p == path
}

/// How many of these paths are this one.
pub open spec fn times(paths: Seq<Seq<char>>, path: Seq<char>) -> nat {
    paths.filter(exactly(path)).len()
}

proof fn lemma_occurrences_filter(paths: Seq<Seq<char>>, path: Seq<char>)
    ensures
        occurrences(paths, path) == times(paths, path),
    decreases paths.len(),
{
    if paths.len() == 0 {
        reveal(Seq::filter);
    } else {
        lemma_occurrences_filter(paths.drop_last(), path);
        lemma_filter_last(paths, exactly(path));
    }
}

/// Each file stands with the number of its mentions, and those with more come
/// first; where two have as many, the order of strings decides.
pub proof fn law_files_are_ranked_by_mentions(
    out: Seq<(Seq<char>, i64)>,
    paths: Seq<Seq<char>>,
    cap: nat,
    i: int,
    j: int,
)
    requires
        ranking(out, paths, cap),
        paths.len() <= i64::MAX,
        0 <= i < j < out.len(),
    ensures
        out[i].1 == times(paths, out[i].0),
        out[j].1 == times(paths, out[j].0),
        out[i].1 >= out[j].1 >= 1,
        out[i].1 == out[j].1 ==> lex_less(out[i].0, out[j].0),
{
    lemma_occurrences_filter(paths, out[i].0);
    lemma_occurrences_filter(paths, out[j].0);
    lemma_occurrences(paths, out[i].0);
    lemma_occurrences(paths, out[j].0);
    assert(precedes(paths, out[i].0, out[j].0));
}

/// Every file that is mentioned is listed, with its count, unless the list is full
/// with files that are mentioned at least as often.
pub proof fn law_only_the_least_mentioned_are_cut(
    out: Seq<(Seq<char>, i64)>,
    paths: Seq<Seq<char>>,
    cap: nat,
    k: int,
)
    requires
        ranking(out, paths, cap),
        paths.len() <= i64::MAX,
        0 <= k < paths.len(),
    ensures
        out.len() <= cap,
        out.len() < cap ==> exists|i: int| 0 <= i < out.len() && (#[trigger] out[i]).0 == paths[k],
        (exists|i: int| 0 <= i < out.len() && (#[trigger] out[i]).0 == paths[k]) || forall|i: int|
            0 <= i < out.len() ==> (#[trigger] out[i]).1 >= times(paths, paths[k]),
{
    let path = paths[k];
    lemma_occurrences_filter(paths, path);
    if !listed(out, path) {
        assert forall|i: int| 0 <= i < out.len() implies (#[trigger] out[i]).1 >= times(
            paths,
            path,
        ) by {
            lemma_occurrences(paths, out[i].0);
            assert(precedes(paths, out[i].0, path));
        }
    }
}

} // verus!
