//! The repository files that a transcript mentions.
//!
//! This is a heuristic over prose. Transcripts are flattened to text before they
//! get here, so what is left is scanning for tokens that look like paths and
//! keeping the credible ones: anything that resolves under the repository's root
//! on disk is taken, and anything else needs a recognisable source extension.

use crate::disk::{Answer, Disk, DiskView, Kind, Lookup};
use crate::path::{
    absolute, below, climbs_out, components, inside, inside_key, is_absolute, join_path,
    joined_path, key_of, normalize_path_key, settled, Platform,
};
use crate::rank::{in_order, insert_ranked, Ranked};
use crate::text::{
    after_last, chars, find_char, find_str, find_text, has_prefix, is_lex_less,
    lemma_find, lemma_lex_less_total, lemma_lex_less_transitive, lex_less, lowered, rfind, spells,
    string, to_lower, views, words, words_of, Class,
};
use crate::token::{clean, cleaned};
use vstd::hash_map::StringHashMap;
use vstd::prelude::*;
use vstd::slice::slice_subrange;

verus! {

/// A conversation mentioning more paths than this is a transcript that pasted a
/// directory listing, not one that worked on a thousand files. The cap keeps one
/// pathological conversation from dominating the file table.
pub const MAX_FILES_PER_CONVERSATION: usize = 200;

/// File extensions that make a bare token credible as a source path even when
/// the file cannot be found on disk, because the repo moved, or the file was
/// since deleted or renamed, which is exactly the history worth keeping.
pub open spec fn source_extension(e: Seq<char>) -> bool {
    ||| e == "rs"@ || e == "toml"@ || e == "lock"@ || e == "go"@ || e == "mod"@
    ||| e == "py"@ || e == "pyi"@ || e == "rb"@ || e == "java"@ || e == "kt"@
    ||| e == "kts"@ || e == "scala"@ || e == "swift"@ || e == "m"@ || e == "mm"@
    ||| e == "c"@ || e == "h"@ || e == "cc"@ || e == "cpp"@ || e == "hpp"@
    ||| e == "cs"@ || e == "js"@ || e == "jsx"@ || e == "mjs"@ || e == "cjs"@
    ||| e == "ts"@ || e == "tsx"@ || e == "vue"@ || e == "svelte"@ || e == "php"@
    ||| e == "pl"@ || e == "lua"@ || e == "ex"@ || e == "exs"@ || e == "erl"@
    ||| e == "hs"@ || e == "ml"@ || e == "clj"@ || e == "cljs"@ || e == "dart"@
    ||| e == "zig"@ || e == "sh"@ || e == "bash"@ || e == "zsh"@ || e == "fish"@
    ||| e == "ps1"@ || e == "sql"@ || e == "graphql"@ || e == "proto"@ || e == "json"@
    ||| e == "yaml"@ || e == "yml"@ || e == "xml"@ || e == "html"@ || e == "css"@
    ||| e == "scss"@ || e == "sass"@ || e == "less"@ || e == "md"@ || e == "mdx"@
    ||| e == "rst"@ || e == "txt"@ || e == "cfg"@ || e == "ini"@ || e == "conf"@
    ||| e == "env"@ || e == "gradle"@ || e == "bzl"@ || e == "bazel"@ || e == "cmake"@
    ||| e == "mk"@ || e == "dockerfile"@ || e == "tf"@ || e == "tfvars"@ || e == "nix"@
    ||| e == "vim"@ || e == "el"@
}

/// Files with no extension that are still worth indexing by name.
pub open spec fn extensionless_file(name: Seq<char>) -> bool {
    ||| name == "Makefile"@ || name == "Dockerfile"@ || name == "Rakefile"@
    ||| name == "Gemfile"@ || name == "Procfile"@ || name == "Justfile"@
    ||| name == "BUILD"@ || name == "WORKSPACE"@ || name == "CMakeLists.txt"@
}

fn is_source_extension(e: &[char]) -> (b: bool)
    ensures
        b == source_extension(e@),
{
    spells(e, "rs") || spells(e, "toml") || spells(e, "lock") || spells(e, "go")
        || spells(e, "mod") || spells(e, "py") || spells(e, "pyi") || spells(e, "rb")
        || spells(e, "java") || spells(e, "kt") || spells(e, "kts") || spells(e, "scala")
        || spells(e, "swift") || spells(e, "m") || spells(e, "mm") || spells(e, "c")
        || spells(e, "h") || spells(e, "cc") || spells(e, "cpp") || spells(e, "hpp")
        || spells(e, "cs") || spells(e, "js") || spells(e, "jsx") || spells(e, "mjs")
        || spells(e, "cjs") || spells(e, "ts") || spells(e, "tsx") || spells(e, "vue")
        || spells(e, "svelte") || spells(e, "php") || spells(e, "pl") || spells(e, "lua")
        || spells(e, "ex") || spells(e, "exs") || spells(e, "erl") || spells(e, "hs")
        || spells(e, "ml") || spells(e, "clj") || spells(e, "cljs") || spells(e, "dart")
        || spells(e, "zig") || spells(e, "sh") || spells(e, "bash") || spells(e, "zsh")
        || spells(e, "fish") || spells(e, "ps1") || spells(e, "sql") || spells(e, "graphql")
        || spells(e, "proto") || spells(e, "json") || spells(e, "yaml") || spells(e, "yml")
        || spells(e, "xml") || spells(e, "html") || spells(e, "css") || spells(e, "scss")
        || spells(e, "sass") || spells(e, "less") || spells(e, "md") || spells(e, "mdx")
        || spells(e, "rst") || spells(e, "txt") || spells(e, "cfg") || spells(e, "ini")
        || spells(e, "conf") || spells(e, "env") || spells(e, "gradle") || spells(e, "bzl")
        || spells(e, "bazel") || spells(e, "cmake") || spells(e, "mk") || spells(e, "dockerfile")
        || spells(e, "tf") || spells(e, "tfvars") || spells(e, "nix") || spells(e, "vim")
        || spells(e, "el")
}

fn is_extensionless_file(name: &[char]) -> (b: bool)
    ensures
        b == extensionless_file(name@),
{
    spells(name, "Makefile") || spells(name, "Dockerfile") || spells(name, "Rakefile")
        || spells(name, "Gemfile") || spells(name, "Procfile") || spells(name, "Justfile")
        || spells(name, "BUILD") || spells(name, "WORKSPACE") || spells(name, "CMakeLists.txt")
}

/// The last component of a normalised path.
pub open spec fn last_name(path: Seq<char>) -> Seq<char> {
    path.skip(rfind(path, '/') + 1)
}

/// Does a file name have a stem and the extension of a source file?
pub open spec fn source_name(name: Seq<char>) -> bool {
    let k = rfind(name, '.');
    k > 0 && source_extension(to_lower(name.skip(k + 1)))
}

/// The repo-relative path that a token stands for, if it can stand for one.
///
/// URLs are not paths, though they contain slashes and dots. An absolute path is
/// only meaningful inside the repository's root: without a root there is nothing
/// to measure it against, and keeping it would store another machine's directory
/// layout as though it were a repo path. One that starts with the root and climbs
/// out of it for good is not inside.
pub open spec fn relative(on: Platform, token: Seq<char>, root: Option<Seq<char>>) -> Option<
    Seq<char>,
> {
    let comps = if absolute(on, token) {
        match root {
            Some(r) => inside(on, token, r),
            None => None,
        }
    } else {
        Some(components(on, token))
    };
    if find_str(token, "://"@) is Some || (token.len() > 0 && (token.first() == '-' || token.first()
        == '@')) {
        None
    } else {
        match comps {
            None => None,
            Some(c) => if key_of(on, c).len() == 0 || ".."@.is_prefix_of(key_of(on, c)) {
                None
            } else {
                Some(key_of(on, c))
            },
        }
    }
}

/// Is a repo-relative path credible by its name alone? A bare file name is not,
/// short of the well-known ones: otherwise every mention of `index.js` anywhere
/// would collapse into one file that may not exist in this repository.
pub open spec fn credible(path: Seq<char>) -> bool {
    ||| extensionless_file(last_name(path))
    ||| path.contains('/') && source_name(last_name(path))
}

/// Does the repository have this file on disk?
pub open spec fn on_disk(path: Seq<char>, root: Option<Seq<char>>, disk: DiskView) -> Answer<bool> {
    match root {
        None => Answer::Known(false),
        Some(r) => match disk.kind(join_path(disk.platform, r, path)) {
            Answer::Ask(q) => Answer::Ask(q),
            Answer::Known(k) => Answer::Known(k != Kind::Missing),
        },
    }
}

/// The repo file that a cleaned token names. The disk decides where the name
/// does not.
pub open spec fn qualified(token: Seq<char>, root: Option<Seq<char>>, disk: DiskView) -> Answer<
    Option<Seq<char>>,
> {
    match relative(disk.platform, token, root) {
        None => Answer::Known(None),
        Some(path) => if credible(path) {
            Answer::Known(Some(path))
        } else {
            match on_disk(path, root, disk) {
                Answer::Ask(q) => Answer::Ask(q),
                Answer::Known(true) => Answer::Known(Some(path)),
                Answer::Known(false) => Answer::Known(None),
            }
        },
    }
}

pub open spec fn root_view(root: Option<&str>) -> Option<Seq<char>> {
    match root {
        Some(r) => Some(r@),
        None => None,
    }
}

spec fn slice_view(root: Option<&[char]>) -> Option<Seq<char>> {
    match root {
        Some(r) => Some(r@),
        None => None,
    }
}

fn relative_of(on: Platform, token: &[char], root: Option<&[char]>) -> (r: Option<Vec<char>>)
    ensures
        match r {
            Some(p) => relative(on, token@, slice_view(root)) == Some(p@),
            None => relative(on, token@, slice_view(root)) is None,
        },
{
    if let Some(_) = find_text(token, chars("://").as_slice()) {
        return None;
    }
    if token.len() > 0 && (token[0] == '-' || token[0] == '@') {
        return None;
    }
    let key: Vec<char> = if is_absolute(on, token) {
        match root {
            None => {
                return None;
            },
            Some(r) => match inside_key(on, token, r) {
                None => {
                    return None;
                },
                Some(key) => key,
            },
        }
    } else {
        normalize_path_key(on, token)
    };
    if key.len() == 0 || has_prefix(key.as_slice(), chars("..").as_slice()) {
        None
    } else {
        Some(key)
    }
}

fn is_credible(path: &[char]) -> (b: bool)
    ensures
        b == credible(path@),
{
    proof {
        lemma_find(path@, '/');
    }
    let n: usize = after_last(path, '/');
    let name = slice_subrange(path, n, path.len());
    assert(name@ == last_name(path@));
    if is_extensionless_file(name) {
        return true;
    }
    if find_char(path, '/') == path.len() {
        return false;
    }
    let k: usize = after_last(name, '.');
    if k < 2 {
        return false;
    }
    let ext = slice_subrange(name, k, name.len());
    assert(ext@ == name@.skip(rfind(name@, '.') + 1));
    is_source_extension(lowered(ext).as_slice())
}

spec fn path_is(r: Lookup<Option<Vec<char>>>, a: Answer<Option<Seq<char>>>) -> bool {
    match r {
        Lookup::Known(Some(t)) => a == Answer::Known(Some(t@)),
        Lookup::Known(None) => a == Answer::Known(None::<Seq<char>>),
        Lookup::Ask(p) => a == Answer::<Option<Seq<char>>>::Ask(p@),
    }
}

fn qualified_of(token: &[char], root: Option<&[char]>, disk: &Disk) -> (r: Lookup<
    Option<Vec<char>>,
>)
    ensures
        path_is(r, qualified(token@, slice_view(root), disk@)),
{
    match relative_of(disk.platform(), token, root) {
        None => Lookup::Known(None),
        Some(path) => {
            if is_credible(path.as_slice()) {
                return Lookup::Known(Some(path));
            }
            match root {
                None => Lookup::Known(None),
                Some(r) => match disk.kind(
                    joined_path(disk.platform(), r, path.as_slice()).as_slice(),
                ) {
                    Lookup::Ask(p) => Lookup::Ask(p),
                    Lookup::Known(k) => if k != Kind::Missing {
                        Lookup::Known(Some(path))
                    } else {
                        Lookup::Known(None)
                    },
                },
            }
        },
    }
}

/// Decides whether a cleaned token is a repo file, and returns it repo-relative.
pub fn qualify(token: &str, root: Option<&str>, disk: &Disk) -> (r: Lookup<Option<String>>)
    ensures
        match r {
            Lookup::Known(Some(p)) => qualified(token@, root_view(root), disk@) == Answer::Known(
                Some(p@),
            ),
            Lookup::Known(None) => qualified(token@, root_view(root), disk@) == Answer::Known(
                None::<Seq<char>>,
            ),
            Lookup::Ask(p) => qualified(token@, root_view(root), disk@) == Answer::<
                Option<Seq<char>>,
            >::Ask(p@),
        },
{
    let text = chars(token);
    let found = match root {
        Some(r) => {
            let root_text = chars(r);
            qualified_of(text.as_slice(), Some(root_text.as_slice()), disk)
        },
        None => qualified_of(text.as_slice(), None, disk),
    };
    match found {
        Lookup::Known(Some(p)) => Lookup::Known(Some(string(p.as_slice()))),
        Lookup::Known(None) => Lookup::Known(None),
        Lookup::Ask(p) => Lookup::Ask(p),
    }
}

// ---- Counting mentions ----------------------------------------------------

/// The repo files that a list of tokens names, in order, one entry for each
/// token that names one.
pub open spec fn all_mentions(
    tokens: Seq<Seq<char>>,
    root: Option<Seq<char>>,
    disk: DiskView,
) -> Answer<Seq<Seq<char>>>
    decreases tokens.len(),
{
    if tokens.len() == 0 {
        Answer::Known(seq![])
    } else {
        match all_mentions(tokens.drop_last(), root, disk) {
            Answer::Ask(q) => Answer::Ask(q),
            Answer::Known(paths) => match clean(tokens.last()) {
                None => Answer::Known(paths),
                Some(token) => match qualified(token, root, disk) {
                    Answer::Ask(q) => Answer::Ask(q),
                    Answer::Known(None) => Answer::Known(paths),
                    Answer::Known(Some(path)) => Answer::Known(paths.push(path)),
                },
            },
        }
    }
}

/// The repo files that a transcript mentions, in order.
pub open spec fn body_mentions(
    body: Seq<char>,
    root: Option<Seq<char>>,
    disk: DiskView,
) -> Answer<Seq<Seq<char>>> {
    all_mentions(words(body, Class::White), root, disk)
}

/// How often `path` occurs among `paths`.
pub open spec fn occurrences(paths: Seq<Seq<char>>, path: Seq<char>) -> nat
    decreases paths.len(),
{
    if paths.len() == 0 {
        0
    } else {
        occurrences(paths.drop_last(), path) + (if paths.last() == path {
            1nat
        } else {
            0
        })
    }
}

/// Does `a` come before `b`: mentioned more often, or as often and first in the
/// order of strings?
pub open spec fn precedes(paths: Seq<Seq<char>>, a: Seq<char>, b: Seq<char>) -> bool {
    ||| occurrences(paths, a) > occurrences(paths, b)
    ||| occurrences(paths, a) == occurrences(paths, b) && lex_less(a, b)
}

/// Is `out` the list of the paths in `paths`, each once with how often it
/// occurs, those that occur most first, cut off at `cap`?
pub open spec fn ranking(
    out: Seq<(Seq<char>, i64)>,
    paths: Seq<Seq<char>>,
    cap: nat,
) -> bool {
    &&& out.len() <= cap
    &&& forall|i: int|
        0 <= i < out.len() ==> paths.contains((#[trigger] out[i]).0) && out[i].1 == occurrences(
            paths,
            out[i].0,
        ) as i64
    &&& forall|i: int, j: int|
        0 <= i < j < out.len() ==> precedes(paths, (#[trigger] out[i]).0, (#[trigger] out[j]).0)
    &&& forall|k: int|
        0 <= k < paths.len() ==> listed(out, #[trigger] paths[k]) || cut_off(
            out,
            paths,
            cap,
            paths[k],
        )
}

pub open spec fn listed(out: Seq<(Seq<char>, i64)>, path: Seq<char>) -> bool {
    exists|i: int| 0 <= i < out.len() && (#[trigger] out[i]).0 == path
}

/// Is the list full with paths that all come before this one?
pub open spec fn cut_off(
    out: Seq<(Seq<char>, i64)>,
    paths: Seq<Seq<char>>,
    cap: nat,
    path: Seq<char>,
) -> bool {
    &&& out.len() == cap
    &&& forall|i: int| 0 <= i < out.len() ==> precedes(paths, (#[trigger] out[i]).0, path)
}

pub open spec fn mention_views(out: Seq<(String, i64)>) -> Seq<(Seq<char>, i64)> {
    out.map_values(|m: (String, i64)| (m.0@, m.1))
}

pub(crate) proof fn lemma_occurrences(paths: Seq<Seq<char>>, path: Seq<char>)
    ensures
        occurrences(paths, path) <= paths.len(),
        occurrences(paths, path) > 0 <==> paths.contains(path),
    decreases paths.len(),
{
    if paths.len() > 0 {
        let head = paths.drop_last();
        lemma_occurrences(head, path);
        if head.contains(path) {
            let i = choose|i: int| 0 <= i < head.len() && head[i] == path;
            assert(paths[i] == path);
        }
        if paths.contains(path) && paths.last() != path {
            let i = choose|i: int| 0 <= i < paths.len() && paths[i] == path;
            assert(head[i] == path);
        }
        assert(paths.last() == paths[paths.len() - 1]);
    }
}

/// A path and how often it was mentioned.
struct Mention {
    path: Vec<char>,
    count: usize,
}

impl Ranked for Mention {
    closed spec fn ahead(&self, other: &Self) -> bool {
        ||| self.count > other.count
        ||| self.count == other.count && lex_less(self.path@, other.path@)
    }

    proof fn ahead_transitive(a: &Self, b: &Self, c: &Self) {
        if lex_less(a.path@, b.path@) && lex_less(b.path@, c.path@) {
            lemma_lex_less_transitive(a.path@, b.path@, c.path@);
        }
    }

    fn is_ahead(&self, other: &Self) -> (b: bool) {
        self.count > other.count || (self.count == other.count && is_lex_less(
            self.path.as_slice(),
            other.path.as_slice(),
        ))
    }
}

/// Does the table list each path of `paths` once, with how often it occurs?
spec fn tabled(table: Seq<Mention>, paths: Seq<Seq<char>>) -> bool {
    &&& forall|j: int|
        0 <= j < table.len() ==> paths.contains((#[trigger] table[j]).path@) && table[j].count
            == occurrences(paths, table[j].path@)
    &&& forall|i: int, j: int|
        0 <= i < j < table.len() ==> (#[trigger] table[i]).path@ != (#[trigger] table[j]).path@
    &&& forall|k: int|
        0 <= k < paths.len() ==> exists|j: int|
            0 <= j < table.len() && (#[trigger] table[j]).path@ == #[trigger] paths[k]
}

/// A table of mentions with an index by path.
struct Table {
    rows: Vec<Mention>,
    index: StringHashMap<usize>,
}

impl Table {
    spec fn counts(self, paths: Seq<Seq<char>>) -> bool {
        &&& tabled(self.rows@, paths)
        &&& forall|p: Seq<char>| #[trigger]
            self.index@.contains_key(p) ==> self.index@[p] < self.rows@.len()
                && self.rows@[self.index@[p] as int].path@ == p
        &&& forall|j: int|
            0 <= j < self.rows@.len() ==> self.index@.contains_key((#[trigger] self.rows@[j]).path@)
    }

    fn record(&mut self, path: Vec<char>, Ghost(paths): Ghost<Seq<Seq<char>>>)
        requires
            old(self).counts(paths),
            paths.len() < usize::MAX,
        ensures
            final(self).counts(paths.push(path@)),
    {
        let ghost view = path@;
        let ghost before = *self;
        let ghost now = paths.push(view);
        let key = string(path.as_slice());
        let slot: Option<usize> = match self.index.get(key.as_str()) {
            Some(j) => Some(*j),
            None => None,
        };
        proof {
            assert(now.drop_last() =~= paths);
            lemma_occurrences(paths, view);
            assert(now.last() == view);
            assert(now[paths.len() as int] == view);
        }
        let ghost at: int;
        match slot {
            Some(j) => {
                proof {
                    at = j as int;
                    assert(self.rows@[at].path@ == view);
                }
                let count: usize = self.rows[j].count + 1;
                self.rows[j] = Mention { path, count };
            },
            None => {
                proof {
                    at = self.rows@.len() as int;
                    if paths.contains(view) {
                        let k = choose|k: int| 0 <= k < paths.len() && paths[k] == view;
                        let j = choose|j: int|
                            0 <= j < self.rows@.len() && (#[trigger] self.rows@[j]).path@
                                == paths[k];
                        assert(self.index@.contains_key(self.rows@[j].path@));
                    }
                }
                let j: usize = self.rows.len();
                self.rows.push(Mention { path, count: 1 });
                self.index.insert(key, j);
            },
        }
        proof {
            assert(self.rows@[at].path@ == view);
            assert forall|j: int| 0 <= j < self.rows@.len() implies now.contains(
                (#[trigger] self.rows@[j]).path@,
            ) && self.rows@[j].count == occurrences(now, self.rows@[j].path@) by {
                if j != at {
                    assert(self.rows@[j] == before.rows@[j]);
                    let p = self.rows@[j].path@;
                    assert(p != view) by {
                        if at < before.rows@.len() {
                            assert(before.rows@[at].path@ == view);
                            if j < at {
                                assert(before.rows@[j].path@ != before.rows@[at].path@);
                            } else {
                                assert(before.rows@[at].path@ != before.rows@[j].path@);
                            }
                        }
                    }
                    let k = choose|k: int| 0 <= k < paths.len() && paths[k] == p;
                    assert(now[k] == p);
                }
            }
            assert forall|i: int, j: int| 0 <= i < j < self.rows@.len() implies (
            #[trigger] self.rows@[i]).path@ != (#[trigger] self.rows@[j]).path@ by {
                if at < before.rows@.len() {
                    assert(before.rows@[i].path@ == self.rows@[i].path@);
                    assert(before.rows@[j].path@ == self.rows@[j].path@);
                } else if j == at {
                    assert(before.rows@[i] == self.rows@[i]);
                } else {
                    assert(before.rows@[i] == self.rows@[i] && before.rows@[j] == self.rows@[j]);
                }
            }
            assert forall|k: int| 0 <= k < now.len() implies exists|j: int|
                0 <= j < self.rows@.len() && (#[trigger] self.rows@[j]).path@
                    == #[trigger] now[k] by {
                if k < paths.len() {
                    assert(now[k] == paths[k]);
                    let j = choose|j: int|
                        0 <= j < before.rows@.len() && (#[trigger] before.rows@[j]).path@
                            == paths[k];
                    assert(self.rows@[j].path@ == before.rows@[j].path@);
                }
            }
            assert forall|p: Seq<char>| #[trigger]
                self.index@.contains_key(p) implies self.index@[p] < self.rows@.len()
                && self.rows@[self.index@[p] as int].path@ == p by {
                if before.index@.contains_key(p) {
                    let j = before.index@[p] as int;
                    assert(self.rows@[j].path@ == before.rows@[j].path@);
                }
            }
            assert forall|j: int| 0 <= j < self.rows@.len() implies self.index@.contains_key(
                (#[trigger] self.rows@[j]).path@,
            ) by {
                if j != at {
                    assert(self.rows@[j] == before.rows@[j]);
                }
            }
        }
    }
}

/// The table in rank order.
fn ranked(table: Vec<Mention>, Ghost(paths): Ghost<Seq<Seq<char>>>) -> (out: Vec<Mention>)
    requires
        tabled(table@, paths),
    ensures
        tabled(out@, paths),
        in_order(out@),
{
    let mut rest = table;
    let mut out: Vec<Mention> = Vec::new();
    while rest.len() > 0
        invariant
            tabled(rest@ + out@, paths),
            in_order(out@),
        decreases rest@.len(),
    {
        let ghost old_rest = rest@;
        let ghost old_out = out@;
        let ghost whole = old_rest + old_out;
        match rest.pop() {
            None => {},
            Some(m) => {
                let ghost n = old_rest.len() as int - 1;
                proof {
                    assert(whole[n] == m);
                    assert forall|i: int| 0 <= i < old_out.len() implies (
                    #[trigger] old_out[i]).ahead(&m) || m.ahead(&old_out[i]) by {
                        assert(whole[n + 1 + i] == old_out[i]);
                        assert(whole[n].path@ != whole[n + 1 + i].path@);
                        lemma_lex_less_total(m.path@, old_out[i].path@);
                    }
                }
                let at: usize = insert_ranked(&mut out, m);
                proof {
                    let now = rest@ + out@;
                    assert(rest@ == whole.take(n));
                    assert(old_out == whole.skip(n + 1));
                    lemma_moved(whole, now, n, at as int);
                    lemma_tabled_moved(whole, now, n, at as int, paths);
                }
            },
        }
    }
    assert(rest@ + out@ == out@);
    out
}

/// Where the elements of a list stand after the one at `n` has moved `at` places
/// to the right.
proof fn lemma_moved(whole: Seq<Mention>, now: Seq<Mention>, n: int, at: int)
    requires
        0 <= n < whole.len(),
        0 <= at <= whole.len() - n - 1,
        now == whole.take(n) + whole.skip(n + 1).insert(at, whole[n]),
    ensures
        now.len() == whole.len(),
        now[n + at] == whole[n],
        forall|i: int| 0 <= i < n ==> #[trigger] now[i] == whole[i],
        forall|i: int| n <= i < n + at ==> #[trigger] now[i] == whole[i + 1],
        forall|i: int| n + at < i < whole.len() ==> #[trigger] now[i] == whole[i],
{
}

/// Moving a row keeps the table.
proof fn lemma_tabled_moved(
    whole: Seq<Mention>,
    now: Seq<Mention>,
    n: int,
    at: int,
    paths: Seq<Seq<char>>,
)
    requires
        tabled(whole, paths),
        0 <= n < whole.len(),
        0 <= at <= whole.len() - n - 1,
        now.len() == whole.len(),
        now[n + at] == whole[n],
        forall|i: int| 0 <= i < n ==> #[trigger] now[i] == whole[i],
        forall|i: int| n <= i < n + at ==> #[trigger] now[i] == whole[i + 1],
        forall|i: int| n + at < i < whole.len() ==> #[trigger] now[i] == whole[i],
    ensures
        tabled(now, paths),
{
    let from = |i: int|
        if n <= i < n + at {
            i + 1
        } else if i == n + at {
            n
        } else {
            i
        };
    assert forall|i: int, j: int| 0 <= i < j < now.len() implies (#[trigger] now[i]).path@ != (
    #[trigger] now[j]).path@ by {
        let a = from(i);
        let b = from(j);
        assert(now[i] == whole[a] && now[j] == whole[b]);
        if a < b {
            assert(whole[a].path@ != whole[b].path@);
        } else {
            assert(whole[b].path@ != whole[a].path@);
        }
    }
    assert forall|j: int| 0 <= j < now.len() implies paths.contains((#[trigger] now[j]).path@)
        && now[j].count == occurrences(paths, now[j].path@) by {
        assert(now[j] == whole[from(j)]);
    }
    assert forall|k: int| 0 <= k < paths.len() implies exists|j: int|
        0 <= j < now.len() && (#[trigger] now[j]).path@ == #[trigger] paths[k] by {
        let j = choose|j: int|
            0 <= j < whole.len() && (#[trigger] whole[j]).path@ == paths[k];
        if j < n || j > n + at {
            assert(now[j] == whole[j]);
        } else if j == n {
            assert(now[n + at] == whole[j]);
        } else {
            assert(now[j - 1] == whole[j]);
        }
    }
}

proof fn lemma_mentions_ask(
    tokens: Seq<Seq<char>>,
    root: Option<Seq<char>>,
    disk: DiskView,
    i: int,
)
    requires
        0 <= i < tokens.len(),
        all_mentions(tokens.take(i + 1), root, disk) is Ask,
    ensures
        all_mentions(tokens, root, disk) == all_mentions(tokens.take(i + 1), root, disk),
    decreases tokens.len(),
{
    if i + 1 < tokens.len() {
        assert(tokens.drop_last().take(i + 1) == tokens.take(i + 1));
        lemma_mentions_ask(tokens.drop_last(), root, disk, i);
    } else {
        assert(tokens.take(i + 1) == tokens);
    }
}

fn mentions_of(body: &[char], root: Option<&[char]>, disk: &Disk) -> (r: Lookup<
    Vec<(String, i64)>,
>)
    ensures
        match r {
            Lookup::Known(out) => body_mentions(body@, slice_view(root), disk@) matches Answer::Known(
                paths,
            ) && ranking(mention_views(out@), paths, MAX_FILES_PER_CONVERSATION as nat),
            Lookup::Ask(p) => body_mentions(body@, slice_view(root), disk@) == Answer::<
                Seq<Seq<char>>,
            >::Ask(p@),
        },
{
    let tokens = words_of(body, Class::White);
    let mut table = Table { rows: Vec::new(), index: StringHashMap::new() };
    let ghost mut paths: Seq<Seq<char>> = seq![];
    let mut i: usize = 0;
    while i < tokens.len()
        invariant
            i <= tokens@.len(),
            views(tokens@) == words(body@, Class::White),
            all_mentions(views(tokens@).take(i as int), slice_view(root), disk@) == Answer::Known(
                paths,
            ),
            paths.len() <= i,
            table.counts(paths),
        decreases tokens@.len() - i,
    {
        let ghost taken = views(tokens@).take(i + 1);
        assert(taken.drop_last() == views(tokens@).take(i as int));
        assert(taken.last() == tokens@[i as int]@);
        if let Some(token) = cleaned(tokens[i]) {
            match qualified_of(token, root, disk) {
                Lookup::Ask(p) => {
                    proof {
                        lemma_mentions_ask(views(tokens@), slice_view(root), disk@, i as int);
                    }
                    return Lookup::Ask(p);
                },
                Lookup::Known(None) => {},
                Lookup::Known(Some(path)) => {
                    let ghost view = path@;
                    table.record(path, Ghost(paths));
                    proof {
                        paths = paths.push(view);
                    }
                },
            }
        }
        i += 1;
    }
    assert(views(tokens@).take(tokens@.len() as int) == views(tokens@));
    let rows = ranked(table.rows, Ghost(paths));
    let mut out: Vec<(String, i64)> = Vec::new();
    let mut j: usize = 0;
    while j < rows.len() && j < MAX_FILES_PER_CONVERSATION
        invariant
            j <= rows@.len(),
            j <= MAX_FILES_PER_CONVERSATION,
            out@.len() == j,
            forall|k: int|
                0 <= k < j ==> (#[trigger] out@[k]).0@ == rows@[k].path@ && out@[k].1
                    == rows@[k].count as i64,
        decreases rows@.len() - j,
    {
        out.push((string(rows[j].path.as_slice()), rows[j].count as i64));
        j += 1;
    }
    proof {
        lemma_ranking(rows@, paths, mention_views(out@), MAX_FILES_PER_CONVERSATION as nat);
    }
    Lookup::Known(out)
}

/// The head of a table in rank order is the ranking.
proof fn lemma_ranking(
    rows: Seq<Mention>,
    paths: Seq<Seq<char>>,
    out: Seq<(Seq<char>, i64)>,
    cap: nat,
)
    requires
        tabled(rows, paths),
        in_order(rows),
        out.len() <= rows.len(),
        out.len() <= cap,
        out.len() == rows.len() || out.len() == cap,
        forall|k: int|
            0 <= k < out.len() ==> (#[trigger] out[k]).0 == rows[k].path@ && out[k].1
                == rows[k].count as i64,
    ensures
        ranking(out, paths, cap),
{
    assert forall|i: int, j: int| 0 <= i < j < rows.len() implies precedes(
        paths,
        (#[trigger] rows[i]).path@,
        (#[trigger] rows[j]).path@,
    ) by {
        assert(rows[i].ahead(&rows[j]));
    }
    assert forall|i: int| 0 <= i < out.len() implies paths.contains((#[trigger] out[i]).0)
        && out[i].1 == occurrences(paths, out[i].0) as i64 by {
        assert(paths.contains(rows[i].path@));
    }
    assert forall|i: int, j: int| 0 <= i < j < out.len() implies precedes(
        paths,
        (#[trigger] out[i]).0,
        (#[trigger] out[j]).0,
    ) by {
        assert(precedes(paths, rows[i].path@, rows[j].path@));
    }
    assert forall|k: int| 0 <= k < paths.len() implies listed(out, #[trigger] paths[k]) || cut_off(
        out,
        paths,
        cap,
        paths[k],
    ) by {
        let j = choose|j: int| 0 <= j < rows.len() && (#[trigger] rows[j]).path@ == paths[k];
        if j < out.len() {
            assert(out[j].0 == paths[k]);
        } else {
            assert forall|i: int| 0 <= i < out.len() implies precedes(
                paths,
                (#[trigger] out[i]).0,
                paths[k],
            ) by {
                assert(precedes(paths, rows[i].path@, rows[j].path@));
            }
        }
    }
}

/// Extracts the repo-relative file paths that a transcript mentions, with how
/// often each was mentioned.
///
/// Ordered by mention count, so a caller truncating the list keeps the files the
/// conversation was actually about rather than ones it mentioned in passing.
pub fn extract_paths(body: &str, root: Option<&str>, disk: &Disk) -> (r: Lookup<
    Vec<(String, i64)>,
>)
    ensures
        match r {
            Lookup::Known(out) => body_mentions(body@, root_view(root), disk@) matches Answer::Known(
                paths,
            ) && ranking(mention_views(out@), paths, MAX_FILES_PER_CONVERSATION as nat),
            Lookup::Ask(p) => body_mentions(body@, root_view(root), disk@) == Answer::<
                Seq<Seq<char>>,
            >::Ask(p@),
        },
{
    let text = chars(body);
    match root {
        Some(r) => {
            let root_text = chars(r);
            mentions_of(text.as_slice(), Some(root_text.as_slice()), disk)
        },
        None => mentions_of(text.as_slice(), None, disk),
    }
}

// ---- Laws -----------------------------------------------------------------

/// A URL is never a file of the repository, nor is an option or a handle.
pub proof fn law_urls_are_no_files(token: Seq<char>, root: Option<Seq<char>>, disk: DiskView)
    requires
        find_str(token, "://"@) is Some || (token.len() > 0 && (token.first() == '-'
            || token.first() == '@')),
    ensures
        qualified(token, root, disk) == Answer::Known(None::<Seq<char>>),
{
}

/// An absolute path counts only where there is a root that it lies below.
pub proof fn law_absolute_paths_need_a_root(
    token: Seq<char>,
    root: Option<Seq<char>>,
    disk: DiskView,
)
    requires
        absolute(disk.platform, token),
        root matches Some(r) ==> below(disk.platform, token, r) is None,
    ensures
        qualified(token, root, disk) == Answer::Known(None::<Seq<char>>),
{
}

/// An absolute path that has left the root names no file of the repository,
/// whatever is on disk: one that starts with the root, climbs out of it and, all
/// told, does not lead back below it.
pub proof fn law_paths_that_leave_are_dropped(token: Seq<char>, root: Seq<char>, disk: DiskView)
    requires
        absolute(disk.platform, token),
        below(disk.platform, token, root) matches Some(comps) && climbs_out(comps),
        !settled(disk.platform, root).is_prefix_of(settled(disk.platform, token)),
    ensures
        qualified(token, Some(root), disk) == Answer::Known(None::<Seq<char>>),
{
}

/// An absolute path that stays below the root, or comes back, is known by what it
/// has below it.
pub proof fn law_paths_inside_are_relative_to_the_root(
    on: Platform,
    token: Seq<char>,
    root: Seq<char>,
    comps: Seq<Seq<char>>,
    path: Seq<char>,
)
    requires
        absolute(on, token),
        below(on, token, root) == Some(comps),
        relative(on, token, Some(root)) == Some(path),
    ensures
        !climbs_out(comps) ==> path == key_of(on, comps),
        climbs_out(comps) ==> settled(on, root).is_prefix_of(settled(on, token)) && path == key_of(
            on,
            settled(on, token).skip(settled(on, root).len() as int),
        ),
{
}

/// Without a root the disk plays no part: the name alone decides, and nothing is
/// asked.
pub proof fn law_without_a_root_names_decide(token: Seq<char>, disk: DiskView)
    ensures
        qualified(token, None, disk) == Answer::Known(
            match relative(disk.platform, token, None) {
                Some(path) => if credible(path) {
                    Some(path)
                } else {
                    None
                },
                None => None,
            },
        ),
{
}

/// A file counts by its name whether or not it is still there, so that the
/// history of what was deleted or renamed is kept; and what is there counts
/// whatever its name.
pub proof fn law_name_or_disk_suffices(
    token: Seq<char>,
    root: Option<Seq<char>>,
    disk: DiskView,
    path: Seq<char>,
)
    requires
        relative(disk.platform, token, root) == Some(path),
        credible(path) || on_disk(path, root, disk) == Answer::Known(true),
    ensures
        qualified(token, root, disk) == Answer::Known(Some(path)),
{
}

/// There is one ranking of what a transcript mentions.
pub proof fn law_one_ranking(
    paths: Seq<Seq<char>>,
    one: Seq<(Seq<char>, i64)>,
    other: Seq<(Seq<char>, i64)>,
    cap: nat,
)
    requires
        ranking(one, paths, cap),
        ranking(other, paths, cap),
    ensures
        one == other,
{
    if one.len() <= other.len() {
        lemma_same_head(paths, one, other, cap, one.len() as int);
        lemma_same_len(paths, one, other, cap);
    } else {
        lemma_same_head(paths, other, one, cap, other.len() as int);
        lemma_same_len(paths, other, one, cap);
    }
    assert(one =~= other);
}

/// No file is listed twice.
pub proof fn law_mentions_are_distinct(
    paths: Seq<Seq<char>>,
    out: Seq<(Seq<char>, i64)>,
    cap: nat,
    i: int,
    j: int,
)
    requires
        ranking(out, paths, cap),
        0 <= i < j < out.len(),
    ensures
        out[i].0 != out[j].0,
{
    assert(precedes(paths, out[i].0, out[j].0));
    lemma_lex_less_total(out[i].0, out[j].0);
}

proof fn lemma_same_len(
    paths: Seq<Seq<char>>,
    one: Seq<(Seq<char>, i64)>,
    other: Seq<(Seq<char>, i64)>,
    cap: nat,
)
    requires
        ranking(one, paths, cap),
        ranking(other, paths, cap),
        one.len() <= other.len(),
        forall|p: int| 0 <= p < one.len() ==> #[trigger] one[p] == other[p],
    ensures
        one.len() == other.len(),
{
    let n = one.len() as int;
    if n < other.len() {
        let path = other[n].0;
        let k = choose|k: int| 0 <= k < paths.len() && paths[k] == path;
        assert(listed(one, paths[k]) || cut_off(one, paths, cap, paths[k]));
        let p = choose|p: int| 0 <= p < one.len() && (#[trigger] one[p]).0 == path;
        assert(one[p] == other[p]);
        law_mentions_are_distinct(paths, other, cap, p, n);
    }
}

proof fn lemma_same_head(
    paths: Seq<Seq<char>>,
    one: Seq<(Seq<char>, i64)>,
    other: Seq<(Seq<char>, i64)>,
    cap: nat,
    n: int,
)
    requires
        ranking(one, paths, cap),
        ranking(other, paths, cap),
        0 <= n <= one.len() <= other.len(),
    ensures
        forall|p: int| 0 <= p < n ==> #[trigger] one[p] == other[p],
    decreases n,
{
    if n > 0 {
        lemma_same_head(paths, one, other, cap, n - 1);
        lemma_placed(paths, one, other, cap, n - 1);
        lemma_placed(paths, other, one, cap, n - 1);
        lemma_lex_less_total(one[n - 1].0, other[n - 1].0);
        assert(one[n - 1].0 == other[n - 1].0);
        assert(one[n - 1] == other[n - 1]);
    }
}

/// Where two rankings agree up to `n`, neither has something earlier at `n`.
proof fn lemma_placed(
    paths: Seq<Seq<char>>,
    one: Seq<(Seq<char>, i64)>,
    other: Seq<(Seq<char>, i64)>,
    cap: nat,
    n: int,
)
    requires
        ranking(one, paths, cap),
        ranking(other, paths, cap),
        0 <= n < one.len(),
        n < other.len(),
        forall|p: int| 0 <= p < n ==> #[trigger] one[p] == other[p],
    ensures
        !precedes(paths, one[n].0, other[n].0),
{
    let (a, b) = (one[n].0, other[n].0);
    lemma_lex_less_total(a, b);
    let k = choose|k: int| 0 <= k < paths.len() && paths[k] == a;
    assert(listed(other, paths[k]) || cut_off(other, paths, cap, paths[k]));
    if listed(other, a) {
        let q = choose|q: int| 0 <= q < other.len() && (#[trigger] other[q]).0 == a;
        if q < n {
            assert(one[q] == other[q]);
            law_mentions_are_distinct(paths, one, cap, q, n);
        } else if q > n {
            assert(precedes(paths, other[n].0, other[q].0));
        } else {
            assert(a == b);
        }
    } else {
        assert(precedes(paths, other[n].0, a));
    }
}

/// What is known stays known, and a question is only asked if it has no answer
/// yet.
pub proof fn law_mentions_are_stable(
    tokens: Seq<Seq<char>>,
    root: Option<Seq<char>>,
    disk: DiskView,
    more: DiskView,
)
    requires
        more.extends(disk),
    ensures
        all_mentions(tokens, root, disk) is Known ==> all_mentions(tokens, root, more)
            == all_mentions(tokens, root, disk),
        all_mentions(tokens, root, disk) matches Answer::Ask(q) ==> !disk.answers(q),
    decreases tokens.len(),
{
    if tokens.len() > 0 {
        law_mentions_are_stable(tokens.drop_last(), root, disk, more);
    }
}

} // verus!
