//! Resolving a conversation to the repository it happened in.
//!
//! Every source records some notion of where a conversation was happening. On
//! its own that is a string with a machine's home directory baked into it, which
//! is useless as a join key the moment a clone moves. This module turns it into
//! a repository identity that survives the move.
//!
//! Git is read directly: `.git/config` is an INI file, and the only field wanted
//! from it is a remote URL. What has to be read off the disk is asked for, one
//! [`Probe`](crate::disk::Probe) at a time.

use crate::disk::{Answer, Disk, DiskView, Kind, Lookup};
use crate::path::{
    absolute, components, file_name, file_name_of, is_absolute, join_path, joined_path, key_of,
    lemma_parent, normalize_path_key, parent, parent_of, Platform,
};
use crate::remote::{
    config_url, config_url_of, remote_key, remote_key_of, remote_name, repo_name_from_remote,
};
use crate::text::{chars, has_prefix, same, string, trim, trimmed, Class};
use vstd::prelude::*;
use vstd::slice::slice_subrange;

verus! {

/// How a conversation came to be attached to a repository. The two are not
/// equally trustworthy, and a caller ranking results deserves to know which it
/// has.
#[derive(Debug, Clone, Copy, PartialEq, Eq, Structural)]
pub enum Origin {
    /// The source recorded a working directory and it resolved to a repo.
    Recorded,
    /// No usable working directory; the repo was inferred from file paths in
    /// the transcript.
    Inferred,
}

impl Origin {
    pub open spec fn text(self) -> Seq<char> {
        match self {
            Origin::Recorded => "recorded"@,
            Origin::Inferred => "inferred"@,
        }
    }

    pub fn as_str(self) -> (r: &'static str)
        ensures
            r@ == self.text(),
    {
        match self {
            Origin::Recorded => "recorded",
            Origin::Inferred => "inferred",
        }
    }

    /// What a stored origin stands for. Anything unknown counts as recorded.
    pub open spec fn stored(s: Seq<char>) -> Origin {
        if s == "inferred"@ {
            Origin::Inferred
        } else {
            Origin::Recorded
        }
    }

    pub fn parse(s: &str) -> (r: Origin)
        ensures
            r == Origin::stored(s@),
    {
        if same(chars(s).as_slice(), chars("inferred").as_slice()) {
            Origin::Inferred
        } else {
            Origin::Recorded
        }
    }
}

/// A repository identity.
///
/// `key` is what conversations are grouped by, and is deliberately *not* the
/// local path: the same repository cloned to two places, or simply moved, has to
/// land in one bucket. A remote URL is the only identifier that a repository
/// carries with it, so it is preferred; a repo with no remote falls back to its
/// own path.
#[derive(Debug, Clone, PartialEq, Eq)]
pub struct RepoRef {
    pub key: String,
    /// Where this repo was last seen locally. May no longer exist.
    pub root: String,
    pub remote: Option<String>,
    /// Last path component of the root, or the remote's repo name.
    pub name: String,
}

/// A [`RepoRef`] as a value of the specification.
pub struct RepoView {
    pub key: Seq<char>,
    pub root: Seq<char>,
    pub remote: Option<Seq<char>>,
    pub name: Seq<char>,
}

impl View for RepoRef {
    type V = RepoView;

    open spec fn view(&self) -> RepoView {
        RepoView {
            key: self.key@,
            root: self.root@,
            remote: crate::disk::text_view(self.remote),
            name: self.name@,
        }
    }
}

pub open spec fn repo_view(r: Option<RepoRef>) -> Option<RepoView> {
    match r {
        Some(repo) => Some(repo@),
        None => None,
    }
}

/// Does an executable lookup of a repository give what the specification says?
pub open spec fn lookup_is(r: Lookup<Option<RepoRef>>, a: Answer<Option<RepoView>>) -> bool {
    match r {
        Lookup::Known(found) => a == Answer::Known(repo_view(found)),
        Lookup::Ask(p) => a == Answer::<Option<RepoView>>::Ask(p@),
    }
}

// ---- Git directories ------------------------------------------------------

pub open spec fn gitdir_target(contents: Seq<char>) -> Option<Seq<char>> {
    if "gitdir:"@.is_prefix_of(contents) {
        Some(trim(contents.skip("gitdir:"@.len() as int), Class::White))
    } else {
        None
    }
}

/// The directory that holds `config`, for a `.git` file that points at `gitdir`:
/// that directory itself, or the common directory that it points back to.
pub open spec fn common_dir(gitdir: Seq<char>, disk: DiskView) -> Answer<Option<Seq<char>>> {
    match disk.kind(join_path(disk.platform, gitdir, "config"@)) {
        Answer::Ask(q) => Answer::Ask(q),
        Answer::Known(k) => if k != Kind::Missing {
            Answer::Known(Some(gitdir))
        } else {
            match disk.text(join_path(disk.platform, gitdir, "commondir"@)) {
                Answer::Ask(q) => Answer::Ask(q),
                Answer::Known(None) => Answer::Known(None),
                Answer::Known(Some(common)) => Answer::Known(
                    Some(join_path(disk.platform, gitdir, trim(common, Class::White))),
                ),
            }
        },
    }
}

/// The directory holding `config` for a given `.git`, of which `kind` says what
/// it is.
///
/// Usually `.git` itself. For a worktree or submodule it is a file containing
/// `gitdir: <path>`, and for a worktree that directory is per-worktree state
/// whose `commondir` points at the real one, which is where `config` lives.
pub open spec fn config_dir(dot_git: Seq<char>, kind: Kind, disk: DiskView) -> Answer<
    Option<Seq<char>>,
> {
    if kind == Kind::Directory {
        Answer::Known(Some(dot_git))
    } else {
        match disk.text(dot_git) {
            Answer::Ask(q) => Answer::Ask(q),
            Answer::Known(None) => Answer::Known(None),
            Answer::Known(Some(contents)) => match gitdir_target(contents) {
                None => Answer::Known(None),
                Some(target) => if absolute(disk.platform, target) {
                    common_dir(target, disk)
                } else {
                    match parent(disk.platform, dot_git) {
                        None => Answer::Known(None),
                        Some(dir) => common_dir(join_path(disk.platform, dir, target), disk),
                    }
                },
            },
        }
    }
}

/// The configuration of the repository at `dot_git`; `None` where it has none
/// that can be read.
pub open spec fn config_text(dot_git: Seq<char>, kind: Kind, disk: DiskView) -> Answer<
    Option<Seq<char>>,
> {
    match config_dir(dot_git, kind, disk) {
        Answer::Ask(q) => Answer::Ask(q),
        Answer::Known(None) => Answer::Known(None),
        Answer::Known(Some(dir)) => disk.text(join_path(disk.platform, dir, "config"@)),
    }
}

/// What `git_dir` and `config` lookups return, against the specification.
spec fn text_is(r: Lookup<Option<Vec<char>>>, a: Answer<Option<Seq<char>>>) -> bool {
    match r {
        Lookup::Known(Some(t)) => a == Answer::Known(Some(t@)),
        Lookup::Known(None) => a == Answer::Known(None::<Seq<char>>),
        Lookup::Ask(p) => a == Answer::<Option<Seq<char>>>::Ask(p@),
    }
}

fn common_dir_of(gitdir: Vec<char>, disk: &Disk) -> (r: Lookup<Option<Vec<char>>>)
    ensures
        text_is(r, common_dir(gitdir@, disk@)),
{
    let config = joined_path(disk.platform(), gitdir.as_slice(), chars("config").as_slice());
    match disk.kind(config.as_slice()) {
        Lookup::Ask(p) => Lookup::Ask(p),
        Lookup::Known(k) => {
            if k != Kind::Missing {
                return Lookup::Known(Some(gitdir));
            }
            let link = joined_path(disk.platform(), gitdir.as_slice(), chars("commondir").as_slice());
            match disk.text(link.as_slice()) {
                Lookup::Ask(p) => Lookup::Ask(p),
                Lookup::Known(None) => Lookup::Known(None),
                Lookup::Known(Some(common)) => {
                    let target = trimmed(common.as_slice(), Class::White);
                    Lookup::Known(Some(joined_path(disk.platform(), gitdir.as_slice(), target)))
                },
            }
        },
    }
}

fn git_dir(dot_git: &[char], kind: Kind, disk: &Disk) -> (r: Lookup<Option<Vec<char>>>)
    ensures
        text_is(r, config_dir(dot_git@, kind, disk@)),
{
    if kind == Kind::Directory {
        let mut whole: Vec<char> = Vec::new();
        whole.extend_from_slice(dot_git);
        assert(whole@ == dot_git@);
        return Lookup::Known(Some(whole));
    }
    match disk.text(dot_git) {
        Lookup::Ask(p) => Lookup::Ask(p),
        Lookup::Known(None) => Lookup::Known(None),
        Lookup::Known(Some(contents)) => {
            let tag = chars("gitdir:");
            if !has_prefix(contents.as_slice(), tag.as_slice()) {
                return Lookup::Known(None);
            }
            let rest = slice_subrange(contents.as_slice(), tag.len(), contents.len());
            assert(rest@ == contents@.skip("gitdir:"@.len() as int));
            let target = trimmed(rest, Class::White);
            if is_absolute(disk.platform(), target) {
                let mut whole: Vec<char> = Vec::new();
                whole.extend_from_slice(target);
                assert(whole@ == target@);
                return common_dir_of(whole, disk);
            }
            match parent_of(disk.platform(), dot_git) {
                None => Lookup::Known(None),
                Some(dir) => common_dir_of(joined_path(disk.platform(), dir, target), disk),
            }
        },
    }
}

fn config_of(dot_git: &[char], kind: Kind, disk: &Disk) -> (r: Lookup<Option<Vec<char>>>)
    ensures
        text_is(r, config_text(dot_git@, kind, disk@)),
{
    match git_dir(dot_git, kind, disk) {
        Lookup::Ask(p) => Lookup::Ask(p),
        Lookup::Known(None) => Lookup::Known(None),
        Lookup::Known(Some(dir)) => {
            let config = joined_path(disk.platform(), dir.as_slice(), chars("config").as_slice());
            disk.text(config.as_slice())
        },
    }
}

// ---- Finding a repository -------------------------------------------------

/// The normalised remote that a configuration names.
pub open spec fn config_remote(config: Option<Seq<char>>) -> Option<Seq<char>> {
    match config {
        None => None,
        Some(text) => match config_url(text) {
            None => None,
            Some(url) => Some(remote_key(url)),
        },
    }
}

/// The name of a directory: its last component, or all of it where it has none.
pub open spec fn dir_name(on: Platform, dir: Seq<char>) -> Seq<char> {
    match file_name(on, dir) {
        Some(name) => name,
        None => dir,
    }
}

/// The key of something that is known by its place alone.
pub open spec fn path_key(on: Platform, dir: Seq<char>) -> Seq<char> {
    "path:"@ + key_of(on, components(on, dir))
}

/// The identity of the repository at `dir` with this configuration.
pub open spec fn describe(on: Platform, dir: Seq<char>, config: Option<Seq<char>>) -> RepoView {
    let remote = config_remote(config);
    RepoView {
        key: match remote {
            Some(r) => "git:"@ + r,
            None => path_key(on, dir),
        },
        root: dir,
        remote,
        name: match remote {
            Some(r) => match remote_name(r) {
                Some(name) => name,
                None => dir_name(on, dir),
            },
            None => dir_name(on, dir),
        },
    }
}

/// The repository at `dir` or at the nearest directory above it with a `.git`.
pub open spec fn climb(dir: Seq<char>, disk: DiskView) -> Answer<Option<RepoView>>
    decreases dir.len(),
    via climb_decreases
{
    let dot_git = join_path(disk.platform, dir, ".git"@);
    match disk.kind(dot_git) {
        Answer::Ask(q) => Answer::Ask(q),
        Answer::Known(kind) => if kind == Kind::Missing {
            match parent(disk.platform, dir) {
                None => Answer::Known(None),
                Some(up) => climb(up, disk),
            }
        } else {
            match config_text(dot_git, kind, disk) {
                Answer::Ask(q) => Answer::Ask(q),
                Answer::Known(config) => Answer::Known(Some(describe(disk.platform, dir, config))),
            }
        },
    }
}

#[via_fn]
proof fn climb_decreases(dir: Seq<char>, disk: DiskView) {
    lemma_parent(disk.platform, dir);
}

/// The repository that `start` lies in. A file is a location inside a
/// directory, not one; so the search for a file starts at its parent.
pub open spec fn locate(start: Seq<char>, disk: DiskView) -> Answer<Option<RepoView>> {
    match disk.kind(start) {
        Answer::Ask(q) => Answer::Ask(q),
        Answer::Known(kind) => if kind == Kind::File {
            match parent(disk.platform, start) {
                None => Answer::Known(None),
                Some(dir) => climb(dir, disk),
            }
        } else {
            climb(start, disk)
        },
    }
}

fn prefixed(tag: &str, rest: &[char]) -> (r: String)
    ensures
        r@ == tag@ + rest@,
{
    let mut whole = chars(tag);
    whole.extend_from_slice(rest);
    string(whole.as_slice())
}

fn dir_name_of(on: Platform, dir: &[char]) -> (r: String)
    ensures
        r@ == dir_name(on, dir@),
{
    match file_name_of(on, dir) {
        Some(name) => string(name),
        None => string(dir),
    }
}

fn described(on: Platform, dir: &[char], config: Option<Vec<char>>) -> (r: RepoRef)
    ensures
        r@ == describe(
            on,
            dir@,
            match config {
                Some(t) => Some(t@),
                None => None,
            },
        ),
{
    let remote: Option<String> = match config {
        None => None,
        Some(text) => match config_url_of(text.as_slice()) {
            None => None,
            Some(url) => Some(string(remote_key_of(url.as_slice()).as_slice())),
        },
    };
    let root = string(dir);
    match remote {
        Some(remote) => {
            let key = prefixed("git:", chars(remote.as_str()).as_slice());
            let name = match repo_name_from_remote(remote.as_str()) {
                Some(name) => name,
                None => dir_name_of(on, dir),
            };
            RepoRef { key, root, remote: Some(remote), name }
        },
        None => {
            let key = prefixed("path:", normalize_path_key(on, dir).as_slice());
            let name = dir_name_of(on, dir);
            RepoRef { key, root, remote: None, name }
        },
    }
}

pub(crate) fn located(start: &[char], disk: &Disk) -> (r: Lookup<Option<RepoRef>>)
    ensures
        lookup_is(r, locate(start@, disk@)),
{
    let mut dir: &[char] = start;
    match disk.kind(start) {
        Lookup::Ask(p) => {
            return Lookup::Ask(p);
        },
        Lookup::Known(kind) => {
            if kind == Kind::File {
                match parent_of(disk.platform(), start) {
                    None => {
                        return Lookup::Known(None);
                    },
                    Some(up) => {
                        dir = up;
                    },
                }
            }
        },
    }
    loop
        invariant
            locate(start@, disk@) == climb(dir@, disk@),
        decreases dir@.len(),
    {
        let dot_git = joined_path(disk.platform(), dir, chars(".git").as_slice());
        match disk.kind(dot_git.as_slice()) {
            Lookup::Ask(p) => {
                return Lookup::Ask(p);
            },
            Lookup::Known(kind) => {
                if kind != Kind::Missing {
                    return match config_of(dot_git.as_slice(), kind, disk) {
                        Lookup::Ask(p) => Lookup::Ask(p),
                        Lookup::Known(config) => Lookup::Known(
                            Some(described(disk.platform(), dir, config)),
                        ),
                    };
                }
            },
        }
        proof {
            lemma_parent(disk@.platform, dir@);
        }
        match parent_of(disk.platform(), dir) {
            None => {
                return Lookup::Known(None);
            },
            Some(up) => {
                dir = up;
            },
        }
    }
}

/// Walks up from `start` looking for a `.git`, and describes the repository if
/// one is found.
pub fn discover(start: &str, disk: &Disk) -> (r: Lookup<Option<RepoRef>>)
    ensures
        lookup_is(r, locate(start@, disk@)),
{
    located(chars(start).as_slice(), disk)
}

/// The repository of a recorded working directory: the one it lies in, or, where
/// that is none, the directory itself.
pub open spec fn resolution(project_path: Seq<char>, disk: DiskView) -> Answer<Option<RepoView>> {
    let path = trim(project_path, Class::White);
    if path.len() == 0 {
        Answer::Known(None)
    } else {
        match locate(path, disk) {
            Answer::Known(None) => Answer::Known(
                Some(
                    RepoView {
                        key: path_key(disk.platform, path),
                        root: path,
                        remote: None,
                        name: dir_name(disk.platform, path),
                    },
                ),
            ),
            found => found,
        }
    }
}

/// Resolves a source-recorded working directory to a repository.
///
/// The result is `None` only for a blank path. A directory that is not in a git
/// repository still yields a `RepoRef` keyed on its own path: grouping
/// conversations by project is useful whether or not the project is versioned.
pub fn resolve(project_path: &str, disk: &Disk) -> (r: Lookup<Option<RepoRef>>)
    ensures
        lookup_is(r, resolution(project_path@, disk@)),
        r matches Lookup::Known(found) ==> (found is None <==> trim(
            project_path@,
            Class::White,
        ).len() == 0),
{
    let text = chars(project_path);
    let path = trimmed(text.as_slice(), Class::White);
    if path.len() == 0 {
        return Lookup::Known(None);
    }
    match located(path, disk) {
        Lookup::Known(None) => {
            let key = prefixed("path:", normalize_path_key(disk.platform(), path).as_slice());
            Lookup::Known(
                Some(
                    RepoRef {
                        key,
                        root: string(path),
                        remote: None,
                        name: dir_name_of(disk.platform(), path),
                    },
                ),
            )
        },
        found => found,
    }
}

// ---- Laws -----------------------------------------------------------------

/// An origin survives being stored.
pub proof fn law_origin_round_trip(origin: Origin)
    ensures
        Origin::stored(origin.text()) == origin,
{
    reveal_strlit("recorded");
    reveal_strlit("inferred");
    assert("recorded"@[0] == 'r' && "inferred"@[0] == 'i');
}

/// A repository that has a remote is the same one wherever it lies: two checkouts
/// whose configurations name one remote have one key, whatever their paths and on
/// whatever platforms.
pub proof fn law_moved_checkout_keeps_its_key(
    on: Platform,
    here: Seq<char>,
    config: Option<Seq<char>>,
    elsewhere: Platform,
    there: Seq<char>,
    other: Option<Seq<char>>,
)
    requires
        config_remote(config) is Some,
        config_remote(config) == config_remote(other),
    ensures
        describe(on, here, config).key == describe(elsewhere, there, other).key,
        describe(on, here, config).remote == describe(elsewhere, there, other).remote,
{
}

/// A key says what it was made from: the remote where there is one, else the
/// path. The two kinds never meet.
pub proof fn law_key_tells_remote_from_path(
    on: Platform,
    dir: Seq<char>,
    config: Option<Seq<char>>,
)
    ensures
        "git:"@.is_prefix_of(describe(on, dir, config).key) <==> config_remote(config) is Some,
        "path:"@.is_prefix_of(describe(on, dir, config).key) <==> config_remote(config) is None,
{
    reveal_strlit("git:");
    reveal_strlit("path:");
    let key = describe(on, dir, config).key;
    assert("git:"@[0] == 'g' && "path:"@[0] == 'p');
    match config_remote(config) {
        Some(r) => {
            assert(key.subrange(0, "git:"@.len() as int) =~= "git:"@);
        },
        None => {
            assert(key.subrange(0, "path:"@.len() as int) =~= "path:"@);
        },
    }
    if "git:"@.is_prefix_of(key) {
        assert(key[0] == "git:"@[0]);
    }
    if "path:"@.is_prefix_of(key) {
        assert(key[0] == "path:"@[0]);
    }
}

/// Every directory below a repository, down to the next one, lies in it: walking
/// up from a directory without a `.git` is walking up from the one above.
pub proof fn law_nested_directory_lies_in_the_repository(
    dir: Seq<char>,
    above: Seq<char>,
    disk: DiskView,
)
    requires
        parent(disk.platform, dir) == Some(above),
        disk.kind(join_path(disk.platform, dir, ".git"@)) == Answer::Known(Kind::Missing),
        disk.kind(dir) matches Answer::Known(k) && k != Kind::File,
        disk.kind(above) matches Answer::Known(k) && k != Kind::File,
    ensures
        locate(dir, disk) == locate(above, disk),
{
}

/// What is known stays known: more answers do not change a result, and a question
/// is only asked if it has no answer yet. So asking and calling again comes to an
/// end, and the order in which answers arrive does not matter.
pub proof fn law_locate_is_stable(start: Seq<char>, disk: DiskView, more: DiskView)
    requires
        more.extends(disk),
    ensures
        locate(start, disk) is Known ==> locate(start, more) == locate(start, disk),
        locate(start, disk) matches Answer::Ask(q) ==> !disk.answers(q),
{
    match disk.kind(start) {
        Answer::Known(kind) => {
            if kind == Kind::File {
                if let Some(dir) = parent(disk.platform, start) {
                    lemma_climb_is_stable(dir, disk, more);
                }
            } else {
                lemma_climb_is_stable(start, disk, more);
            }
        },
        Answer::Ask(_) => {},
    }
}

/// The same of a recorded working directory.
pub proof fn law_resolution_is_stable(path: Seq<char>, disk: DiskView, more: DiskView)
    requires
        more.extends(disk),
    ensures
        resolution(path, disk) is Known ==> resolution(path, more) == resolution(path, disk),
        resolution(path, disk) matches Answer::Ask(q) ==> !disk.answers(q),
{
    law_locate_is_stable(trim(path, Class::White), disk, more);
}

proof fn lemma_climb_is_stable(dir: Seq<char>, disk: DiskView, more: DiskView)
    requires
        more.extends(disk),
    ensures
        climb(dir, disk) is Known ==> climb(dir, more) == climb(dir, disk),
        climb(dir, disk) matches Answer::Ask(q) ==> !disk.answers(q),
    decreases dir.len(),
{
    let dot_git = join_path(disk.platform, dir, ".git"@);
    match disk.kind(dot_git) {
        Answer::Known(kind) => {
            if kind == Kind::Missing {
                lemma_parent(disk.platform, dir);
                if let Some(up) = parent(disk.platform, dir) {
                    lemma_climb_is_stable(up, disk, more);
                }
            } else {
                lemma_config_is_stable(dot_git, kind, disk, more);
            }
        },
        Answer::Ask(_) => {},
    }
}

proof fn lemma_config_is_stable(dot_git: Seq<char>, kind: Kind, disk: DiskView, more: DiskView)
    requires
        more.extends(disk),
    ensures
        config_text(dot_git, kind, disk) is Known ==> config_text(dot_git, kind, more)
            == config_text(dot_git, kind, disk),
        config_text(dot_git, kind, disk) matches Answer::Ask(q) ==> !disk.answers(q),
{
}

} // verus!
