//! Finding a repository.

use crate::disk::{Answer, DiskView, Kind};
use crate::laws::text::{all_in, law_trim_takes_off_the_ends};
use crate::path::{
    absolute, components, file_name, join_path, key_of, lemma_parent, parent, Platform,
};
use crate::remote::{config_url, remote_key, remote_name};
use crate::repo::{climb, config_text, describe, gitdir_target, locate, resolution, RepoView};
use crate::text::{white_space, Class};
use vstd::prelude::*;

verus! {

/// The directory so many steps above this one.
pub open spec fn above(on: Platform, dir: Seq<char>, steps: nat) -> Option<Seq<char>>
    decreases steps,
{
    if steps == 0 {
        Some(dir)
    } else {
        match parent(on, dir) {
            None => None,
            Some(up) => above(on, up, (steps - 1) as nat),
        }
    }
}

/// Does this directory have something named `.git`?
pub open spec fn has_git(dir: Seq<char>, disk: DiskView) -> bool {
    disk.kind(join_path(disk.platform, dir, ".git"@)) matches Answer::Known(kind) && kind
        != Kind::Missing
}

/// Is the directory so many steps above this one known to have no `.git`?
pub open spec fn lacks_git(dir: Seq<char>, disk: DiskView, steps: nat) -> bool {
    above(disk.platform, dir, steps) matches Some(up) && disk.kind(
        join_path(disk.platform, up, ".git"@),
    ) == Answer::Known(Kind::Missing)
}

proof fn lemma_climb(dir: Seq<char>, disk: DiskView) -> (n: nat)
    requires
        climb(dir, disk) is Known,
    ensures
        climb(dir, disk) matches Answer::Known(Some(repo)) ==> above(disk.platform, dir, n) == Some(
            repo.root,
        ) && has_git(repo.root, disk),
        climb(dir, disk) == Answer::Known(None::<RepoView>) ==> above(disk.platform, dir, n) is None,
        forall|m: nat| m < n ==> #[trigger] lacks_git(dir, disk, m),
    decreases dir.len(),
{
    if has_git(dir, disk) {
        0
    } else {
        match parent(disk.platform, dir) {
            None => {
                assert(above(disk.platform, dir, 1) is None);
                assert forall|m: nat| m < 1 implies #[trigger] lacks_git(dir, disk, m) by {
                    assert(above(disk.platform, dir, 0) == Some(dir));
                }
                1
            },
            Some(up) => {
                lemma_parent(disk.platform, dir);
                let n = lemma_climb(up, disk);
                let k = n + 1;
                assert(above(disk.platform, dir, k) == above(disk.platform, up, n));
                assert forall|m: nat| m < k implies #[trigger] lacks_git(dir, disk, m) by {
                    if m > 0 {
                        assert(lacks_git(up, disk, (m - 1) as nat));
                        assert(above(disk.platform, dir, m) == above(
                            disk.platform,
                            up,
                            (m - 1) as nat,
                        ));
                    } else {
                        assert(above(disk.platform, dir, 0) == Some(dir));
                    }
                }
                k
            },
        }
    }
}

/// The repository that a directory lies in is at the nearest directory, itself or
/// above, that has a `.git`; where none has, it lies in none.
pub proof fn law_nearest_repository_is_found(start: Seq<char>, disk: DiskView)
    requires
        disk.kind(start) matches Answer::Known(kind) && kind != Kind::File,
    ensures
        locate(start, disk) matches Answer::Known(Some(repo)) ==> has_git(repo.root, disk)
            && exists|n: nat|
            #[trigger] above(disk.platform, start, n) == Some(repo.root) && forall|m: nat|
                m < n ==> #[trigger] lacks_git(start, disk, m),
        locate(start, disk) == Answer::Known(None::<RepoView>) ==> exists|n: nat|
            #[trigger] above(disk.platform, start, n) is None && forall|m: nat|
                m < n ==> #[trigger] lacks_git(start, disk, m),
        has_git(start, disk) ==> locate(start, disk) != Answer::Known(None::<RepoView>),
{
    if locate(start, disk) is Known {
        let n = lemma_climb(start, disk);
    }
}

/// A file lies where its directory lies.
pub proof fn law_files_lie_where_their_directory_lies(
    file: Seq<char>,
    dir: Seq<char>,
    disk: DiskView,
)
    requires
        disk.kind(file) == Answer::Known(Kind::File),
        parent(disk.platform, file) == Some(dir),
        disk.kind(dir) matches Answer::Known(kind) && kind != Kind::File,
    ensures
        locate(file, disk) == locate(dir, disk),
{
}

/// A `.git` that is a directory holds the configuration itself.
pub proof fn law_git_directory_holds_its_configuration(dot_git: Seq<char>, disk: DiskView)
    ensures
        config_text(dot_git, Kind::Directory, disk) == disk.text(
            join_path(disk.platform, dot_git, "config"@),
        ),
{
}

/// A `.git` that is a file points elsewhere, from the directory that it stands in: the
/// configuration is in the directory that it names, where there is one; else where
/// that directory's `commondir` leads, from that directory.
pub proof fn law_git_file_points_to_the_configuration(
    dot_git: Seq<char>,
    kind: Kind,
    disk: DiskView,
    a: Seq<char>,
    target: Seq<char>,
    b: Seq<char>,
    dir: Seq<char>,
    gitdir: Seq<char>,
    c: Seq<char>,
    common: Seq<char>,
    d: Seq<char>,
)
    requires
        kind != Kind::Directory,
        all_in(a, Class::White) && all_in(b, Class::White),
        all_in(c, Class::White) && all_in(d, Class::White),
        target.len() > 0 && !white_space(target.first()) && !white_space(target.last()),
        common.len() > 0 && !white_space(common.first()) && !white_space(common.last()),
        disk.text(dot_git) == Answer::Known(Some("gitdir:"@ + (a + target + b))),
        parent(disk.platform, dot_git) == Some(dir),
        gitdir == (if absolute(disk.platform, target) {
            target
        } else {
            join_path(disk.platform, dir, target)
        }),
    ensures
        ({
            let own = join_path(disk.platform, gitdir, "config"@);
            let link = join_path(disk.platform, gitdir, "commondir"@);
            &&& (disk.kind(own) matches Answer::Known(k) && k != Kind::Missing) ==> config_text(
                dot_git,
                kind,
                disk,
            ) == disk.text(own)
            &&& disk.kind(own) == Answer::Known(Kind::Missing) && disk.text(link) == Answer::Known(
                Some(c + common + d),
            ) ==> config_text(dot_git, kind, disk) == disk.text(
                join_path(disk.platform, join_path(disk.platform, gitdir, common), "config"@),
            )
        }),
{
    let contents = "gitdir:"@ + (a + target + b);
    let n = "gitdir:"@.len() as int;
    assert(contents.subrange(0, n) =~= "gitdir:"@);
    assert(contents.skip(n) =~= a + target + b);
    law_trim_takes_off_the_ends(a, target, b, Class::White);
    law_trim_takes_off_the_ends(c, common, d, Class::White);
    assert(gitdir_target(contents) == Some(target));
}

/// A `.git` file that does not say where to look leads to no configuration.
pub proof fn law_other_git_files_lead_nowhere(
    dot_git: Seq<char>,
    kind: Kind,
    disk: DiskView,
    contents: Seq<char>,
)
    requires
        kind != Kind::Directory,
        disk.text(dot_git) == Answer::Known(Some(contents)),
        contents.len() < 7 || contents.take(7) != "gitdir:"@,
    ensures
        config_text(dot_git, kind, disk) == Answer::Known(None::<Seq<char>>),
{
    reveal_strlit("gitdir:");
    if "gitdir:"@.is_prefix_of(contents) {
        assert(contents.subrange(0, 7) =~= contents.take(7));
    }
}

/// A repository is known by its remote where its configuration names one, else by its
/// place, and is named after the same.
pub proof fn law_repositories_are_known_by_their_remote(
    on: Platform,
    dir: Seq<char>,
    config: Seq<char>,
    url: Seq<char>,
    name: Seq<char>,
)
    requires
        config_url(config) == Some(url),
        remote_name(remote_key(url)) == Some(name) || (remote_name(remote_key(url)) is None
            && file_name(on, dir) == Some(name)),
    ensures
        describe(on, dir, Some(config)) == (RepoView {
            key: "git:"@ + remote_key(url),
            root: dir,
            remote: Some(remote_key(url)),
            name,
        }),
{
}

/// Without a remote a repository is known, and named, by its place.
pub proof fn law_repositories_without_a_remote_are_known_by_their_place(
    on: Platform,
    dir: Seq<char>,
    config: Option<Seq<char>>,
    name: Seq<char>,
)
    requires
        config matches Some(text) ==> config_url(text) is None,
        file_name(on, dir) == Some(name) || (file_name(on, dir) is None && name == dir),
    ensures
        describe(on, dir, config) == (RepoView {
            key: "path:"@ + key_of(on, components(on, dir)),
            root: dir,
            remote: None,
            name,
        }),
{
}

/// A recorded directory resolves to the repository that it lies in, or, where it lies
/// in none, to itself; white space round it is of no account, and a blank one resolves
/// to nothing.
pub proof fn law_recorded_directories(
    left: Seq<char>,
    path: Seq<char>,
    right: Seq<char>,
    disk: DiskView,
)
    requires
        all_in(left, Class::White),
        all_in(right, Class::White),
        path.len() > 0 ==> !white_space(path.first()) && !white_space(path.last()),
    ensures
        path.len() == 0 ==> resolution(left + path + right, disk) == Answer::Known(
            None::<RepoView>,
        ),
        path.len() > 0 ==> match locate(path, disk) {
            Answer::Known(None) => resolution(left + path + right, disk) matches Answer::Known(
                Some(repo),
            ) && repo.key == "path:"@ + key_of(disk.platform, components(disk.platform, path))
                && repo.root == path && repo.remote is None && (file_name(
                disk.platform,
                path,
            ) matches Some(name) ==> repo.name == name) && (file_name(disk.platform, path) is None
                ==> repo.name == path),
            found => resolution(left + path + right, disk) == found,
        },
{
    law_trim_takes_off_the_ends(left, path, right, Class::White);
}

} // verus!
