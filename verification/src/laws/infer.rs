//! Inferring a repository.

use crate::disk::{Answer, DiskView};
use crate::infer::{
    alike, all_locations, body_locations, elected, first_seen, location, sightings, votes,
};
use crate::laws::text::all_in;
use crate::laws::token::{bare, law_prose_round_a_path_comes_off, trails};
use crate::laws::unix::law_a_name_in_a_directory;
use crate::path::{absolute, identity, parent, Platform};
use crate::repo::{locate, RepoView};
use crate::text::{find_str, lex_less, words, Class};
use crate::token::{clean, without_number};
use crate::unix;
use vstd::prelude::*;

verus! {

/// Is this token, once cleaned, an absolute path below some directory, and no URL?
pub open spec fn points(on: Platform, token: Seq<char>) -> bool {
    clean(token) matches Some(path) && absolute(on, path) && find_str(path, "://"@) is None
        && parent(on, path) is Some
}

/// Is this where walking up from `dir` finds the repository with this key?
pub open spec fn lies_in(dir: Seq<char>, disk: DiskView, key: Seq<char>) -> bool {
    locate(dir, disk) matches Answer::Known(Some(repo)) && repo.key == key
}

/// A path in a directory points into that directory, whatever prose puts round it.
pub proof fn law_paths_point_into_their_directory(
    left: Seq<char>,
    dir: Seq<char>,
    name: Seq<char>,
    right: Seq<char>,
)
    requires
        all_in(left, Class::Wrapper),
        trails(right),
        unix::absolute(dir),
        dir.last() != '/' && !(seq!['/', '.']).is_suffix_of(dir),
        name.len() > 0 && !name.contains('/') && name != unix::dot(),
        bare(dir + unix::root() + name),
        without_number(dir + unix::root() + name) == dir + unix::root() + name,
        find_str(dir + unix::root() + name, "://"@) is None,
    ensures
        location(Platform::Unix, left + (dir + unix::root() + name) + right) == Some(dir),
{
    law_prose_round_a_path_comes_off(left, dir + unix::root() + name, right);
    law_a_name_in_a_directory(dir, name);
}

/// What is no absolute path, and what is a URL, points nowhere.
pub proof fn law_only_absolute_paths_point(on: Platform, token: Seq<char>, path: Seq<char>)
    requires
        clean(token) == Some(path),
        !absolute(on, path) || find_str(path, "://"@) is Some || parent(on, path) is None,
    ensures
        location(on, token) is None,
{
}

/// A filter goes item by item.
pub proof fn lemma_filter_last<A>(s: Seq<A>, f: spec_fn(A) -> bool)
    requires
        s.len() > 0,
    ensures
        f(s.last()) ==> s.filter(f) == s.drop_last().filter(f).push(s.last()),
        !f(s.last()) ==> s.filter(f) == s.drop_last().filter(f),
{
    reveal(Seq::filter);
}

proof fn lemma_alike_is_earlier(on: Platform, dirs: Seq<Seq<char>>, id: Seq<char>, j: int)
    ensures
        alike(on, dirs, id) matches Some(dir) ==> identity(on, dir) == id && exists|i: int|
            0 <= i < dirs.len() && #[trigger] dirs[i] == dir,
        0 <= j < dirs.len() && identity(on, dirs[j]) == id ==> alike(on, dirs, id) is Some,
    decreases dirs.len(),
{
    if dirs.len() > 0 {
        let rest = dirs.drop_last();
        lemma_alike_is_earlier(on, rest, id, j);
        if let Some(dir) = alike(on, rest, id) {
            let i = choose|i: int| 0 <= i < rest.len() && #[trigger] rest[i] == dir;
            assert(dirs[i] == dir);
        } else {
            assert(dirs[dirs.len() - 1] == dirs.last());
            if 0 <= j < rest.len() {
                assert(rest[j] == dirs[j]);
            }
        }
    }
}

/// Every token that points into a directory adds one location, also where the
/// directory came before: there are as many locations as such tokens, and each is
/// the directory of its own token.
pub proof fn law_every_path_adds_a_location(on: Platform, tokens: Seq<Seq<char>>, i: int)
    ensures
        all_locations(on, tokens).len() == tokens.filter(|t: Seq<char>| points(on, t)).len(),
        0 <= i < all_locations(on, tokens).len() ==> identity(on, all_locations(on, tokens)[i])
            == identity(
            on,
            parent(on, clean(tokens.filter(|t: Seq<char>| points(on, t))[i])->0)->0,
        ),
    decreases tokens.len(),
{
    let f = |t: Seq<char>| points(on, t);
    if tokens.len() == 0 {
        reveal(Seq::filter);
    } else {
        let rest = tokens.drop_last();
        law_every_path_adds_a_location(on, rest, i);
        lemma_filter_last(tokens, f);
        let before = all_locations(on, rest);
        if points(on, tokens.last()) {
            let dir = location(on, tokens.last())->0;
            lemma_alike_is_earlier(on, before, identity(on, dir), 0);
            assert(all_locations(on, tokens).drop_last() =~= before);
            assert(tokens.filter(f) == rest.filter(f).push(tokens.last()));
            if 0 <= i < before.len() {
                assert(all_locations(on, tokens)[i] == before[i]);
                assert(tokens.filter(f)[i] == rest.filter(f)[i]);
            }
        }
    }
}

/// A directory is written as it was the first time: two locations with one identity
/// are the same text, and that text is the directory of some token.
pub proof fn law_a_directory_is_written_one_way(
    on: Platform,
    tokens: Seq<Seq<char>>,
    i: int,
    j: int,
)
    requires
        0 <= i < all_locations(on, tokens).len(),
        0 <= j < all_locations(on, tokens).len(),
    ensures
        identity(on, all_locations(on, tokens)[i]) == identity(on, all_locations(on, tokens)[j])
            ==> all_locations(on, tokens)[i] == all_locations(on, tokens)[j],
        exists|k: int|
            0 <= k < tokens.len() && points(on, #[trigger] tokens[k]) && parent(
                on,
                clean(tokens[k])->0,
            ) == Some(all_locations(on, tokens)[i]),
{
    if identity(on, all_locations(on, tokens)[i]) == identity(on, all_locations(on, tokens)[j]) {
        lemma_one_way(on, tokens, i, j);
    }
    lemma_from_token(on, tokens, i);
    let k = choose|k: int|
        0 <= k < tokens.len() && location(on, #[trigger] tokens[k]) == Some(
            all_locations(on, tokens)[i],
        );
    assert(points(on, tokens[k]));
}

proof fn lemma_one_way(on: Platform, tokens: Seq<Seq<char>>, i: int, j: int)
    requires
        0 <= i < all_locations(on, tokens).len(),
        0 <= j < all_locations(on, tokens).len(),
        identity(on, all_locations(on, tokens)[i]) == identity(on, all_locations(on, tokens)[j]),
    ensures
        all_locations(on, tokens)[i] == all_locations(on, tokens)[j],
    decreases tokens.len(),
{
    let all = all_locations(on, tokens);
    let before = all_locations(on, tokens.drop_last());
    let last = before.len() as int;
    match location(on, tokens.last()) {
        None => {
            lemma_one_way(on, tokens.drop_last(), i, j);
        },
        Some(dir) => {
            let id = identity(on, dir);
            lemma_alike_is_earlier(on, before, id, if i < last { i } else { j });
            if let Some(first) = alike(on, before, id) {
                let m = choose|m: int| 0 <= m < before.len() && #[trigger] before[m] == first;
                let a = if i == last { m } else { i };
                let b = if j == last { m } else { j };
                assert(all[i] == before[a] && all[j] == before[b]);
                lemma_one_way(on, tokens.drop_last(), a, b);
            } else if i < last && j < last {
                assert(all[i] == before[i] && all[j] == before[j]);
                lemma_one_way(on, tokens.drop_last(), i, j);
            }
        },
    }
}

proof fn lemma_from_token(on: Platform, tokens: Seq<Seq<char>>, i: int)
    requires
        0 <= i < all_locations(on, tokens).len(),
    ensures
        exists|k: int|
            0 <= k < tokens.len() && location(on, #[trigger] tokens[k]) == Some(
                all_locations(on, tokens)[i],
            ),
    decreases tokens.len(),
{
    let all = all_locations(on, tokens);
    let rest = tokens.drop_last();
    let before = all_locations(on, rest);
    let last = before.len() as int;
    if i < last {
        assert(all[i] == before[i]);
        lemma_from_token(on, rest, i);
        let k = choose|k: int|
            0 <= k < rest.len() && location(on, #[trigger] rest[k]) == Some(before[i]);
        assert(tokens[k] == rest[k]);
    } else {
        let dir = location(on, tokens.last())->0;
        let id = identity(on, dir);
        lemma_alike_is_earlier(on, before, id, 0);
        if let Some(first) = alike(on, before, id) {
            let m = choose|m: int| 0 <= m < before.len() && #[trigger] before[m] == first;
            lemma_from_token(on, rest, m);
            let k = choose|k: int|
                0 <= k < rest.len() && location(on, #[trigger] rest[k]) == Some(before[m]);
            assert(tokens[k] == rest[k]);
        } else {
            assert(tokens[tokens.len() - 1] == tokens.last());
        }
    }
}

/// The locations of a transcript are those of its words.
pub proof fn law_transcripts_are_read_word_by_word(on: Platform, body: Seq<char>)
    ensures
        body_locations(on, body) == all_locations(on, words(body, Class::White)),
        body_locations(on, body).len() == words(body, Class::White).filter(
            |t: Seq<char>| points(on, t),
        ).len(),
{
    law_every_path_adds_a_location(on, words(body, Class::White), 0);
}

/// A repository has one vote for each location that lies in it.
pub proof fn law_every_location_has_a_vote(
    dirs: Seq<Seq<char>>,
    disk: DiskView,
    seen: Seq<RepoView>,
    key: Seq<char>,
)
    requires
        sightings(dirs, disk) == Answer::Known(seen),
    ensures
        votes(seen, key) == dirs.filter(|d: Seq<char>| lies_in(d, disk, key)).len(),
        votes(seen, key) == seen.filter(|r: RepoView| r.key == key).len(),
    decreases dirs.len(),
{
    let f = |d: Seq<char>| lies_in(d, disk, key);
    let g = |r: RepoView| r.key == key;
    if dirs.len() == 0 {
        reveal(Seq::filter);
    } else {
        let before = sightings(dirs.drop_last(), disk)->Known_0;
        law_every_location_has_a_vote(dirs.drop_last(), disk, before, key);
        lemma_filter_last(dirs, f);
        if locate(dirs.last(), disk)->Known_0 is Some {
            lemma_filter_last(seen, g);
            assert(seen.drop_last() =~= before);
        }
    }
}

/// Are the directories that these tokens point into each written one way?
pub open spec fn written_one_way(on: Platform, tokens: Seq<Seq<char>>) -> bool {
    forall|i: int, j: int|
        0 <= i < tokens.len() && 0 <= j < tokens.len() && points(on, #[trigger] tokens[i])
            && points(on, #[trigger] tokens[j]) && identity(
            on,
            parent(on, clean(tokens[i])->0)->0,
        ) == identity(on, parent(on, clean(tokens[j])->0)->0) ==> parent(on, clean(tokens[i])->0)
            == parent(on, clean(tokens[j])->0)
}

/// Does this token point into the repository with this key?
pub open spec fn votes_for(disk: DiskView, key: Seq<char>) -> spec_fn(Seq<char>) -> bool {
    |t: Seq<char>|
        points(disk.platform, t) && lies_in(parent(disk.platform, clean(t)->0)->0, disk, key)
}

/// A repository has one vote for each token whose directory lies in it, a token as often
/// as it comes.
pub proof fn law_every_token_has_a_vote(
    tokens: Seq<Seq<char>>,
    disk: DiskView,
    seen: Seq<RepoView>,
    key: Seq<char>,
)
    requires
        written_one_way(disk.platform, tokens),
        sightings(all_locations(disk.platform, tokens), disk) == Answer::Known(seen),
    ensures
        votes(seen, key) == tokens.filter(votes_for(disk, key)).len(),
    decreases tokens.len(),
{
    let on = disk.platform;
    let dirs = all_locations(on, tokens);
    if tokens.len() == 0 {
        reveal(Seq::filter);
    } else {
        let rest = tokens.drop_last();
        let before = all_locations(on, rest);
        assert(written_one_way(on, rest)) by {
            assert forall|i: int, j: int|
                0 <= i < rest.len() && 0 <= j < rest.len() && points(on, #[trigger] rest[i])
                    && points(on, #[trigger] rest[j]) && identity(
                    on,
                    parent(on, clean(rest[i])->0)->0,
                ) == identity(on, parent(on, clean(rest[j])->0)->0) implies parent(
                on,
                clean(rest[i])->0,
            ) == parent(on, clean(rest[j])->0) by {
                assert(rest[i] == tokens[i] && rest[j] == tokens[j]);
            }
        }
        lemma_filter_last(tokens, votes_for(disk, key));
        if points(on, tokens.last()) {
            lemma_last_location(on, tokens);
            assert(dirs.drop_last() =~= before);
            law_every_token_has_a_vote(rest, disk, sightings(before, disk)->Known_0, key);
            if locate(dirs.last(), disk)->Known_0 is Some {
                assert(seen.drop_last() =~= sightings(before, disk)->Known_0);
            }
        } else {
            law_every_token_has_a_vote(rest, disk, seen, key);
        }
    }
}

/// Where directories are written one way, the last location is the directory of the last
/// token.
proof fn lemma_last_location(on: Platform, tokens: Seq<Seq<char>>)
    requires
        tokens.len() > 0,
        written_one_way(on, tokens),
        points(on, tokens.last()),
    ensures
        all_locations(on, tokens) == all_locations(on, tokens.drop_last()).push(
            parent(on, clean(tokens.last())->0)->0,
        ),
{
    let rest = tokens.drop_last();
    let before = all_locations(on, rest);
    let dir = location(on, tokens.last())->0;
    let id = identity(on, dir);
    lemma_alike_is_earlier(on, before, id, 0);
    if let Some(first) = alike(on, before, id) {
        let m = choose|m: int| 0 <= m < before.len() && #[trigger] before[m] == first;
        lemma_from_token(on, rest, m);
        let k = choose|k: int|
            0 <= k < rest.len() && location(on, #[trigger] rest[k]) == Some(before[m]);
        let last = tokens.len() - 1;
        assert(tokens[k] == rest[k]);
        assert(tokens[last] == tokens.last());
        assert(points(on, tokens[k]) && points(on, tokens[last]));
        assert(parent(on, clean(tokens[k])->0) == parent(on, clean(tokens[last])->0));
    }
}

/// The repositories seen are those that the locations lie in, in their order, one
/// for each location that lies in one.
pub proof fn law_sightings_follow_the_locations(
    dirs: Seq<Seq<char>>,
    disk: DiskView,
    seen: Seq<RepoView>,
    i: int,
)
    requires
        sightings(dirs, disk) == Answer::Known(seen),
    ensures
        0 <= i < dirs.len() ==> locate(dirs[i], disk) is Known,
        seen.len() == dirs.filter(
            |d: Seq<char>| locate(d, disk) matches Answer::Known(Some(repo)),
        ).len(),
        0 <= i < seen.len() ==> locate(
            dirs.filter(|d: Seq<char>| locate(d, disk) matches Answer::Known(Some(repo)))[i],
            disk,
        ) == Answer::Known(Some(seen[i])),
    decreases dirs.len(),
{
    let f = |d: Seq<char>| locate(d, disk) matches Answer::Known(Some(repo));
    if dirs.len() == 0 {
        reveal(Seq::filter);
    } else {
        let before = sightings(dirs.drop_last(), disk)->Known_0;
        law_sightings_follow_the_locations(dirs.drop_last(), disk, before, i);
        lemma_filter_last(dirs, f);
        if 0 <= i < dirs.len() - 1 {
            assert(dirs.drop_last()[i] == dirs[i]);
        }
        if locate(dirs.last(), disk)->Known_0 is Some {
            assert(seen.drop_last() =~= before);
            if 0 <= i < before.len() {
                assert(seen[i] == before[i]);
                assert(dirs.filter(f)[i] == dirs.drop_last().filter(f)[i]);
            }
        }
    }
}

/// The repository seen most often wins: no other was seen more often, and one seen
/// as often comes later in the order of strings. It is given as it was first seen.
pub proof fn law_winner_was_seen_most_often(seen: Seq<RepoView>, winner: RepoView, i: int)
    requires
        elected(seen, winner),
        0 <= i < seen.len(),
    ensures
        seen.filter(|r: RepoView| r.key == winner.key).len() >= seen.filter(
            |r: RepoView| r.key == seen[i].key,
        ).len(),
        seen[i].key != winner.key && seen.filter(|r: RepoView| r.key == winner.key).len()
            == seen.filter(|r: RepoView| r.key == seen[i].key).len() ==> lex_less(
            winner.key,
            seen[i].key,
        ),
        exists|k: int|
            0 <= k < seen.len() && #[trigger] seen[k] == winner && forall|j: int|
                0 <= j < k ==> (#[trigger] seen[j]).key != winner.key,
{
    lemma_votes_filter(seen, winner.key);
    lemma_votes_filter(seen, seen[i].key);
    lemma_first_is_first(seen, winner.key);
}

proof fn lemma_votes_filter(seen: Seq<RepoView>, key: Seq<char>)
    ensures
        votes(seen, key) == seen.filter(|r: RepoView| r.key == key).len(),
    decreases seen.len(),
{
    let g = |r: RepoView| r.key == key;
    if seen.len() == 0 {
        reveal(Seq::filter);
    } else {
        lemma_votes_filter(seen.drop_last(), key);
        lemma_filter_last(seen, g);
    }
}

proof fn lemma_first_is_first(seen: Seq<RepoView>, key: Seq<char>)
    ensures
        first_seen(seen, key) matches Some(r) ==> exists|k: int|
            0 <= k < seen.len() && #[trigger] seen[k] == r && forall|j: int|
                0 <= j < k ==> (#[trigger] seen[j]).key != key,
        first_seen(seen, key) is None ==> forall|j: int|
            0 <= j < seen.len() ==> (#[trigger] seen[j]).key != key,
    decreases seen.len(),
{
    if seen.len() > 0 {
        let rest = seen.drop_last();
        lemma_first_is_first(rest, key);
        if let Some(r) = first_seen(rest, key) {
            let k = choose|k: int|
                0 <= k < rest.len() && #[trigger] rest[k] == r && forall|j: int|
                    0 <= j < k ==> (#[trigger] rest[j]).key != key;
            assert(seen[k] == r);
            assert forall|j: int| 0 <= j < k implies (#[trigger] seen[j]).key != key by {
                assert(rest[j] == seen[j]);
            }
        } else {
            assert forall|j: int| 0 <= j < rest.len() implies (#[trigger] seen[j]).key != key by {
                assert(rest[j] == seen[j]);
            }
            assert(seen[seen.len() - 1] == seen.last());
        }
    }
}

} // verus!
