//! Inferring a repository from the paths in a transcript.

use crate::disk::{Answer, Disk, DiskView, Lookup};
use crate::path::{
    absolute, identity, identity_of, is_absolute, parent, parent_of, Platform,
};
use crate::repo::{law_locate_is_stable, locate, located, repo_view, RepoRef, RepoView};
use crate::text::{
    chars, find_str, find_text, is_lex_less, lemma_lex_less_total, lemma_lex_less_transitive,
    lex_less, string, views, words, words_of, Class,
};
use crate::token::{clean, cleaned};
use vstd::hash_map::StringHashMap;
use vstd::prelude::*;

verus! {

/// The directory that a token of a transcript points into: where it is an
/// absolute path and no URL, the directory above it.
pub open spec fn location(on: Platform, token: Seq<char>) -> Option<Seq<char>> {
    match clean(token) {
        None => None,
        Some(path) => if absolute(on, path) && find_str(path, "://"@) is None {
            parent(on, path)
        } else {
            None
        },
    }
}

/// The first of these directories with this identity.
pub open spec fn alike(on: Platform, dirs: Seq<Seq<char>>, id: Seq<char>) -> Option<Seq<char>>
    decreases dirs.len(),
{
    if dirs.len() == 0 {
        None
    } else {
        match alike(on, dirs.drop_last(), id) {
            Some(dir) => Some(dir),
            None => if identity(on, dirs.last()) == id {
                Some(dirs.last())
            } else {
                None
            },
        }
    }
}

/// The directories that a list of tokens points into, in order. One that comes
/// again is written as it was the first time.
pub open spec fn all_locations(on: Platform, tokens: Seq<Seq<char>>) -> Seq<Seq<char>>
    decreases tokens.len(),
{
    if tokens.len() == 0 {
        seq![]
    } else {
        let before = all_locations(on, tokens.drop_last());
        match location(on, tokens.last()) {
            Some(dir) => before.push(
                match alike(on, before, identity(on, dir)) {
                    Some(first) => first,
                    None => dir,
                },
            ),
            None => before,
        }
    }
}

/// The directories that a transcript points into.
pub open spec fn body_locations(on: Platform, body: Seq<char>) -> Seq<Seq<char>> {
    all_locations(on, words(body, Class::White))
}

/// The repositories that these directories lie in, one entry for each directory
/// that lies in one.
pub open spec fn sightings(dirs: Seq<Seq<char>>, disk: DiskView) -> Answer<Seq<RepoView>>
    decreases dirs.len(),
{
    if dirs.len() == 0 {
        Answer::Known(seq![])
    } else {
        match sightings(dirs.drop_last(), disk) {
            Answer::Ask(q) => Answer::Ask(q),
            Answer::Known(seen) => match locate(dirs.last(), disk) {
                Answer::Ask(q) => Answer::Ask(q),
                Answer::Known(None) => Answer::Known(seen),
                Answer::Known(Some(repo)) => Answer::Known(seen.push(repo)),
            },
        }
    }
}

/// How many sightings have this key.
pub open spec fn votes(seen: Seq<RepoView>, key: Seq<char>) -> nat
    decreases seen.len(),
{
    if seen.len() == 0 {
        0
    } else {
        votes(seen.drop_last(), key) + (if seen.last().key == key {
            1nat
        } else {
            0
        })
    }
}

/// The first sighting with this key.
pub open spec fn first_seen(seen: Seq<RepoView>, key: Seq<char>) -> Option<RepoView>
    decreases seen.len(),
{
    if seen.len() == 0 {
        None
    } else {
        match first_seen(seen.drop_last(), key) {
            Some(repo) => Some(repo),
            None => if seen.last().key == key {
                Some(seen.last())
            } else {
                None
            },
        }
    }
}

/// Does `key` beat `other`: by more votes, or by coming first in the order of
/// strings where the votes are even?
pub open spec fn beats(seen: Seq<RepoView>, key: Seq<char>, other: Seq<char>) -> bool {
    ||| votes(seen, key) > votes(seen, other)
    ||| votes(seen, key) == votes(seen, other) && lex_less(key, other)
}

/// Is `winner` the repository seen most often, as it was first seen?
pub open spec fn elected(seen: Seq<RepoView>, winner: RepoView) -> bool {
    &&& first_seen(seen, winner.key) == Some(winner)
    &&& forall|i: int|
        0 <= i < seen.len() && (#[trigger] seen[i]).key != winner.key ==> beats(
            seen,
            winner.key,
            seen[i].key,
        )
}

pub proof fn lemma_first_seen(seen: Seq<RepoView>, key: Seq<char>)
    ensures
        first_seen(seen, key) is Some <==> votes(seen, key) > 0,
        first_seen(seen, key) matches Some(r) ==> r.key == key && seen.contains(r),
    decreases seen.len(),
{
    if seen.len() > 0 {
        lemma_first_seen(seen.drop_last(), key);
        if let Some(r) = first_seen(seen.drop_last(), key) {
            let i = choose|i: int| 0 <= i < seen.drop_last().len() && seen.drop_last()[i] == r;
            assert(seen[i] == r);
        } else {
            assert(seen.last() == seen[seen.len() - 1]);
        }
    }
}

fn location_of<'a>(on: Platform, token: &'a [char]) -> (r: Option<&'a [char]>)
    ensures
        match r {
            Some(d) => location(on, token@) == Some(d@),
            None => location(on, token@) is None,
        },
{
    match cleaned(token) {
        None => None,
        Some(path) => {
            if !is_absolute(on, path) {
                return None;
            }
            match find_text(path, chars("://").as_slice()) {
                Some(_) => None,
                None => parent_of(on, path),
            }
        },
    }
}

proof fn lemma_alike(on: Platform, dirs: Seq<Seq<char>>, id: Seq<char>)
    ensures
        alike(on, dirs, id) matches Some(dir) ==> identity(on, dir) == id,
    decreases dirs.len(),
{
    if dirs.len() > 0 {
        lemma_alike(on, dirs.drop_last(), id);
    }
}

/// Does `index` lead from each identity to the first directory that has it?
spec fn indexed(
    on: Platform,
    dirs: Seq<Seq<char>>,
    index: Map<Seq<char>, usize>,
    id: Seq<char>,
) -> bool {
    match alike(on, dirs, id) {
        Some(dir) => index.contains_key(id) && index[id] < dirs.len() && dirs[index[id] as int]
            == dir,
        None => !index.contains_key(id),
    }
}

fn locations_of<'a>(on: Platform, body: &'a [char]) -> (v: Vec<&'a [char]>)
    ensures
        views(v@) == body_locations(on, body@),
{
    let tokens = words_of(body, Class::White);
    let mut v: Vec<&'a [char]> = Vec::new();
    let mut index: StringHashMap<usize> = StringHashMap::new();
    let mut i: usize = 0;
    assert(views(v@) == Seq::<Seq<char>>::empty());
    while i < tokens.len()
        invariant
            i <= tokens@.len(),
            views(v@) == all_locations(on, views(tokens@).take(i as int)),
            forall|id: Seq<char>| #[trigger] indexed(on, views(v@), index@, id),
        decreases tokens@.len() - i,
    {
        let ghost before = v@;
        let ghost old_index = index@;
        let ghost taken = views(tokens@).take(i + 1);
        assert(taken.drop_last() == views(tokens@).take(i as int));
        assert(taken.last() == tokens@[i as int]@);
        if let Some(d) = location_of(on, tokens[i]) {
            let id = string(identity_of(on, d).as_slice());
            let ghost id_view = id@;
            assert(indexed(on, views(before), old_index, id_view));
            proof {
                lemma_alike(on, views(before), id_view);
            }
            let known: Option<usize> = match index.get(id.as_str()) {
                Some(at) => Some(*at),
                None => None,
            };
            let dir: &'a [char] = match known {
                Some(at) => v[at],
                None => {
                    index.insert(id, v.len());
                    d
                },
            };
            v.push(dir);
            assert(views(v@) == views(before).push(dir@));
            assert(views(v@).drop_last() == views(before));
            assert forall|other: Seq<char>| #[trigger] indexed(on, views(v@), index@, other) by {
                assert(indexed(on, views(before), old_index, other));
            }
        }
        i += 1;
    }
    assert(views(tokens@).take(tokens@.len() as int) == views(tokens@));
    v
}

/// The repositories seen so far, each once, with how often each was seen.
struct Tally {
    repos: Vec<RepoRef>,
    counts: Vec<usize>,
}

impl Tally {
    /// Does the tally count these sightings?
    spec fn counts_votes(self, seen: Seq<RepoView>) -> bool {
        &&& self.repos@.len() == self.counts@.len()
        &&& forall|i: int, j: int|
            0 <= i < j < self.repos@.len() ==> (#[trigger] self.repos@[i])@.key != (
            #[trigger] self.repos@[j])@.key
        &&& forall|j: int|
            0 <= j < self.repos@.len() ==> {
                &&& first_seen(seen, (#[trigger] self.repos@[j])@.key) == Some(self.repos@[j]@)
                &&& self.counts@[j] == votes(seen, self.repos@[j]@.key)
            }
        &&& forall|i: int|
            0 <= i < seen.len() ==> exists|j: int|
                0 <= j < self.repos@.len() && (#[trigger] self.repos@[j])@.key == (
                #[trigger] seen[i]).key
    }

    /// The index of `key`, or the number of repositories where it is new.
    fn position(&self, key: &String) -> (r: usize)
        ensures
            r <= self.repos@.len(),
            r < self.repos@.len() ==> self.repos@[r as int]@.key == key@,
            r == self.repos@.len() ==> forall|j: int|
                0 <= j < self.repos@.len() ==> (#[trigger] self.repos@[j])@.key != key@,
    {
        let mut j: usize = 0;
        while j < self.repos.len()
            invariant
                j <= self.repos@.len(),
                forall|i: int| 0 <= i < j ==> (#[trigger] self.repos@[i])@.key != key@,
            decreases self.repos@.len() - j,
        {
            if self.repos[j].key == *key {
                return j;
            }
            j += 1;
        }
        j
    }

    /// One more sighting of `repo`.
    fn record(&mut self, repo: RepoRef, Ghost(seen): Ghost<Seq<RepoView>>)
        requires
            old(self).counts_votes(seen),
            seen.len() < usize::MAX,
        ensures
            final(self).counts_votes(seen.push(repo@)),
    {
        let ghost view = repo@;
        let ghost before = *self;
        let ghost now = seen.push(view);
        proof {
            assert(now.drop_last() =~= seen);
            lemma_first_seen(seen, view.key);
        }
        let at: usize = self.position(&repo.key);
        if at == self.repos.len() {
            proof {
                if votes(seen, view.key) > 0 {
                    let r = first_seen(seen, view.key)->0;
                    let i = choose|i: int| 0 <= i < seen.len() && seen[i] == r;
                    assert(seen[i].key == view.key);
                }
            }
            self.repos.push(repo);
            self.counts.push(1);
        } else {
            proof {
                assert(self.repos@[at as int]@.key == view.key);
                lemma_votes_bound(seen, view.key);
            }
            let n: usize = self.counts[at];
            self.counts[at] = n + 1;
        }
        proof {
            assert(self.repos@[at as int]@.key == view.key);
            assert forall|j: int| 0 <= j < self.repos@.len() implies {
                &&& first_seen(now, (#[trigger] self.repos@[j])@.key) == Some(self.repos@[j]@)
                &&& self.counts@[j] == votes(now, self.repos@[j]@.key)
            } by {
                if j < before.repos@.len() {
                    assert(self.repos@[j] == before.repos@[j]);
                }
            }
            assert forall|i: int| 0 <= i < now.len() implies exists|j: int|
                0 <= j < self.repos@.len() && (#[trigger] self.repos@[j])@.key == (
                #[trigger] now[i]).key by {
                if i < seen.len() {
                    assert(now[i] == seen[i]);
                    let j = choose|j: int|
                        0 <= j < before.repos@.len() && (#[trigger] before.repos@[j])@.key
                            == seen[i].key;
                    assert(self.repos@[j] == before.repos@[j]);
                }
            }
        }
    }
}

pub proof fn lemma_votes_bound(seen: Seq<RepoView>, key: Seq<char>)
    ensures
        votes(seen, key) <= seen.len(),
    decreases seen.len(),
{
    if seen.len() > 0 {
        lemma_votes_bound(seen.drop_last(), key);
    }
}

/// Reconstructs a repository from absolute paths mentioned in a transcript, for
/// conversations whose source recorded no working directory.
///
/// Transcripts are full of absolute paths, and each one is a candidate location
/// to walk up from. The repository named most often wins, which keeps a passing
/// mention of some other checkout from outvoting the one the conversation was
/// about. Only repositories that still exist on disk are ever found.
pub fn infer(body: &str, disk: &Disk) -> (r: Lookup<Option<RepoRef>>)
    ensures
        match r {
            Lookup::Known(found) => sightings(
                body_locations(disk@.platform, body@),
                disk@,
            ) matches Answer::Known(seen) && match found {
                Some(repo) => elected(seen, repo@),
                None => seen.len() == 0,
            },
            Lookup::Ask(p) => sightings(body_locations(disk@.platform, body@), disk@) == Answer::<
                Seq<RepoView>,
            >::Ask(p@),
        },
{
    let text = chars(body);
    let dirs = locations_of(disk.platform(), text.as_slice());
    let mut tally = Tally { repos: Vec::new(), counts: Vec::new() };
    let mut resolved: StringHashMap<Option<RepoRef>> = StringHashMap::new();
    let ghost mut seen: Seq<RepoView> = seq![];
    let mut i: usize = 0;
    while i < dirs.len()
        invariant
            i <= dirs@.len(),
            views(dirs@) == body_locations(disk@.platform, body@),
            sightings(views(dirs@).take(i as int), disk@) == Answer::Known(seen),
            seen.len() <= i,
            tally.counts_votes(seen),
            forall|d: Seq<char>| #[trigger]
                resolved@.contains_key(d) ==> locate(d, disk@) == Answer::Known(
                    repo_view(resolved@[d]),
                ),
        decreases dirs@.len() - i,
    {
        let ghost taken = views(dirs@).take(i + 1);
        assert(taken.drop_last() == views(dirs@).take(i as int));
        assert(taken.last() == dirs@[i as int]@);
        let dir = string(dirs[i]);
        let known: Option<Option<RepoRef>> = match resolved.get(dir.as_str()) {
            Some(found) => Some(copied(found)),
            None => None,
        };
        let found: Option<RepoRef> = match known {
            Some(found) => found,
            None => match located(dirs[i], disk) {
                Lookup::Ask(p) => {
                    proof {
                        lemma_sightings_ask(views(dirs@), disk@, i as int);
                    }
                    return Lookup::Ask(p);
                },
                Lookup::Known(found) => {
                    resolved.insert(dir, copied(&found));
                    found
                },
            },
        };
        if let Some(repo) = found {
            let ghost view = repo@;
            tally.record(repo, Ghost(seen));
            proof {
                seen = seen.push(view);
            }
        }
        i += 1;
    }
    assert(views(dirs@).take(dirs@.len() as int) == views(dirs@));
    if tally.repos.len() == 0 {
        proof {
            if seen.len() > 0 {
                assert(seen[0] == seen[0]);
            }
        }
        return Lookup::Known(None);
    }
    let mut best: usize = 0;
    let mut j: usize = 1;
    while j < tally.repos.len()
        invariant
            best < j <= tally.repos@.len(),
            tally.counts_votes(seen),
            forall|k: int|
                0 <= k < j && k != best ==> beats(
                    seen,
                    tally.repos@[best as int]@.key,
                    (#[trigger] tally.repos@[k])@.key,
                ),
        decreases tally.repos@.len() - j,
    {
        let ghost a = tally.repos@[best as int]@.key;
        let ghost b = tally.repos@[j as int]@.key;
        let less = is_lex_less(
            chars(tally.repos[j].key.as_str()).as_slice(),
            chars(tally.repos[best].key.as_str()).as_slice(),
        );
        proof {
            lemma_lex_less_total(a, b);
        }
        if tally.counts[j] > tally.counts[best] || (tally.counts[j] == tally.counts[best] && less) {
            proof {
                assert(beats(seen, b, a));
                assert forall|k: int| 0 <= k < j + 1 && k != j implies beats(
                    seen,
                    b,
                    (#[trigger] tally.repos@[k])@.key,
                ) by {
                    if k != best {
                        let c = tally.repos@[k]@.key;
                        assert(beats(seen, a, c));
                        if lex_less(b, a) && lex_less(a, c) {
                            lemma_lex_less_transitive(b, a, c);
                        }
                    }
                }
            }
            best = j;
        }
        j += 1;
    }
    proof {
        let winner = tally.repos@[best as int]@;
        assert forall|i: int| 0 <= i < seen.len() && (#[trigger] seen[i]).key
            != winner.key implies beats(seen, winner.key, seen[i].key) by {
            let k = choose|k: int|
                0 <= k < tally.repos@.len() && (#[trigger] tally.repos@[k])@.key == seen[i].key;
            assert(k != best);
        }
    }
    let mut repos = tally.repos;
    Lookup::Known(Some(repos.swap_remove(best)))
}

fn copied(r: &Option<RepoRef>) -> (c: Option<RepoRef>)
    ensures
        repo_view(c) == repo_view(*r),
{
    match r {
        None => None,
        Some(repo) => Some(
            RepoRef {
                key: repo.key.clone(),
                root: repo.root.clone(),
                remote: match &repo.remote {
                    Some(url) => Some(url.clone()),
                    None => None,
                },
                name: repo.name.clone(),
            },
        ),
    }
}

/// The first directory whose repository is not known decides the question.
proof fn lemma_sightings_ask(dirs: Seq<Seq<char>>, disk: DiskView, i: int)
    requires
        0 <= i < dirs.len(),
        sightings(dirs.take(i + 1), disk) is Ask,
    ensures
        sightings(dirs, disk) == sightings(dirs.take(i + 1), disk),
    decreases dirs.len(),
{
    if i + 1 < dirs.len() {
        assert(dirs.drop_last().take(i + 1) == dirs.take(i + 1));
        lemma_sightings_ask(dirs.drop_last(), disk, i);
    } else {
        assert(dirs.take(i + 1) == dirs);
    }
}

// ---- Laws -----------------------------------------------------------------

/// Only repositories that are there are inferred: the winner is what walking up
/// from one of the directories in the transcript finds.
pub proof fn law_winner_was_found_on_disk(
    body: Seq<char>,
    disk: DiskView,
    seen: Seq<RepoView>,
    winner: RepoView,
)
    requires
        sightings(body_locations(disk.platform, body), disk) == Answer::Known(seen),
        elected(seen, winner),
    ensures
        exists|i: int|
            0 <= i < body_locations(disk.platform, body).len() && locate(
                #[trigger] body_locations(disk.platform, body)[i],
                disk,
            ) == Answer::Known(Some(winner)),
{
    lemma_first_seen(seen, winner.key);
    let j = choose|j: int| 0 <= j < seen.len() && #[trigger] seen[j] == winner;
    lemma_seen_is_located(body_locations(disk.platform, body), disk, j);
}

proof fn lemma_seen_is_located(dirs: Seq<Seq<char>>, disk: DiskView, j: int)
    requires
        sightings(dirs, disk) matches Answer::Known(seen) && 0 <= j < seen.len(),
    ensures
        exists|i: int|
            0 <= i < dirs.len() && locate(#[trigger] dirs[i], disk) == Answer::Known(
                Some(sightings(dirs, disk)->Known_0[j]),
            ),
    decreases dirs.len(),
{
    let seen = sightings(dirs, disk)->Known_0;
    if dirs.len() > 0 {
        let head = dirs.drop_last();
        let before = sightings(head, disk)->Known_0;
        if j < before.len() {
            lemma_seen_is_located(head, disk, j);
            let i = choose|i: int|
                0 <= i < head.len() && locate(#[trigger] head[i], disk) == Answer::Known(
                    Some(before[j]),
                );
            assert(dirs[i] == head[i]);
            assert(seen[j] == before[j]);
        } else {
            assert(dirs[dirs.len() - 1] == dirs.last());
        }
    }
}

/// There is one winner: the votes leave no choice.
pub proof fn law_one_winner(seen: Seq<RepoView>, a: RepoView, b: RepoView)
    requires
        elected(seen, a),
        elected(seen, b),
    ensures
        a == b,
{
    lemma_first_seen(seen, a.key);
    lemma_first_seen(seen, b.key);
    if a.key != b.key {
        let i = choose|i: int| 0 <= i < seen.len() && #[trigger] seen[i] == a;
        let j = choose|j: int| 0 <= j < seen.len() && #[trigger] seen[j] == b;
        assert(beats(seen, a.key, seen[j].key));
        assert(beats(seen, b.key, seen[i].key));
        lemma_lex_less_total(a.key, b.key);
    }
}

/// What is known stays known, and a question is only asked if it has no answer
/// yet.
pub proof fn law_sightings_are_stable(dirs: Seq<Seq<char>>, disk: DiskView, more: DiskView)
    requires
        more.extends(disk),
    ensures
        sightings(dirs, disk) is Known ==> sightings(dirs, more) == sightings(dirs, disk),
        sightings(dirs, disk) matches Answer::Ask(q) ==> !disk.answers(q),
    decreases dirs.len(),
{
    if dirs.len() > 0 {
        law_sightings_are_stable(dirs.drop_last(), disk, more);
        law_locate_is_stable(dirs.last(), disk, more);
    }
}

} // verus!
