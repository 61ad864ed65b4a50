//! Fusing keyword and semantic retrieval into one list of hits.
//!
//! Reciprocal rank fusion is used rather than a weighted blend of scores because
//! BM25 scores and cosine similarities are not on comparable scales and their
//! distributions shift with the query. Fusing ranks sidesteps the calibration
//! problem.

use crate::model::{Conversation, ConversationView};
use crate::rank::{in_order, insert_ranked, Ranked};
use crate::score::{lemma_more_total, level, more, share, worth, worth_of, Score};
use crate::search::{opening, opening_line, MatchedVia, Row, SearchQuery, CANDIDATE_DEPTH};
use crate::text::chars;
use vstd::prelude::*;

verus! {

// ---- Ranks ----------------------------------------------------------------

/// Where `id` stands in a list, counted from 1; 0 where it does not.
pub open spec fn rank_of(ids: Seq<i64>, id: i64) -> nat
    decreases ids.len(),
{
    if ids.len() == 0 {
        0
    } else if ids.last() == id {
        ids.len()
    } else {
        rank_of(ids.drop_last(), id)
    }
}

/// Can this be what one arm retrieved?
pub open spec fn ranking(ids: Seq<i64>) -> bool {
    ids.len() <= CANDIDATE_DEPTH && ids.no_duplicates()
}

pub proof fn lemma_rank(ids: Seq<i64>, id: i64)
    ensures
        rank_of(ids, id) <= ids.len(),
        rank_of(ids, id) > 0 ==> ids[rank_of(ids, id) - 1] == id,
        rank_of(ids, id) == 0 <==> !ids.contains(id),
    decreases ids.len(),
{
    if ids.len() > 0 {
        lemma_rank(ids.drop_last(), id);
        if ids.last() == id {
            assert(ids[ids.len() - 1] == id);
        } else {
            if rank_of(ids, id) == 0 && ids.contains(id) {
                let i = choose|i: int| 0 <= i < ids.len() && ids[i] == id;
                assert(ids.drop_last()[i] == id);
            }
        }
    }
}

fn rank(ids: &[i64], id: i64) -> (r: usize)
    ensures
        r == rank_of(ids@, id),
{
    let mut n: usize = ids.len();
    assert(ids@.take(n as int) == ids@);
    while n > 0
        invariant
            n <= ids@.len(),
            rank_of(ids@, id) == rank_of(ids@.take(n as int), id),
        decreases n,
    {
        assert(ids@.take(n as int).drop_last() == ids@.take(n - 1));
        if ids[n - 1] == id {
            return n;
        }
        n -= 1;
    }
    0
}

/// Tests whether a list can be what one arm retrieved: no longer than the depth
/// of retrieval, and without an id twice.
pub fn is_ranking(ids: &[i64]) -> (b: bool)
    ensures
        b == ranking(ids@),
{
    if ids.len() > CANDIDATE_DEPTH {
        return false;
    }
    let mut i: usize = 0;
    while i < ids.len()
        invariant
            i <= ids@.len() <= CANDIDATE_DEPTH,
            ids@.take(i as int).no_duplicates(),
        decreases ids@.len() - i,
    {
        let mut j: usize = 0;
        while j < i
            invariant
                j <= i < ids@.len(),
                forall|k: int| 0 <= k < j ==> #[trigger] ids@[k] != ids@[i as int],
            decreases i - j,
        {
            if ids[j] == ids[i] {
                return false;
            }
            j += 1;
        }
        proof {
            let before = ids@.take(i as int);
            let now = ids@.take(i + 1);
            assert forall|a: int, b: int| 0 <= a < now.len() && 0 <= b < now.len() && a
                != b implies now[a] != now[b] by {
                if a < i && b < i {
                    assert(before[a] != before[b]);
                } else {
                    assert(now[a] == ids@[a] && now[b] == ids@[b]);
                }
            }
        }
        i += 1;
    }
    assert(ids@.take(ids@.len() as int) == ids@);
    true
}

/// What either arm retrieved: the keyword hits, then those that only the
/// semantic arm found.
pub open spec fn candidates(keyword: Seq<i64>, semantic: Seq<i64>) -> Seq<i64> {
    keyword + semantic.filter(|id: i64| !keyword.contains(id))
}

/// The candidates for a query, from what each arm retrieved.
pub fn candidate_ids(keyword: &[i64], semantic: &[i64]) -> (ids: Vec<i64>)
    ensures
        ids@ == candidates(keyword@, semantic@),
{
    let mut ids: Vec<i64> = Vec::new();
    ids.extend_from_slice(keyword);
    let ghost fresh = |id: i64| !keyword@.contains(id);
    assert(semantic@.take(0).filter(fresh) == Seq::<i64>::empty()) by {
        reveal(Seq::filter);
    }
    assert(ids@ =~= keyword@ + semantic@.take(0).filter(fresh));
    let mut i: usize = 0;
    while i < semantic.len()
        invariant
            i <= semantic@.len(),
            fresh == (|id: i64| !keyword@.contains(id)),
            ids@ == keyword@ + semantic@.take(i as int).filter(fresh),
        decreases semantic@.len() - i,
    {
        let id: i64 = semantic[i];
        proof {
            reveal(Seq::filter);
            assert(semantic@.take(i + 1).drop_last() == semantic@.take(i as int));
            lemma_rank(keyword@, id);
        }
        if rank(keyword, id) == 0 {
            ids.push(id);
        }
        i += 1;
    }
    assert(semantic@.take(semantic@.len() as int) == semantic@);
    ids
}

pub proof fn lemma_candidates(keyword: Seq<i64>, semantic: Seq<i64>)
    requires
        keyword.no_duplicates(),
        semantic.no_duplicates(),
    ensures
        candidates(keyword, semantic).no_duplicates(),
        candidates(keyword, semantic).len() <= keyword.len() + semantic.len(),
        forall|id: i64| #[trigger]
            candidates(keyword, semantic).contains(id) <==> keyword.contains(id)
                || semantic.contains(id),
{
    let ids = candidates(keyword, semantic);
    let fresh = |id: i64| !keyword.contains(id);
    let rest = semantic.filter(fresh);
    lemma_filter(semantic, fresh);
    assert forall|i: int, j: int| 0 <= i < ids.len() && 0 <= j < ids.len() && i
        != j implies ids[i] != ids[j] by {
        let k = keyword.len();
        if i < k && j >= k {
            assert(rest.contains(rest[j - k]));
        } else if i >= k && j < k {
            assert(rest.contains(rest[i - k]));
        } else if i >= k {
            assert(rest[i - k] != rest[j - k]);
        }
    }
    assert forall|id: i64| #[trigger] ids.contains(id) <==> keyword.contains(id)
        || semantic.contains(id) by {
        if keyword.contains(id) {
            let i = choose|i: int| 0 <= i < keyword.len() && keyword[i] == id;
            assert(ids[i] == id);
        } else if semantic.contains(id) {
            assert(rest.contains(id));
            let i = choose|i: int| 0 <= i < rest.len() && rest[i] == id;
            assert(ids[keyword.len() + i] == id);
        }
        if ids.contains(id) {
            let i = choose|i: int| 0 <= i < ids.len() && ids[i] == id;
            if i < keyword.len() {
                assert(keyword[i] == id);
            } else {
                assert(rest[i - keyword.len()] == id);
                assert(rest.contains(id));
            }
        }
    }
}

pub(crate) proof fn lemma_filter(s: Seq<i64>, f: spec_fn(i64) -> bool)
    requires
        s.no_duplicates(),
    ensures
        s.filter(f).no_duplicates(),
        s.filter(f).len() <= s.len(),
        forall|x: i64| #[trigger] s.filter(f).contains(x) <==> s.contains(x) && f(x),
    decreases s.len(),
{
    reveal(Seq::filter);
    if s.len() > 0 {
        let init = s.drop_last();
        let x = s.last();
        let kept = init.filter(f);
        lemma_filter(init, f);
        assert(s =~= init.push(x));
        assert(!init.contains(x));
        assert forall|y: i64| #[trigger] s.filter(f).contains(y) <==> s.contains(y) && f(y) by {
            if kept.contains(y) {
                let i = choose|i: int| 0 <= i < kept.len() && kept[i] == y;
                assert(init.contains(y));
                let j = choose|j: int| 0 <= j < init.len() && init[j] == y;
                assert(s[j] == y);
                assert(s.filter(f)[i] == y);
            }
            if y == x {
                assert(s[s.len() - 1] == y);
                if f(x) {
                    assert(s.filter(f)[kept.len() as int] == y);
                }
            }
            if s.contains(y) && y != x {
                let j = choose|j: int| 0 <= j < s.len() && s[j] == y;
                assert(init[j] == y);
                assert(init.contains(y));
            }
            if s.filter(f).contains(y) && y != x {
                let i = choose|i: int| 0 <= i < s.filter(f).len() && s.filter(f)[i] == y;
                assert(kept[i] == y);
            }
        }
        assert forall|i: int, j: int| 0 <= i < s.filter(f).len() && 0 <= j < s.filter(f).len()
            && i != j implies s.filter(f)[i] != s.filter(f)[j] by {
            if f(x) {
                if i == kept.len() {
                    assert(kept.contains(kept[j]));
                } else if j == kept.len() {
                    assert(kept.contains(kept[i]));
                }
            }
        }
    }
}

// ---- Hits -----------------------------------------------------------------

#[derive(Debug, Clone)]
pub struct SearchHit {
    pub conversation: Conversation,
    pub score: Score,
    /// Matched text with the query's words wrapped in `[` `]`. Empty when the hit
    /// came from the semantic arm alone.
    pub snippet: String,
    pub matched_via: MatchedVia,
    pub keyword_rank: Option<usize>,
    pub semantic_rank: Option<usize>,
}

#[derive(Debug, Clone)]
pub struct SearchResponse {
    pub hits: Vec<SearchHit>,
    /// Name of the embedding model that ran.
    pub semantic_model: String,
    /// False when only the lexical fallback is available, in which case a
    /// "meaning" label would be overclaiming.
    pub semantic_available: bool,
    pub total_candidates: usize,
}

/// A [`SearchHit`] as a value of the specification.
pub struct HitView {
    pub conversation: ConversationView,
    pub score: (nat, nat),
    pub snippet: Seq<char>,
    pub matched_via: MatchedVia,
    pub keyword_rank: Option<usize>,
    pub semantic_rank: Option<usize>,
}

impl View for SearchHit {
    type V = HitView;

    open spec fn view(&self) -> HitView {
        HitView {
            conversation: self.conversation@,
            score: self.score@,
            snippet: self.snippet@,
            matched_via: self.matched_via,
            keyword_rank: self.keyword_rank,
            semantic_rank: self.semantic_rank,
        }
    }
}

pub open spec fn hit_views(hits: Seq<SearchHit>) -> Seq<HitView> {
    hits.map_values(|h: SearchHit| h@)
}

pub open spec fn conversation_views(list: Seq<Conversation>) -> Seq<ConversationView> {
    list.map_values(|c: Conversation| c@)
}

pub open spec fn row_ids(rows: Seq<Row>) -> Seq<i64> {
    rows.map_values(|r: Row| r.0)
}

pub open spec fn row_snippets(rows: Seq<Row>) -> Seq<Seq<char>> {
    rows.map_values(|r: Row| r.1@)
}

/// The conversation with this id, the last where there are several.
pub open spec fn found(list: Seq<ConversationView>, id: i64) -> Option<ConversationView>
    decreases list.len(),
{
    if list.len() == 0 {
        None
    } else if list.last().id == id {
        Some(list.last())
    } else {
        found(list.drop_last(), id)
    }
}

/// When the conversation with this id was last updated; 0 where there is none.
pub open spec fn updated(list: Seq<ConversationView>, id: i64) -> i64 {
    match found(list, id) {
        Some(c) => c.updated_at,
        None => 0,
    }
}

/// A rank as a hit shows it.
pub open spec fn shown(rank: nat) -> Option<usize> {
    if rank == 0 {
        None
    } else {
        Some(rank as usize)
    }
}

/// Which arms found a hit.
pub open spec fn via(keyword: nat, semantic: nat) -> MatchedVia {
    if semantic == 0 {
        MatchedVia::Keyword
    } else if keyword == 0 {
        MatchedVia::Meaning
    } else {
        MatchedVia::Both
    }
}

/// What a search has to go on: the ids that each arm retrieved, best first, the
/// snippets of the keyword arm, and the conversations.
pub struct Retrieval {
    pub keyword: Seq<i64>,
    pub snippets: Seq<Seq<char>>,
    pub semantic: Seq<i64>,
    pub conversations: Seq<ConversationView>,
}

impl Retrieval {
    pub open spec fn ids(self) -> Seq<i64> {
        candidates(self.keyword, self.semantic)
    }

    /// Does `a` come before `b` by recency? Where both are of one age, the
    /// candidate that was retrieved first does.
    pub open spec fn newer(self, a: i64, b: i64) -> bool {
        let (ta, tb) = (updated(self.conversations, a), updated(self.conversations, b));
        ta > tb || ta == tb && rank_of(self.ids(), a) < rank_of(self.ids(), b)
    }

    /// The rank of a candidate by recency among all candidates.
    pub open spec fn recency(self, id: i64) -> nat {
        1 + self.ids().filter(|a: i64| self.newer(a, id)).len()
    }

    /// What a candidate is worth.
    pub open spec fn score(self, id: i64) -> (nat, nat) {
        worth(rank_of(self.keyword, id), rank_of(self.semantic, id), self.recency(id))
    }

    /// Does candidate `a` come before candidate `b` in the list of hits? A better
    /// score does, then a later update, then the one that was retrieved first.
    pub open spec fn outranks(self, a: i64, b: i64) -> bool {
        ||| more(self.score(a), self.score(b))
        ||| level(self.score(a), self.score(b)) && self.newer(a, b)
    }

    /// The hit for a candidate whose conversation is there.
    pub open spec fn hit(self, id: i64) -> Option<HitView> {
        let (k, s) = (rank_of(self.keyword, id), rank_of(self.semantic, id));
        match found(self.conversations, id) {
            None => None,
            Some(c) => Some(
                HitView {
                    conversation: c,
                    score: self.score(id),
                    snippet: if k == 0 {
                        seq![]
                    } else {
                        self.snippets[k - 1]
                    },
                    matched_via: via(k, s),
                    keyword_rank: shown(k),
                    semantic_rank: shown(s),
                },
            ),
        }
    }

    /// Is this candidate among the hits?
    pub open spec fn listed(self, hits: Seq<HitView>, id: i64) -> bool {
        exists|p: int| 0 <= p < hits.len() && (#[trigger] hits[p]).conversation.id == id
    }

    /// Is this candidate left out because the list is full of better ones?
    pub open spec fn crowded_out(self, hits: Seq<HitView>, id: i64, limit: nat) -> bool {
        &&& hits.len() == limit
        &&& forall|p: int|
            0 <= p < hits.len() ==> self.outranks((#[trigger] hits[p]).conversation.id, id)
    }

    /// Are these the hits? Each is the hit for a candidate, they stand in order,
    /// and a candidate with a conversation is missing only where `limit` better
    /// ones are listed.
    pub open spec fn ranked(self, hits: Seq<HitView>, limit: nat) -> bool {
        &&& hits.len() <= limit
        &&& forall|p: int|
            0 <= p < hits.len() ==> self.ids().contains((#[trigger] hits[p]).conversation.id)
                && self.hit(hits[p].conversation.id) == Some(hits[p])
        &&& forall|p: int, q: int|
            0 <= p < q < hits.len() ==> self.outranks(
                (#[trigger] hits[p]).conversation.id,
                (#[trigger] hits[q]).conversation.id,
            )
        &&& forall|id: i64|
            #![trigger self.listed(hits, id)]
            #![trigger self.hit(id)]
            self.ids().contains(id) && self.hit(id) is Some ==> self.listed(hits, id)
                || self.crowded_out(hits, id, limit)
    }
}

fn found_in(list: &Vec<Conversation>, id: i64) -> (r: Option<usize>)
    ensures
        match r {
            Some(i) => i < list@.len() && found(conversation_views(list@), id) == Some(
                list@[i as int]@,
            ) && list@[i as int].id == id,
            None => found(conversation_views(list@), id) is None,
        },
{
    let ghost all = conversation_views(list@);
    let mut n: usize = list.len();
    assert(all.take(n as int) == all);
    while n > 0
        invariant
            n <= list@.len(),
            all == conversation_views(list@),
            found(all, id) == found(all.take(n as int), id),
        decreases n,
    {
        assert(all.take(n as int).drop_last() == all.take(n - 1));
        assert(all.take(n as int).last() == list@[n - 1]@);
        if list[n - 1].id == id {
            return Some(n - 1);
        }
        n -= 1;
    }
    None
}

fn ids_of(rows: &Vec<Row>) -> (ids: Vec<i64>)
    ensures
        ids@ == row_ids(rows@),
{
    let mut ids: Vec<i64> = Vec::new();
    let mut i: usize = 0;
    while i < rows.len()
        invariant
            i <= rows@.len(),
            ids@ == row_ids(rows@).take(i as int),
        decreases rows@.len() - i,
    {
        ids.push(rows[i].0);
        assert(ids@ =~= row_ids(rows@).take(i + 1));
        i += 1;
    }
    assert(ids@ =~= row_ids(rows@));
    ids
}

/// When each of these conversations was last updated.
fn update_times(ids: &Vec<i64>, list: &Vec<Conversation>) -> (times: Vec<i64>)
    ensures
        times@.len() == ids@.len(),
        forall|i: int|
            0 <= i < ids@.len() ==> #[trigger] times@[i] == updated(
                conversation_views(list@),
                ids@[i],
            ),
{
    let mut times: Vec<i64> = Vec::new();
    let mut i: usize = 0;
    while i < ids.len()
        invariant
            i == times@.len() <= ids@.len(),
            forall|j: int|
                0 <= j < i ==> #[trigger] times@[j] == updated(
                    conversation_views(list@),
                    ids@[j],
                ),
        decreases ids@.len() - i,
    {
        times.push(
            match found_in(list, ids[i]) {
                Some(at) => list[at].updated_at,
                None => 0,
            },
        );
        i += 1;
    }
    times
}

/// The rank by recency of the candidate at position `at`.
fn recency_of(ids: &Vec<i64>, times: &Vec<i64>, at: usize, Ghost(pool): Ghost<Retrieval>) -> (r:
    usize)
    requires
        at < ids@.len() < usize::MAX,
        ids@ == pool.ids(),
        ids@.no_duplicates(),
        times@.len() == ids@.len(),
        forall|i: int|
            0 <= i < ids@.len() ==> #[trigger] times@[i] == updated(pool.conversations, ids@[i]),
    ensures
        r == pool.recency(ids@[at as int]),
        1 <= r <= ids@.len(),
{
    let ghost ahead = |a: i64| pool.newer(a, ids@[at as int]);
    let mut count: usize = 0;
    let mut i: usize = 0;
    assert(ids@.take(0).filter(ahead).len() == 0) by {
        reveal(Seq::filter);
    }
    while i < ids.len()
        invariant
            at < ids@.len() < usize::MAX,
            i <= ids@.len(),
            ids@ == pool.ids(),
            ids@.no_duplicates(),
            times@.len() == ids@.len(),
            forall|i: int|
                0 <= i < ids@.len() ==> #[trigger] times@[i] == updated(
                    pool.conversations,
                    ids@[i],
                ),
            ahead == (|a: i64| pool.newer(a, ids@[at as int])),
            count == ids@.take(i as int).filter(ahead).len(),
            count <= i,
            i > at ==> count < i,
        decreases ids@.len() - i,
    {
        proof {
            reveal(Seq::filter);
            assert(ids@.take(i + 1).drop_last() == ids@.take(i as int));
            lemma_rank_at(ids@, i as int);
            lemma_rank_at(ids@, at as int);
        }
        if times[i] > times[at] || times[i] == times[at] && i < at {
            count += 1;
        }
        i += 1;
    }
    assert(ids@.take(ids@.len() as int) == ids@);
    count + 1
}

/// In a list without duplicates an element's rank is its position.
pub(crate) proof fn lemma_rank_at(ids: Seq<i64>, i: int)
    requires
        ids.no_duplicates(),
        0 <= i < ids.len(),
    ensures
        rank_of(ids, ids[i]) == i + 1,
{
    lemma_rank(ids, ids[i]);
    assert(ids.contains(ids[i]));
    let r = rank_of(ids, ids[i]) as int;
    if r - 1 != i {
        assert(ids[r - 1] != ids[i]);
    }
}

/// A hit on its way into the list, with its candidate's position.
struct Entry {
    hit: SearchHit,
    place: usize,
}

impl Ranked for Entry {
    closed spec fn ahead(&self, other: &Self) -> bool {
        &&& self.hit.score.den > 0
        &&& other.hit.score.den > 0
        &&& {
            ||| more(self.hit.score@, other.hit.score@)
            ||| level(self.hit.score@, other.hit.score@) && {
                ||| self.hit.conversation.updated_at > other.hit.conversation.updated_at
                ||| self.hit.conversation.updated_at == other.hit.conversation.updated_at
                    && self.place < other.place
            }
        }
    }

    proof fn ahead_transitive(a: &Self, b: &Self, c: &Self) {
        lemma_more_total(a.hit.score@, b.hit.score@, c.hit.score@);
    }

    fn is_ahead(&self, other: &Self) -> (b: bool) {
        if self.hit.score.den == 0 || other.hit.score.den == 0 {
            return false;
        }
        self.hit.score.is_more(&other.hit.score) || self.hit.score.is_level(&other.hit.score) && (
        self.hit.conversation.updated_at > other.hit.conversation.updated_at
            || self.hit.conversation.updated_at == other.hit.conversation.updated_at && self.place
            < other.place)
    }
}

/// Is this the entry for the candidate at its place?
spec fn entered(e: Entry, pool: Retrieval) -> bool {
    &&& e.place < pool.ids().len()
    &&& e.hit.score.den > 0
    &&& e.hit.conversation.id == pool.ids()[e.place as int]
    &&& pool.hit(e.hit.conversation.id) == Some(e.hit@)
}

/// Do these entries stand for the first `n` candidates?
spec fn covers(entries: Seq<Entry>, pool: Retrieval, n: int) -> bool {
    &&& forall|p: int|
        0 <= p < entries.len() ==> entered(#[trigger] entries[p], pool) && entries[p].place < n
    &&& forall|i: int|
        0 <= i < n && pool.hit(#[trigger] pool.ids()[i]) is Some ==> exists|p: int|
            0 <= p < entries.len() && (#[trigger] entries[p]).place == i
}

/// Entries are ordered as the candidates they stand for.
proof fn lemma_entry_order(a: Entry, b: Entry, pool: Retrieval)
    requires
        entered(a, pool),
        entered(b, pool),
        pool.ids().no_duplicates(),
    ensures
        a.ahead(&b) <==> pool.outranks(a.hit.conversation.id, b.hit.conversation.id),
        a.place != b.place ==> a.ahead(&b) || b.ahead(&a),
{
    lemma_rank_at(pool.ids(), a.place as int);
    lemma_rank_at(pool.ids(), b.place as int);
    lemma_more_total(a.hit.score@, b.hit.score@, a.hit.score@);
    assert(a.hit@.score == pool.score(a.hit.conversation.id));
    assert(b.hit@.score == pool.score(b.hit.conversation.id));
    assert(a.hit@.conversation.updated_at == updated(pool.conversations, a.hit.conversation.id));
    assert(b.hit@.conversation.updated_at == updated(pool.conversations, b.hit.conversation.id));
}

fn shown_rank(rank: usize) -> (r: Option<usize>)
    ensures
        r == shown(rank as nat),
{
    if rank == 0 {
        None
    } else {
        Some(rank)
    }
}

/// The list of hits for what the two arms retrieved.
fn fused(
    keyword: &Vec<Row>,
    semantic: &[i64],
    ids: &Vec<i64>,
    conversations: &Vec<Conversation>,
    limit: usize,
    Ghost(pool): Ghost<Retrieval>,
) -> (hits: Vec<SearchHit>)
    requires
        pool.keyword == row_ids(keyword@),
        pool.snippets == row_snippets(keyword@),
        pool.semantic == semantic@,
        pool.conversations == conversation_views(conversations@),
        ids@ == pool.ids(),
        ranking(pool.keyword),
        ranking(pool.semantic),
    ensures
        pool.ranked(hit_views(hits@), limit as nat),
{
    let keyword_ids = ids_of(keyword);
    proof {
        lemma_candidates(pool.keyword, pool.semantic);
    }
    let times = update_times(ids, conversations);
    let mut entries: Vec<Entry> = Vec::new();
    let mut i: usize = 0;
    while i < ids.len()
        invariant
            i <= ids@.len() <= 2 * CANDIDATE_DEPTH,
            pool.keyword == row_ids(keyword@),
            pool.snippets == row_snippets(keyword@),
            pool.semantic == semantic@,
            pool.conversations == conversation_views(conversations@),
            ids@ == pool.ids(),
            ids@.no_duplicates(),
            forall|id: i64| #[trigger]
                pool.ids().contains(id) <==> pool.keyword.contains(id) || pool.semantic.contains(
                    id,
                ),
            ranking(pool.keyword),
            ranking(pool.semantic),
            keyword_ids@ == pool.keyword,
            times@.len() == ids@.len(),
            forall|i: int|
                0 <= i < ids@.len() ==> #[trigger] times@[i] == updated(
                    pool.conversations,
                    ids@[i],
                ),
            covers(entries@, pool, i as int),
            in_order(entries@),
        decreases ids@.len() - i,
    {
        let id: i64 = ids[i];
        let ghost before = entries@;
        proof {
            lemma_rank(pool.keyword, id);
            lemma_rank(pool.semantic, id);
            assert(pool.ids().contains(id));
        }
        if let Some(at) = found_in(conversations, id) {
            let k: usize = rank(keyword_ids.as_slice(), id);
            let s: usize = rank(semantic, id);
            let r: usize = recency_of(ids, &times, i, Ghost(pool));
            let snippet: String = if k == 0 {
                String::new()
            } else {
                keyword[k - 1].1.clone()
            };
            let matched_via = if s == 0 {
                MatchedVia::Keyword
            } else if k == 0 {
                MatchedVia::Meaning
            } else {
                MatchedVia::Both
            };
            let hit = SearchHit {
                conversation: conversations[at].copied(),
                score: worth_of(k, s, r),
                snippet,
                matched_via,
                keyword_rank: shown_rank(k),
                semantic_rank: shown_rank(s),
            };
            let entry = Entry { hit, place: i };
            assert(entered(entry, pool));
            proof {
                assert forall|p: int| 0 <= p < before.len() implies (#[trigger] before[p]).ahead(
                    &entry,
                ) || entry.ahead(&before[p]) by {
                    lemma_entry_order(before[p], entry, pool);
                }
            }
            let at: usize = insert_ranked(&mut entries, entry);
            proof {
                lemma_covers(before, entry, at as int, pool);
            }
        } else {
            assert(pool.hit(id) is None);
            assert forall|j: int|
                0 <= j < i + 1 && pool.hit(#[trigger] pool.ids()[j]) is Some implies exists|p: int|
                0 <= p < entries@.len() && (#[trigger] entries@[p]).place == j by {
                assert(j < i);
            }
        }
        i += 1;
    }
    let ghost all = entries@;
    if limit < entries.len() {
        entries.truncate(limit);
    }
    let ghost top = entries@;
    let mut hits: Vec<SearchHit> = Vec::new();
    for e in it: entries
        invariant
            it.seq() == top,
            hits@.len() == it.index(),
            forall|p: int| 0 <= p < hits@.len() ==> #[trigger] hits@[p] == top[p].hit,
    {
        hits.push(e.hit);
    }
    proof {
        lemma_ranked(all, hit_views(hits@), pool, limit as nat);
    }
    hits
}

proof fn lemma_covers(before: Seq<Entry>, entry: Entry, at: int, pool: Retrieval)
    requires
        covers(before, pool, entry.place as int),
        entered(entry, pool),
        0 <= at <= before.len(),
    ensures
        covers(before.insert(at, entry), pool, entry.place + 1),
{
    let after = before.insert(at, entry);
    assert forall|p: int| 0 <= p < after.len() implies entered(#[trigger] after[p], pool)
        && after[p].place < entry.place + 1 by {
        if p < at {
            assert(after[p] == before[p]);
        } else if p > at {
            assert(after[p] == before[p - 1]);
        }
    }
    assert forall|i: int|
        0 <= i < entry.place + 1 && pool.hit(#[trigger] pool.ids()[i]) is Some implies exists|p:
        int| 0 <= p < after.len() && (#[trigger] after[p]).place == i by {
        if i == entry.place {
            assert(after[at].place == i);
        } else {
            let p = choose|p: int| 0 <= p < before.len() && (#[trigger] before[p]).place == i;
            if p < at {
                assert(after[p].place == i);
            } else {
                assert(after[p + 1].place == i);
            }
        }
    }
}

/// The head of the ordered entries is the list of hits.
proof fn lemma_ranked(all: Seq<Entry>, hits: Seq<HitView>, pool: Retrieval, limit: nat)
    requires
        covers(all, pool, pool.ids().len() as int),
        in_order(all),
        pool.ids().no_duplicates(),
        hits.len() <= all.len(),
        hits.len() <= limit,
        hits.len() == all.len() || hits.len() == limit,
        forall|p: int| 0 <= p < hits.len() ==> #[trigger] hits[p] == all[p].hit@,
    ensures
        pool.ranked(hits, limit),
{
    assert forall|p: int| 0 <= p < hits.len() implies pool.ids().contains(
        (#[trigger] hits[p]).conversation.id,
    ) && pool.hit(hits[p].conversation.id) == Some(hits[p]) by {
        assert(entered(all[p], pool));
        assert(pool.ids()[all[p].place as int] == hits[p].conversation.id);
    }
    assert forall|p: int, q: int| 0 <= p < q < all.len() implies pool.outranks(
        (#[trigger] all[p]).hit.conversation.id,
        (#[trigger] all[q]).hit.conversation.id,
    ) by {
        assert(all[p].ahead(&all[q]));
        lemma_entry_order(all[p], all[q], pool);
    }
    assert forall|p: int, q: int| 0 <= p < q < hits.len() implies pool.outranks(
        (#[trigger] hits[p]).conversation.id,
        (#[trigger] hits[q]).conversation.id,
    ) by {
        assert(hits[p] == all[p].hit@ && hits[q] == all[q].hit@);
    }
    assert forall|id: i64| pool.ids().contains(id) && pool.hit(id) is Some implies pool.listed(
        hits,
        id,
    ) || pool.crowded_out(hits, id, limit) by {
        let i = choose|i: int| 0 <= i < pool.ids().len() && pool.ids()[i] == id;
        assert(pool.hit(pool.ids()[i]) is Some);
        let p = choose|p: int| 0 <= p < all.len() && (#[trigger] all[p]).place == i;
        assert(entered(all[p], pool));
        if p < hits.len() {
            assert(hits[p].conversation.id == id);
        } else {
            assert forall|q: int| 0 <= q < hits.len() implies pool.outranks(
                (#[trigger] hits[q]).conversation.id,
                id,
            ) by {
                assert(hits[q] == all[q].hit@);
                assert(pool.outranks(all[q].hit.conversation.id, all[p].hit.conversation.id));
            }
        }
    }
}

/// What a search for this query has to go on.
pub open spec fn retrieved(
    query: SearchQuery,
    keyword: Seq<Row>,
    semantic: Seq<i64>,
    conversations: Seq<Conversation>,
) -> Retrieval {
    Retrieval {
        keyword: row_ids(keyword),
        snippets: row_snippets(keyword),
        semantic: if query.meaning {
            semantic
        } else {
            seq![]
        },
        conversations: conversation_views(conversations),
    }
}

/// Fuses what the two arms retrieved for a query into its hits, best first.
///
/// `keyword` and `semantic` are in the order of retrieval; `semantic` counts only
/// where the query asks for meaning. `conversations` are those of the candidates
/// that could be loaded. A hit without a snippet is completed by
/// [`show_opening`].
pub fn search(
    query: &SearchQuery,
    keyword: &Vec<Row>,
    semantic: &Vec<i64>,
    conversations: &Vec<Conversation>,
    model: String,
    semantic_available: bool,
) -> (r: SearchResponse)
    requires
        ranking(row_ids(keyword@)),
        ranking(semantic@),
    ensures
        r.semantic_model@ == model@,
        r.semantic_available == semantic_available,
        if query.blank() {
            r.hits@.len() == 0 && r.total_candidates == 0
        } else {
            let pool = retrieved(*query, keyword@, semantic@, conversations@);
            pool.ranked(hit_views(r.hits@), query.limit as nat) && r.total_candidates
                == pool.ids().len()
        },
{
    if query.is_blank() {
        return SearchResponse {
            hits: Vec::new(),
            semantic_model: model,
            semantic_available,
            total_candidates: 0,
        };
    }
    let ghost pool = retrieved(*query, keyword@, semantic@, conversations@);
    let none: Vec<i64> = Vec::new();
    let meant: &[i64] = if query.meaning {
        semantic.as_slice()
    } else {
        none.as_slice()
    };
    assert(meant@ =~= pool.semantic);
    let keyword_ids = ids_of(keyword);
    let ids = candidate_ids(keyword_ids.as_slice(), meant);
    let hits = fused(keyword, meant, &ids, conversations, query.limit, Ghost(pool));
    SearchResponse {
        hits,
        semantic_model: model,
        semantic_available,
        total_candidates: ids.len(),
    }
}

/// A semantic-only hit has no keyword snippet; show the conversation's opening
/// instead, so that the row is not blank. `text` is the conversation's first
/// message.
pub fn show_opening(hit: SearchHit, text: Option<&str>) -> (r: SearchHit)
    ensures
        r@ == (HitView {
            snippet: if hit.snippet@.len() == 0 {
                opening(
                    match text {
                        Some(t) => Some(t@),
                        None => None,
                    },
                )
            } else {
                hit.snippet@
            },
            ..hit@
        }),
{
    if chars(hit.snippet.as_str()).len() == 0 {
        SearchHit { snippet: opening_line(text), ..hit }
    } else {
        hit
    }
}

// ---- Laws -----------------------------------------------------------------

/// A hit that only the semantic arm found is labelled as such, and so is one that
/// only the keyword arm found.
pub proof fn law_hits_are_labelled_by_arm(pool: Retrieval, id: i64)
    requires
        pool.ids().contains(id),
        ranking(pool.keyword),
        ranking(pool.semantic),
    ensures
        pool.hit(id) matches Some(h) ==> {
            &&& h.matched_via == MatchedVia::Meaning <==> !pool.keyword.contains(id)
            &&& h.matched_via == MatchedVia::Keyword <==> !pool.semantic.contains(id)
            &&& h.keyword_rank is Some <==> pool.keyword.contains(id)
            &&& h.semantic_rank is Some <==> pool.semantic.contains(id)
        },
{
    lemma_rank(pool.keyword, id);
    lemma_rank(pool.semantic, id);
    lemma_candidates(pool.keyword, pool.semantic);
}

proof fn lemma_outranks(pool: Retrieval, a: i64, b: i64)
    requires
        ranking(pool.keyword),
        ranking(pool.semantic),
        pool.ids().contains(a),
        pool.ids().contains(b),
    ensures
        !(pool.outranks(a, b) && pool.outranks(b, a)),
        a != b ==> pool.outranks(a, b) || pool.outranks(b, a),
{
    lemma_candidates(pool.keyword, pool.semantic);
    lemma_rank(pool.ids(), a);
    lemma_rank(pool.ids(), b);
    lemma_share(pool, a);
    lemma_share(pool, b);
    lemma_more_total(pool.score(a), pool.score(b), pool.score(a));
}

proof fn lemma_share(pool: Retrieval, id: i64)
    ensures
        pool.score(id).1 > 0,
{
    let (k, s, r) = (
        share(rank_of(pool.keyword, id)) as int,
        share(rank_of(pool.semantic, id)) as int,
        share(pool.recency(id)) as int,
    );
    assert(20 * (k * s * r) > 0) by (nonlinear_arith)
        requires
            k > 0,
            s > 0,
            r > 0,
    ;
}

/// No conversation is listed twice.
pub proof fn law_hits_are_distinct(pool: Retrieval, hits: Seq<HitView>, limit: nat, p: int, q: int)
    requires
        ranking(pool.keyword),
        ranking(pool.semantic),
        pool.ranked(hits, limit),
        0 <= p < q < hits.len(),
    ensures
        hits[p].conversation.id != hits[q].conversation.id,
{
    lemma_outranks(pool, hits[p].conversation.id, hits[q].conversation.id);
}

/// What the arms retrieved and the limit leave room for one list of hits only.
pub proof fn law_one_list_of_hits(
    pool: Retrieval,
    one: Seq<HitView>,
    other: Seq<HitView>,
    limit: nat,
)
    requires
        ranking(pool.keyword),
        ranking(pool.semantic),
        pool.ranked(one, limit),
        pool.ranked(other, limit),
    ensures
        one == other,
{
    if one.len() <= other.len() {
        lemma_same_head(pool, one, other, limit, one.len() as int);
        lemma_same_len(pool, one, other, limit);
    } else {
        lemma_same_head(pool, other, one, limit, other.len() as int);
        lemma_same_len(pool, other, one, limit);
    }
    assert(one =~= other);
}

/// Where two lists agree as far as the shorter one goes, none is shorter.
proof fn lemma_same_len(pool: Retrieval, one: Seq<HitView>, other: Seq<HitView>, limit: nat)
    requires
        ranking(pool.keyword),
        ranking(pool.semantic),
        pool.ranked(one, limit),
        pool.ranked(other, limit),
        one.len() <= other.len(),
        forall|p: int| 0 <= p < one.len() ==> #[trigger] one[p] == other[p],
    ensures
        one.len() == other.len(),
{
    let n = one.len() as int;
    if n < other.len() {
        let id = other[n].conversation.id;
        assert(pool.hit(id) is Some);
        if pool.listed(one, id) {
            let p = choose|p: int| 0 <= p < one.len() && (#[trigger] one[p]).conversation.id == id;
            assert(one[p] == other[p]);
            law_hits_are_distinct(pool, other, limit, p, n);
        }
    }
}

proof fn lemma_same_head(
    pool: Retrieval,
    one: Seq<HitView>,
    other: Seq<HitView>,
    limit: nat,
    n: int,
)
    requires
        ranking(pool.keyword),
        ranking(pool.semantic),
        pool.ranked(one, limit),
        pool.ranked(other, limit),
        0 <= n <= one.len() <= other.len(),
    ensures
        forall|p: int| 0 <= p < n ==> #[trigger] one[p] == other[p],
    decreases n,
{
    if n > 0 {
        lemma_same_head(pool, one, other, limit, n - 1);
        let a = one[n - 1].conversation.id;
        let b = other[n - 1].conversation.id;
        lemma_outranks(pool, a, b);
        lemma_placed(pool, one, other, limit, n - 1);
        lemma_placed(pool, other, one, limit, n - 1);
        assert(pool.hit(a) == Some(one[n - 1]));
        assert(pool.hit(b) == Some(other[n - 1]));
    }
}

/// Where two lists agree up to `n`, neither has something better at `n`.
proof fn lemma_placed(
    pool: Retrieval,
    one: Seq<HitView>,
    other: Seq<HitView>,
    limit: nat,
    n: int,
)
    requires
        ranking(pool.keyword),
        ranking(pool.semantic),
        pool.ranked(one, limit),
        pool.ranked(other, limit),
        0 <= n < one.len(),
        n < other.len(),
        forall|p: int| 0 <= p < n ==> #[trigger] one[p] == other[p],
    ensures
        !pool.outranks(one[n].conversation.id, other[n].conversation.id),
{
    let a = one[n].conversation.id;
    let b = other[n].conversation.id;
    lemma_outranks(pool, a, b);
    assert(pool.hit(a) is Some);
    if pool.listed(other, a) {
        let q = choose|q: int| 0 <= q < other.len() && (#[trigger] other[q]).conversation.id == a;
        if q < n {
            assert(one[q] == other[q]);
            law_hits_are_distinct(pool, one, limit, q, n);
        } else if q > n {
            assert(pool.outranks(other[n].conversation.id, other[q].conversation.id));
        }
    } else {
        assert(pool.crowded_out(other, a, limit));
        assert(pool.outranks(other[n].conversation.id, a));
    }
}

} // verus!
