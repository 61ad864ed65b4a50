//! Ranking conversations.

use crate::fusion::{
    candidates, found, lemma_candidates, lemma_filter, lemma_rank, lemma_rank_at, rank_of, ranking,
    retrieved, HitView, Retrieval,
};
use crate::model::{Conversation, ConversationView};
use crate::score::{share, worth};
use crate::search::{Row, SearchQuery};
use vstd::prelude::*;
use vstd::set_lib::{lemma_int_range, lemma_len_subset, lemma_subset_equality, set_int_range};

verus! {

/// Has every conversation an id of its own?
pub open spec fn one_each(list: Seq<ConversationView>) -> bool {
    forall|i: int, j: int|
        0 <= i < j < list.len() ==> (#[trigger] list[i]).id != (#[trigger] list[j]).id
}

/// Did either arm retrieve this?
pub open spec fn retrieved_by_either(pool: Retrieval, id: i64) -> bool {
    pool.keyword.contains(id) || pool.semantic.contains(id)
}

proof fn lemma_found(list: Seq<ConversationView>, i: int)
    requires
        one_each(list),
        0 <= i < list.len(),
    ensures
        found(list, list[i].id) == Some(list[i]),
    decreases list.len(),
{
    let rest = list.drop_last();
    if i < list.len() - 1 {
        assert(list[i].id != list[list.len() - 1].id);
        assert forall|a: int, b: int| 0 <= a < b < rest.len() implies (#[trigger] rest[a]).id != (
        #[trigger] rest[b]).id by {
            assert(list[a].id != list[b].id);
        }
        assert(rest[i] == list[i]);
        lemma_found(rest, i);
    }
}

proof fn lemma_found_is_there(list: Seq<ConversationView>, id: i64)
    ensures
        found(list, id) matches Some(c) ==> c.id == id && list.contains(c),
        found(list, id) is None ==> forall|i: int|
            0 <= i < list.len() ==> (#[trigger] list[i]).id != id,
    decreases list.len(),
{
    if list.len() > 0 {
        let rest = list.drop_last();
        lemma_found_is_there(rest, id);
        assert(list[list.len() - 1] == list.last());
        if let Some(c) = found(rest, id) {
            let i = choose|i: int| 0 <= i < rest.len() && rest[i] == c;
            assert(list[i] == c);
        }
        if found(list, id) is None {
            assert forall|i: int| 0 <= i < list.len() implies (#[trigger] list[i]).id != id by {
                if i < rest.len() {
                    assert(rest[i] == list[i]);
                }
            }
        }
    }
}

/// Candidates are ranked by recency with none left out.
proof fn lemma_newer(pool: Retrieval, a: i64, b: i64)
    requires
        ranking(pool.keyword),
        ranking(pool.semantic),
        pool.ids().contains(a),
        pool.ids().contains(b),
        pool.newer(a, b),
    ensures
        pool.recency(a) < pool.recency(b),
{
    let ids = pool.ids();
    lemma_candidates(pool.keyword, pool.semantic);
    let fa = |c: i64| pool.newer(c, a);
    let fb = |c: i64| pool.newer(c, b);
    lemma_filter(ids, fa);
    lemma_filter(ids, fb);
    let sa = ids.filter(fa);
    let sb = ids.filter(fb);
    sa.unique_seq_to_set();
    sb.unique_seq_to_set();
    vstd::seq_lib::seq_to_set_is_finite(sa);
    vstd::seq_lib::seq_to_set_is_finite(sb);
    assert(!sa.contains(a));
    assert(sb.contains(a));
    let more_set = sa.to_set().insert(a);
    assert(more_set.subset_of(sb.to_set())) by {
        assert forall|c: i64| more_set.contains(c) implies sb.to_set().contains(c) by {
            if c != a {
                assert(sa.contains(c));
                assert(sb.contains(c));
            }
        }
    }
    lemma_len_subset(more_set, sb.to_set());
}

proof fn lemma_recency_bounds(pool: Retrieval, id: i64)
    requires
        ranking(pool.keyword),
        ranking(pool.semantic),
        pool.ids().contains(id),
    ensures
        1 <= pool.recency(id) <= pool.ids().len(),
{
    let ids = pool.ids();
    lemma_candidates(pool.keyword, pool.semantic);
    let f = |c: i64| pool.newer(c, id);
    lemma_filter(ids, f);
    let s = ids.filter(f);
    s.unique_seq_to_set();
    ids.unique_seq_to_set();
    vstd::seq_lib::seq_to_set_is_finite(s);
    vstd::seq_lib::seq_to_set_is_finite(ids);
    assert(!s.contains(id));
    let more_set = s.to_set().insert(id);
    assert(more_set.subset_of(ids.to_set())) by {
        assert forall|c: i64| more_set.contains(c) implies ids.to_set().contains(c) by {
            if c != id {
                assert(s.contains(c));
            }
        }
    }
    lemma_len_subset(more_set, ids.to_set());
}

/// Of two candidates the one that was updated later has the better recency rank,
/// wherever the two stand among the candidates.
pub proof fn law_recency_follows_update_time(pool: Retrieval, i: int, j: int)
    requires
        ranking(pool.keyword),
        ranking(pool.semantic),
        one_each(pool.conversations),
        0 <= i < pool.conversations.len(),
        0 <= j < pool.conversations.len(),
        retrieved_by_either(pool, pool.conversations[i].id),
        retrieved_by_either(pool, pool.conversations[j].id),
        pool.conversations[i].updated_at > pool.conversations[j].updated_at,
    ensures
        pool.recency(pool.conversations[i].id) < pool.recency(pool.conversations[j].id),
{
    let (a, b) = (pool.conversations[i].id, pool.conversations[j].id);
    lemma_candidates(pool.keyword, pool.semantic);
    assert(pool.ids().contains(a) && pool.ids().contains(b));
    lemma_found(pool.conversations, i);
    lemma_found(pool.conversations, j);
    lemma_newer(pool, a, b);
}

/// A candidate whose conversation could not be loaded counts as updated at time 0.
pub proof fn law_missing_conversations_are_of_time_zero(pool: Retrieval, i: int, id: i64)
    requires
        ranking(pool.keyword),
        ranking(pool.semantic),
        one_each(pool.conversations),
        0 <= i < pool.conversations.len(),
        retrieved_by_either(pool, pool.conversations[i].id),
        retrieved_by_either(pool, id),
        forall|j: int|
            0 <= j < pool.conversations.len() ==> (#[trigger] pool.conversations[j]).id != id,
    ensures
        pool.conversations[i].updated_at > 0 ==> pool.recency(pool.conversations[i].id)
            < pool.recency(id),
        pool.conversations[i].updated_at < 0 ==> pool.recency(pool.conversations[i].id)
            > pool.recency(id),
{
    let a = pool.conversations[i].id;
    lemma_candidates(pool.keyword, pool.semantic);
    assert(pool.ids().contains(a) && pool.ids().contains(id));
    lemma_found(pool.conversations, i);
    lemma_found_is_there(pool.conversations, id);
    if let Some(c) = found(pool.conversations, id) {
        let j = choose|j: int| 0 <= j < pool.conversations.len() && pool.conversations[j] == c;
        assert(pool.conversations[j].id == id);
    }
    if pool.conversations[i].updated_at > 0 {
        lemma_newer(pool, a, id);
    }
    if pool.conversations[i].updated_at < 0 {
        lemma_newer(pool, id, a);
    }
}

/// The recency ranks of the candidates are 1, 2, 3 and so on, each taken once.
pub proof fn law_recency_ranks_are_one_to_n(pool: Retrieval, a: i64, b: i64, k: nat)
    requires
        ranking(pool.keyword),
        ranking(pool.semantic),
        retrieved_by_either(pool, a),
        retrieved_by_either(pool, b),
        1 <= k <= pool.ids().len(),
    ensures
        1 <= pool.recency(a) <= pool.ids().len(),
        a != b ==> pool.recency(a) != pool.recency(b),
        exists|c: i64| #[trigger] retrieved_by_either(pool, c) && pool.recency(c) == k,
{
    let ids = pool.ids();
    lemma_candidates(pool.keyword, pool.semantic);
    assert(ids.contains(a) && ids.contains(b));
    lemma_recency_bounds(pool, a);
    lemma_rank(ids, a);
    lemma_rank(ids, b);
    if a != b {
        lemma_distinct(pool, a, b);
    }
    let ranks = ids.map_values(|c: i64| pool.recency(c) as int);
    assert forall|i: int, j: int| 0 <= i < ranks.len() && 0 <= j < ranks.len() && i
        != j implies ranks[i] != ranks[j] by {
        assert(ids.contains(ids[i]) && ids.contains(ids[j]));
        lemma_distinct(pool, ids[i], ids[j]);
    }
    let n = ids.len() as int;
    ranks.unique_seq_to_set();
    vstd::seq_lib::seq_to_set_is_finite(ranks);
    lemma_int_range(1, n + 1);
    assert(ranks.to_set().subset_of(set_int_range(1, n + 1))) by {
        assert forall|r: int| ranks.to_set().contains(r) implies set_int_range(1, n + 1).contains(
            r,
        ) by {
            let i = choose|i: int| 0 <= i < ranks.len() && ranks[i] == r;
            assert(ids.contains(ids[i]));
            lemma_recency_bounds(pool, ids[i]);
        }
    }
    lemma_subset_equality(ranks.to_set(), set_int_range(1, n + 1));
    assert(set_int_range(1, n + 1).contains(k as int));
    let i = choose|i: int| 0 <= i < ranks.len() && ranks[i] == k;
    assert(ids.contains(ids[i]));
    assert(retrieved_by_either(pool, ids[i]) && pool.recency(ids[i]) == k);
}

proof fn lemma_distinct(pool: Retrieval, a: i64, b: i64)
    requires
        ranking(pool.keyword),
        ranking(pool.semantic),
        pool.ids().contains(a),
        pool.ids().contains(b),
        a != b,
    ensures
        pool.recency(a) != pool.recency(b),
{
    lemma_candidates(pool.keyword, pool.semantic);
    lemma_rank(pool.ids(), a);
    lemma_rank(pool.ids(), b);
    if pool.newer(a, b) {
        lemma_newer(pool, a, b);
    } else {
        lemma_newer(pool, b, a);
    }
}

/// A ranked list names each conversation once, and at most 200 of them.
pub proof fn law_ranked_lists(ids: Seq<i64>)
    ensures
        ranking(ids) <==> ids.no_duplicates() && ids.len() <= 200,
{
}

/// A rank is a place in a list, counted from one; what is not in the list has none.
pub proof fn law_ranks_are_places(ids: Seq<i64>, i: int, id: i64)
    requires
        ids.no_duplicates(),
    ensures
        0 <= i < ids.len() ==> rank_of(ids, ids[i]) == i + 1,
        !ids.contains(id) ==> rank_of(ids, id) == 0,
{
    lemma_rank(ids, id);
    if 0 <= i < ids.len() {
        lemma_rank_at(ids, i);
    }
}

/// The candidates are what either arm retrieved, each once: the keyword hits first
/// and in their order, then in theirs the hits that only the semantic arm has.
pub proof fn law_candidates_are_the_union(keyword: Seq<i64>, semantic: Seq<i64>, id: i64)
    requires
        ranking(keyword),
        ranking(semantic),
    ensures
        candidates(keyword, semantic).contains(id) <==> keyword.contains(id) || semantic.contains(
            id,
        ),
        candidates(keyword, semantic).no_duplicates(),
        keyword.len() <= candidates(keyword, semantic).len() <= keyword.len() + semantic.len(),
        forall|i: int|
            0 <= i < keyword.len() ==> #[trigger] candidates(keyword, semantic)[i] == keyword[i],
{
    lemma_candidates(keyword, semantic);
}

/// What a hit says of itself is so: it is of a conversation with its id, it names
/// its places in the two lists, and its snippet is the one that the keyword arm
/// gave for it.
pub proof fn law_hits_tell_where_they_were_found(pool: Retrieval, id: i64, hit: HitView, i: int)
    requires
        ranking(pool.keyword),
        ranking(pool.semantic),
        pool.hit(id) == Some(hit),
    ensures
        hit.conversation.id == id,
        pool.conversations.contains(hit.conversation),
        0 <= i < pool.keyword.len() && pool.keyword[i] == id ==> hit.keyword_rank == Some(
            (i + 1) as usize,
        ) && hit.snippet == pool.snippets[i],
        !pool.keyword.contains(id) ==> hit.keyword_rank is None && hit.snippet.len() == 0,
        0 <= i < pool.semantic.len() && pool.semantic[i] == id ==> hit.semantic_rank == Some(
            (i + 1) as usize,
        ),
        !pool.semantic.contains(id) ==> hit.semantic_rank is None,
{
    lemma_found_is_there(pool.conversations, id);
    lemma_rank(pool.keyword, id);
    lemma_rank(pool.semantic, id);
    if 0 <= i < pool.keyword.len() && pool.keyword[i] == id {
        lemma_rank_at(pool.keyword, i);
    }
    if 0 <= i < pool.semantic.len() && pool.semantic[i] == id {
        lemma_rank_at(pool.semantic, i);
    }
}

/// A candidate becomes a hit where, and only where, its conversation is there.
pub proof fn law_loaded_candidates_become_hits(pool: Retrieval, id: i64)
    ensures
        pool.hit(id) is Some <==> exists|i: int|
            0 <= i < pool.conversations.len() && (#[trigger] pool.conversations[i]).id == id,
{
    lemma_found_is_there(pool.conversations, id);
    if let Some(c) = found(pool.conversations, id) {
        let i = choose|i: int| 0 <= i < pool.conversations.len() && pool.conversations[i] == c;
        assert(pool.conversations[i].id == id);
    }
}

/// A score is the sum, over the lists that have the conversation, of a weight over
/// 60 and the rank: 1 for keyword and for semantic retrieval, 0.35 for recency. As
/// a fraction in twentieths.
pub proof fn law_score_is_the_weighted_sum(k: nat, s: nat, r: nat)
    requires
        r > 0,
    ensures
        worth(k, s, r).1 > 0,
        k > 0 && s > 0 ==> worth(k, s, r).0 * (20 * ((60 + k) * (60 + s) * (60 + r))) == worth(
            k,
            s,
            r,
        ).1 * (20 * ((60 + s) * (60 + r)) + 20 * ((60 + k) * (60 + r)) + 7 * ((60 + k) * (60 + s))),
        k > 0 && s == 0 ==> worth(k, s, r).0 * (20 * ((60 + k) * (60 + r))) == worth(k, s, r).1 * (
        20 * (60 + r) + 7 * (60 + k)),
        k == 0 && s > 0 ==> worth(k, s, r).0 * (20 * ((60 + s) * (60 + r))) == worth(k, s, r).1 * (
        20 * (60 + r) + 7 * (60 + s)),
{
    let (sk, ss, sr) = (share(k) as int, share(s) as int, share(r) as int);
    assert(20 * (sk * ss * sr) > 0) by (nonlinear_arith)
        requires
            sk > 0,
            ss > 0,
            sr > 0,
    ;
    let w = worth(k, s, r);
    if k > 0 && s > 0 {
        assert(w.0 == 20 * (ss * sr) + 20 * (sk * sr) + 7 * (sk * ss));
        assert(w.1 == 20 * (sk * ss * sr));
        let (a, b) = (w.0 as int, w.1 as int);
        assert(a * b == b * a) by (nonlinear_arith);
    } else if k > 0 {
        assert(ss == 1);
        assert(w.0 == 20 * sr + 7 * sk) by {
            assert(ss * sr == sr && sk * ss == sk) by (nonlinear_arith)
                requires
                    ss == 1,
            ;
            assert(0 * (sk * sr) == 0);
        }
        assert(sk * ss * sr == sk * sr) by (nonlinear_arith)
            requires
                ss == 1,
        ;
        let (a, b) = (w.0 as int, w.1 as int);
        assert(a * b == b * a) by (nonlinear_arith);
    } else if s > 0 {
        assert(sk == 1);
        assert(w.0 == 20 * sr + 7 * ss) by {
            assert(sk * sr == sr && sk * ss == ss) by (nonlinear_arith)
                requires
                    sk == 1,
            ;
            assert(0 * (ss * sr) == 0);
        }
        assert(sk * ss * sr == ss * sr) by (nonlinear_arith)
            requires
                sk == 1,
        ;
        let (a, b) = (w.0 as int, w.1 as int);
        assert(a * b == b * a) by (nonlinear_arith);
    }
}

/// The score of a hit is what its three ranks are worth.
pub proof fn law_hits_are_scored_by_their_ranks(pool: Retrieval, id: i64, hit: HitView)
    requires
        ranking(pool.keyword),
        ranking(pool.semantic),
        retrieved_by_either(pool, id),
        pool.hit(id) == Some(hit),
    ensures
        hit.score == worth(
            match hit.keyword_rank {
                Some(k) => k as nat,
                None => 0,
            },
            match hit.semantic_rank {
                Some(s) => s as nat,
                None => 0,
            },
            pool.recency(id),
        ),
{
    lemma_rank(pool.keyword, id);
    lemma_rank(pool.semantic, id);
}

/// Hits stand in the order of their scores, and where two are worth the same, in
/// the order of their last update, latest first.
pub proof fn law_hits_are_in_order(
    pool: Retrieval,
    hits: Seq<HitView>,
    limit: nat,
    p: int,
    q: int,
)
    requires
        ranking(pool.keyword),
        ranking(pool.semantic),
        pool.ranked(hits, limit),
        0 <= p < q < hits.len(),
    ensures
        hits[p].score.0 * hits[q].score.1 >= hits[q].score.0 * hits[p].score.1,
        hits[p].score.0 * hits[q].score.1 == hits[q].score.0 * hits[p].score.1
            ==> hits[p].conversation.updated_at >= hits[q].conversation.updated_at,
{
    let (a, b) = (hits[p].conversation.id, hits[q].conversation.id);
    assert(pool.hit(a) == Some(hits[p]));
    assert(pool.hit(b) == Some(hits[q]));
    assert(pool.outranks(a, b));
}

/// No hit is left out for a worse one: where a candidate with a conversation is not
/// listed, the list is full, and none of the hits in it is worth less.
pub proof fn law_only_the_worst_are_left_out(
    pool: Retrieval,
    hits: Seq<HitView>,
    limit: nat,
    id: i64,
    p: int,
)
    requires
        ranking(pool.keyword),
        ranking(pool.semantic),
        pool.ranked(hits, limit),
        retrieved_by_either(pool, id),
        pool.hit(id) is Some,
        forall|q: int| 0 <= q < hits.len() ==> (#[trigger] hits[q]).conversation.id != id,
    ensures
        hits.len() == limit,
        0 <= p < hits.len() ==> hits[p].score.0 * pool.hit(id)->0.score.1 >= pool.hit(
            id,
        )->0.score.0 * hits[p].score.1,
{
    lemma_candidates(pool.keyword, pool.semantic);
    assert(pool.ids().contains(id));
    assert(!pool.listed(hits, id));
    assert(pool.crowded_out(hits, id, limit));
    if 0 <= p < hits.len() {
        assert(pool.outranks(hits[p].conversation.id, id));
        assert(pool.hit(hits[p].conversation.id) == Some(hits[p]));
    }
}

/// Every hit is of a conversation that was retrieved.
pub proof fn law_hits_were_retrieved(pool: Retrieval, hits: Seq<HitView>, limit: nat, p: int)
    requires
        ranking(pool.keyword),
        ranking(pool.semantic),
        pool.ranked(hits, limit),
        0 <= p < hits.len(),
    ensures
        hits.len() <= limit,
        retrieved_by_either(pool, hits[p].conversation.id),
        pool.hit(hits[p].conversation.id) == Some(hits[p]),
{
    lemma_candidates(pool.keyword, pool.semantic);
    assert(pool.ids().contains(hits[p].conversation.id));
}

/// A search goes by the rows, the ids and the conversations that it is given; the
/// semantic ids count only where the query asks for meaning.
pub proof fn law_search_goes_by_what_was_retrieved(
    query: SearchQuery,
    keyword: Seq<Row>,
    semantic: Seq<i64>,
    conversations: Seq<Conversation>,
    i: int,
)
    ensures
        ({
            let pool = retrieved(query, keyword, semantic, conversations);
            &&& pool.keyword.len() == keyword.len() && pool.snippets.len() == keyword.len()
            &&& 0 <= i < keyword.len() ==> pool.keyword[i] == keyword[i].0 && pool.snippets[i]
                == keyword[i].1@
            &&& query.meaning ==> pool.semantic == semantic
            &&& !query.meaning ==> pool.semantic.len() == 0
            &&& pool.conversations.len() == conversations.len()
            &&& 0 <= i < conversations.len() ==> pool.conversations[i] == conversations[i]@
        }),
{
}

} // verus!
