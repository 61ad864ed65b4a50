//! Search queries and the statements they become.
//!
//! Keyword retrieval is full-text search in SQLite; the statements that run it
//! are built here and run by the caller. Text typed by a user reaches them only
//! as quoted tokens or as bound values, never as syntax.

use crate::model::SourceId;
use crate::text::{
    chars, decimal, decimal_int, decimal_of, decimal_of_signed, join, join_next,
    lemma_split_concat, lemma_split_first, lemma_split_none, lemma_words, replace, replaced, split,
    string, trim, trimmed, views, word_char, words, words_of, Class,
};
use vstd::prelude::*;
use vstd::slice::slice_subrange;

verus! {

/// How deep each retrieval arm goes before fusion.
pub const CANDIDATE_DEPTH: usize = 200;

#[derive(Debug, Clone)]
pub struct SearchQuery {
    pub text: String,
    /// Empty means every source.
    pub sources: Vec<SourceId>,
    pub limit: usize,
    /// When off, this is pure keyword search.
    pub meaning: bool,
    /// Unix-seconds lower bound on `updated_at`.
    pub since: Option<i64>,
    /// Restrict to one repository, by key or by name.
    pub repo: Option<String>,
    /// Restrict to conversations that touched this repo-relative path.
    pub file: Option<String>,
}

impl SearchQuery {
    pub fn new(text: String) -> (q: SearchQuery)
        ensures
            q.text@ == text@,
            q.sources@ == Seq::<SourceId>::empty(),
            q.limit == 20,
            q.meaning,
            q.since is None,
            q.repo is None,
            q.file is None,
    {
        SearchQuery {
            text,
            sources: Vec::new(),
            limit: 20,
            meaning: true,
            since: None,
            repo: None,
            file: None,
        }
    }

    /// Is there nothing to search for?
    pub open spec fn blank(self) -> bool {
        trim(self.text@, Class::White).len() == 0
    }

    pub fn is_blank(&self) -> (b: bool)
        ensures
            b == self.blank(),
    {
        trimmed(chars(self.text.as_str()).as_slice(), Class::White).len() == 0
    }
}

#[derive(Debug, Clone, Copy, PartialEq, Eq, Structural)]
pub enum MatchedVia {
    /// The query's words are in this conversation.
    Keyword,
    /// Retrieved only by the embedding: none of the query's words are here.
    Meaning,
    Both,
}

impl MatchedVia {
    pub fn label(self) -> (r: &'static str)
        ensures
            r@ == (match self {
                MatchedVia::Keyword => "keyword"@,
                MatchedVia::Meaning => "meaning"@,
                MatchedVia::Both => "keyword+meaning"@,
            }),
    {
        match self {
            MatchedVia::Keyword => "keyword",
            MatchedVia::Meaning => "meaning",
            MatchedVia::Both => "keyword+meaning",
        }
    }
}

// ---- Match expressions ----------------------------------------------------

/// The words of a query: its longest stretches of letters, numbers and
/// underscores.
pub open spec fn query_words(text: Seq<char>) -> Seq<Seq<char>> {
    words(text, Class::NonWord)
}

/// A word quoted and prefix-matched.
pub open spec fn quoted(word: Seq<char>) -> Seq<char> {
    seq!['"'] + word + seq!['"', '*']
}

pub open spec fn connective(conjunctive: bool) -> Seq<char> {
    if conjunctive {
        " AND "@
    } else {
        " OR "@
    }
}

/// The full-text expression for these words.
pub open spec fn match_expression(parts: Seq<Seq<char>>, conjunctive: bool) -> Seq<char> {
    join(parts.map_values(|w: Seq<char>| quoted(w)), connective(conjunctive))
}

/// The full-text expression for words that have been found already.
pub fn quote_all(parts: &Vec<&[char]>, conjunctive: bool) -> (r: Vec<char>)
    ensures
        r@ == match_expression(views(parts@), conjunctive),
{
    let sep = chars(if conjunctive { " AND " } else { " OR " });
    let ghost quotes = views(parts@).map_values(|w: Seq<char>| quoted(w));
    let mut r: Vec<char> = Vec::new();
    let mut i: usize = 0;
    while i < parts.len()
        invariant
            i <= parts@.len(),
            sep@ == connective(conjunctive),
            quotes == views(parts@).map_values(|w: Seq<char>| quoted(w)),
            r@ == join(quotes.take(i as int), sep@),
        decreases parts@.len() - i,
    {
        let mut q: Vec<char> = Vec::new();
        q.push('"');
        q.extend_from_slice(parts[i]);
        q.push('"');
        q.push('*');
        assert(q@ =~= quoted(parts@[i as int]@));
        join_next(&mut r, i == 0, q.as_slice(), sep.as_slice(), Ghost(quotes.take(i as int)));
        assert(quotes.take(i as int).push(q@) =~= quotes.take(i + 1));
        i += 1;
    }
    assert(quotes.take(parts@.len() as int) =~= quotes);
    r
}

/// Turns user input into an FTS5 MATCH expression.
///
/// Every token is quoted, so `:`, `-`, `*` and friends in a query cannot be read
/// as FTS operators, and prefix-matched; then they are ANDed, or ORed.
pub fn build_match_expression(text: &str, conjunctive: bool) -> (r: Option<String>)
    ensures
        match r {
            Some(e) => query_words(text@).len() > 0 && e@ == match_expression(
                query_words(text@),
                conjunctive,
            ),
            None => query_words(text@).len() == 0,
        },
{
    let input = chars(text);
    let parts = words_of(input.as_slice(), Class::NonWord);
    assert(views(parts@).len() == parts@.len());
    if parts.len() == 0 {
        return None;
    }
    Some(string(quote_all(&parts, conjunctive).as_slice()))
}

/// The pieces of a match expression between its quotes: nothing, then by turns a
/// word and what the library puts between two words.
pub open spec fn pieces(parts: Seq<Seq<char>>, conjunctive: bool) -> Seq<Seq<char>> {
    Seq::new(
        2 * parts.len() + 1,
        |i: int|
            if i % 2 == 1 {
                parts[i / 2]
            } else if i == 0 {
                seq![]
            } else if i == 2 * parts.len() {
                seq!['*']
            } else {
                seq!['*'] + connective(conjunctive)
            },
    )
}

/// A word holds nothing but letters, numbers and underscores, and is not empty.
/// So it holds no quote, and no operator of the full-text syntax.
pub proof fn law_words_are_bare(text: Seq<char>, i: int, j: int)
    requires
        0 <= i < query_words(text).len(),
    ensures
        query_words(text)[i].len() > 0,
        0 <= j < query_words(text)[i].len() ==> word_char(query_words(text)[i][j])
            && query_words(text)[i][j] != '"',
{
    lemma_words(text, Class::NonWord);
    if 0 <= j < query_words(text)[i].len() {
        assert(!Class::NonWord.has(query_words(text)[i][j]));
    }
}

/// What a user typed reaches the full-text engine only between quotes: cut at its
/// quotes, a match expression falls into the words of the query, each inside a
/// pair of quotes, and fixed text outside them.
pub proof fn law_user_text_stays_quoted(text: Seq<char>, conjunctive: bool)
    requires
        query_words(text).len() > 0,
    ensures
        split(match_expression(query_words(text), conjunctive), '"') == pieces(
            query_words(text),
            conjunctive,
        ),
{
    let parts = query_words(text);
    assert forall|i: int, j: int| 0 <= i < parts.len() && 0 <= j < parts[i].len() implies
        #[trigger] parts[i][j] != '"' by {
        law_words_are_bare(text, i, j);
    }
    lemma_pieces(parts, conjunctive);
}

proof fn lemma_pieces(parts: Seq<Seq<char>>, conjunctive: bool)
    requires
        parts.len() > 0,
        forall|i: int, j: int|
            0 <= i < parts.len() && 0 <= j < parts[i].len() ==> #[trigger] parts[i][j] != '"',
    ensures
        split(match_expression(parts, conjunctive), '"') == pieces(parts, conjunctive),
    decreases parts.len(),
{
    let quotes = parts.map_values(|w: Seq<char>| quoted(w));
    let word = parts.last();
    let whole = match_expression(parts, conjunctive);
    let star = seq!['*'];
    assert(quotes.last() == quoted(word));
    if parts.len() == 1 {
        assert(whole == quoted(word));
        assert(whole =~= Seq::<char>::empty() + seq!['"'] + (word + seq!['"'] + star));
        lemma_split_first(Seq::<char>::empty(), word + seq!['"'] + star, '"');
        lemma_split_first(word, star, '"');
        lemma_split_none(star, '"');
        assert(split(whole, '"') =~= pieces(parts, conjunctive));
    } else {
        let init = parts.drop_last();
        let c = connective(conjunctive);
        let head = match_expression(init, conjunctive);
        reveal_strlit(" AND ");
        reveal_strlit(" OR ");
        assert(init.map_values(|w: Seq<char>| quoted(w)) =~= quotes.drop_last());
        assert(whole == head + c + quoted(word));
        lemma_pieces(init, conjunctive);
        let tail = c + quoted(word);
        assert(head + tail =~= whole);
        assert(tail =~= c + seq!['"'] + (word + seq!['"'] + star));
        lemma_split_first(c, word + seq!['"'] + star, '"');
        lemma_split_first(word, star, '"');
        lemma_split_none(star, '"');
        assert(split(tail, '"') =~= seq![c, word, star]);
        lemma_split_concat(head, tail, '"');
        let before = pieces(init, conjunctive);
        let n = parts.len() as int;
        assert(before.last() == star);
        assert(split(whole, '"') =~= before.drop_last() + seq![star + c] + seq![word, star]);
        assert forall|i: int| 0 <= i < 2 * n + 1 implies split(whole, '"')[i] == #[trigger] pieces(
            parts,
            conjunctive,
        )[i] by {
            if i < 2 * n - 2 {
                assert(split(whole, '"')[i] == before[i]);
                if i % 2 == 1 {
                    assert(init[i / 2] == parts[i / 2]);
                }
            }
        }
        assert(split(whole, '"') =~= pieces(parts, conjunctive));
    }
}

// ---- Statements -----------------------------------------------------------

/// A value bound to a statement.
#[derive(Debug, Clone, PartialEq, Eq)]
pub enum Param {
    Text(String),
    Integer(i64),
}

/// A [`Param`] as a value of the specification.
pub enum ParamView {
    Text(Seq<char>),
    Integer(i64),
}

impl View for Param {
    type V = ParamView;

    open spec fn view(&self) -> ParamView {
        match self {
            Param::Text(t) => ParamView::Text(t@),
            Param::Integer(n) => ParamView::Integer(*n),
        }
    }
}

/// An SQL statement and the values bound to `?1`, `?2` and so on.
#[derive(Debug, Clone, PartialEq, Eq)]
pub struct Statement {
    pub sql: String,
    pub params: Vec<Param>,
}

pub open spec fn param_views(params: Seq<Param>) -> Seq<ParamView> {
    params.map_values(|p: Param| p@)
}

pub open spec fn texts(values: Seq<String>) -> Seq<Seq<char>> {
    values.map_values(|s: String| s@)
}

fn append(v: &mut Vec<char>, s: &str)
    ensures
        final(v)@ == old(v)@ + s@,
{
    let tail = chars(s);
    v.extend_from_slice(tail.as_slice());
}

/// A source's name as SQL text.
pub open spec fn source_literal(source: SourceId) -> Seq<char> {
    seq!['\''] + source.text() + seq!['\'']
}

/// The condition that a conversation comes from one of these sources.
pub open spec fn source_scope(sources: Seq<SourceId>) -> Seq<char> {
    if sources.len() == 0 {
        seq![]
    } else {
        " AND c.source IN ("@ + join(
            sources.map_values(|s: SourceId| source_literal(s)),
            ","@,
        ) + ")"@
    }
}

/// Filters by source; empty where every source is wanted.
pub fn source_filter(sources: &[SourceId]) -> (r: String)
    ensures
        r@ == source_scope(sources@),
{
    if sources.len() == 0 {
        return String::new();
    }
    let comma = chars(",");
    let ghost literals = sources@.map_values(|s: SourceId| source_literal(s));
    let mut list: Vec<char> = Vec::new();
    let mut i: usize = 0;
    while i < sources.len()
        invariant
            i <= sources@.len(),
            comma@ == ","@,
            literals == sources@.map_values(|s: SourceId| source_literal(s)),
            list@ == join(literals.take(i as int), comma@),
        decreases sources@.len() - i,
    {
        let mut literal: Vec<char> = Vec::new();
        literal.push('\'');
        append(&mut literal, sources[i].slug());
        literal.push('\'');
        assert(literal@ =~= source_literal(sources@[i as int]));
        join_next(
            &mut list,
            i == 0,
            literal.as_slice(),
            comma.as_slice(),
            Ghost(literals.take(i as int)),
        );
        assert(literals.take(i as int).push(literal@) =~= literals.take(i + 1));
        i += 1;
    }
    assert(literals.take(sources@.len() as int) =~= literals);
    let mut r = chars(" AND c.source IN (");
    r.extend_from_slice(list.as_slice());
    append(&mut r, ")");
    string(r.as_slice())
}

pub const REPO_SCOPE: &'static str = " AND EXISTS (SELECT 1 FROM conversation_repo cr
                            JOIN repos r ON r.id = cr.repo_id
                           WHERE cr.conversation_id = c.id
                             AND (r.key = ?";

pub const FILE_SCOPE: &'static str = " AND EXISTS (SELECT 1 FROM conversation_file cf
                           WHERE cf.conversation_id = c.id AND cf.path = ?";

/// The condition that a conversation belongs to the repository bound to `?i`.
pub open spec fn repo_scope(i: nat) -> Seq<char> {
    REPO_SCOPE@ + decimal(i) + " OR r.name = ?"@ + decimal(i) + "))"@
}

/// The condition that a conversation touched the file bound to `?i`.
pub open spec fn file_scope(i: nat) -> Seq<char> {
    FILE_SCOPE@ + decimal(i) + ")"@
}

/// The filters of a query other than its text, as SQL. The values that it binds
/// start at `?first`.
pub open spec fn scope_sql(query: SearchQuery, first: nat) -> Seq<char> {
    let next = if query.repo is Some {
        first + 1
    } else {
        first
    };
    source_scope(query.sources@) + (if query.repo is Some {
        repo_scope(first)
    } else {
        seq![]
    }) + (if query.file is Some {
        file_scope(next)
    } else {
        seq![]
    })
}

/// The values that the filters of a query bind, in order.
pub open spec fn scope_values(query: SearchQuery) -> Seq<Seq<char>> {
    (match query.repo {
        Some(repo) => seq![repo@],
        None => seq![],
    }) + (match query.file {
        Some(file) => seq![file@],
        None => seq![],
    })
}

/// The non-text filters, as a SQL fragment plus the values it binds.
///
/// Source slugs come from a closed enum and are inlined; the repo and file names
/// are user input and are bound, starting at `?first`. Both are `EXISTS`
/// subqueries rather than joins so a conversation touching a file several times
/// still produces one row.
pub fn scope_clause(query: &SearchQuery, first: usize) -> (r: (String, Vec<String>))
    requires
        first < usize::MAX,
    ensures
        r.0@ == scope_sql(*query, first as nat),
        texts(r.1@) == scope_values(*query),
{
    let mut sql = chars(source_filter(query.sources.as_slice()).as_str());
    let mut values: Vec<String> = Vec::new();
    let mut i: usize = first;
    assert(texts(values@) =~= seq![]);
    if let Some(repo) = &query.repo {
        let digits = decimal_of(i as u64);
        append(&mut sql, REPO_SCOPE);
        sql.extend_from_slice(digits.as_slice());
        append(&mut sql, " OR r.name = ?");
        sql.extend_from_slice(digits.as_slice());
        append(&mut sql, "))");
        assert(sql@ =~= source_scope(query.sources@) + repo_scope(first as nat));
        values.push(repo.clone());
        assert(texts(values@) =~= seq![repo@]);
        i += 1;
    }
    let ghost head = sql@;
    let ghost bound = texts(values@);
    if let Some(file) = &query.file {
        let digits = decimal_of(i as u64);
        append(&mut sql, FILE_SCOPE);
        sql.extend_from_slice(digits.as_slice());
        append(&mut sql, ")");
        assert(sql@ =~= head + file_scope(i as nat));
        values.push(file.clone());
        assert(texts(values@) =~= bound + seq![file@]);
    }
    assert(sql@ =~= scope_sql(*query, first as nat));
    assert(texts(values@) =~= scope_values(*query));
    (string(sql.as_slice()), values)
}

/// The values that a user gives never become SQL: two queries for the same
/// sources that filter by repository and by file alike are the same SQL, and
/// differ only in the values bound, one for each filter.
pub proof fn law_scope_is_fixed_text(a: SearchQuery, b: SearchQuery, first: nat)
    requires
        a.sources@ == b.sources@,
        a.repo is Some <==> b.repo is Some,
        a.file is Some <==> b.file is Some,
    ensures
        scope_sql(a, first) == scope_sql(b, first),
        scope_values(a).len() == (if a.repo is Some {
            1int
        } else {
            0
        }) + (if a.file is Some {
            1int
        } else {
            0
        }),
        scope_values(a).len() == scope_values(b).len(),
{
}

pub const KEYWORD_HEAD: &'static str = "SELECT c.id,
                    snippet(conversations_fts, 1, '[', ']', '…', 14) AS snip
             FROM conversations_fts f
             JOIN conversations c ON c.id = f.rowid
             WHERE conversations_fts MATCH ?1
               AND c.updated_at >= ?2";

pub const KEYWORD_TAIL: &'static str = "
             ORDER BY bm25(conversations_fts, 4.0, 1.0)
             LIMIT ?3";

pub const ALLOWED_HEAD: &'static str =
    "SELECT c.id FROM conversations c WHERE c.updated_at >= ?1";

/// The lower bound on `updated_at`: the least of all times where the query has
/// none.
pub open spec fn since(query: SearchQuery) -> i64 {
    match query.since {
        Some(t) => t,
        None => i64::MIN,
    }
}

fn since_of(query: &SearchQuery) -> (t: i64)
    ensures
        t == since(*query),
{
    match query.since {
        Some(t) => t,
        None => i64::MIN,
    }
}

/// What is bound as the lower bound keeps out what is older than the query asks
/// for, and nothing else; without a bound, nothing at all.
pub proof fn law_since_is_a_lower_bound(query: SearchQuery, updated_at: i64)
    ensures
        updated_at >= since(query) <==> (query.since matches Some(t) ==> updated_at >= t),
{
}

pub open spec fn text_params(values: Seq<Seq<char>>) -> Seq<ParamView> {
    values.map_values(|v: Seq<char>| ParamView::Text(v))
}

/// Does `st` retrieve the conversations that match the query's words, best
/// first? The snippet of each comes with it, the query's words in brackets.
pub open spec fn keyword_statement(st: Statement, query: SearchQuery, conjunctive: bool) -> bool {
    &&& st.sql@ == KEYWORD_HEAD@ + scope_sql(query, 4) + KEYWORD_TAIL@
    &&& param_views(st.params@) == seq![
        ParamView::Text(match_expression(query_words(query.text@), conjunctive)),
        ParamView::Integer(since(query)),
        ParamView::Integer(CANDIDATE_DEPTH as i64),
    ] + text_params(scope_values(query))
}

/// Does `st` retrieve the conversations that the query's filters permit?
pub open spec fn allowed_statement(st: Statement, query: SearchQuery) -> bool {
    &&& st.sql@ == ALLOWED_HEAD@ + scope_sql(query, 2)
    &&& param_views(st.params@) == seq![ParamView::Integer(since(query))] + text_params(
        scope_values(query),
    )
}

fn bind_all(params: &mut Vec<Param>, values: Vec<String>)
    ensures
        param_views(final(params)@) == param_views(old(params)@) + text_params(texts(values@)),
{
    let ghost start = param_views(params@);
    let ghost bound = text_params(texts(values@));
    let mut i: usize = 0;
    while i < values.len()
        invariant
            i <= values@.len(),
            bound == text_params(texts(values@)),
            param_views(params@) == start + bound.take(i as int),
        decreases values@.len() - i,
    {
        let ghost before = param_views(params@);
        params.push(Param::Text(values[i].clone()));
        assert(param_views(params@) =~= before.push(ParamView::Text(values@[i as int]@)));
        assert(bound.take(i + 1) =~= bound.take(i as int).push(
            ParamView::Text(values@[i as int]@),
        ));
        i += 1;
    }
    assert(bound.take(values@.len() as int) =~= bound);
}

fn keyword_statement_of(query: &SearchQuery, conjunctive: bool) -> (r: Option<Statement>)
    ensures
        match r {
            Some(st) => query_words(query.text@).len() > 0 && keyword_statement(
                st,
                *query,
                conjunctive,
            ),
            None => query_words(query.text@).len() == 0,
        },
{
    match build_match_expression(query.text.as_str(), conjunctive) {
        None => None,
        Some(expression) => {
            let (scope, values) = scope_clause(query, 4);
            let mut sql = chars(KEYWORD_HEAD);
            append(&mut sql, scope.as_str());
            append(&mut sql, KEYWORD_TAIL);
            let since: i64 = since_of(query);
            let mut params: Vec<Param> = Vec::new();
            params.push(Param::Text(expression));
            params.push(Param::Integer(since));
            params.push(Param::Integer(CANDIDATE_DEPTH as i64));
            assert(param_views(params@) =~= seq![
                ParamView::Text(match_expression(query_words(query.text@), conjunctive)),
                ParamView::Integer(since),
                ParamView::Integer(CANDIDATE_DEPTH as i64),
            ]);
            bind_all(&mut params, values);
            Some(Statement { sql: string(sql.as_slice()), params })
        },
    }
}

/// A conversation retrieved by keyword, with its snippet.
pub type Row = (i64, String);

/// What keyword retrieval needs next, or what it found.
pub enum KeywordSearch {
    /// Run this statement, the strict one if `strict`.
    Run { strict: bool, statement: Statement },
    Found(Vec<Row>),
}

/// Decides how keyword retrieval goes on, given the rows of the passes that have
/// run.
///
/// Precision first; if every word together finds nothing, widen to any word
/// rather than showing an empty page.
pub fn keyword_search(
    query: &SearchQuery,
    strict: Option<Vec<Row>>,
    widened: Option<Vec<Row>>,
) -> (r: KeywordSearch)
    ensures
        match r {
            KeywordSearch::Run { strict: first, statement } => {
                &&& query_words(query.text@).len() > 0
                &&& keyword_statement(statement, *query, first)
                &&& if first {
                    strict is None
                } else {
                    strict is Some && strict->0@.len() == 0 && widened is None
                }
            },
            KeywordSearch::Found(rows) => if query_words(query.text@).len() == 0 {
                rows@.len() == 0
            } else {
                &&& strict is Some
                &&& if strict->0@.len() > 0 {
                    rows == strict->0
                } else {
                    widened == Some(rows)
                }
            },
        },
{
    match strict {
        None => match keyword_statement_of(query, true) {
            None => KeywordSearch::Found(Vec::new()),
            Some(statement) => KeywordSearch::Run { strict: true, statement },
        },
        Some(rows) => {
            match keyword_statement_of(query, false) {
                None => KeywordSearch::Found(Vec::new()),
                Some(statement) => {
                    if rows.len() > 0 {
                        return KeywordSearch::Found(rows);
                    }
                    match widened {
                        None => KeywordSearch::Run { strict: false, statement },
                        Some(rows) => KeywordSearch::Found(rows),
                    }
                },
            }
        },
    }
}

/// Does a query permit every conversation?
pub open spec fn unfiltered(query: SearchQuery) -> bool {
    &&& query.sources@.len() == 0
    &&& query.since is None
    &&& query.repo is None
    &&& query.file is None
}

/// The statement that lists the conversations a filter permits, or `None` when
/// everything is permitted, which is the common case and needs no statement.
pub fn allowed_ids(query: &SearchQuery) -> (r: Option<Statement>)
    ensures
        r is None <==> unfiltered(*query),
        r matches Some(st) ==> allowed_statement(st, *query),
{
    if query.sources.len() == 0 && query.since.is_none() && query.repo.is_none()
        && query.file.is_none() {
        return None;
    }
    let (scope, values) = scope_clause(query, 2);
    let mut sql = chars(ALLOWED_HEAD);
    append(&mut sql, scope.as_str());
    let since: i64 = since_of(query);
    let mut params: Vec<Param> = Vec::new();
    params.push(Param::Integer(since));
    assert(param_views(params@) =~= seq![ParamView::Integer(since)]);
    bind_all(&mut params, values);
    Some(Statement { sql: string(sql.as_slice()), params })
}

/// What semantic retrieval needs next.
pub enum SemanticSearch {
    /// Nothing: it has no say.
    Abstain,
    /// The nearest conversations, at most `depth` of them, among those that the
    /// statement permits; among all where there is none.
    Nearest { depth: usize, permitted: Option<Statement> },
}

/// Decides how semantic retrieval goes on once the query has been embedded.
///
/// An all-zero vector is the embedder abstaining: nothing in the query was in its
/// vocabulary. Scoring it would rank everything equally unrelated.
pub fn semantic_search(query: &SearchQuery, all_zero: bool) -> (r: SemanticSearch)
    ensures
        match r {
            SemanticSearch::Abstain => all_zero,
            SemanticSearch::Nearest { depth, permitted } => {
                &&& !all_zero
                &&& depth == CANDIDATE_DEPTH
                &&& permitted is None <==> unfiltered(*query)
                &&& permitted matches Some(st) ==> allowed_statement(st, *query)
            },
        },
{
    if all_zero {
        SemanticSearch::Abstain
    } else {
        SemanticSearch::Nearest { depth: CANDIDATE_DEPTH, permitted: allowed_ids(query) }
    }
}

pub const LOAD_HEAD: &'static str = "SELECT id, source, external_id, title, project_path, git_branch,
                started_at, updated_at, message_count
         FROM conversations WHERE id IN (";

/// The statement that loads these conversations.
pub open spec fn load_sql(ids: Seq<i64>) -> Seq<char> {
    LOAD_HEAD@ + join(ids.map_values(|i: i64| decimal_int(i as int)), ","@) + ")"@
}

/// The statement that loads these conversations; `None` where there are none.
pub fn load_conversations(ids: &[i64]) -> (r: Option<String>)
    ensures
        match r {
            Some(sql) => ids@.len() > 0 && sql@ == load_sql(ids@),
            None => ids@.len() == 0,
        },
{
    if ids.len() == 0 {
        return None;
    }
    let comma = chars(",");
    let ghost numbers = ids@.map_values(|i: i64| decimal_int(i as int));
    let mut list: Vec<char> = Vec::new();
    let mut i: usize = 0;
    while i < ids.len()
        invariant
            i <= ids@.len(),
            comma@ == ","@,
            numbers == ids@.map_values(|i: i64| decimal_int(i as int)),
            list@ == join(numbers.take(i as int), comma@),
        decreases ids@.len() - i,
    {
        let digits = decimal_of_signed(ids[i]);
        join_next(
            &mut list,
            i == 0,
            digits.as_slice(),
            comma.as_slice(),
            Ghost(numbers.take(i as int)),
        );
        assert(numbers.take(i as int).push(digits@) =~= numbers.take(i + 1));
        i += 1;
    }
    assert(numbers.take(ids@.len() as int) =~= numbers);
    let mut sql = chars(LOAD_HEAD);
    sql.extend_from_slice(list.as_slice());
    append(&mut sql, ")");
    Some(string(sql.as_slice()))
}

// ---- Opening lines --------------------------------------------------------

/// How much of a conversation's first message is shown.
pub const OPENING_LEN: usize = 160;

/// The start of a conversation's first message on one line; empty where there
/// is none.
pub open spec fn opening(text: Option<Seq<char>>) -> Seq<char> {
    match text {
        None => seq![],
        Some(t) => replace(
            if t.len() > OPENING_LEN {
                t.take(OPENING_LEN as int).push('…')
            } else {
                t
            },
            '\n',
            ' ',
        ),
    }
}

/// Cuts a conversation's first message down to an opening line.
pub fn opening_line(text: Option<&str>) -> (r: String)
    ensures
        r@ == opening(
            match text {
                Some(t) => Some(t@),
                None => None,
            },
        ),
{
    match text {
        None => String::new(),
        Some(t) => {
            let whole = chars(t);
            let mut line: Vec<char> = Vec::new();
            if whole.len() > OPENING_LEN {
                line.extend_from_slice(slice_subrange(whole.as_slice(), 0, OPENING_LEN));
                line.push('…');
                assert(line@ =~= whole@.take(OPENING_LEN as int).push('…'));
            } else {
                line.extend_from_slice(whole.as_slice());
                assert(line@ =~= whole@);
            }
            string(replaced(line.as_slice(), '\n', ' ').as_slice())
        },
    }
}

/// An opening line is one line, and at most one character longer than what is
/// shown of the message.
pub proof fn law_opening_is_one_short_line(text: Option<Seq<char>>)
    ensures
        opening(text).len() <= OPENING_LEN + 1,
        !opening(text).contains('\n'),
{
    if opening(text).contains('\n') {
        let i = choose|i: int| 0 <= i < opening(text).len() && opening(text)[i] == '\n';
        assert(opening(text)[i] != '\n');
    }
}

} // verus!
