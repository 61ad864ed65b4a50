//! Queries and statements.

use crate::laws::text::{
    all_in, law_join_puts_separators_between, law_numbers_are_written_in_decimal,
    law_trim_takes_off_the_ends, law_words_stand_between_separators, value,
};
use crate::model::SourceId;
use crate::search::{
    allowed_statement, file_scope, keyword_statement, load_sql, match_expression, opening,
    param_views, query_words, quoted, repo_scope, scope_sql, scope_values, since, source_literal,
    source_scope, unfiltered, ParamView, SearchQuery, Statement, LOAD_HEAD,
};
use crate::text::{
    alphanumeric, decimal, decimal_int, join, trim, trim_end, white_space, word_char, Class,
};
use vstd::prelude::*;

verus! {

/// A query is blank where its text is white space throughout.
pub proof fn law_blank_queries(query: SearchQuery)
    ensures
        query.blank() <==> forall|i: int|
            0 <= i < query.text@.len() ==> white_space(#[trigger] query.text@[i]),
{
    let s = query.text@;
    let none = Seq::<char>::empty();
    if all_in(s, Class::White) {
        law_trim_takes_off_the_ends(s, none, none, Class::White);
        assert(s + none + none =~= s);
    }
    if query.blank() {
        lemma_start_blank(s);
    }
    if forall|i: int| 0 <= i < s.len() ==> white_space(#[trigger] s[i]) {
        assert(all_in(s, Class::White));
    }
}

proof fn lemma_start_blank(s: Seq<char>)
    requires
        trim(s, Class::White).len() == 0,
    ensures
        all_in(s, Class::White),
    decreases s.len(),
{
    if s.len() > 0 && white_space(s.first()) {
        lemma_start_blank(s.drop_first());
        assert forall|i: int| 0 <= i < s.len() implies Class::White.has(#[trigger] s[i]) by {
            if i > 0 {
                assert(s[i] == s.drop_first()[i - 1]);
            }
        }
    } else if s.len() > 0 {
        lemma_end_blank(s);
        assert(s[0] == s.first());
    }
}

proof fn lemma_end_blank(s: Seq<char>)
    requires
        trim_end(s, Class::White).len() == 0,
    ensures
        all_in(s, Class::White),
    decreases s.len(),
{
    if s.len() > 0 {
        lemma_end_blank(s.drop_last());
        assert forall|i: int| 0 <= i < s.len() implies Class::White.has(#[trigger] s[i]) by {
            if i < s.len() - 1 {
                assert(s[i] == s.drop_last()[i]);
            }
        }
    }
}

/// Letters, numbers and the underscore make words, whatever the script; of ASCII nothing
/// else does.
pub proof fn law_word_characters(c: char)
    ensures
        c as u32 >= 128 ==> (word_char(c) <==> alphanumeric(c)),
        (c as u32) < 128 ==> (word_char(c) <==> 'a' <= c <= 'z' || 'A' <= c <= 'Z' || '0' <= c
            <= '9' || c == '_'),
{
}

/// The words of a query are its stretches of word characters, in their order and
/// none left out.
pub proof fn law_query_words(a: Seq<char>, c: char, b: Seq<char>)
    requires
        !word_char(c),
    ensures
        query_words(a + seq![c] + b) == query_words(a) + query_words(b),
        a.len() > 0 && (forall|i: int| 0 <= i < a.len() ==> word_char(#[trigger] a[i]))
            ==> query_words(a) == seq![a],
        a.len() == 0 ==> query_words(a) == Seq::<Seq<char>>::empty(),
{
    law_words_stand_between_separators(a, c, b, Class::NonWord);
}

/// A match expression holds every word, in its quotes and with its star, in their
/// order: all of them are wanted, or any.
pub proof fn law_match_expressions_go_word_by_word(
    a: Seq<Seq<char>>,
    b: Seq<Seq<char>>,
    word: Seq<char>,
)
    ensures
        forall|conjunctive: bool|
            #[trigger] match_expression(seq![word], conjunctive) == "\""@ + word + "\"*"@,
        a.len() > 0 && b.len() > 0 ==> match_expression(a + b, true) == match_expression(a, true)
            + " AND "@ + match_expression(b, true),
        a.len() > 0 && b.len() > 0 ==> match_expression(a + b, false) == match_expression(a, false)
            + " OR "@ + match_expression(b, false),
{
    reveal_strlit("\"");
    reveal_strlit("\"*");
    let f = |w: Seq<char>| quoted(w);
    assert(seq![word].map_values(f) =~= seq![quoted(word)]);
    assert(quoted(word) =~= "\""@ + word + "\"*"@);
    assert((a + b).map_values(f) =~= a.map_values(f) + b.map_values(f));
    law_join_puts_separators_between(a.map_values(f), b.map_values(f), word, " AND "@);
    law_join_puts_separators_between(a.map_values(f), b.map_values(f), word, " OR "@);
}

/// A filter by source lists the name of every source, in quotes and in order; with no
/// source there is no filter.
pub proof fn law_source_filter_lists_every_source(
    a: Seq<SourceId>,
    b: Seq<SourceId>,
    source: SourceId,
)
    ensures
        source_scope(seq![]) == Seq::<char>::empty(),
        source_scope(seq![source]) == " AND c.source IN ("@ + (seq!['\''] + source.text() + seq![
            '\'',
        ]) + ")"@,
        a.len() > 0 && b.len() > 0 ==> exists|x: Seq<char>, y: Seq<char>|
            source_scope(a) == " AND c.source IN ("@ + x + ")"@ && source_scope(b)
                == " AND c.source IN ("@ + y + ")"@ && #[trigger] source_scope(a + b)
                == " AND c.source IN ("@ + #[trigger] (x + ","@ + y) + ")"@,
{
    let f = |s: SourceId| source_literal(s);
    assert(seq![source].map_values(f) =~= seq![source_literal(source)]);
    if a.len() > 0 && b.len() > 0 {
        assert((a + b).map_values(f) =~= a.map_values(f) + b.map_values(f));
        law_join_puts_separators_between(a.map_values(f), b.map_values(f), ","@, ","@);
        let x = join(a.map_values(f), ","@);
        let y = join(b.map_values(f), ","@);
        assert(source_scope(a + b) == " AND c.source IN ("@ + (x + ","@ + y) + ")"@);
    }
}

/// Filters add up: the SQL of a query is that of its sources, its repository and its
/// file, each by itself, and what it binds is numbered from the first place on in
/// that order.
pub proof fn law_filters_add_up(
    query: SearchQuery,
    sources: SearchQuery,
    repo: SearchQuery,
    file: SearchQuery,
    first: nat,
)
    requires
        sources.sources@ == query.sources@ && sources.repo is None && sources.file is None,
        repo.sources@.len() == 0 && repo.repo == query.repo && repo.file is None,
        file.sources@.len() == 0 && file.repo is None && file.file == query.file,
    ensures
        scope_sql(query, first) == scope_sql(sources, first) + scope_sql(repo, first) + scope_sql(
            file,
            first + scope_values(repo).len(),
        ),
        scope_values(query) == scope_values(repo) + scope_values(file),
        scope_values(repo) == (match query.repo {
            Some(text) => seq![text@],
            None => seq![],
        }),
        scope_values(file) == (match query.file {
            Some(text) => seq![text@],
            None => seq![],
        }),
        query.sources@.len() == 0 && query.repo is None && query.file is None ==> scope_sql(
            query,
            first,
        ).len() == 0,
{
    let none = Seq::<char>::empty();
    assert(scope_sql(sources, first) =~= source_scope(query.sources@));
    if query.repo is Some {
        assert(scope_sql(repo, first) =~= repo_scope(first));
        assert(scope_values(repo).len() == 1);
        if query.file is Some {
            assert(scope_sql(file, first + 1) =~= file_scope(first + 1));
        } else {
            assert(scope_sql(file, first + 1) =~= none);
        }
    } else {
        assert(scope_sql(repo, first) =~= none);
        if query.file is Some {
            assert(scope_sql(file, first) =~= file_scope(first));
        } else {
            assert(scope_sql(file, first) =~= none);
        }
    }
    assert(scope_sql(query, first) =~= scope_sql(sources, first) + scope_sql(repo, first)
        + scope_sql(file, first + scope_values(repo).len()));
    assert(scope_values(query) =~= scope_values(repo) + scope_values(file));
}

/// A repository is sought by key or by name, and a file by its path; each condition
/// names the place of its value, in decimal digits.
pub proof fn law_scopes_name_their_places(i: nat)
    ensures
        repo_scope(i) == " AND EXISTS (SELECT 1 FROM conversation_repo cr
                            JOIN repos r ON r.id = cr.repo_id
                           WHERE cr.conversation_id = c.id
                             AND (r.key = ?"@
            + decimal(i) + " OR r.name = ?"@ + decimal(i) + "))"@,
        file_scope(i) == " AND EXISTS (SELECT 1 FROM conversation_file cf
                           WHERE cf.conversation_id = c.id AND cf.path = ?"@
            + decimal(i) + ")"@,
        value(decimal(i)) == i,
{
    law_numbers_are_written_in_decimal(i, 0);
}

/// A keyword statement binds the match expression, the lower bound in time, the depth
/// and then the values of the filters, and its SQL refers to them in this order.
pub proof fn law_keyword_statement_binds_in_order(
    st: Statement,
    query: SearchQuery,
    conjunctive: bool,
    i: int,
)
    requires
        keyword_statement(st, query, conjunctive),
    ensures
        st.sql@ == "SELECT c.id,
                    snippet(conversations_fts, 1, '[', ']', '…', 14) AS snip
             FROM conversations_fts f
             JOIN conversations c ON c.id = f.rowid
             WHERE conversations_fts MATCH ?1
               AND c.updated_at >= ?2"@
            + scope_sql(query, 4) + "
             ORDER BY bm25(conversations_fts, 4.0, 1.0)
             LIMIT ?3"@,
        st.params@.len() == 3 + scope_values(query).len(),
        st.params@[0]@ == ParamView::Text(match_expression(query_words(query.text@), conjunctive)),
        st.params@[1]@ == ParamView::Integer(
            match query.since {
                Some(t) => t,
                None => i64::MIN,
            },
        ),
        st.params@[2]@ == ParamView::Integer(200),
        0 <= i < scope_values(query).len() ==> st.params@[3 + i]@ == ParamView::Text(
            scope_values(query)[i],
        ),
{
    let views = param_views(st.params@);
    assert(views.len() == st.params@.len());
    assert(views[0] == st.params@[0]@);
    assert(views[1] == st.params@[1]@);
    assert(views[2] == st.params@[2]@);
    if 0 <= i < scope_values(query).len() {
        assert(views[3 + i] == st.params@[3 + i]@);
    }
}

/// The statement behind a filter binds the lower bound in time and then the values of
/// the filters, and its SQL refers to them in this order.
pub proof fn law_allowed_statement_binds_in_order(st: Statement, query: SearchQuery, i: int)
    requires
        allowed_statement(st, query),
    ensures
        st.sql@ == "SELECT c.id FROM conversations c WHERE c.updated_at >= ?1"@ + scope_sql(
            query,
            2,
        ),
        st.params@.len() == 1 + scope_values(query).len(),
        st.params@[0]@ == ParamView::Integer(
            match query.since {
                Some(t) => t,
                None => i64::MIN,
            },
        ),
        0 <= i < scope_values(query).len() ==> st.params@[1 + i]@ == ParamView::Text(
            scope_values(query)[i],
        ),
{
    let views = param_views(st.params@);
    assert(views.len() == st.params@.len());
    assert(views[0] == st.params@[0]@);
    if 0 <= i < scope_values(query).len() {
        assert(views[1 + i] == st.params@[1 + i]@);
    }
}

/// Only a query that filters by nothing at all permits everything.
pub proof fn law_unfiltered_queries(query: SearchQuery)
    ensures
        unfiltered(query) <==> scope_sql(query, 2).len() == 0 && query.since is None,
{
    reveal_strlit(" AND c.source IN (");
    reveal_strlit(")");
    reveal_strlit("))");
    if unfiltered(query) {
        assert(scope_sql(query, 2) =~= Seq::<char>::empty());
    }
}

/// Conversations are loaded by a list of their numbers, every one of them and in
/// order.
pub proof fn law_every_conversation_is_loaded(a: Seq<i64>, b: Seq<i64>, id: i64)
    ensures
        load_sql(seq![id]) == "SELECT id, source, external_id, title, project_path, git_branch,
                started_at, updated_at, message_count
         FROM conversations WHERE id IN ("@
            + decimal_int(id as int) + ")"@,
        a.len() > 0 && b.len() > 0 ==> exists|x: Seq<char>, y: Seq<char>|
            load_sql(a) == LOAD_HEAD@ + x + ")"@ && load_sql(b) == LOAD_HEAD@ + y + ")"@
                && #[trigger] load_sql(a + b) == LOAD_HEAD@ + #[trigger] (x + ","@ + y) + ")"@,
        id >= 0 ==> value(decimal_int(id as int)) == id,
        id < 0 ==> decimal_int(id as int)[0] == '-' && value(decimal_int(id as int).skip(1)) == -id,
{
    let f = |i: i64| decimal_int(i as int);
    assert(seq![id].map_values(f) =~= seq![decimal_int(id as int)]);
    if a.len() > 0 && b.len() > 0 {
        assert((a + b).map_values(f) =~= a.map_values(f) + b.map_values(f));
        law_join_puts_separators_between(a.map_values(f), b.map_values(f), ","@, ","@);
        let x = join(a.map_values(f), ","@);
        let y = join(b.map_values(f), ","@);
        assert(load_sql(a + b) == LOAD_HEAD@ + (x + ","@ + y) + ")"@);
    }
    if id >= 0 {
        law_numbers_are_written_in_decimal(id as nat, 0);
    } else {
        law_numbers_are_written_in_decimal((-id) as nat, 0);
        assert(decimal_int(id as int).skip(1) =~= decimal((-id) as nat));
    }
}

/// An opening is the message itself, its line ends as blanks; a message of more than
/// 160 characters is cut there, and an ellipsis says so.
pub proof fn law_opening_is_the_start_of_the_message(text: Seq<char>, i: int)
    ensures
        opening(None).len() == 0,
        text.len() <= 160 ==> opening(Some(text)).len() == text.len(),
        text.len() > 160 ==> opening(Some(text)).len() == 161 && opening(Some(text))[160] == '…',
        0 <= i < text.len() && i < 160 ==> opening(Some(text))[i] == (if text[i] == '\n' {
            ' '
        } else {
            text[i]
        }),
{
}

} // verus!
