use inventory_core::fusion::{candidate_ids, is_ranking, search, show_opening, SearchHit};
use inventory_core::model::{Conversation, SourceId};
use inventory_core::schema::{migrate, SCHEMA_VERSION};
use inventory_core::score::{worth_of, Score};
use inventory_core::search::{
    allowed_ids, build_match_expression, keyword_search, load_conversations, opening_line, scope_clause,
    semantic_search, source_filter, KeywordSearch, MatchedVia, Param, Row, SearchQuery, SemanticSearch, Statement,
};
use rusqlite::types::Value;
use rusqlite::{params_from_iter, Connection};

#[test]
fn match_expressions_quote_user_input() {
    assert_eq!(
        build_match_expression("auth middleware", true).unwrap(),
        "\"auth\"* AND \"middleware\"*"
    );
    assert_eq!(
        build_match_expression("auth middleware", false).unwrap(),
        "\"auth\"* OR \"middleware\"*"
    );
    assert!(build_match_expression("   ", true).is_none());
}

/// FTS5 operators typed by a user must be treated as text, not syntax.
#[test]
fn match_expressions_neutralise_fts_operators() {
    let expr = build_match_expression("NEAR(a b) OR \"x\" -y*", true).unwrap();
    assert!(!expr.contains("NEAR("), "{expr}");
    assert!(expr.starts_with('"'));
    // Every token ends up individually quoted and prefix-matched.
    assert!(expr.contains("\"NEAR\"*"), "{expr}");
    assert!(expr.contains("\"y\"*"), "{expr}");
}

#[test]
fn source_filter_is_empty_for_all_sources() {
    assert_eq!(source_filter(&[]), "");
    assert_eq!(
        source_filter(&[SourceId::Zed, SourceId::Codex]),
        " AND c.source IN ('zed','codex')"
    );
}

#[test]
fn words_of_every_script_are_quoted() {
    assert_eq!(build_match_expression("naïve_1 日本-2", true).unwrap(), "\"naïve_1\"* AND \"日本\"* AND \"2\"*");
    let expr = build_match_expression("a\"b\" c", true).unwrap();
    let pieces: Vec<&str> = expr.split('"').collect();
    assert_eq!(pieces, vec!["", "a", "* AND ", "b", "* AND ", "c", "*"]);
}

fn query(text: &str) -> SearchQuery {
    SearchQuery::new(text.to_string())
}

#[test]
fn a_new_query_asks_for_everything() {
    let q = query("x");
    assert_eq!(q.text, "x");
    assert!(q.sources.is_empty() && q.since.is_none() && q.repo.is_none() && q.file.is_none());
    assert_eq!(q.limit, 20);
    assert!(q.meaning);
    assert!(!q.is_blank());
    assert!(query(" \n").is_blank());
}

#[test]
fn values_are_bound_and_never_spelled_out() {
    let mut q = query("x");
    assert_eq!(scope_clause(&q, 4), (String::new(), Vec::new()));
    q.file = Some("'; DROP TABLE repos".to_string());
    let (sql, values) = scope_clause(&q, 4);
    assert!(sql.contains("cf.path = ?4)") && !sql.contains("DROP"));
    assert_eq!(values, vec!["'; DROP TABLE repos".to_string()]);
    q.repo = Some("api".to_string());
    q.sources = vec![SourceId::Zed];
    let (sql, values) = scope_clause(&q, 4);
    assert!(sql.starts_with(" AND c.source IN ('zed') AND EXISTS"));
    assert!(sql.contains("r.key = ?4 OR r.name = ?4") && sql.contains("cf.path = ?5)"));
    assert_eq!(values, vec!["api".to_string(), "'; DROP TABLE repos".to_string()]);
    q.file = Some("other".to_string());
    assert_eq!(scope_clause(&q, 4).0, sql);
}

#[test]
fn keyword_search_widens_only_when_it_finds_nothing() {
    let q = query("a b");
    match keyword_search(&q, None, None) {
        KeywordSearch::Run { strict, statement } => {
            assert!(strict);
            assert_eq!(statement.params[0], Param::Text("\"a\"* AND \"b\"*".to_string()));
            assert_eq!(statement.params[1], Param::Integer(i64::MIN));
            assert_eq!(statement.params[2], Param::Integer(200));
        }
        KeywordSearch::Found(_) => panic!("nothing has been run"),
    }
    match keyword_search(&q, Some(Vec::new()), None) {
        KeywordSearch::Run { strict, statement } => {
            assert!(!strict);
            assert_eq!(statement.params[0], Param::Text("\"a\"* OR \"b\"*".to_string()));
        }
        KeywordSearch::Found(_) => panic!("one pass is left"),
    }
    let row: Row = (7, "s".to_string());
    match keyword_search(&q, Some(vec![row.clone()]), None) {
        KeywordSearch::Found(rows) => assert_eq!(rows, vec![row.clone()]),
        KeywordSearch::Run { .. } => panic!("the strict pass found something"),
    }
    match keyword_search(&q, Some(Vec::new()), Some(vec![row.clone()])) {
        KeywordSearch::Found(rows) => assert_eq!(rows, vec![row]),
        KeywordSearch::Run { .. } => panic!("both passes have run"),
    }
    assert!(matches!(keyword_search(&query("--"), None, None), KeywordSearch::Found(rows) if rows.is_empty()));
}

#[test]
fn unfiltered_queries_permit_everything() {
    let mut q = query("x");
    assert!(allowed_ids(&q).is_none());
    q.since = Some(5);
    let st = allowed_ids(&q).unwrap();
    assert_eq!(st.sql, "SELECT c.id FROM conversations c WHERE c.updated_at >= ?1");
    assert_eq!(st.params, vec![Param::Integer(5)]);
    q.since = None;
    q.repo = Some("r".to_string());
    let st = allowed_ids(&q).unwrap();
    assert_eq!(st.params, vec![Param::Integer(i64::MIN), Param::Text("r".to_string())]);
    assert!(st.sql.contains("?2"));
}

#[test]
fn semantic_search_abstains_on_an_all_zero_vector() {
    let mut q = query("x");
    assert!(matches!(semantic_search(&q, true), SemanticSearch::Abstain));
    assert!(matches!(semantic_search(&q, false), SemanticSearch::Nearest { depth: 200, permitted: None }));
    q.sources = vec![SourceId::Kiro];
    match semantic_search(&q, false) {
        SemanticSearch::Nearest { permitted: Some(st), .. } => assert!(st.sql.ends_with(" AND c.source IN ('kiro')")),
        _ => panic!("a filtered query permits only some"),
    }
}

#[test]
fn conversations_are_loaded_by_id() {
    assert!(load_conversations(&[]).is_none());
    assert!(load_conversations(&[3, -4]).unwrap().ends_with("FROM conversations WHERE id IN (3,-4)"));
}

#[test]
fn an_opening_is_one_short_line() {
    assert_eq!(opening_line(None), "");
    assert_eq!(opening_line(Some("one\ntwo")), "one two");
    let exact = "é".repeat(160);
    assert_eq!(opening_line(Some(&exact)), exact);
    let long = opening_line(Some(&"x\n".repeat(100)));
    assert_eq!(long.chars().count(), 161);
    assert!(long.ends_with('…') && !long.contains('\n'));
}

#[test]
fn labels_name_the_arms() {
    assert_eq!(MatchedVia::Keyword.label(), "keyword");
    assert_eq!(MatchedVia::Meaning.label(), "meaning");
    assert_eq!(MatchedVia::Both.label(), "keyword+meaning");
}

// ---- Fusion ---------------------------------------------------------------

fn conversation(id: i64, updated_at: i64) -> Conversation {
    Conversation {
        id,
        source: SourceId::Zed,
        external_id: format!("x{id}"),
        title: format!("t{id}"),
        project_path: Some("/p".to_string()),
        git_branch: None,
        started_at: 1,
        updated_at,
        message_count: 2,
    }
}

fn row(id: i64) -> Row {
    (id, format!("[{id}]"))
}

fn ids(hits: &[SearchHit]) -> Vec<i64> {
    hits.iter().map(|h| h.conversation.id).collect()
}

#[test]
fn a_score_is_the_sum_over_the_lists() {
    // 1/61 + 1/62 + 0.35/63
    let w = worth_of(1, 2, 3);
    let exact = 1.0 / 61.0 + 1.0 / 62.0 + 0.35 / 63.0;
    assert!((w.num as f64 / w.den as f64 - exact).abs() < 1e-15);
    assert_eq!(w, Score { num: 20 * 62 * 63 + 20 * 61 * 63 + 7 * 61 * 62, den: 20 * 61 * 62 * 63 });
    let only = worth_of(0, 5, 1);
    assert_eq!(only, Score { num: 20 * 61 + 7 * 65, den: 20 * 65 * 61 });
    assert!(worth_of(1, 1, 9).is_more(&worth_of(2, 1, 9)));
    assert!(worth_of(200, 1, 9).is_more(&worth_of(0, 1, 9)));
    assert!(worth_of(3, 1, 1).is_more(&worth_of(3, 1, 2)));
    assert!(worth_of(3, 4, 5).is_level(&worth_of(4, 3, 5)));
}

#[test]
fn rankings_are_short_and_without_repeats() {
    assert!(is_ranking(&[]));
    assert!(is_ranking(&[3, 1, 2]));
    assert!(!is_ranking(&[3, 1, 3]));
    let long: Vec<i64> = (0..201).collect();
    assert!(!is_ranking(&long));
    assert!(is_ranking(&long[..200]));
    assert_eq!(candidate_ids(&[1, 2], &[2, 3, 1, 4]), vec![1, 2, 3, 4]);
}

#[test]
fn both_arms_are_fused_and_labelled() {
    let q = query("words");
    let keyword = vec![row(1), row(2)];
    let semantic = vec![2, 3];
    let list = vec![conversation(1, 10), conversation(2, 10), conversation(3, 10)];
    let r = search(&q, &keyword, &semantic, &list, "model".to_string(), true);
    assert_eq!(r.semantic_model, "model");
    assert!(r.semantic_available);
    assert_eq!(r.total_candidates, 3);
    assert_eq!(ids(&r.hits), vec![2, 1, 3]);
    assert_eq!(r.hits[0].matched_via, MatchedVia::Both);
    assert_eq!(r.hits[0].keyword_rank, Some(2));
    assert_eq!(r.hits[0].semantic_rank, Some(1));
    assert_eq!(r.hits[0].snippet, "[2]");
    assert_eq!(r.hits[0].score, worth_of(2, 1, 2));
    assert_eq!(r.hits[0].conversation, conversation(2, 10));
    assert_eq!(r.hits[1].matched_via, MatchedVia::Keyword);
    assert_eq!(r.hits[1].semantic_rank, None);
    assert_eq!(r.hits[2].matched_via, MatchedVia::Meaning);
    assert_eq!(r.hits[2].keyword_rank, None);
    assert_eq!(r.hits[2].snippet, "");
}

#[test]
fn recency_decides_between_hits_that_rank_alike() {
    let q = query("words");
    // Each arm's first; the one that was updated last comes first.
    let list = vec![conversation(1, 10), conversation(2, 20)];
    let r = search(&q, &vec![row(1)], &vec![2], &list, String::new(), false);
    assert_eq!(ids(&r.hits), vec![2, 1]);
    assert!(!r.semantic_available);
    // A hit that is far ahead by its words stays ahead of a newer one.
    let list: Vec<Conversation> = (1..=60).map(|i| conversation(i, i)).collect();
    let keyword: Vec<Row> = (1..=60).map(row).collect();
    let r = search(&q, &keyword, &Vec::new(), &list, String::new(), false);
    assert_eq!(r.hits.len(), 20);
    assert_eq!(ids(&r.hits)[0], 1);
}

#[test]
fn without_meaning_the_semantic_arm_is_ignored() {
    let mut q = query("words");
    q.meaning = false;
    let list = vec![conversation(1, 1), conversation(2, 2)];
    let r = search(&q, &vec![row(1)], &vec![2], &list, String::new(), true);
    assert_eq!(ids(&r.hits), vec![1]);
    assert_eq!(r.total_candidates, 1);
}

#[test]
fn blank_queries_find_nothing() {
    let r = search(&query("  "), &vec![row(1)], &vec![2], &vec![conversation(1, 1)], "m".to_string(), true);
    assert!(r.hits.is_empty());
    assert_eq!(r.total_candidates, 0);
    assert_eq!(r.semantic_model, "m");
    let r = search(&query("x"), &Vec::new(), &Vec::new(), &Vec::new(), "m".to_string(), true);
    assert!(r.hits.is_empty());
    assert_eq!(r.total_candidates, 0);
}

#[test]
fn the_limit_keeps_the_best_and_missing_conversations_drop_out() {
    let mut q = query("words");
    q.limit = 2;
    let keyword: Vec<Row> = (1..=5).map(row).collect();
    // Conversation 1 could not be loaded; it still counts as a candidate.
    let list: Vec<Conversation> = (2..=5).map(|i| conversation(i, 100)).collect();
    let r = search(&q, &keyword, &Vec::new(), &list, String::new(), true);
    assert_eq!(ids(&r.hits), vec![2, 3]);
    assert_eq!(r.total_candidates, 5);
    q.limit = 0;
    let r = search(&q, &keyword, &Vec::new(), &list, String::new(), true);
    assert!(r.hits.is_empty());
}

#[test]
fn a_hit_without_a_snippet_shows_its_opening() {
    let r = search(&query("x"), &vec![row(1)], &vec![2], &vec![conversation(1, 1), conversation(2, 1)], String::new(), true);
    let shown: Vec<String> = r
        .hits
        .into_iter()
        .map(|h| show_opening(h, Some("first\nmessage")))
        .map(|h| format!("{}:{}", h.conversation.id, h.snippet))
        .collect();
    assert_eq!(shown, vec!["1:[1]".to_string(), "2:first message".to_string()]);
}

// ---- The statements against a real database -------------------------------

fn database() -> Connection {
    let conn = Connection::open_in_memory().unwrap();
    let m = migrate(0).unwrap();
    conn.execute_batch(m.sql).unwrap();
    conn.pragma_update(None, "user_version", m.version).unwrap();
    conn
}

fn add(conn: &Connection, c: &Conversation, body: &str) {
    let columns = vec![
        Value::Integer(c.id),
        Value::Text(c.source.slug().to_string()),
        Value::Text(c.external_id.clone()),
        Value::Text(c.title.clone()),
        Value::Integer(c.started_at),
        Value::Integer(c.updated_at),
    ];
    conn.execute(
        "INSERT INTO conversations(id, source, external_id, title, started_at, updated_at)
         VALUES (?1, ?2, ?3, ?4, ?5, ?6)",
        params_from_iter(columns),
    )
    .unwrap();
    let text = vec![Value::Integer(c.id), Value::Text(c.title.clone()), Value::Text(body.to_string())];
    conn.execute("INSERT INTO conversations_fts(rowid, title, body) VALUES (?1, ?2, ?3)", params_from_iter(text))
        .unwrap();
}

fn values(st: &Statement) -> Vec<Value> {
    st.params
        .iter()
        .map(|p| match p {
            Param::Text(t) => Value::Text(t.clone()),
            Param::Integer(n) => Value::Integer(*n),
        })
        .collect()
}

fn run(conn: &Connection, q: &SearchQuery) -> Vec<Row> {
    let mut passes: Vec<Option<Vec<Row>>> = vec![None, None];
    loop {
        match keyword_search(q, passes[0].clone(), passes[1].clone()) {
            KeywordSearch::Found(rows) => return rows,
            KeywordSearch::Run { strict, statement } => {
                let mut st = conn.prepare(&statement.sql).unwrap();
                let rows = st
                    .query_map(params_from_iter(values(&statement)), |r| {
                        Ok((r.get::<_, i64>(0)?, r.get::<_, String>(1)?))
                    })
                    .unwrap();
                let rows: Vec<Row> = rows.map(|r| r.unwrap()).collect();
                passes[if strict { 0 } else { 1 }] = Some(rows);
            }
        }
    }
}

#[test]
fn statements_run_and_highlight_the_words() {
    let conn = database();
    add(&conn, &conversation(1, 10), "Refactor the auth middleware into a shared hook");
    add(&conn, &conversation(2, 20), "nothing about that, only middleware");
    let rows = run(&conn, &query("auth middleware"));
    assert_eq!(rows.len(), 1);
    assert_eq!(rows[0].0, 1);
    assert!(rows[0].1.contains("[auth] [middleware]"), "{}", rows[0].1);
    // No conversation has all of the words, so any of them will do.
    let rows = run(&conn, &query("auth nowhere"));
    assert_eq!(rows.iter().map(|r| r.0).collect::<Vec<i64>>(), vec![1]);
    let mut q = query("middleware");
    q.since = Some(15);
    assert_eq!(run(&conn, &q).iter().map(|r| r.0).collect::<Vec<i64>>(), vec![2]);
    q.sources = vec![SourceId::Codex];
    assert!(run(&conn, &q).is_empty());
    // What would be syntax is text.
    assert!(run(&conn, &query("NEAR( \" * -")).is_empty());
}

#[test]
fn since_is_a_lower_bound_at_every_value() {
    let conn = database();
    add(&conn, &conversation(1, -5), "middleware");
    add(&conn, &conversation(2, 0), "middleware");
    add(&conn, &conversation(3, 5), "middleware");
    let found = |since: Option<i64>| {
        let mut q = query("middleware");
        q.since = since;
        let mut list: Vec<i64> = run(&conn, &q).iter().map(|r| r.0).collect();
        list.sort();
        list
    };
    assert_eq!(found(None), vec![1, 2, 3]);
    assert_eq!(found(Some(-5)), vec![1, 2, 3]);
    assert_eq!(found(Some(0)), vec![2, 3]);
    assert_eq!(found(Some(1)), vec![3]);
    assert_eq!(found(Some(6)), Vec::<i64>::new());
}

#[test]
fn search_can_be_scoped_to_a_repository_and_a_file() {
    let conn = database();
    add(&conn, &conversation(1, 10), "the retry loop in src/auth.rs");
    add(&conn, &conversation(2, 20), "a retry loop somewhere else");
    conn.execute_batch(
        "INSERT INTO repos(id, key, root, name) VALUES (5, 'git:github.com/acme/api', '/w/api', 'api');
         INSERT INTO conversation_repo VALUES (1, 5, 'recorded');
         INSERT INTO conversation_file VALUES (1, 5, 'src/auth.rs', 2);",
    )
    .unwrap();
    let found = |repo: Option<&str>, file: Option<&str>| {
        let mut q = query("retry loop");
        q.repo = repo.map(|s| s.to_string());
        q.file = file.map(|s| s.to_string());
        let permitted = allowed_ids(&q).map(|st| {
            let mut prepared = conn.prepare(&st.sql).unwrap();
            let rows = prepared.query_map(params_from_iter(values(&st)), |r| r.get::<_, i64>(0)).unwrap();
            let mut list: Vec<i64> = rows.map(|r| r.unwrap()).collect();
            list.sort();
            list
        });
        let mut list: Vec<i64> = run(&conn, &q).iter().map(|r| r.0).collect();
        list.sort();
        (list, permitted)
    };
    assert_eq!(found(None, None), (vec![1, 2], None));
    assert_eq!(found(Some("api"), None), (vec![1], Some(vec![1])));
    assert_eq!(found(Some("git:github.com/acme/api"), None), (vec![1], Some(vec![1])));
    assert_eq!(found(None, Some("src/auth.rs")), (vec![1], Some(vec![1])));
    assert_eq!(found(Some("api"), Some("src/auth.rs")), (vec![1], Some(vec![1])));
    assert_eq!(found(Some("no-such-repo"), None), (vec![], Some(vec![])));
    let sql = load_conversations(&[1, 2]).unwrap();
    let mut st = conn.prepare(&sql).unwrap();
    let loaded: Vec<SourceId> = st
        .query_map([], |r| r.get::<_, String>(1))
        .unwrap()
        .map(|s| SourceId::from_stored(&s.unwrap()))
        .collect();
    assert_eq!(loaded, vec![SourceId::Zed, SourceId::Zed]);
}

#[test]
fn a_migrated_database_is_up_to_date() {
    let conn = database();
    let version: i32 = conn.query_row("PRAGMA user_version", [], |r| r.get(0)).unwrap();
    assert_eq!(version, SCHEMA_VERSION);
    assert!(migrate(version).is_none());
    assert!(migrate(SCHEMA_VERSION + 1).is_none());
    // Running the schema again changes nothing.
    conn.execute_batch(migrate(2).unwrap().sql).unwrap();
}

#[test]
fn sources_survive_being_stored() {
    for source in [
        SourceId::ClaudeCode,
        SourceId::Codex,
        SourceId::Cursor,
        SourceId::Zed,
        SourceId::Kiro,
        SourceId::Antigravity,
    ] {
        assert_eq!(SourceId::from_stored(source.slug()), source);
    }
    assert_eq!(SourceId::from_stored("unheard-of"), SourceId::ClaudeCode);
}
