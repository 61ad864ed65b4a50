//! The tables of the index.

use vstd::prelude::*;

verus! {

pub const SCHEMA_VERSION: i32 = 3;

/// Brings a database up to date.
#[derive(Debug, PartialEq, Eq)]
pub struct Migration {
    /// What to run.
    pub sql: &'static str,
    /// The version that the database then has.
    pub version: i32,
}

/// What a database at version `current` needs; `None` if it is up to date.
pub fn migrate(current: i32) -> (r: Option<Migration>)
    ensures
        match r {
            None => current >= SCHEMA_VERSION,
            Some(m) => current < SCHEMA_VERSION && m.version == SCHEMA_VERSION && m.sql@ == SCHEMA@,
        },
{
    if current >= SCHEMA_VERSION {
        None
    } else {
        Some(Migration { sql: SCHEMA, version: SCHEMA_VERSION })
    }
}

/// The tables and indexes of the database.
pub const SCHEMA: &'static str = "
        CREATE TABLE IF NOT EXISTS conversations (
            id            INTEGER PRIMARY KEY,
            source        TEXT    NOT NULL,
            external_id   TEXT    NOT NULL,
            title         TEXT    NOT NULL,
            project_path  TEXT,
            git_branch    TEXT,
            started_at    INTEGER NOT NULL,
            updated_at    INTEGER NOT NULL,
            message_count INTEGER NOT NULL DEFAULT 0,
            UNIQUE(source, external_id)
        );
        CREATE INDEX IF NOT EXISTS conversations_updated  ON conversations(updated_at DESC);
        CREATE INDEX IF NOT EXISTS conversations_source   ON conversations(source, updated_at DESC);

        CREATE TABLE IF NOT EXISTS messages (
            id              INTEGER PRIMARY KEY,
            conversation_id INTEGER NOT NULL REFERENCES conversations(id) ON DELETE CASCADE,
            seq             INTEGER NOT NULL,
            role            TEXT    NOT NULL,
            text            TEXT    NOT NULL,
            created_at      INTEGER NOT NULL
        );
        CREATE INDEX IF NOT EXISTS messages_conv ON messages(conversation_id, seq);

        -- Standalone (not external-content) so snippet() and highlight() work
        -- directly. rowid is always the conversation id.
        CREATE VIRTUAL TABLE IF NOT EXISTS conversations_fts USING fts5(
            title,
            body,
            tokenize = 'porter unicode61 remove_diacritics 2'
        );

        -- One row per source file already read, so a re-index reads each file
        -- once: unchanged mtime+size+digest means skip.
        CREATE TABLE IF NOT EXISTS seen_files (
            source TEXT    NOT NULL,
            path   TEXT    NOT NULL,
            mtime  INTEGER NOT NULL,
            size   INTEGER NOT NULL,
            digest TEXT    NOT NULL,
            PRIMARY KEY (source, path)
        );

        CREATE TABLE IF NOT EXISTS source_status (
            source      TEXT PRIMARY KEY,
            state       TEXT    NOT NULL,
            last_ok_at  INTEGER,
            last_error  TEXT,
            frozen_at   INTEGER
        );

        -- Quick capture (⌘⇧N).
        CREATE TABLE IF NOT EXISTS notes (
            id         INTEGER PRIMARY KEY,
            text       TEXT    NOT NULL,
            created_at INTEGER NOT NULL
        );

        -- Clipboard scratchpad (⌘⇧V). Off by default; see settings.
        CREATE TABLE IF NOT EXISTS clips (
            id         INTEGER PRIMARY KEY,
            text       TEXT    NOT NULL,
            app        TEXT,
            created_at INTEGER NOT NULL
        );
        CREATE INDEX IF NOT EXISTS clips_recent ON clips(created_at DESC);

        -- Dense vectors for the semantic half of search.
        CREATE TABLE IF NOT EXISTS embeddings (
            conversation_id INTEGER PRIMARY KEY REFERENCES conversations(id) ON DELETE CASCADE,
            model           TEXT NOT NULL,
            vec             BLOB NOT NULL
        );

        -- Trained embedding model state (vocabulary + term vectors).
        CREATE TABLE IF NOT EXISTS embedding_model (
            id         INTEGER PRIMARY KEY CHECK (id = 1),
            kind       TEXT    NOT NULL,
            dim        INTEGER NOT NULL,
            trained_at INTEGER NOT NULL,
            doc_count  INTEGER NOT NULL,
            payload    BLOB    NOT NULL
        );

        -- Clustered index over the embeddings, rebuilt when they are.
        -- `model` and `vectors` are the staleness key: either changing means
        -- the stored clusters no longer describe the live vectors.
        CREATE TABLE IF NOT EXISTS ann_index (
            id       INTEGER PRIMARY KEY CHECK (id = 1),
            model    TEXT    NOT NULL,
            vectors  INTEGER NOT NULL,
            built_at INTEGER NOT NULL,
            payload  BLOB    NOT NULL
        );

        CREATE TABLE IF NOT EXISTS settings (
            key   TEXT PRIMARY KEY,
            value TEXT NOT NULL
        );

        -- The repository a conversation happened in. `key` is a normalised
        -- remote URL where there is one, so the same repo cloned to two paths
        -- — or simply moved — stays one row. `root` is only the last place it
        -- was seen and may no longer exist.
        CREATE TABLE IF NOT EXISTS repos (
            id     INTEGER PRIMARY KEY,
            key    TEXT NOT NULL UNIQUE,
            root   TEXT NOT NULL,
            remote TEXT,
            name   TEXT NOT NULL
        );

        CREATE TABLE IF NOT EXISTS conversation_repo (
            conversation_id INTEGER PRIMARY KEY REFERENCES conversations(id) ON DELETE CASCADE,
            repo_id         INTEGER NOT NULL REFERENCES repos(id) ON DELETE CASCADE,
            -- 'recorded' (the source knew the working directory) or
            -- 'inferred' (it was reconstructed from paths in the transcript).
            origin          TEXT    NOT NULL
        );
        CREATE INDEX IF NOT EXISTS conversation_repo_by_repo ON conversation_repo(repo_id);

        -- Repo-relative paths a conversation mentioned, with how often. The
        -- join that answers \"what was I thinking when I wrote this\".
        CREATE TABLE IF NOT EXISTS conversation_file (
            conversation_id INTEGER NOT NULL REFERENCES conversations(id) ON DELETE CASCADE,
            repo_id         INTEGER NOT NULL REFERENCES repos(id) ON DELETE CASCADE,
            path            TEXT    NOT NULL,
            mentions        INTEGER NOT NULL DEFAULT 1,
            PRIMARY KEY (conversation_id, path)
        );
        CREATE INDEX IF NOT EXISTS conversation_file_lookup ON conversation_file(repo_id, path);
        ";

} // verus!
