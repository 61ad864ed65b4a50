//! Conversations and the tools they come from.

use crate::disk::text_view;
use crate::text::{chars, spells};
use vstd::prelude::*;

verus! {

/// The tools whose conversations are indexed.
#[derive(Debug, Clone, Copy, PartialEq, Eq, Structural)]
pub enum SourceId {
    ClaudeCode,
    Codex,
    Cursor,
    Zed,
    Kiro,
    Antigravity,
}

impl SourceId {
    pub open spec fn text(self) -> Seq<char> {
        match self {
            SourceId::ClaudeCode => "cc"@,
            SourceId::Codex => "codex"@,
            SourceId::Cursor => "cursor"@,
            SourceId::Zed => "zed"@,
            SourceId::Kiro => "kiro"@,
            SourceId::Antigravity => "antigravity"@,
        }
    }

    /// The name under which a source is stored.
    pub fn slug(self) -> (r: &'static str)
        ensures
            r@ == self.text(),
    {
        match self {
            SourceId::ClaudeCode => "cc",
            SourceId::Codex => "codex",
            SourceId::Cursor => "cursor",
            SourceId::Zed => "zed",
            SourceId::Kiro => "kiro",
            SourceId::Antigravity => "antigravity",
        }
    }

    /// The source that a stored name stands for. A name that is not known counts
    /// as `ClaudeCode`, so that a row is never lost to it.
    pub open spec fn stored(name: Seq<char>) -> SourceId {
        if name == "codex"@ {
            SourceId::Codex
        } else if name == "cursor"@ {
            SourceId::Cursor
        } else if name == "zed"@ {
            SourceId::Zed
        } else if name == "kiro"@ {
            SourceId::Kiro
        } else if name == "antigravity"@ {
            SourceId::Antigravity
        } else {
            SourceId::ClaudeCode
        }
    }

    pub fn from_stored(name: &str) -> (r: SourceId)
        ensures
            r == SourceId::stored(name@),
    {
        let text = chars(name);
        let text = text.as_slice();
        if spells(text, "codex") {
            SourceId::Codex
        } else if spells(text, "cursor") {
            SourceId::Cursor
        } else if spells(text, "zed") {
            SourceId::Zed
        } else if spells(text, "kiro") {
            SourceId::Kiro
        } else if spells(text, "antigravity") {
            SourceId::Antigravity
        } else {
            SourceId::ClaudeCode
        }
    }
}

/// A source survives being stored.
pub proof fn law_source_round_trip(source: SourceId)
    ensures
        SourceId::stored(source.text()) == source,
{
    reveal_strlit("cc");
    reveal_strlit("codex");
    reveal_strlit("cursor");
    reveal_strlit("zed");
    reveal_strlit("kiro");
    reveal_strlit("antigravity");
    assert("zed"@.len() == 3 && "kiro"@.len() == 4 && "codex"@.len() == 5 && "cursor"@.len() == 6
        && "antigravity"@.len() == 11 && "cc"@.len() == 2);
}

/// A conversation, without its messages. Times are in Unix seconds.
#[derive(Debug, Clone, PartialEq, Eq)]
pub struct Conversation {
    pub id: i64,
    pub source: SourceId,
    /// The name that the source itself gives the conversation.
    pub external_id: String,
    pub title: String,
    pub project_path: Option<String>,
    pub git_branch: Option<String>,
    pub started_at: i64,
    pub updated_at: i64,
    pub message_count: i64,
}

/// A [`Conversation`] as a value of the specification.
pub struct ConversationView {
    pub id: i64,
    pub source: SourceId,
    pub external_id: Seq<char>,
    pub title: Seq<char>,
    pub project_path: Option<Seq<char>>,
    pub git_branch: Option<Seq<char>>,
    pub started_at: i64,
    pub updated_at: i64,
    pub message_count: i64,
}

impl View for Conversation {
    type V = ConversationView;

    open spec fn view(&self) -> ConversationView {
        ConversationView {
            id: self.id,
            source: self.source,
            external_id: self.external_id@,
            title: self.title@,
            project_path: text_view(self.project_path),
            git_branch: text_view(self.git_branch),
            started_at: self.started_at,
            updated_at: self.updated_at,
            message_count: self.message_count,
        }
    }
}

fn copied_text(t: &Option<String>) -> (c: Option<String>)
    ensures
        text_view(c) == text_view(*t),
{
    match t {
        Some(s) => Some(s.clone()),
        None => None,
    }
}

impl Conversation {
    /// The same conversation once more.
    pub fn copied(&self) -> (c: Conversation)
        ensures
            c@ == self@,
    {
        Conversation {
            id: self.id,
            source: self.source,
            external_id: self.external_id.clone(),
            title: self.title.clone(),
            project_path: copied_text(&self.project_path),
            git_branch: copied_text(&self.git_branch),
            started_at: self.started_at,
            updated_at: self.updated_at,
            message_count: self.message_count,
        }
    }
}

} // verus!
