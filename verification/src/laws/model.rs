//! Names in storage.

use crate::model::SourceId;
use crate::repo::Origin;
use vstd::prelude::*;

verus! {

/// A source is stored under its own name, and a name stands for a source only where it
/// is that source's; any other stands for the first.
pub proof fn law_source_names(name: Seq<char>, source: SourceId)
    ensures
        SourceId::ClaudeCode.text() == "cc"@,
        SourceId::Codex.text() == "codex"@,
        SourceId::Cursor.text() == "cursor"@,
        SourceId::Zed.text() == "zed"@,
        SourceId::Kiro.text() == "kiro"@,
        SourceId::Antigravity.text() == "antigravity"@,
        SourceId::stored(name) == source && source != SourceId::ClaudeCode ==> name
            == source.text(),
        (forall|s: SourceId| name != #[trigger] s.text()) ==> SourceId::stored(name)
            == SourceId::ClaudeCode,
{
    if forall|s: SourceId| name != #[trigger] s.text() {
        assert(name != SourceId::Codex.text());
        assert(name != SourceId::Cursor.text());
        assert(name != SourceId::Zed.text());
        assert(name != SourceId::Kiro.text());
        assert(name != SourceId::Antigravity.text());
    }
}

/// Only what is stored as inferred was inferred.
pub proof fn law_origin_names(name: Seq<char>)
    ensures
        Origin::Recorded.text() == "recorded"@,
        Origin::Inferred.text() == "inferred"@,
        Origin::stored(name) == Origin::Inferred <==> name == Origin::Inferred.text(),
{
}

} // verus!
