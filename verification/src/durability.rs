//! What holds of an index on disk, whatever happens to it.

use crate::cipher::{encrypted, NONCE_LEN};
use crate::db::{
    backup_path, container, exchange, header, hex_key, holds, is_container, key_bytes,
    lemma_container, opening, plaintext_sqlite, proven, replacement, staging_path, unsealed, Found,
    OpeningView, MAGIC, SQLITE_HEADER,
};
use crate::error::Failure;
use crate::path::{file_name, last_start, lemma_with_extension, with_extension, Platform};
use crate::steps::{after, done, left_by, stopped, Action};
use crate::text::lemma_rfind;
use crate::unix::{dot, stem_len};
use vstd::prelude::*;

verus! {

/// A sealed index is recognised by its header, and is never taken for an
/// unencrypted one.
pub proof fn law_sealed_index_is_recognised(sealed: Seq<u8>, plaintext: Seq<u8>, key: Seq<u8>)
    requires
        holds(sealed, plaintext, key),
    ensures
        header(Some(sealed), MAGIC@.len()) == Some(MAGIC@),
        !plaintext_sqlite(Some(sealed)),
{
    let nonce = choose|nonce: Seq<u8>|
        nonce.len() == NONCE_LEN && sealed == #[trigger] container(
            nonce,
            encrypted(key, nonce, plaintext),
        );
    lemma_container(nonce, encrypted(key, nonce, plaintext));
    lemma_headers_differ(sealed);
}

/// No file has both headers.
proof fn lemma_headers_differ(file: Seq<u8>)
    requires
        header(Some(file), MAGIC@.len()) == Some(MAGIC@),
    ensures
        !plaintext_sqlite(Some(file)),
{
    assert(MAGIC@[0] == 0x49 && SQLITE_HEADER@[0] == 0x53);
    assert(file.take(MAGIC@.len() as int)[0] == file[0]);
    if plaintext_sqlite(Some(file)) {
        assert(file.take(SQLITE_HEADER@.len() as int)[0] == file[0]);
    }
}

/// What was sealed with a key opens with that key, to the same bytes.
pub proof fn law_sealed_index_reopens(
    path: Seq<char>,
    keychain: Seq<char>,
    found: Found,
    plaintext: Seq<u8>,
)
    requires
        found.existed,
        found.key_held == Some(true),
        found.key matches Some(hex) && hex_key(hex@),
        found.sealed matches Some(sealed) && holds(sealed@, plaintext, key_bytes(found.key->0@)),
    ensures
        opening(path, keychain, found) == Ok::<OpeningView, Failure>(
            OpeningView::Ready { key: key_bytes(found.key->0@), plaintext: Some(plaintext) },
        ),
{
    assert(unsealed(found.sealed->0@, key_bytes(found.key->0@), path) == Ok::<Seq<u8>, Failure>(
        plaintext,
    ));
}

/// A file that is there is never opened as though it were a fresh index: it opens
/// to what it holds, or not at all.
pub proof fn law_existing_file_is_no_fresh_index(path: Seq<char>, keychain: Seq<char>, found: Found)
    requires
        found.existed,
    ensures
        opening(path, keychain, found) matches Ok(OpeningView::Ready { key, plaintext })
            ==> found.sealed matches Some(sealed) && plaintext matches Some(p) && unsealed(
            sealed@,
            key,
            path,
        ) == Ok::<Seq<u8>, Failure>(p),
        found.key_held == Some(true) && (found.key matches Some(hex) && hex_key(hex@)) && (
        found.sealed matches Some(sealed) && !is_container(sealed@)) ==> opening(
            path,
            keychain,
            found,
        ) == Err::<OpeningView, Failure>(Failure::LegacyIndexFormat { path }),
{
}

/// For an index whose key is not known to be held no key is ever fetched, so none
/// is made: a lost key is reported as one.
pub proof fn law_no_key_is_made_for_an_existing_index(
    path: Seq<char>,
    keychain: Seq<char>,
    found: Found,
)
    requires
        found.existed,
        found.key_held != Some(true),
    ensures
        opening(path, keychain, found) != Ok::<OpeningView, Failure>(OpeningView::FetchKey),
        !(opening(path, keychain, found) matches Ok(OpeningView::Ready { .. })),
        found.key_held == Some(false) ==> opening(path, keychain, found) matches Err(
            Failure::KeyUnavailable(_),
        ),
{
    if let Some(held) = found.key_held {
        assert(!held);
    }
}

/// The original of a conversion is moved only once the new file has been proven
/// to open to it, byte for byte.
pub proof fn law_original_moves_only_after_proof(
    path: Seq<char>,
    staging: Seq<char>,
    backup: Seq<char>,
    key: Seq<u8>,
    original: Seq<u8>,
    staged: Seq<u8>,
)
    ensures
        proven(path, staging, backup, key, original, staged) is Ok <==> unsealed(
            staged,
            key,
            staging,
        ) == Ok::<Seq<u8>, Failure>(original),
{
}

/// An interruption of sealing never corrupts the sealed file that is there: at
/// every moment the file at `dest` is the old one or the new one, whole. No other
/// file changes but the one beside it.
pub proof fn law_interrupted_seal_keeps_the_index(
    on: Platform,
    files: Map<Seq<char>, Seq<u8>>,
    dest: Seq<char>,
    sealed: Seq<u8>,
    state: Map<Seq<char>, Seq<u8>>,
    other: Seq<char>,
)
    requires
        with_extension(on, dest, "sealing"@) != dest,
        left_by(files, replacement(on, dest, sealed), state),
    ensures
        state.contains_pair(dest, sealed) || (files.contains_key(dest) <==> state.contains_key(
            dest,
        )) && state[dest] == files[dest],
        files.contains_key(dest) ==> state.contains_key(dest),
        other != dest && other != with_extension(on, dest, "sealing"@) ==> (files.contains_key(other)
            <==> state.contains_key(other)) && state[other] == files[other],
{
    let todo = replacement(on, dest, sealed);
    let (n, partial) = choose|n: nat, partial: Seq<u8>| #[trigger]
        stopped(files, todo, state, n, partial);
    reveal_with_fuel(after, 3);
    assert(after(files, todo, 0) == files);
    assert(after(files, todo, 1) == done(files, todo[0]));
    assert(after(files, todo, 2) == done(done(files, todo[0]), todo[1]));
}

/// A seal that runs to its end leaves the sealed file in place and nothing beside
/// it.
pub proof fn law_finished_seal_is_in_place(
    on: Platform,
    files: Map<Seq<char>, Seq<u8>>,
    dest: Seq<char>,
    sealed: Seq<u8>,
)
    requires
        with_extension(on, dest, "sealing"@) != dest,
    ensures
        after(files, replacement(on, dest, sealed), 2).contains_pair(dest, sealed),
        !after(files, replacement(on, dest, sealed), 2).contains_key(
            with_extension(on, dest, "sealing"@),
        ),
{
    let todo = replacement(on, dest, sealed);
    reveal_with_fuel(after, 3);
    assert(after(files, todo, 1) == done(files, todo[0]));
    assert(after(files, todo, 2) == done(done(files, todo[0]), todo[1]));
}

/// All that a conversion does on disk.
pub open spec fn conversion(on: Platform, path: Seq<char>, sealed: Seq<u8>) -> Seq<Action> {
    let staging = staging_path(on, path);
    replacement(on, staging, sealed) + exchange(path, staging, backup_path(on, path))
}

/// Are the files of a conversion apart from the original?
pub open spec fn set_apart(on: Platform, path: Seq<char>) -> bool {
    &&& staging_path(on, path) != path
    &&& backup_path(on, path) != path
    &&& with_extension(on, staging_path(on, path), "sealing"@) != path
}

/// The files beside an index are apart from it, unless it has no file name or is
/// itself named like the staging file of a seal or of a conversion.
pub proof fn law_ordinary_names_are_apart(on: Platform, path: Seq<char>)
    requires
        file_name(on, path) is Some,
        !".sealing"@.is_suffix_of(path),
        !".converting"@.is_suffix_of(path),
    ensures
        with_extension(on, path, "sealing"@) != path,
        set_apart(on, path),
{
    reveal_strlit("sealing");
    reveal_strlit(".sealing");
    reveal_strlit("converting");
    reveal_strlit(".converting");
    assert(dot() + "sealing"@ =~= ".sealing"@);
    assert(dot() + "converting"@ =~= ".converting"@);
    lemma_extension(on, path, "sealing"@);
    lemma_extension(on, path, "converting"@);
    lemma_extension(on, staging_path(on, path), "sealing"@);
    lemma_backup_is_apart(on, path);
}

/// A path with its extension replaced ends with the new one.
proof fn lemma_extension(on: Platform, p: Seq<char>, ext: Seq<char>)
    ensures
        file_name(on, p) is Some ==> (dot() + ext).is_suffix_of(with_extension(on, p, ext)),
        file_name(on, p) is None ==> with_extension(on, p, ext) == p,
{
    lemma_with_extension(on, p, ext);
    if file_name(on, p) is Some {
        let q = with_extension(on, p, ext);
        let n = q.len() as int;
        let m = (dot() + ext).len() as int;
        assert(q.subrange(n - m, n) =~= dot() + ext);
    }
}

/// The backup never has the name of the index: of an extension in two parts only
/// the last is ever replaced.
proof fn lemma_backup_is_apart(on: Platform, path: Seq<char>)
    requires
        file_name(on, path) is Some,
    ensures
        backup_path(on, path) != path,
{
    reveal_strlit("plaintext.bak");
    let ext = "plaintext.bak"@;
    lemma_with_extension(on, path, ext);
    let name = file_name(on, path)->0;
    let s = last_start(on, path);
    let stem = stem_len(name);
    lemma_rfind(name, '.');
    if backup_path(on, path) == path {
        let n = path.len() as int;
        assert(n == s + stem + 14);
        assert(path[n - 1] == ext[12]);
        assert(path[n - 4] == ext[9]);
        assert(s + name.len() == n);
        assert(name[name.len() - 4] == path[n - 4]);
    }
}

/// The original outlives a conversion: at every moment it is at its path or in
/// the backup, whole, and where it is in the backup the new index is there too,
/// whole, in the staging file or at the path. So an interruption at any point
/// leaves a working index behind.
pub proof fn law_interrupted_conversion_keeps_the_original(
    on: Platform,
    files: Map<Seq<char>, Seq<u8>>,
    path: Seq<char>,
    original: Seq<u8>,
    sealed: Seq<u8>,
    state: Map<Seq<char>, Seq<u8>>,
)
    requires
        set_apart(on, path),
        files.contains_pair(path, original),
        left_by(files, conversion(on, path, sealed), state),
    ensures
        state.contains_pair(path, original) || state.contains_pair(backup_path(on, path), original) && (
        state.contains_pair(staging_path(on, path), sealed) || state.contains_pair(path, sealed)),
{
    let todo = conversion(on, path, sealed);
    let (n, partial) = choose|n: nat, partial: Seq<u8>| #[trigger]
        stopped(files, todo, state, n, partial);
    lemma_conversion(on, files, path, original, sealed);
    assert(todo[1] is Rename && todo[2] is Rename && todo[3] is Rename);
}

/// A conversion that runs to its end leaves the sealed index at the path and the
/// original in the backup.
pub proof fn law_finished_conversion_keeps_a_backup(
    on: Platform,
    files: Map<Seq<char>, Seq<u8>>,
    path: Seq<char>,
    original: Seq<u8>,
    sealed: Seq<u8>,
)
    requires
        set_apart(on, path),
        files.contains_pair(path, original),
    ensures
        after(files, conversion(on, path, sealed), 4).contains_pair(path, sealed),
        after(files, conversion(on, path, sealed), 4).contains_pair(backup_path(on, path), original),
{
    lemma_conversion(on, files, path, original, sealed);
}

/// The files after each step of a conversion.
proof fn lemma_conversion(
    on: Platform,
    files: Map<Seq<char>, Seq<u8>>,
    path: Seq<char>,
    original: Seq<u8>,
    sealed: Seq<u8>,
)
    requires
        set_apart(on, path),
        files.contains_pair(path, original),
    ensures
        ({
            let todo = conversion(on, path, sealed);
            let staging = staging_path(on, path);
            let inner = with_extension(on, staging, "sealing"@);
            let backup = backup_path(on, path);
            &&& todo.len() == 4
            &&& after(files, todo, 0) == files
            &&& todo[0] is Write && todo[0]->path == inner
            &&& after(files, todo, 1).contains_pair(path, original)
            &&& after(files, todo, 2).contains_pair(path, original)
            &&& after(files, todo, 2).contains_pair(staging, sealed)
            &&& after(files, todo, 3).contains_pair(backup, original)
            &&& after(files, todo, 3).contains_pair(staging, sealed)
            &&& after(files, todo, 4).contains_pair(backup, original)
            &&& after(files, todo, 4).contains_pair(path, sealed)
        }),
{
    let todo = conversion(on, path, sealed);
    let staging = staging_path(on, path);
    let inner = with_extension(on, staging, "sealing"@);
    let backup = backup_path(on, path);
    lemma_names_differ(on, path);
    assert(todo[0] == Action::Write { path: inner, bytes: sealed });
    assert(todo[1] == Action::Rename { from: inner, to: staging });
    assert(todo[2] == Action::Rename { from: path, to: backup });
    assert(todo[3] == Action::Rename { from: staging, to: path });
    let f1 = done(files, todo[0]);
    let f2 = done(f1, todo[1]);
    let f3 = done(f2, todo[2]);
    let f4 = done(f3, todo[3]);
    reveal_with_fuel(after, 5);
    assert(after(files, todo, 1) == f1);
    assert(after(files, todo, 2) == f2);
    assert(after(files, todo, 3) == f3);
    assert(after(files, todo, 4) == f4);
}

/// The staging file and the backup have different names.
proof fn lemma_names_differ(on: Platform, path: Seq<char>)
    requires
        staging_path(on, path) != path,
    ensures
        staging_path(on, path) != backup_path(on, path),
{
    reveal_strlit("converting");
    reveal_strlit("plaintext.bak");
    lemma_with_extension(on, path, "converting"@);
    lemma_with_extension(on, path, "plaintext.bak"@);
    let (a, b) = (staging_path(on, path), backup_path(on, path));
    assert(a.last() == "converting"@[9]);
    assert(b.last() == "plaintext.bak"@[12]);
}

} // verus!
