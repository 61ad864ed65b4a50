//! The sealed file and its key.

use crate::cipher::{decrypted, encrypted};
use crate::db::{
    backup_path, byte_count, container, exchange, header, hex_key, hex_value, holds, key_bytes,
    lemma_container, lost_key, opening, plaintext_sqlite, proven, replacement, staging_path,
    unsealed, Found, OpeningView, MAGIC, SQLITE_HEADER,
};
use crate::error::Failure;
use crate::laws::infer::lemma_filter_last;
use crate::laws::unix::law_extensions_are_replaced;
use crate::path::Platform;
use crate::steps::Action;
use crate::text::{lower, to_lower};
use crate::unix::{dot, dot_dot};
use vstd::prelude::*;

verus! {

/// A hexadecimal digit as it is written in lower case.
pub open spec fn digit(v: int) -> char {
    if v < 10 {
        ('0' as int + v) as char
    } else {
        ('a' as int + v - 10) as char
    }
}

/// Is this how these bytes are written, two digits a byte, the high one first?
pub open spec fn writes(hex: Seq<char>, bytes: Seq<u8>) -> bool {
    &&& hex.len() == 2 * bytes.len()
    &&& forall|i: int|
        0 <= i < bytes.len() ==> {
            &&& lower(hex[2 * i]) == digit(#[trigger] bytes[i] as int / 16)
            &&& lower(hex[2 * i + 1]) == digit(bytes[i] as int % 16)
        }
}

proof fn lemma_digit(c: char, v: int)
    requires
        0 <= v < 16,
    ensures
        lower(c) == digit(v) <==> hex_value(c) == Some(v as u8),
{
}

/// A text of 64 digits that writes 32 bytes, in either case, is the key of those
/// bytes; nothing else is a key.
pub proof fn law_a_key_is_its_bytes_written_out(hex: Seq<char>, bytes: Seq<u8>)
    requires
        bytes.len() == 32,
    ensures
        writes(hex, bytes) <==> hex_key(hex) && key_bytes(hex) == bytes,
{
    if writes(hex, bytes) {
        assert forall|i: int| 0 <= i < 64 implies hex_value(#[trigger] hex[i]) is Some by {
            let b = bytes[i / 2];
            lemma_digit(hex[2 * (i / 2)], b as int / 16);
            lemma_digit(hex[2 * (i / 2) + 1], b as int % 16);
            assert(i == 2 * (i / 2) || i == 2 * (i / 2) + 1);
        }
        assert forall|i: int| 0 <= i < 32 implies #[trigger] key_bytes(hex)[i] == bytes[i] by {
            lemma_digit(hex[2 * i], bytes[i] as int / 16);
            lemma_digit(hex[2 * i + 1], bytes[i] as int % 16);
        }
        assert(key_bytes(hex) =~= bytes);
    }
    if hex_key(hex) && key_bytes(hex) == bytes {
        assert forall|i: int| 0 <= i < bytes.len() implies {
            &&& lower(hex[2 * i]) == digit(#[trigger] bytes[i] as int / 16)
            &&& lower(hex[2 * i + 1]) == digit(bytes[i] as int % 16)
        } by {
            assert(hex_value(hex[2 * i]) is Some);
            assert(hex_value(hex[2 * i + 1]) is Some);
            assert(bytes[i] == key_bytes(hex)[i]);
            let h = hex_value(hex[2 * i])->0;
            let l = hex_value(hex[2 * i + 1])->0;
            assert(h < 16 && l < 16);
            assert(bytes[i] == h * 16 + l);
            lemma_digit(hex[2 * i], bytes[i] as int / 16);
            lemma_digit(hex[2 * i + 1], bytes[i] as int % 16);
        }
    }
}

/// Distinct keys stay distinct: two texts that give the same bytes are the same but
/// for the case of their letters.
pub proof fn law_distinct_keys_stay_distinct(a: Seq<char>, b: Seq<char>)
    requires
        hex_key(a),
        hex_key(b),
        key_bytes(a) == key_bytes(b),
    ensures
        to_lower(a) == to_lower(b),
{
    let bytes = key_bytes(a);
    law_a_key_is_its_bytes_written_out(a, bytes);
    law_a_key_is_its_bytes_written_out(b, bytes);
    assert forall|i: int| 0 <= i < 64 implies #[trigger] to_lower(a)[i] == to_lower(b)[i] by {
        let x = bytes[i / 2];
        assert(lower(a[2 * (i / 2)]) == digit(x as int / 16));
        assert(lower(b[2 * (i / 2)]) == digit(x as int / 16));
        assert(i == 2 * (i / 2) || i == 2 * (i / 2) + 1);
    }
    assert(to_lower(a) =~= to_lower(b));
}

/// The mark of a sealed file, `INVSEAL1`.
pub open spec fn mark() -> Seq<u8> {
    seq![0x49u8, 0x4e, 0x56, 0x53, 0x45, 0x41, 0x4c, 0x31]
}

/// A sealed file is the mark, a nonce of twelve bytes and the ciphertext of the
/// plaintext under that nonce, in this order.
pub proof fn law_sealed_files_are_mark_nonce_and_ciphertext(
    sealed: Seq<u8>,
    plaintext: Seq<u8>,
    key: Seq<u8>,
)
    requires
        holds(sealed, plaintext, key),
    ensures
        sealed.len() >= 20,
        sealed.take(8) == mark(),
        sealed.skip(20) == encrypted(key, sealed.subrange(8, 20), plaintext),
{
    let nonce = choose|nonce: Seq<u8>|
        nonce.len() == 12 && sealed == #[trigger] container(
            nonce,
            encrypted(key, nonce, plaintext),
        );
    lemma_container(nonce, encrypted(key, nonce, plaintext));
    assert(MAGIC@ =~= mark());
}

/// A file opens where it is marked, has room for a nonce, and its ciphertext
/// decrypts; where the first two fail it is of another format, where the third does
/// it is of another key.
pub proof fn law_which_files_open(sealed: Seq<u8>, key: Seq<u8>, path: Seq<char>)
    ensures
        ({
            let marked = sealed.len() >= 20 && sealed.take(8) == mark();
            let inner = decrypted(key, sealed.subrange(8, 20), sealed.skip(20));
            &&& !marked ==> unsealed(sealed, key, path) == Err::<Seq<u8>, Failure>(
                Failure::LegacyIndexFormat { path },
            )
            &&& marked ==> match inner {
                Some(plaintext) => unsealed(sealed, key, path) == Ok::<Seq<u8>, Failure>(plaintext),
                None => unsealed(sealed, key, path) == Err::<Seq<u8>, Failure>(
                    Failure::KeyMismatch(path + " exists but the key does not open it"@),
                ),
            }
        }),
{
    assert(MAGIC@ =~= mark());
}

/// The header of a file is what it begins with; one that is shorter has none.
pub proof fn law_headers_are_beginnings(head: Seq<u8>, rest: Seq<u8>, n: nat)
    ensures
        header(Some(head + rest), head.len()) == Some(head),
        head.len() < n ==> header(Some(head), n) is None,
        header(None, n) is None,
{
    assert((head + rest).take(head.len() as int) =~= head);
}

/// A file is plaintext SQLite where it begins with `SQLite format 3` and a zero,
/// and only there.
pub proof fn law_plaintext_begins_like_sqlite(bytes: Seq<u8>)
    ensures
        plaintext_sqlite(Some(bytes)) <==> bytes.len() >= 16 && bytes.take(16) == seq![
            0x53u8,
            0x51,
            0x4c,
            0x69,
            0x74,
            0x65,
            0x20,
            0x66,
            0x6f,
            0x72,
            0x6d,
            0x61,
            0x74,
            0x20,
            0x33,
            0x00,
        ],
{
    assert(SQLITE_HEADER@ =~= seq![
        0x53u8,
        0x51,
        0x4c,
        0x69,
        0x74,
        0x65,
        0x20,
        0x66,
        0x6f,
        0x72,
        0x6d,
        0x61,
        0x74,
        0x20,
        0x33,
        0x00,
    ]);
}

/// Opening goes forward: it asks only for what is not known yet, and it never makes
/// a key for an index that is there.
pub proof fn law_opening_goes_forward(path: Seq<char>, keychain: Seq<char>, found: Found)
    ensures
        match opening(path, keychain, found) {
            Ok(OpeningView::AskForKey) => found.existed && found.key_held is None,
            Ok(OpeningView::FetchKey) => found.key is None && (found.existed ==> found.key_held
                == Some(true)),
            Ok(OpeningView::ReadIndex) => found.existed && found.key_held == Some(true)
                && found.key is Some && found.sealed is None,
            Ok(OpeningView::Ready { key, plaintext }) => {
                &&& found.key matches Some(hex) && writes(hex@, key) && key.len() == 32
                &&& !found.existed ==> plaintext is None
                &&& found.existed ==> found.key_held == Some(true) && (found.sealed matches Some(s)
                    && s@.len() >= 20 && s@.take(8) == mark() && plaintext is Some && plaintext
                    == decrypted(key, s@.subrange(8, 20), s@.skip(20)))
            },
            Err(Failure::KeyUnavailable(text)) => {
                ||| found.existed && found.key_held == Some(false)
                ||| found.key matches Some(hex) && !hex_key(hex@)
            },
            Err(_) => found.existed && found.key_held == Some(true) && found.key is Some
                && found.sealed is Some,
        },
        found.existed && found.key_held == Some(false) ==> opening(path, keychain, found) is Err,
{
    if let Some(hex) = found.key {
        if hex_key(hex@) {
            law_a_key_is_its_bytes_written_out(hex@, key_bytes(hex@));
        }
        if let Some(s) = found.sealed {
            law_which_files_open(s@, key_bytes(hex@), path);
        }
    }
}

/// The files beside an index are named after it: in place of its extension they have one
/// that says what they are for.
pub proof fn law_files_beside_the_index(head: Seq<char>, stem: Seq<char>, old: Seq<char>)
    requires
        head.len() > 0 ==> head.last() == '/',
        stem.len() > 0,
        !stem.contains('/'),
        !old.contains('/'),
        !old.contains('.'),
        stem + dot() + old != dot_dot(),
    ensures
        ({
            let index = head + (stem + dot() + old);
            &&& staging_path(Platform::Unix, index) == head + stem + dot() + "converting"@
            &&& backup_path(Platform::Unix, index) == head + stem + dot() + "plaintext.bak"@
            &&& forall|sealed: Seq<u8>| #[trigger]
                replacement(Platform::Unix, index, sealed) == seq![
                    Action::Write {
                        path: head + stem + dot() + "sealing"@,
                        bytes: sealed,
                    },
                    Action::Rename { from: head + stem + dot() + "sealing"@, to: index },
                ]
        }),
{
    law_extensions_are_replaced(head, stem, old, "converting"@);
    law_extensions_are_replaced(head, stem, old, "plaintext.bak"@);
    law_extensions_are_replaced(head, stem, old, "sealing"@);
}

/// What is said of an index that does not open names the file.
pub proof fn law_messages_name_the_file(path: Seq<char>, keychain: Seq<char>, text: Seq<char>)
    ensures
        path.is_prefix_of(lost_key(path, keychain)),
        (path + " exists but "@ + keychain).is_prefix_of(lost_key(path, keychain)),
        path.is_prefix_of(Failure::LegacyIndexFormat { path }.message()),
        Failure::KeyUnavailable(text).message() == text,
        Failure::KeyMismatch(text).message() == text,
        Failure::Other(text).message() == text,
{
    let lost = lost_key(path, keychain);
    let start = path + " exists but "@ + keychain;
    assert(lost.subrange(0, path.len() as int) =~= path);
    assert(lost.subrange(0, start.len() as int) =~= start);
    let legacy = Failure::LegacyIndexFormat { path }.message();
    assert(legacy.subrange(0, path.len() as int) =~= path);
}

/// The original is moved aside, and the converted index into its place, only where
/// the converted index decrypts to the very bytes of the original.
pub proof fn law_conversion_is_proven_first(
    path: Seq<char>,
    staging: Seq<char>,
    backup: Seq<char>,
    key: Seq<u8>,
    original: Seq<u8>,
    staged: Seq<u8>,
)
    ensures
        match proven(path, staging, backup, key, original, staged) {
            Ok(acts) => {
                &&& staged.len() >= 20 && staged.take(8) == mark()
                &&& decrypted(key, staged.subrange(8, 20), staged.skip(20)) == Some(original)
                &&& acts == seq![
                    Action::Rename { from: path, to: backup },
                    Action::Rename { from: staging, to: path },
                ]
            },
            Err(_) => staged.len() < 20 || staged.take(8) != mark() || decrypted(
                key,
                staged.subrange(8, 20),
                staged.skip(20),
            ) != Some(original),
        },
{
    law_which_files_open(staged, key, staging);
    assert(exchange(path, staging, backup).len() == 2);
}

/// Is a byte this one?
pub open spec fn exactly(b: u8) -> spec_fn(u8) -> bool {
    |x: u8| x == b
}

/// The count of a byte is the number of places where it stands.
pub proof fn law_bytes_are_counted_by_place(bytes: Seq<u8>, b: u8)
    ensures
        byte_count(bytes, b) == bytes.filter(exactly(b)).len(),
    decreases bytes.len(),
{
    if bytes.len() == 0 {
        reveal(Seq::filter);
    } else {
        law_bytes_are_counted_by_place(bytes.drop_last(), b);
        lemma_filter_last(bytes, exactly(b));
    }
}

} // verus!
