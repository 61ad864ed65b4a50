//! The single encrypted file everything lives in.
//!
//! There is no page-level cipher here: SQLite itself never sees an encrypted
//! byte. An index is opened by decrypting the file, in full, into a private
//! working copy, and sealed by encrypting that copy into a container: a magic
//! header, a nonce and the AES-256-GCM ciphertext.
//!
//! Files are read and written by the caller. What is read comes in as bytes, and
//! what is to be done on disk goes out as a list of [`Step`]s.

use crate::cipher::{
    decrypt, decrypted, encrypt, encrypted, fresh_nonce, NONCE_LEN, PLAINTEXT_MAX, TAG_LEN,
};
use crate::error::{concat, Error, Failure};
use crate::path::{extended, with_extension, Platform};
use crate::steps::{actions, Action, Step};
use crate::text::{chars, lower, string, to_lower};
use vstd::prelude::*;
use vstd::slice::slice_subrange;

verus! {

/// Marks the sealed container format, `INVSEAL1` in ASCII, so that a stray
/// SQLite file, or an index written by an older version of this app, is never
/// mistaken for one of ours.
pub const MAGIC: [u8; 8] = [0x49, 0x4e, 0x56, 0x53, 0x45, 0x41, 0x4c, 0x31];

/// How every SQLite file begins: `SQLite format 3` and a zero byte.
pub const SQLITE_HEADER: [u8; 16] = [
    0x53, 0x51, 0x4c, 0x69, 0x74, 0x65, 0x20, 0x66, 0x6f, 0x72, 0x6d, 0x61, 0x74, 0x20, 0x33, 0x00,
];

/// The value of a hexadecimal digit, in either case.
pub open spec fn hex_value(c: char) -> Option<u8> {
    if '0' <= c && c <= '9' {
        Some((c as u8 - 48) as u8)
    } else if 'a' <= c && c <= 'f' {
        Some((c as u8 - 87) as u8)
    } else if 'A' <= c && c <= 'F' {
        Some((c as u8 - 55) as u8)
    } else {
        None
    }
}

/// A 256-bit value in hexadecimal.
pub open spec fn hex_key(hex: Seq<char>) -> bool {
    hex.len() == 64 && forall|i: int| 0 <= i < 64 ==> hex_value(#[trigger] hex[i]) is Some
}

/// The bytes that the digits of a key stand for, two by two.
pub open spec fn key_bytes(hex: Seq<char>) -> Seq<u8> {
    Seq::new(
        32,
        |i: int| (hex_value(hex[2 * i])->0 * 16 + hex_value(hex[2 * i + 1])->0) as u8,
    )
}

fn hex_value_of(c: char) -> (r: Option<u8>)
    ensures
        r == hex_value(c),
        r matches Some(v) ==> v < 16,
{
    if '0' <= c && c <= '9' {
        Some(c as u8 - 48)
    } else if 'a' <= c && c <= 'f' {
        Some(c as u8 - 87)
    } else if 'A' <= c && c <= 'F' {
        Some(c as u8 - 55)
    } else {
        None
    }
}

/// A 64-character hex string, the only shape in which a key is stored.
pub fn parse_key(hex: &str) -> (r: Result<[u8; 32], Error>)
    ensures
        match r {
            Ok(key) => hex_key(hex@) && key@ == key_bytes(hex@),
            Err(e) => !hex_key(hex@) && e@ == Failure::KeyUnavailable(
                "the stored index key is not a 256-bit hex value"@,
            ),
        },
{
    let digits = chars(hex);
    if digits.len() != 64 {
        return Err(not_a_key());
    }
    let mut key: [u8; 32] = [0u8; 32];
    let mut i: usize = 0;
    while i < 32
        invariant
            i <= 32,
            digits@ == hex@,
            digits@.len() == 64,
            forall|j: int| 0 <= j < 2 * i ==> hex_value(#[trigger] digits@[j]) is Some,
            forall|j: int| 0 <= j < i ==> #[trigger] key@[j] == key_bytes(hex@)[j],
        decreases 32 - i,
    {
        match (hex_value_of(digits[2 * i]), hex_value_of(digits[2 * i + 1])) {
            (Some(high), Some(low)) => {
                key[i] = high * 16 + low;
            },
            _ => {
                return Err(not_a_key());
            },
        }
        i += 1;
    }
    assert(key@ =~= key_bytes(hex@));
    Ok(key)
}

fn not_a_key() -> (e: Error)
    ensures
        e@ == Failure::KeyUnavailable("the stored index key is not a 256-bit hex value"@),
{
    Error::KeyUnavailable(string(chars("the stored index key is not a 256-bit hex value").as_slice()))
}

// ---- The sealed container -------------------------------------------------

/// The bytes of a sealed file.
pub open spec fn container(nonce: Seq<u8>, ciphertext: Seq<u8>) -> Seq<u8> {
    MAGIC@ + nonce + ciphertext
}

/// Is this long enough, and marked, to be a sealed file?
pub open spec fn is_container(sealed: Seq<u8>) -> bool {
    sealed.len() >= MAGIC@.len() + NONCE_LEN && sealed.take(MAGIC@.len() as int) == MAGIC@
}

/// The nonce that a sealed file holds.
pub open spec fn nonce_of(sealed: Seq<u8>) -> Seq<u8> {
    sealed.subrange(MAGIC@.len() as int, MAGIC@.len() + NONCE_LEN)
}

/// The ciphertext that a sealed file holds.
pub open spec fn ciphertext_of(sealed: Seq<u8>) -> Seq<u8> {
    sealed.skip(MAGIC@.len() + NONCE_LEN)
}

/// What the outcome of a decryption means for the file at `path`.
pub open spec fn verdict(plaintext: Option<Seq<u8>>, path: Seq<char>) -> Result<Seq<u8>, Failure> {
    match plaintext {
        Some(p) => Ok(p),
        None => Err(Failure::KeyMismatch(path + " exists but the key does not open it"@)),
    }
}

/// What a sealed blob read from `path` opens to.
pub open spec fn unsealed(sealed: Seq<u8>, key: Seq<u8>, path: Seq<char>) -> Result<
    Seq<u8>,
    Failure,
> {
    if is_container(sealed) {
        verdict(decrypted(key, nonce_of(sealed), ciphertext_of(sealed)), path)
    } else {
        Err(Failure::LegacyIndexFormat { path })
    }
}

/// Do the executable and the specified outcome agree?
pub open spec fn bytes_are(r: Result<Vec<u8>, Error>, s: Result<Seq<u8>, Failure>) -> bool {
    match r {
        Ok(p) => s == Ok::<Seq<u8>, Failure>(p@),
        Err(e) => s == Err::<Seq<u8>, Failure>(e@),
    }
}

fn same_bytes(a: &[u8], b: &[u8]) -> (r: bool)
    ensures
        r == (a@ == b@),
{
    if a.len() != b.len() {
        return false;
    }
    let mut i: usize = 0;
    while i < a.len()
        invariant
            i <= a@.len(),
            a@.len() == b@.len(),
            forall|j: int| 0 <= j < i ==> a@[j] == b@[j],
        decreases a@.len() - i,
    {
        if a[i] != b[i] {
            return false;
        }
        i += 1;
    }
    assert(a@ =~= b@);
    true
}

/// Does a blob start with these bytes?
fn begins_with(blob: &[u8], head: &[u8]) -> (r: bool)
    ensures
        r == (blob@.len() >= head@.len() && blob@.take(head@.len() as int) == head@),
{
    if blob.len() < head.len() {
        return false;
    }
    let start = slice_subrange(blob, 0, head.len());
    assert(start@ == blob@.take(head@.len() as int));
    same_bytes(start, head)
}

/// Lays out a sealed file.
pub fn contain(nonce: &[u8], ciphertext: &[u8]) -> (r: Vec<u8>)
    ensures
        r@ == container(nonce@, ciphertext@),
{
    let magic = MAGIC;
    let mut r: Vec<u8> = Vec::new();
    r.extend_from_slice(magic.as_slice());
    r.extend_from_slice(nonce);
    r.extend_from_slice(ciphertext);
    r
}

/// Takes a sealed file apart, into nonce and ciphertext.
pub fn container_parts(sealed: &[u8]) -> (r: Option<(&[u8], &[u8])>)
    ensures
        match r {
            Some((nonce, ciphertext)) => {
                &&& is_container(sealed@)
                &&& nonce@ == nonce_of(sealed@)
                &&& ciphertext@ == ciphertext_of(sealed@)
            },
            None => !is_container(sealed@),
        },
{
    let magic = MAGIC;
    let head: usize = 8 + NONCE_LEN;
    assert(MAGIC@.len() == 8);
    if sealed.len() < head || !begins_with(sealed, magic.as_slice()) {
        return None;
    }
    let nonce = slice_subrange(sealed, 8, head);
    let ciphertext = slice_subrange(sealed, head, sealed.len());
    assert(ciphertext@ == ciphertext_of(sealed@));
    Some((nonce, ciphertext))
}

/// A ciphertext that the key does not open is a mismatch, not a fresh index.
pub fn judge(plaintext: Option<Vec<u8>>, path: &str) -> (r: Result<Vec<u8>, Error>)
    ensures
        bytes_are(
            r,
            verdict(
                match plaintext {
                    Some(p) => Some(p@),
                    None => None,
                },
                path@,
            ),
        ),
{
    match plaintext {
        Some(p) => Ok(p),
        None => Err(Error::KeyMismatch(concat(path, " exists but the key does not open it"))),
    }
}

/// Decrypts a sealed blob read from `path`, which is used for the error alone.
/// Nothing opens but what sealing the plaintext with this key writes.
pub fn unseal(sealed: &[u8], key: &[u8; 32], path: &str) -> (r: Result<Vec<u8>, Error>)
    ensures
        bytes_are(r, unsealed(sealed@, key@, path@)),
        r matches Ok(p) ==> p@.len() <= PLAINTEXT_MAX ==> sealed@ == container(
            nonce_of(sealed@),
            encrypted(key@, nonce_of(sealed@), p@),
        ),
{
    match container_parts(sealed) {
        None => Err(Error::LegacyIndexFormat { path: string(chars(path).as_slice()) }),
        Some((nonce, ciphertext)) => {
            assert(sealed@ =~= container(nonce_of(sealed@), ciphertext_of(sealed@)));
            let plaintext: Option<Vec<u8>> = match decrypt(key, nonce, ciphertext) {
                Ok(p) => Some(p),
                Err(_) => None,
            };
            judge(plaintext, path)
        },
    }
}

/// Encrypts `plaintext` under this nonce and lays out the sealed file.
pub fn seal_with(plaintext: &[u8], key: &[u8; 32], nonce: &[u8]) -> (r: Result<Vec<u8>, Error>)
    requires
        nonce@.len() == NONCE_LEN,
        plaintext@.len() + TAG_LEN <= isize::MAX,
    ensures
        match r {
            Ok(sealed) => {
                &&& plaintext@.len() <= PLAINTEXT_MAX
                &&& sealed@ == container(nonce@, encrypted(key@, nonce@, plaintext@))
                &&& forall|path: Seq<char>| #[trigger]
                    unsealed(sealed@, key@, path) == Ok::<Seq<u8>, Failure>(plaintext@)
            },
            Err(e) => {
                &&& plaintext@.len() > PLAINTEXT_MAX
                &&& e@ == Failure::Other("failed to seal the index: aead::Error"@)
            },
        },
{
    match encrypt(key, nonce, plaintext) {
        Ok(ciphertext) => {
            proof {
                lemma_container(nonce@, ciphertext@);
            }
            Ok(contain(nonce, ciphertext.as_slice()))
        },
        Err(_) => Err(
            Error::Other(string(chars("failed to seal the index: aead::Error").as_slice())),
        ),
    }
}

/// A container gives back what was put into it.
pub proof fn lemma_container(nonce: Seq<u8>, ciphertext: Seq<u8>)
    requires
        nonce.len() == NONCE_LEN,
    ensures
        is_container(container(nonce, ciphertext)),
        nonce_of(container(nonce, ciphertext)) == nonce,
        ciphertext_of(container(nonce, ciphertext)) == ciphertext,
{
    let sealed = container(nonce, ciphertext);
    assert(sealed.take(MAGIC@.len() as int) =~= MAGIC@);
    assert(nonce_of(sealed) =~= nonce);
    assert(ciphertext_of(sealed) =~= ciphertext);
}

// ---- Headers --------------------------------------------------------------

/// The first `n` bytes of a file; `None` if there is no file or it is shorter.
pub open spec fn header(file: Option<Seq<u8>>, n: nat) -> Option<Seq<u8>> {
    match file {
        Some(bytes) => if bytes.len() >= n {
            Some(bytes.take(n as int))
        } else {
            None
        },
        None => None,
    }
}

pub open spec fn file_view(file: Option<&[u8]>) -> Option<Seq<u8>> {
    match file {
        Some(bytes) => Some(bytes@),
        None => None,
    }
}

/// The first `n` bytes of what was read from a file; `None` if it does not
/// exist or is shorter than that.
pub fn read_header(file: Option<&[u8]>, n: usize) -> (r: Option<Vec<u8>>)
    ensures
        match r {
            Some(h) => header(file_view(file), n as nat) == Some(h@),
            None => header(file_view(file), n as nat) is None,
        },
{
    match file {
        None => None,
        Some(bytes) => {
            if bytes.len() < n {
                return None;
            }
            let mut h: Vec<u8> = Vec::new();
            h.extend_from_slice(slice_subrange(bytes, 0, n));
            assert(h@ == bytes@.take(n as int));
            Some(h)
        },
    }
}

/// Does this file look like one of our sealed indexes? The first eight bytes
/// decide; `None` stands for a file that does not exist.
pub fn looks_encrypted(file: Option<&[u8]>) -> (r: bool)
    ensures
        r == (header(file_view(file), MAGIC@.len()) == Some(MAGIC@)),
{
    let magic = MAGIC;
    match read_header(file, 8) {
        None => false,
        Some(h) => same_bytes(h.as_slice(), magic.as_slice()),
    }
}

/// Is this an unencrypted SQLite file left over from before encryption existed?
/// The first sixteen bytes decide; `None` stands for a file that does not exist.
pub fn is_plaintext_sqlite(file: Option<&[u8]>) -> (r: bool)
    ensures
        r == (header(file_view(file), SQLITE_HEADER@.len()) == Some(SQLITE_HEADER@)),
{
    let expected = SQLITE_HEADER;
    match read_header(file, 16) {
        None => false,
        Some(h) => same_bytes(h.as_slice(), expected.as_slice()),
    }
}

// ---- Sealing --------------------------------------------------------------

/// Does `sealed` hold `plaintext`, encrypted with this key under some nonce?
pub open spec fn holds(sealed: Seq<u8>, plaintext: Seq<u8>, key: Seq<u8>) -> bool {
    &&& exists|nonce: Seq<u8>|
        nonce.len() == NONCE_LEN && sealed == #[trigger] container(
            nonce,
            encrypted(key, nonce, plaintext),
        )
    &&& forall|path: Seq<char>| #[trigger]
        unsealed(sealed, key, path) == Ok::<Seq<u8>, Failure>(plaintext)
}

/// How `sealed` is put in place of `dest`: written beside it, then renamed over
/// it.
pub open spec fn replacement(on: Platform, dest: Seq<char>, sealed: Seq<u8>) -> Seq<Action> {
    let staging = with_extension(on, dest, "sealing"@);
    seq![
        Action::Write { path: staging, bytes: sealed },
        Action::Rename { from: staging, to: dest },
    ]
}

fn with_suffix(on: Platform, path: &str, ext: &str) -> (r: String)
    ensures
        r@ == with_extension(on, path@, ext@),
{
    string(extended(on, chars(path).as_slice(), chars(ext).as_slice()).as_slice())
}

fn replacement_steps(on: Platform, dest: &str, sealed: Vec<u8>) -> (steps: Vec<Step>)
    ensures
        actions(steps@) == replacement(on, dest@, sealed@),
{
    let ghost bytes = sealed@;
    let staging = with_suffix(on, dest, "sealing");
    let mut steps: Vec<Step> = Vec::new();
    steps.push(Step::Write { path: staging.clone(), bytes: sealed });
    steps.push(Step::Rename { from: staging, to: string(chars(dest).as_slice()) });
    assert(actions(steps@) =~= replacement(on, dest@, bytes));
    steps
}

/// Encrypts `plaintext` with a fresh random nonce, to be written over `dest`. The
/// bytes go to a staging file that is renamed into place, so an interruption
/// mid-write never corrupts the existing sealed file. `on` is the platform that the
/// path belongs to.
pub fn seal_to(on: Platform, dest: &str, plaintext: &[u8], key: &[u8; 32]) -> (r: Result<
    Vec<Step>,
    Error,
>)
    requires
        plaintext@.len() + TAG_LEN <= isize::MAX,
    ensures
        match r {
            Ok(steps) => {
                &&& plaintext@.len() <= PLAINTEXT_MAX
                &&& exists|sealed: Seq<u8>| #[trigger]
                    holds(sealed, plaintext@, key@) && actions(steps@) == replacement(on, dest@, sealed)
            },
            Err(e) => {
                &&& plaintext@.len() > PLAINTEXT_MAX
                &&& e@ == Failure::Other("failed to seal the index: aead::Error"@)
            },
        },
{
    let nonce = fresh_nonce();
    match seal_with(plaintext, key, nonce.as_slice()) {
        Err(e) => Err(e),
        Ok(sealed) => {
            assert(holds(sealed@, plaintext@, key@));
            Ok(replacement_steps(on, dest, sealed))
        },
    }
}

// ---- Opening --------------------------------------------------------------

/// What is known so far of the index that is being opened.
#[derive(Debug)]
pub struct Found {
    /// Is there a file at the path of the index?
    pub existed: bool,
    /// Does the keychain hold a key? `None` until it has been asked.
    pub key_held: Option<bool>,
    /// The key in hexadecimal, once it has been fetched or made.
    pub key: Option<String>,
    /// The file's bytes, once they have been read.
    pub sealed: Option<Vec<u8>>,
}

/// An index ready for use.
#[derive(Debug, PartialEq, Eq)]
pub struct Opened {
    pub key: [u8; 32],
    /// What the working copy starts with; `None` for a fresh index, which starts
    /// empty.
    pub plaintext: Option<Vec<u8>>,
}

/// What has to happen next for an index to open.
#[derive(Debug, PartialEq, Eq)]
pub enum Opening {
    /// Ask the keychain whether it holds a key.
    AskForKey,
    /// Fetch the key, or make one if there is none.
    FetchKey,
    /// Read the file.
    ReadIndex,
    Ready(Opened),
}

/// An [`Opening`] as a value of the specification.
pub enum OpeningView {
    AskForKey,
    FetchKey,
    ReadIndex,
    Ready { key: Seq<u8>, plaintext: Option<Seq<u8>> },
}

impl View for Opening {
    type V = OpeningView;

    open spec fn view(&self) -> OpeningView {
        match self {
            Opening::AskForKey => OpeningView::AskForKey,
            Opening::FetchKey => OpeningView::FetchKey,
            Opening::ReadIndex => OpeningView::ReadIndex,
            Opening::Ready(o) => OpeningView::Ready {
                key: o.key@,
                plaintext: match o.plaintext {
                    Some(p) => Some(p@),
                    None => None,
                },
            },
        }
    }
}

/// What is said of an index whose key is gone.
pub open spec fn lost_key(path: Seq<char>, keychain: Seq<char>) -> Seq<char> {
    path + " exists but "@ + keychain + LOST_KEY@
}

pub const LOST_KEY: &'static str = " holds no key for it.\nThe index cannot be opened without the key it was written with. On Linux this happens when the key was stored in the kernel keyring, which does not survive a reboot; a Secret Service keyring does.\nIf you have the key, set INVENTORY_INDEX_KEY. If not, the index has to be rebuilt: move it aside and re-index — your tools' own history is untouched and will be read again.";

/// How an index opens, given what is known of it.
pub open spec fn opening(path: Seq<char>, keychain: Seq<char>, found: Found) -> Result<
    OpeningView,
    Failure,
> {
    if found.existed && found.key_held is None {
        Ok(OpeningView::AskForKey)
    } else if found.existed && found.key_held == Some(false) {
        Err(Failure::KeyUnavailable(lost_key(path, keychain)))
    } else if found.key is None {
        Ok(OpeningView::FetchKey)
    } else if !hex_key(found.key->0@) {
        Err(
            Failure::KeyUnavailable("the stored index key is not a 256-bit hex value"@),
        )
    } else if !found.existed {
        Ok(OpeningView::Ready { key: key_bytes(found.key->0@), plaintext: None })
    } else if found.sealed is None {
        Ok(OpeningView::ReadIndex)
    } else {
        match unsealed(found.sealed->0@, key_bytes(found.key->0@), path) {
            Ok(p) => Ok(OpeningView::Ready { key: key_bytes(found.key->0@), plaintext: Some(p) }),
            Err(f) => Err(f),
        }
    }
}

/// Decides how to go on opening the index at `path`.
///
/// Nothing is ever written to `path` here. A fresh index starts as an empty
/// working copy; an existing one is decrypted in full into it. An index with no
/// key is not a first run but a lost key: making a new one would "succeed" and
/// then fail to decrypt, which reads as corruption rather than as what actually
/// happened.
pub fn open(path: &str, keychain: &str, found: &Found) -> (r: Result<Opening, Error>)
    ensures
        match r {
            Ok(next) => opening(path@, keychain@, *found) == Ok::<OpeningView, Failure>(next@),
            Err(e) => opening(path@, keychain@, *found) == Err::<OpeningView, Failure>(e@),
        },
{
    if found.existed {
        match found.key_held {
            None => {
                return Ok(Opening::AskForKey);
            },
            Some(held) => {
                if !held {
                    let subject = concat(concat(path, " exists but ").as_str(), keychain);
                    return Err(Error::KeyUnavailable(concat(subject.as_str(), LOST_KEY)));
                }
            },
        }
    }
    let hex: &String = match &found.key {
        None => {
            return Ok(Opening::FetchKey);
        },
        Some(hex) => hex,
    };
    let key: [u8; 32] = match parse_key(hex.as_str()) {
        Err(e) => {
            return Err(e);
        },
        Ok(key) => key,
    };
    if !found.existed {
        return Ok(Opening::Ready(Opened { key, plaintext: None }));
    }
    match &found.sealed {
        None => Ok(Opening::ReadIndex),
        Some(sealed) => match unseal(sealed.as_slice(), &key, path) {
            Err(e) => Err(e),
            Ok(p) => Ok(Opening::Ready(Opened { key, plaintext: Some(p) })),
        },
    }
}

// ---- Converting an unencrypted index --------------------------------------

/// The conversion of an unencrypted index, up to the point where the new file
/// has to be read back.
#[derive(Debug, PartialEq, Eq)]
pub struct Conversion {
    pub key: [u8; 32],
    /// Where the converted index is built.
    pub staging: String,
    /// Where the original goes in the end.
    pub backup: String,
    /// What builds the converted index.
    pub steps: Vec<Step>,
}

pub open spec fn plaintext_sqlite(file: Option<Seq<u8>>) -> bool {
    header(file, SQLITE_HEADER@.len()) == Some(SQLITE_HEADER@)
}

pub open spec fn staging_path(on: Platform, path: Seq<char>) -> Seq<char> {
    with_extension(on, path, "converting"@)
}

pub open spec fn backup_path(on: Platform, path: Seq<char>) -> Seq<char> {
    with_extension(on, path, "plaintext.bak"@)
}

/// Starts to convert a plaintext index to a sealed one; `None` where the file is
/// no plaintext index.
///
/// The original is not touched until the replacement has been decrypted back and
/// checked byte for byte, so an interruption at any point leaves a working index
/// behind.
pub fn convert_plaintext_to_encrypted(
    on: Platform,
    path: &str,
    file: Option<&[u8]>,
    key: &str,
) -> (r: Result<Option<Conversion>, Error>)
    requires
        file matches Some(bytes) ==> bytes@.len() + TAG_LEN <= isize::MAX,
    ensures
        match r {
            Ok(None) => !plaintext_sqlite(file_view(file)),
            Ok(Some(c)) => {
                &&& plaintext_sqlite(file_view(file))
                &&& hex_key(key@)
                &&& file->0@.len() <= PLAINTEXT_MAX
                &&& c.key@ == key_bytes(key@)
                &&& c.staging@ == staging_path(on, path@)
                &&& c.backup@ == backup_path(on, path@)
                &&& exists|sealed: Seq<u8>| #[trigger]
                    holds(sealed, file->0@, key_bytes(key@)) && actions(c.steps@) == replacement(
                        on,
                        staging_path(on, path@),
                        sealed,
                    )
            },
            Err(e) => {
                &&& plaintext_sqlite(file_view(file))
                &&& if hex_key(key@) {
                    &&& file->0@.len() > PLAINTEXT_MAX
                    &&& e@ == Failure::Other("failed to seal the index: aead::Error"@)
                } else {
                    e@ == Failure::KeyUnavailable(
                        "the stored index key is not a 256-bit hex value"@,
                    )
                }
            },
        },
{
    if !is_plaintext_sqlite(file) {
        return Ok(None);
    }
    match file {
        None => Ok(None),
        Some(plaintext) => {
            let key: [u8; 32] = match parse_key(key) {
                Err(e) => {
                    return Err(e);
                },
                Ok(key) => key,
            };
            let staging = with_suffix(on, path, "converting");
            let backup = with_suffix(on, path, "plaintext.bak");
            match seal_to(on, staging.as_str(), plaintext, &key) {
                Err(e) => Err(e),
                Ok(steps) => Ok(Some(Conversion { key, staging, backup, steps })),
            }
        },
    }
}

/// How the converted index takes the place of the original.
pub open spec fn exchange(path: Seq<char>, staging: Seq<char>, backup: Seq<char>) -> Seq<Action> {
    seq![
        Action::Rename { from: path, to: backup },
        Action::Rename { from: staging, to: path },
    ]
}

/// What reading back the converted index decides.
pub open spec fn proven(
    path: Seq<char>,
    staging: Seq<char>,
    backup: Seq<char>,
    key: Seq<u8>,
    original: Seq<u8>,
    staged: Seq<u8>,
) -> Result<Seq<Action>, Failure> {
    match unsealed(staged, key, staging) {
        Err(f) => Err(Failure::Other("converted index failed verification: "@ + f.message())),
        Ok(roundtrip) => if roundtrip == original {
            Ok(exchange(path, staging, backup))
        } else {
            Err(
                Failure::Other(
                    "converted index does not match the original; original left untouched"@,
                ),
            )
        },
    }
}

/// Proves the converted index, as it was read back from the staging file, before
/// the original is disturbed; then says how the two change places.
pub fn finish_conversion(
    path: &str,
    conversion: &Conversion,
    original: &[u8],
    staged: &[u8],
) -> (r: Result<Vec<Step>, Error>)
    ensures
        ({
            let expected = proven(
                path@,
                conversion.staging@,
                conversion.backup@,
                conversion.key@,
                original@,
                staged@,
            );
            match r {
                Ok(steps) => expected == Ok::<Seq<Action>, Failure>(actions(steps@)),
                Err(e) => expected == Err::<Seq<Action>, Failure>(e@),
            }
        }),
{
    match unseal(staged, &conversion.key, conversion.staging.as_str()) {
        Err(e) => Err(
            Error::Other(concat("converted index failed verification: ", e.message().as_str())),
        ),
        Ok(roundtrip) => {
            if !same_bytes(roundtrip.as_slice(), original) {
                return Err(
                    Error::Other(
                        string(
                            chars(
                                "converted index does not match the original; original left untouched",
                            ).as_slice(),
                        ),
                    ),
                );
            }
            let mut steps: Vec<Step> = Vec::new();
            let place = string(chars(path).as_slice());
            steps.push(Step::Rename { from: place.clone(), to: conversion.backup.clone() });
            steps.push(Step::Rename { from: conversion.staging.clone(), to: place });
            assert(actions(steps@) =~= exchange(
                path@,
                conversion.staging@,
                conversion.backup@,
            ));
            Ok(steps)
        },
    }
}

// ---- Randomness -----------------------------------------------------------

/// How often a byte occurs.
pub open spec fn byte_count(bytes: Seq<u8>, b: u8) -> nat
    decreases bytes.len(),
{
    if bytes.len() == 0 {
        0
    } else {
        byte_count(bytes.drop_last(), b) + (if bytes.last() == b {
            1nat
        } else {
            0
        })
    }
}

proof fn lemma_byte_count(bytes: Seq<u8>, b: u8)
    ensures
        byte_count(bytes, b) <= bytes.len(),
    decreases bytes.len(),
{
    if bytes.len() > 0 {
        lemma_byte_count(bytes.drop_last(), b);
    }
}

/// How often each of the 256 bytes occurs. The entropy of a file is computed
/// from these counts.
pub fn byte_counts(bytes: &[u8]) -> (counts: Vec<u64>)
    ensures
        counts@.len() == 256,
        forall|b: u8| #[trigger] counts@[b as int] == byte_count(bytes@, b),
{
    let mut counts: Vec<u64> = vec![0u64; 256];
    let mut i: usize = 0;
    while i < bytes.len()
        invariant
            i <= bytes@.len(),
            counts@.len() == 256,
            forall|b: u8| #[trigger] counts@[b as int] == byte_count(bytes@.take(i as int), b),
        decreases bytes@.len() - i,
    {
        let b: u8 = bytes[i];
        proof {
            lemma_byte_count(bytes@.take(i as int), b);
            assert(bytes@.take(i + 1).drop_last() == bytes@.take(i as int));
        }
        let n: u64 = counts[b as usize];
        counts[b as usize] = n + 1;
        i += 1;
    }
    assert(bytes@.take(bytes@.len() as int) == bytes@);
    counts
}

/// How often the bytes below `n` occur, taken together.
pub open spec fn count_below(bytes: Seq<u8>, n: nat) -> nat
    decreases n,
{
    if n == 0 {
        0
    } else {
        count_below(bytes, (n - 1) as nat) + byte_count(bytes, (n - 1) as u8)
    }
}

/// The counts account for every byte: as shares of the length they add up to one.
pub proof fn law_counts_add_up(bytes: Seq<u8>)
    ensures
        count_below(bytes, 256) == bytes.len(),
    decreases bytes.len(),
{
    if bytes.len() == 0 {
        lemma_count_below_empty(256);
        assert(bytes =~= Seq::<u8>::empty());
    } else {
        law_counts_add_up(bytes.drop_last());
        lemma_count_below_last(bytes, 256);
    }
}

proof fn lemma_count_below_empty(n: nat)
    requires
        n <= 256,
    ensures
        count_below(Seq::<u8>::empty(), n) == 0,
    decreases n,
{
    if n > 0 {
        lemma_count_below_empty((n - 1) as nat);
    }
}

proof fn lemma_count_below_last(bytes: Seq<u8>, n: nat)
    requires
        bytes.len() > 0,
        n <= 256,
    ensures
        count_below(bytes, n) == count_below(bytes.drop_last(), n) + (if bytes.last() < n {
            1nat
        } else {
            0
        }),
    decreases n,
{
    if n > 0 {
        lemma_count_below_last(bytes, (n - 1) as nat);
    }
}

/// A key may be written in either case.
pub proof fn law_key_case_is_free(hex: Seq<char>)
    ensures
        hex_key(to_lower(hex)) <==> hex_key(hex),
        hex_key(hex) ==> key_bytes(to_lower(hex)) == key_bytes(hex),
{
    let small = to_lower(hex);
    assert forall|i: int| 0 <= i < hex.len() implies hex_value(#[trigger] small[i]) == hex_value(
        hex[i],
    ) by {
        lemma_hex_case(hex[i]);
    }
    if hex_key(small) {
        assert forall|i: int| 0 <= i < 64 implies hex_value(#[trigger] hex[i]) is Some by {
            assert(hex_value(small[i]) is Some);
        }
    }
    if hex_key(hex) {
        assert forall|i: int| 0 <= i < 64 implies hex_value(#[trigger] small[i]) is Some by {
            assert(hex_value(hex[i]) is Some);
        }
        assert forall|i: int| 0 <= i < 32 implies #[trigger] key_bytes(small)[i] == key_bytes(
            hex,
        )[i] by {
            assert(hex_value(small[2 * i]) == hex_value(hex[2 * i]));
            assert(hex_value(small[2 * i + 1]) == hex_value(hex[2 * i + 1]));
        }
        assert(key_bytes(small) =~= key_bytes(hex));
    }
}

proof fn lemma_hex_case(c: char)
    ensures
        hex_value(lower(c)) == hex_value(c),
{
}

} // verus!
