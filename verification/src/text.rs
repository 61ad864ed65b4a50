//! Text as sequences of characters: classes, trimming, splitting, joining.
//!
//! The view of a `str` is a `Seq<char>`, so every routine here is stated over
//! such sequences. Executable code works on slices of characters, which can be
//! cut without copying.

use vstd::prelude::*;
use vstd::slice::slice_subrange;

verus! {

/// What `char::is_alphanumeric` answers: letters and numbers of every script.
pub uninterp spec fn alphanumeric(c: char) -> bool;

/// `char::is_alphanumeric` depends on the character alone. Of its tables only
/// the ASCII part is spelled out here: there it is true of the letters and the
/// ten digits and of nothing else.
pub assume_specification[ char::is_alphanumeric ](c: char) -> (b: bool)
    ensures
        b == alphanumeric(c),
        (c as u32) < 128 ==> b == (ascii_letter(c) || ascii_digit(c)),
;

/// `String::push` appends one character to the end of the string.
pub assume_specification[ String::push ](s: &mut String, c: char)
    ensures
        final(s)@ == old(s)@.push(c),
;

pub open spec fn ascii_upper(c: char) -> bool {
    'A' <= c && c <= 'Z'
}

pub open spec fn ascii_letter(c: char) -> bool {
    ascii_upper(c) || ('a' <= c && c <= 'z')
}

pub open spec fn ascii_digit(c: char) -> bool {
    '0' <= c && c <= '9'
}

/// The characters with Unicode's `White_Space` property.
pub open spec fn white_space(c: char) -> bool {
    let u = c as u32;
    ||| 0x09 <= u <= 0x0d
    ||| u == 0x20
    ||| u == 0x85
    ||| u == 0xa0
    ||| u == 0x1680
    ||| 0x2000 <= u <= 0x200a
    ||| u == 0x2028
    ||| u == 0x2029
    ||| u == 0x202f
    ||| u == 0x205f
    ||| u == 0x3000
}

/// A letter or a number of any script, or an underscore.
pub open spec fn word_char(c: char) -> bool {
    ||| c == '_'
    ||| if (c as u32) < 128 {
        ascii_letter(c) || ascii_digit(c)
    } else {
        alphanumeric(c)
    }
}

/// A set of characters to trim or to split at.
#[derive(Clone, Copy)]
pub enum Class {
    /// Unicode white space.
    White,
    /// The path separator of Unix.
    Slash,
    /// The path separator of Windows.
    Backslash,
    /// What separates the components of most paths on Windows.
    EitherSlash,
    /// The brackets round a section header.
    Bracket,
    /// What prose and markdown put round a path, white space included.
    Wrapper,
    /// What ends a clause or a sentence.
    Stop,
    /// Everything but letters, numbers and the underscore.
    NonWord,
}

impl Class {
    pub open spec fn has(self, c: char) -> bool {
        match self {
            Class::White => white_space(c),
            Class::Slash => c == '/',
            Class::Backslash => c == '\\',
            Class::EitherSlash => c == '\\' || c == '/',
            Class::Bracket => c == '[' || c == ']',
            Class::Wrapper => {
                ||| c == '`' || c == '"' || c == '\''
                ||| c == '(' || c == ')' || c == '[' || c == ']'
                ||| c == '{' || c == '}' || c == '<' || c == '>'
                ||| c == ',' || c == ';' || c == '*'
                ||| white_space(c)
            },
            Class::Stop => c == '.' || c == ':' || c == '!' || c == '?',
            Class::NonWord => !word_char(c),
        }
    }

    pub fn contains(self, c: char) -> (b: bool)
        ensures
            b == self.has(c),
    {
        match self {
            Class::White => is_white_space(c),
            Class::Slash => c == '/',
            Class::Backslash => c == '\\',
            Class::EitherSlash => c == '\\' || c == '/',
            Class::Bracket => c == '[' || c == ']',
            Class::Wrapper => c == '`' || c == '"' || c == '\'' || c == '(' || c == ')' || c == '['
                || c == ']' || c == '{' || c == '}' || c == '<' || c == '>' || c == ',' || c == ';'
                || c == '*' || is_white_space(c),
            Class::Stop => c == '.' || c == ':' || c == '!' || c == '?',
            Class::NonWord => !c.is_alphanumeric() && c != '_',
        }
    }
}

pub fn is_white_space(c: char) -> (b: bool)
    ensures
        b == white_space(c),
{
    let u: u32 = c as u32;
    (0x09 <= u && u <= 0x0d) || u == 0x20 || u == 0x85 || u == 0xa0 || u == 0x1680 || (0x2000 <= u
        && u <= 0x200a) || u == 0x2028 || u == 0x2029 || u == 0x202f || u == 0x205f || u == 0x3000
}

/// The characters of a string, in order.
pub fn chars(s: &str) -> (v: Vec<char>)
    ensures
        v@ == s@,
{
    let mut v: Vec<char> = Vec::new();
    for c in it: s.chars()
        invariant
            it.seq() == s@,
            v@ == s@.take(it.index()),
    {
        v.push(c);
    }
    assert(s@.take(s@.len() as int) == s@);
    v
}

/// The string that a slice of characters spells.
pub fn string(s: &[char]) -> (r: String)
    ensures
        r@ == s@,
{
    let mut r: String = String::new();
    let mut i: usize = 0;
    while i < s.len()
        invariant
            i <= s@.len(),
            r@ == s@.take(i as int),
        decreases s@.len() - i,
    {
        r.push(s[i]);
        i += 1;
    }
    assert(s@.take(s@.len() as int) == s@);
    r
}

// ---- Trimming -------------------------------------------------------------

/// `s` without the characters of `k` that it begins with.
pub open spec fn trim_start(s: Seq<char>, k: Class) -> Seq<char>
    decreases s.len(),
{
    if s.len() > 0 && k.has(s.first()) {
        trim_start(s.drop_first(), k)
    } else {
        s
    }
}

/// `s` without the characters of `k` that it ends with.
pub open spec fn trim_end(s: Seq<char>, k: Class) -> Seq<char>
    decreases s.len(),
{
    if s.len() > 0 && k.has(s.last()) {
        trim_end(s.drop_last(), k)
    } else {
        s
    }
}

/// `s` without the characters of `k` at either end.
pub open spec fn trim(s: Seq<char>, k: Class) -> Seq<char> {
    trim_end(trim_start(s, k), k)
}

/// Trimming shortens a text or leaves it as it is.
pub proof fn lemma_trim_start_len(s: Seq<char>, k: Class)
    ensures
        trim_start(s, k).len() <= s.len(),
        trim_start(s, k).len() == s.len() ==> trim_start(s, k) == s,
    decreases s.len(),
{
    if s.len() > 0 && k.has(s.first()) {
        lemma_trim_start_len(s.drop_first(), k);
    }
}

pub proof fn lemma_trim_end_len(s: Seq<char>, k: Class)
    ensures
        trim_end(s, k).len() <= s.len(),
        trim_end(s, k).len() == s.len() ==> trim_end(s, k) == s,
    decreases s.len(),
{
    if s.len() > 0 && k.has(s.last()) {
        lemma_trim_end_len(s.drop_last(), k);
    }
}

pub fn trimmed_start(s: &[char], k: Class) -> (r: &[char])
    ensures
        r@ == trim_start(s@, k),
{
    let mut i: usize = 0;
    assert(s@.skip(0) == s@);
    while i < s.len() && k.contains(s[i])
        invariant
            i <= s@.len(),
            trim_start(s@.skip(i as int), k) == trim_start(s@, k),
        decreases s@.len() - i,
    {
        assert(s@.skip(i as int).drop_first() == s@.skip(i + 1));
        i += 1;
    }
    let r = slice_subrange(s, i, s.len());
    assert(r@ == s@.skip(i as int));
    r
}

pub fn trimmed_end(s: &[char], k: Class) -> (r: &[char])
    ensures
        r@ == trim_end(s@, k),
{
    let mut n: usize = s.len();
    assert(s@.take(n as int) == s@);
    while n > 0 && k.contains(s[n - 1])
        invariant
            n <= s@.len(),
            trim_end(s@.take(n as int), k) == trim_end(s@, k),
        decreases n,
    {
        assert(s@.take(n as int).drop_last() == s@.take(n - 1));
        n -= 1;
    }
    let r = slice_subrange(s, 0, n);
    assert(r@ == s@.take(n as int));
    r
}

pub fn trimmed(s: &[char], k: Class) -> (r: &[char])
    ensures
        r@ == trim(s@, k),
{
    trimmed_end(trimmed_start(s, k), k)
}

// ---- Comparing ------------------------------------------------------------

pub fn same(a: &[char], b: &[char]) -> (r: bool)
    ensures
        r == (a@ == b@),
{
    if a.len() != b.len() {
        return false;
    }
    let mut i: usize = 0;
    while i < a.len()
        invariant
            i <= a@.len(),
            a@.len() == b@.len(),
            a@.take(i as int) == b@.take(i as int),
        decreases a@.len() - i,
    {
        if a[i] != b[i] {
            return false;
        }
        assert(a@.take(i + 1) == a@.take(i as int).push(a@[i as int]));
        assert(b@.take(i + 1) == b@.take(i as int).push(b@[i as int]));
        i += 1;
    }
    assert(a@.take(a@.len() as int) == a@);
    assert(b@.take(b@.len() as int) == b@);
    true
}

/// Does `s` spell this string?
pub fn spells(s: &[char], text: &str) -> (r: bool)
    ensures
        r == (s@ == text@),
{
    let mut agree: bool = true;
    let mut k: usize = 0;
    for c in it: text.chars()
        invariant
            it.seq() == text@,
            k <= s@.len(),
            agree ==> k == it.index() && s@.take(k as int) == text@.take(k as int),
            !agree ==> s@ != text@,
    {
        if agree && k < s.len() && s[k] == c {
            assert(s@.take(k + 1) == s@.take(k as int).push(c));
            assert(text@.take(k + 1) == text@.take(k as int).push(c));
            k += 1;
        } else {
            agree = false;
        }
    }
    assert(text@.take(text@.len() as int) == text@);
    assert(s@.take(s@.len() as int) == s@);
    agree && k == s.len()
}

/// Does `s` begin with `p`?
pub fn has_prefix(s: &[char], p: &[char]) -> (r: bool)
    ensures
        r == p@.is_prefix_of(s@),
{
    if s.len() < p.len() {
        return false;
    }
    same(slice_subrange(s, 0, p.len()), p)
}

/// Does `s` end with `p`?
pub fn has_suffix(s: &[char], p: &[char]) -> (r: bool)
    ensures
        r == p@.is_suffix_of(s@),
{
    if s.len() < p.len() {
        return false;
    }
    same(slice_subrange(s, s.len() - p.len(), s.len()), p)
}

/// The order of strings: by the first character that differs, a proper prefix
/// before what it begins.
pub open spec fn lex_less(a: Seq<char>, b: Seq<char>) -> bool
    decreases a.len(),
{
    if b.len() == 0 {
        false
    } else if a.len() == 0 {
        true
    } else if a.first() != b.first() {
        a.first() < b.first()
    } else {
        lex_less(a.drop_first(), b.drop_first())
    }
}

pub fn is_lex_less(a: &[char], b: &[char]) -> (r: bool)
    ensures
        r == lex_less(a@, b@),
{
    let mut i: usize = 0;
    assert(a@.skip(0) == a@);
    assert(b@.skip(0) == b@);
    while i < a.len() && i < b.len()
        invariant
            i <= a@.len(),
            i <= b@.len(),
            lex_less(a@, b@) == lex_less(a@.skip(i as int), b@.skip(i as int)),
        decreases a@.len() - i,
    {
        if a[i] != b[i] {
            return a[i] < b[i];
        }
        assert(a@.skip(i as int).drop_first() == a@.skip(i + 1));
        assert(b@.skip(i as int).drop_first() == b@.skip(i + 1));
        i += 1;
    }
    i < b.len()
}

/// The order of strings is a strict total order.
pub proof fn lemma_lex_less_total(a: Seq<char>, b: Seq<char>)
    ensures
        !(lex_less(a, b) && lex_less(b, a)),
        a != b <==> lex_less(a, b) || lex_less(b, a),
    decreases a.len(),
{
    if a.len() > 0 && b.len() > 0 && a.first() == b.first() {
        lemma_lex_less_total(a.drop_first(), b.drop_first());
        assert(a == seq![a.first()] + a.drop_first());
        assert(b == seq![b.first()] + b.drop_first());
    } else if a.len() == 0 && b.len() == 0 {
        assert(a == b);
    }
}

pub proof fn lemma_lex_less_transitive(a: Seq<char>, b: Seq<char>, c: Seq<char>)
    requires
        lex_less(a, b),
        lex_less(b, c),
    ensures
        lex_less(a, c),
    decreases a.len(),
{
    if a.len() > 0 && a.first() == b.first() && b.first() == c.first() {
        lemma_lex_less_transitive(a.drop_first(), b.drop_first(), c.drop_first());
    }
}

/// ASCII capitals become small letters; every other character stays.
pub open spec fn lower(c: char) -> char {
    if ascii_upper(c) {
        (c as u32 + 32) as char
    } else {
        c
    }
}

pub open spec fn to_lower(s: Seq<char>) -> Seq<char> {
    s.map_values(|c: char| lower(c))
}

pub fn lowered_char(c: char) -> (r: char)
    ensures
        r == lower(c),
{
    if 'A' <= c && c <= 'Z' {
        (c as u8 + 32) as char
    } else {
        c
    }
}

pub fn lowered(s: &[char]) -> (r: Vec<char>)
    ensures
        r@ == to_lower(s@),
{
    let mut r: Vec<char> = Vec::new();
    let mut i: usize = 0;
    while i < s.len()
        invariant
            i <= s@.len(),
            r@ == to_lower(s@.take(i as int)),
        decreases s@.len() - i,
    {
        r.push(lowered_char(s[i]));
        assert(s@.take(i + 1) == s@.take(i as int).push(s@[i as int]));
        i += 1;
    }
    assert(s@.take(s@.len() as int) == s@);
    r
}

pub fn same_ignoring_case(a: &[char], b: &[char]) -> (r: bool)
    ensures
        r == (to_lower(a@) == to_lower(b@)),
{
    same(lowered(a).as_slice(), lowered(b).as_slice())
}

// ---- Finding --------------------------------------------------------------

/// How many characters of `s` stand before its first `c`: all of them where
/// there is none.
pub open spec fn find(s: Seq<char>, c: char) -> nat
    decreases s.len(),
{
    if s.len() == 0 || s.first() == c {
        0
    } else {
        1 + find(s.drop_first(), c)
    }
}

pub proof fn lemma_find(s: Seq<char>, c: char)
    ensures
        find(s, c) <= s.len(),
        forall|i: int| 0 <= i < find(s, c) ==> s[i] != c,
        find(s, c) < s.len() ==> s[find(s, c) as int] == c,
        find(s, c) < s.len() <==> s.contains(c),
    decreases s.len(),
{
    if s.len() > 0 && s.first() != c {
        let t = s.drop_first();
        lemma_find(t, c);
        assert forall|i: int| 0 <= i < find(s, c) implies s[i] != c by {
            if i > 0 {
                assert(t[i - 1] == s[i]);
            }
        }
        if s.contains(c) {
            let j = choose|j: int| 0 <= j < s.len() && s[j] == c;
            assert(t[j - 1] == c);
        }
    } else if s.len() > 0 {
        assert(s[0] == c);
    }
}

/// The first `c` is the one with none before it.
pub proof fn lemma_find_unique(s: Seq<char>, c: char, k: int)
    requires
        0 <= k <= s.len(),
        forall|i: int| 0 <= i < k ==> s[i] != c,
        k < s.len() ==> s[k] == c,
    ensures
        find(s, c) == k,
{
    lemma_find(s, c);
    if find(s, c) < k {
        assert(s[find(s, c) as int] != c);
    } else if find(s, c) > k {
        assert(s[k] != c);
    }
}

pub fn find_char(s: &[char], c: char) -> (k: usize)
    ensures
        k == find(s@, c),
        k <= s@.len(),
        k < s@.len() ==> s@[k as int] == c,
        forall|i: int| 0 <= i < k ==> s@[i] != c,
{
    let mut k: usize = 0;
    while k < s.len() && s[k] != c
        invariant
            k <= s@.len(),
            forall|i: int| 0 <= i < k ==> s@[i] != c,
        decreases s@.len() - k,
    {
        k += 1;
    }
    proof {
        lemma_find_unique(s@, c, k as int);
    }
    k
}

/// The index of the last `c` in `s`, or -1 where there is none.
pub open spec fn rfind(s: Seq<char>, c: char) -> int
    decreases s.len(),
{
    if s.len() == 0 {
        -1
    } else if s.last() == c {
        s.len() - 1
    } else {
        rfind(s.drop_last(), c)
    }
}

pub proof fn lemma_rfind(s: Seq<char>, c: char)
    ensures
        -1 <= rfind(s, c) < s.len(),
        rfind(s, c) >= 0 ==> s[rfind(s, c)] == c,
        forall|i: int| rfind(s, c) < i < s.len() ==> s[i] != c,
    decreases s.len(),
{
    if s.len() > 0 && s.last() != c {
        lemma_rfind(s.drop_last(), c);
        assert forall|i: int| rfind(s, c) < i < s.len() implies s[i] != c by {
            if i < s.len() - 1 {
                assert(s.drop_last()[i] == s[i]);
            }
        }
    }
}

pub proof fn lemma_rfind_unique(s: Seq<char>, c: char, k: int)
    requires
        -1 <= k < s.len(),
        k >= 0 ==> s[k] == c,
        forall|i: int| k < i < s.len() ==> s[i] != c,
    ensures
        rfind(s, c) == k,
{
    lemma_rfind(s, c);
}

/// The number of characters up to and including the last `c` in `s`.
pub fn after_last(s: &[char], c: char) -> (n: usize)
    ensures
        n == rfind(s@, c) + 1,
        n <= s@.len(),
        n > 0 ==> s@[n - 1] == c,
        forall|i: int| n <= i < s@.len() ==> s@[i] != c,
{
    let mut n: usize = s.len();
    while n > 0 && s[n - 1] != c
        invariant
            n <= s@.len(),
            forall|i: int| n <= i < s@.len() ==> s@[i] != c,
        decreases n,
    {
        n -= 1;
    }
    proof {
        lemma_rfind_unique(s@, c, n - 1);
    }
    n
}

/// Where `pat` first occurs in `s`.
pub open spec fn find_str(s: Seq<char>, pat: Seq<char>) -> Option<int>
    decreases s.len(),
{
    if pat.is_prefix_of(s) {
        Some(0)
    } else if s.len() == 0 {
        None
    } else {
        match find_str(s.drop_first(), pat) {
            Some(i) => Some(i + 1),
            None => None,
        }
    }
}

/// The first occurrence is the one with none before it.
pub proof fn lemma_find_str_unique(s: Seq<char>, pat: Seq<char>, k: int)
    requires
        0 <= k <= s.len(),
        pat.is_prefix_of(s.skip(k)),
        forall|i: int| 0 <= i < k ==> !pat.is_prefix_of(#[trigger] s.skip(i)),
    ensures
        find_str(s, pat) == Some(k),
    decreases k,
{
    assert(s.skip(0) == s);
    if k > 0 {
        assert(!pat.is_prefix_of(s.skip(0)));
        let t = s.drop_first();
        assert(t.skip(k - 1) == s.skip(k));
        assert forall|i: int| 0 <= i < k - 1 implies !pat.is_prefix_of(#[trigger] t.skip(i)) by {
            assert(t.skip(i) == s.skip(i + 1));
        }
        lemma_find_str_unique(t, pat, k - 1);
    }
}

/// What occurs nowhere is not found.
pub proof fn lemma_find_str_none(s: Seq<char>, pat: Seq<char>)
    requires
        forall|i: int| 0 <= i <= s.len() ==> !pat.is_prefix_of(#[trigger] s.skip(i)),
    ensures
        find_str(s, pat) is None,
    decreases s.len(),
{
    assert(s.skip(0) == s);
    assert(!pat.is_prefix_of(s.skip(0)));
    if s.len() > 0 {
        let t = s.drop_first();
        assert forall|i: int| 0 <= i <= t.len() implies !pat.is_prefix_of(#[trigger] t.skip(i)) by {
            assert(t.skip(i) == s.skip(i + 1));
        }
        lemma_find_str_none(t, pat);
    }
}

pub fn find_text(s: &[char], pat: &[char]) -> (r: Option<usize>)
    ensures
        match r {
            Some(i) => find_str(s@, pat@) == Some(i as int) && i + pat@.len() <= s@.len(),
            None => find_str(s@, pat@) is None,
        },
{
    let mut i: usize = 0;
    assert(s@.skip(0) == s@);
    while i < s.len()
        invariant
            i <= s@.len(),
            find_str(s@, pat@) == (match find_str(s@.skip(i as int), pat@) {
                Some(j) => Some(i + j),
                None => None,
            }),
        decreases s@.len() - i,
    {
        let rest = slice_subrange(s, i, s.len());
        assert(rest@ == s@.skip(i as int));
        if has_prefix(rest, pat) {
            return Some(i);
        }
        assert(s@.skip(i as int).drop_first() == s@.skip(i + 1));
        i += 1;
    }
    if pat.len() == 0 {
        assert(pat@.is_prefix_of(s@.skip(i as int)));
        Some(i)
    } else {
        assert(!pat@.is_prefix_of(s@.skip(i as int)));
        None
    }
}

// ---- Splitting and joining ------------------------------------------------

/// What the pieces of a split spell.
pub open spec fn views(v: Seq<&[char]>) -> Seq<Seq<char>> {
    v.map_values(|p: &[char]| p@)
}

/// The pieces of `s` between the occurrences of `c`, empty ones included.
pub open spec fn split(s: Seq<char>, c: char) -> Seq<Seq<char>>
    decreases s.len(),
{
    let k = find(s, c);
    if k < s.len() {
        seq![s.take(k as int)] + split(s.skip(k as int + 1), c)
    } else {
        seq![s]
    }
}

pub fn splitted<'a>(s: &'a [char], c: char) -> (v: Vec<&'a [char]>)
    ensures
        views(v@) == split(s@, c),
{
    let mut v: Vec<&'a [char]> = Vec::new();
    let mut rest: &'a [char] = s;
    let mut k: usize = find_char(rest, c);
    while k < rest.len()
        invariant
            k == find(rest@, c),
            k <= rest@.len(),
            split(s@, c) == views(v@) + split(rest@, c),
        decreases rest@.len(),
    {
        let ghost before = rest@;
        let ghost pushed = v@;
        let piece = slice_subrange(rest, 0, k);
        rest = slice_subrange(rest, k + 1, rest.len());
        v.push(piece);
        proof {
            assert(rest@ == before.skip(k + 1));
            assert(piece@ == before.take(k as int));
            assert(views(v@) == views(pushed).push(piece@));
        }
        k = find_char(rest, c);
    }
    let ghost pushed = v@;
    v.push(rest);
    assert(views(v@) == views(pushed).push(rest@));
    v
}

/// Text without a separator is one piece.
pub proof fn lemma_split_none(s: Seq<char>, c: char)
    requires
        !s.contains(c),
    ensures
        split(s, c) == seq![s],
{
    lemma_find(s, c);
    if find(s, c) < s.len() {
        assert(s[find(s, c) as int] == c);
    }
}

/// The first piece is what stands before the first separator.
pub proof fn lemma_split_first(a: Seq<char>, b: Seq<char>, c: char)
    requires
        !a.contains(c),
    ensures
        split(a + seq![c] + b, c) == seq![a] + split(b, c),
{
    let s = a + seq![c] + b;
    assert(s[a.len() as int] == c);
    assert forall|i: int| 0 <= i < a.len() implies #[trigger] s[i] != c by {
        assert(s[i] == a[i]);
        assert(a.contains(a[i]));
    }
    lemma_find_unique(s, c, a.len() as int);
    assert(s.take(a.len() as int) =~= a);
    assert(s.skip(a.len() as int + 1) =~= b);
}

/// The pieces of a text of two parts: those of the first, those of the second,
/// with the last of the one and the first of the other grown together.
pub proof fn lemma_split_concat(a: Seq<char>, b: Seq<char>, c: char)
    ensures
        split(a, c).len() > 0,
        split(b, c).len() > 0,
        split(a + b, c) == split(a, c).drop_last() + seq![split(a, c).last() + split(b, c).first()]
            + split(b, c).drop_first(),
    decreases a.len(),
{
    lemma_find(a, c);
    lemma_find(b, c);
    let k = find(a, c) as int;
    let s = a + b;
    if k < a.len() {
        let rest = a.skip(k + 1);
        lemma_split_concat(rest, b, c);
        assert(s =~= a.take(k) + seq![c] + (rest + b));
        assert(!a.take(k).contains(c)) by {
            if a.take(k).contains(c) {
                let i = choose|i: int| 0 <= i < k && a.take(k)[i] == c;
                assert(a[i] == c);
            }
        }
        lemma_split_first(a.take(k), rest + b, c);
        assert(split(a, c) == seq![a.take(k)] + split(rest, c));
        assert(split(s, c) =~= split(a, c).drop_last() + seq![
            split(a, c).last() + split(b, c).first(),
        ] + split(b, c).drop_first());
    } else {
        assert(split(a, c) == seq![a]);
        let j = find(b, c) as int;
        if j < b.len() {
            let head = a + b.take(j);
            assert(s =~= head + seq![c] + b.skip(j + 1));
            assert(!head.contains(c)) by {
                if head.contains(c) {
                    let i = choose|i: int| 0 <= i < head.len() && head[i] == c;
                    if i < a.len() {
                        assert(a[i] == c);
                    } else {
                        assert(b[i - a.len()] == c);
                    }
                }
            }
            lemma_split_first(head, b.skip(j + 1), c);
            assert(split(s, c) =~= split(a, c).drop_last() + seq![
                split(a, c).last() + split(b, c).first(),
            ] + split(b, c).drop_first());
        } else {
            assert(!s.contains(c)) by {
                if s.contains(c) {
                    let i = choose|i: int| 0 <= i < s.len() && s[i] == c;
                    if i < a.len() {
                        assert(a[i] == c);
                    } else {
                        assert(b[i - a.len()] == c);
                    }
                }
            }
            lemma_split_none(s, c);
            assert(split(s, c) =~= split(a, c).drop_last() + seq![
                split(a, c).last() + split(b, c).first(),
            ] + split(b, c).drop_first());
        }
    }
}

/// How many characters `s` begins with that `k` does not have.
pub open spec fn run(s: Seq<char>, k: Class) -> nat
    decreases s.len(),
{
    if s.len() == 0 || k.has(s.first()) {
        0
    } else {
        1 + run(s.drop_first(), k)
    }
}

pub proof fn lemma_run(s: Seq<char>, k: Class)
    ensures
        run(s, k) <= s.len(),
        forall|i: int| 0 <= i < run(s, k) ==> !k.has(#[trigger] s[i]),
        run(s, k) < s.len() ==> k.has(s[run(s, k) as int]),
    decreases s.len(),
{
    if s.len() > 0 && !k.has(s.first()) {
        lemma_run(s.drop_first(), k);
        assert forall|i: int| 0 <= i < run(s, k) implies !k.has(#[trigger] s[i]) by {
            if i > 0 {
                assert(s.drop_first()[i - 1] == s[i]);
            }
        }
    }
}

/// The longest stretches of `s` without a character of `k`, in order: the
/// non-empty pieces that are left when `s` is split at every such character.
pub open spec fn words(s: Seq<char>, k: Class) -> Seq<Seq<char>>
    decreases s.len(),
    via words_decreases
{
    if s.len() == 0 {
        seq![]
    } else if k.has(s.first()) {
        words(s.drop_first(), k)
    } else {
        seq![s.take(run(s, k) as int)] + words(s.skip(run(s, k) as int), k)
    }
}

#[via_fn]
proof fn words_decreases(s: Seq<char>, k: Class) {
    lemma_run(s, k);
}

/// Words are not empty and hold no separator.
pub proof fn lemma_words(s: Seq<char>, k: Class)
    ensures
        forall|i: int| 0 <= i < words(s, k).len() ==> (#[trigger] words(s, k)[i]).len() > 0,
        forall|i: int, j: int|
            0 <= i < words(s, k).len() && 0 <= j < words(s, k)[i].len() ==> !k.has(
                #[trigger] words(s, k)[i][j],
            ),
    decreases s.len(),
{
    lemma_run(s, k);
    if s.len() > 0 && k.has(s.first()) {
        lemma_words(s.drop_first(), k);
        assert(words(s, k) == words(s.drop_first(), k));
    } else if s.len() > 0 {
        let n = run(s, k) as int;
        lemma_words(s.skip(n), k);
        let w = words(s, k);
        let rest = words(s.skip(n), k);
        assert(w == seq![s.take(n)] + rest);
        assert forall|i: int| 0 <= i < w.len() implies (#[trigger] w[i]).len() > 0 by {
            if i > 0 {
                assert(w[i] == rest[i - 1]);
            }
        }
        assert forall|i: int, j: int| 0 <= i < w.len() && 0 <= j < w[i].len() implies !k.has(
            #[trigger] w[i][j],
        ) by {
            if i > 0 {
                assert(w[i] == rest[i - 1]);
                assert(!k.has(rest[i - 1][j]));
            } else {
                assert(w[0][j] == s[j]);
            }
        }
    }
}

pub fn words_of<'a>(s: &'a [char], k: Class) -> (v: Vec<&'a [char]>)
    ensures
        views(v@) == words(s@, k),
{
    let mut v: Vec<&'a [char]> = Vec::new();
    let mut i: usize = 0;
    assert(s@.skip(0) == s@);
    assert(views(v@) == Seq::<Seq<char>>::empty());
    while i < s.len()
        invariant
            i <= s@.len(),
            words(s@, k) == views(v@) + words(s@.skip(i as int), k),
        decreases s@.len() - i,
    {
        let ghost rest = s@.skip(i as int);
        if k.contains(s[i]) {
            assert(rest.drop_first() == s@.skip(i + 1));
            i += 1;
        } else {
            let start: usize = i;
            i += 1;
            assert(rest.skip(1) == s@.skip(i as int));
            assert(rest.drop_first() == rest.skip(1));
            while i < s.len() && !k.contains(s[i])
                invariant
                    start < i <= s@.len(),
                    rest == s@.skip(start as int),
                    run(rest, k) == (i - start) + run(s@.skip(i as int), k),
                decreases s@.len() - i,
            {
                assert(s@.skip(i as int).drop_first() == s@.skip(i + 1));
                i += 1;
            }
            let ghost pushed = v@;
            let word = slice_subrange(s, start, i);
            v.push(word);
            proof {
                assert(word@ == rest.take(i - start));
                assert(rest.skip(i - start) == s@.skip(i as int));
                assert(views(v@) == views(pushed).push(word@));
            }
        }
    }
    v
}

/// The parts one after the other, with `sep` between neighbours.
pub open spec fn join(parts: Seq<Seq<char>>, sep: Seq<char>) -> Seq<char>
    decreases parts.len(),
{
    if parts.len() == 0 {
        seq![]
    } else if parts.len() == 1 {
        parts[0]
    } else {
        join(parts.drop_last(), sep) + sep + parts.last()
    }
}

/// Appends `part` to what `joined` holds, after `sep` if it is not the first.
pub(crate) fn join_next(joined: &mut Vec<char>, first: bool, part: &[char], sep: &[char], parts: Ghost<
    Seq<Seq<char>>,
>)
    requires
        old(joined)@ == join(parts@, sep@),
        first == (parts@.len() == 0),
    ensures
        final(joined)@ == join(parts@.push(part@), sep@),
{
    assert(parts@.push(part@).drop_last() =~= parts@);
    if !first {
        joined.extend_from_slice(sep);
    }
    joined.extend_from_slice(part);
}

pub fn joined(parts: &Vec<&[char]>, sep: &[char]) -> (r: Vec<char>)
    ensures
        r@ == join(views(parts@), sep@),
{
    let mut r: Vec<char> = Vec::new();
    let mut i: usize = 0;
    while i < parts.len()
        invariant
            i <= parts@.len(),
            r@ == join(views(parts@).take(i as int), sep@),
        decreases parts@.len() - i,
    {
        join_next(&mut r, i == 0, parts[i], sep, Ghost(views(parts@).take(i as int)));
        assert(views(parts@).take(i as int).push(parts@[i as int]@) == views(parts@).take(i + 1));
        i += 1;
    }
    assert(views(parts@).take(parts@.len() as int) == views(parts@));
    r
}

/// `s` with every `from` turned into `to`.
pub open spec fn replace(s: Seq<char>, from: char, to: char) -> Seq<char> {
    s.map_values(|c: char| if c == from { to } else { c })
}

pub fn replaced(s: &[char], from: char, to: char) -> (r: Vec<char>)
    ensures
        r@ == replace(s@, from, to),
{
    let mut r: Vec<char> = Vec::new();
    let mut i: usize = 0;
    while i < s.len()
        invariant
            i <= s@.len(),
            r@ == replace(s@.take(i as int), from, to),
        decreases s@.len() - i,
    {
        r.push(if s[i] == from { to } else { s[i] });
        assert(s@.take(i + 1) == s@.take(i as int).push(s@[i as int]));
        i += 1;
    }
    assert(s@.take(s@.len() as int) == s@);
    r
}

// ---- Numbers --------------------------------------------------------------

/// `n` in decimal, without leading zeros.
pub open spec fn decimal(n: nat) -> Seq<char>
    decreases n,
{
    if n < 10 {
        seq![(48 + n) as char]
    } else {
        decimal(n / 10).push((48 + n % 10) as char)
    }
}

/// `n` in decimal, with a minus sign where it is negative.
pub open spec fn decimal_int(n: int) -> Seq<char> {
    if n < 0 {
        seq!['-'] + decimal((-n) as nat)
    } else {
        decimal(n as nat)
    }
}

pub fn decimal_of(n: u64) -> (r: Vec<char>)
    ensures
        r@ == decimal(n as nat),
    decreases n,
{
    let digit: char = (48 + (n % 10) as u8) as char;
    let mut r: Vec<char> = if n < 10 { Vec::new() } else { decimal_of(n / 10) };
    r.push(digit);
    r
}

pub fn decimal_of_signed(n: i64) -> (r: Vec<char>)
    ensures
        r@ == decimal_int(n as int),
{
    if n < 0 {
        let mut r: Vec<char> = Vec::new();
        r.push('-');
        let magnitude: u64 = (-(n as i128)) as u64;
        let digits = decimal_of(magnitude);
        r.extend_from_slice(digits.as_slice());
        r
    } else {
        decimal_of(n as u64)
    }
}

} // verus!
