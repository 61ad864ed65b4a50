//! Path-shaped tokens in prose.

use crate::text::{
    after_last, ascii_digit, chars, lemma_rfind_unique, lemma_trim_end_len,
    lemma_trim_start_len, rfind, same, string,
    trim, trim_end, trim_start, trimmed, trimmed_end, Class,
};
use vstd::prelude::*;
use vstd::slice::slice_subrange;

verus! {

/// One pass of stripping: the wrappers at both ends, then the punctuation at the
/// end.
pub open spec fn strip_pass(s: Seq<char>) -> Seq<char> {
    trim_end(trim(s, Class::Wrapper), Class::Stop)
}

pub proof fn lemma_strip_pass(s: Seq<char>)
    ensures
        strip_pass(s).len() <= s.len(),
        strip_pass(s).len() == s.len() ==> strip_pass(s) == s,
{
    lemma_trim_start_len(s, Class::Wrapper);
    lemma_trim_end_len(trim_start(s, Class::Wrapper), Class::Wrapper);
    lemma_trim_end_len(trim(s, Class::Wrapper), Class::Stop);
}

/// Passes of stripping until one changes nothing. Wrappers and punctuation
/// interleave, as in `(src/lib.rs).`, so each pass can expose more.
pub open spec fn strip_all(s: Seq<char>) -> Seq<char>
    decreases s.len(),
    via strip_all_decreases
{
    if strip_pass(s) == s {
        s
    } else {
        strip_all(strip_pass(s))
    }
}

#[via_fn]
proof fn strip_all_decreases(s: Seq<char>) {
    lemma_strip_pass(s);
}

pub open spec fn all_digits(s: Seq<char>) -> bool {
    forall|i: int| 0 <= i < s.len() ==> ascii_digit(#[trigger] s[i])
}

/// `s` without a last `:` and the number after it.
pub open spec fn without_number(s: Seq<char>) -> Seq<char> {
    let k = rfind(s, ':');
    if k >= 0 && k + 1 < s.len() && all_digits(s.skip(k + 1)) {
        s.take(k)
    } else {
        s
    }
}

/// `s` without a trailing line number, or line and column number.
pub open spec fn without_position(s: Seq<char>) -> Seq<char> {
    without_number(without_number(s))
}

/// A token as the path it may name: stripped of what prose puts round it and of
/// a position in the file. `None` if nothing is left.
pub open spec fn clean(raw: Seq<char>) -> Option<Seq<char>> {
    let cut = without_position(strip_all(raw));
    if cut.len() == 0 {
        None
    } else {
        Some(cut)
    }
}

fn is_number(s: &[char]) -> (b: bool)
    ensures
        b == all_digits(s@),
{
    let mut i: usize = 0;
    while i < s.len()
        invariant
            i <= s@.len(),
            forall|j: int| 0 <= j < i ==> ascii_digit(#[trigger] s@[j]),
        decreases s@.len() - i,
    {
        if !('0' <= s[i] && s[i] <= '9') {
            return false;
        }
        i += 1;
    }
    true
}

pub(crate) fn number_stripped(s: &[char]) -> (r: &[char])
    ensures
        r@ == without_number(s@),
{
    let n: usize = after_last(s, ':');
    if n > 0 && n < s.len() {
        let tail = slice_subrange(s, n, s.len());
        assert(tail@ == s@.skip(n as int));
        if is_number(tail) {
            let r = slice_subrange(s, 0, n - 1);
            assert(r@ == s@.take(n - 1));
            return r;
        }
    }
    s
}

pub(crate) fn position_stripped(s: &[char]) -> (r: &[char])
    ensures
        r@ == without_position(s@),
{
    number_stripped(number_stripped(s))
}

pub(crate) fn cleaned(raw: &[char]) -> (r: Option<&[char]>)
    ensures
        match r {
            Some(t) => clean(raw@) == Some(t@),
            None => clean(raw@) is None,
        },
{
    let mut cut: &[char] = raw;
    let mut next: &[char] = trimmed_end(trimmed(cut, Class::Wrapper), Class::Stop);
    while !same(cut, next)
        invariant
            next@ == strip_pass(cut@),
            strip_all(cut@) == strip_all(raw@),
        decreases cut@.len(),
    {
        proof {
            lemma_strip_pass(cut@);
        }
        cut = next;
        next = trimmed_end(trimmed(cut, Class::Wrapper), Class::Stop);
    }
    let done = position_stripped(cut);
    if done.len() == 0 {
        None
    } else {
        Some(done)
    }
}

/// `src/main.rs:42` and `src/main.rs:42:9` both name `src/main.rs`.
pub fn strip_line_suffix(token: &str) -> (r: String)
    ensures
        r@ == without_position(token@),
{
    let text = chars(token);
    string(position_stripped(text.as_slice()))
}

/// Strips the punctuation that a path picks up from being written in prose or
/// markdown, and any trailing `:line:col`.
pub fn clean_token(raw: &str) -> (r: Option<String>)
    ensures
        match r {
            Some(t) => clean(raw@) == Some(t@),
            None => clean(raw@) is None,
        },
{
    let text = chars(raw);
    match cleaned(text.as_slice()) {
        Some(t) => Some(string(t)),
        None => None,
    }
}

/// A stripped token neither starts nor ends with a wrapper, nor ends with the
/// punctuation of a sentence.
pub proof fn law_stripped_ends(s: Seq<char>)
    ensures
        strip_pass(strip_all(s)) == strip_all(s),
        strip_all(s).len() > 0 ==> {
            &&& !Class::Wrapper.has(strip_all(s).first())
            &&& !Class::Wrapper.has(strip_all(s).last())
            &&& !Class::Stop.has(strip_all(s).last())
        },
    decreases s.len(),
{
    lemma_strip_pass(s);
    if strip_pass(s) == s {
        lemma_trim_start_len(s, Class::Wrapper);
        lemma_trim_end_len(trim_start(s, Class::Wrapper), Class::Wrapper);
        lemma_trim_end_len(trim(s, Class::Wrapper), Class::Stop);
        if s.len() > 0 && Class::Wrapper.has(s.first()) {
            lemma_trim_start_len(s.drop_first(), Class::Wrapper);
        }
        if s.len() > 0 && Class::Wrapper.has(s.last()) {
            lemma_trim_end_len(s.drop_last(), Class::Wrapper);
        }
        if s.len() > 0 && Class::Stop.has(s.last()) {
            lemma_trim_end_len(s.drop_last(), Class::Stop);
        }
    } else {
        law_stripped_ends(strip_pass(s));
    }
}

/// A line number, or a line and a column number, behind a path is taken off:
/// `src/main.rs:42` and `src/main.rs:42:9` both name `src/main.rs`.
pub proof fn law_positions_are_stripped(path: Seq<char>, line: Seq<char>, column: Seq<char>)
    requires
        line.len() > 0,
        column.len() > 0,
        all_digits(line),
        all_digits(column),
        without_number(path) == path,
    ensures
        without_position(path) == path,
        without_position(path + seq![':'] + line) == path,
        without_position(path + seq![':'] + line + seq![':'] + column) == path,
{
    lemma_number(path, line);
    lemma_number(path + seq![':'] + line, column);
}

/// A `:` and a number at the end are taken off.
pub proof fn lemma_number(path: Seq<char>, number: Seq<char>)
    requires
        number.len() > 0,
        all_digits(number),
    ensures
        without_number(path + seq![':'] + number) == path,
{
    let s = path + seq![':'] + number;
    let k = path.len() as int;
    assert forall|i: int| k < i < s.len() implies s[i] != ':' by {
        assert(s[i] == number[i - k - 1]);
    }
    lemma_rfind_unique(s, ':', k);
    assert(s.skip(k + 1) =~= number);
    assert(s.take(k) =~= path);
}

} // verus!
