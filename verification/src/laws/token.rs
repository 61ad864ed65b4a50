//! Tokens of prose.

use crate::laws::text::{all_in, lemma_trim_left};
use crate::text::{ascii_digit, lemma_rfind_unique, trim, trim_end, trim_start, Class};
use crate::token::{
    all_digits, clean, law_positions_are_stripped, law_stripped_ends, lemma_strip_pass, strip_all,
    strip_pass, without_number, without_position,
};
use vstd::prelude::*;

verus! {

/// Can this follow a path in prose: wrappers and the punctuation of sentences, in any
/// order?
pub open spec fn trails(s: Seq<char>) -> bool {
    forall|i: int|
        0 <= i < s.len() ==> Class::Wrapper.has(#[trigger] s[i]) || Class::Stop.has(s[i])
}

/// Is this a text that prose leaves alone: one that neither starts nor ends with a
/// wrapper, nor ends with the punctuation of a sentence?
pub open spec fn bare(s: Seq<char>) -> bool {
    s.len() > 0 && !Class::Wrapper.has(s.first()) && !Class::Wrapper.has(s.last())
        && !Class::Stop.has(s.last())
}

/// Trimming the end of a text with a tail leaves the text and some of the tail.
proof fn lemma_tail(core: Seq<char>, tail: Seq<char>, k: Class) -> (n: int)
    requires
        core.len() > 0,
        !k.has(core.last()),
    ensures
        0 <= n <= tail.len(),
        trim_end(core + tail, k) == core + tail.take(n),
    decreases tail.len(),
{
    let s = core + tail;
    if tail.len() > 0 && k.has(tail.last()) {
        assert(s.last() == tail.last());
        assert(s.drop_last() =~= core + tail.drop_last());
        let n = lemma_tail(core, tail.drop_last(), k);
        assert(tail.drop_last().take(n) =~= tail.take(n));
        n
    } else {
        assert(s.last() == if tail.len() > 0 {
            tail.last()
        } else {
            core.last()
        });
        assert(tail.take(tail.len() as int) =~= tail);
        tail.len() as int
    }
}

proof fn lemma_core(left: Seq<char>, core: Seq<char>, right: Seq<char>)
    requires
        all_in(left, Class::Wrapper),
        trails(right),
        bare(core),
    ensures
        strip_all(left + core + right) == core,
    decreases (left + core + right).len(),
{
    let s = left + core + right;
    lemma_strip_pass(s);
    law_stripped_ends(s);
    if strip_pass(s) == s {
        if right.len() > 0 {
            assert(s.last() == right[right.len() - 1]);
        }
        if left.len() > 0 {
            assert(s.first() == left[0]);
        }
        assert(s =~= core);
    } else {
        let most = core + right;
        assert(s =~= left + most);
        assert(most.first() == core.first());
        lemma_trim_left(left, most, Class::Wrapper);
        let n = lemma_tail(core, right, Class::Wrapper);
        let m = lemma_tail(core, right.take(n), Class::Stop);
        let rest = right.take(n).take(m);
        assert(strip_pass(s) == core + rest);
        assert(trails(rest)) by {
            assert forall|i: int| 0 <= i < rest.len() implies Class::Wrapper.has(
                #[trigger] rest[i],
            ) || Class::Stop.has(rest[i]) by {
                assert(rest[i] == right[i]);
            }
        }
        let none = Seq::<char>::empty();
        assert(core + rest =~= none + core + rest);
        lemma_core(none, core, rest);
    }
}

/// What prose puts round a path comes off, however much of it there is, and nothing
/// else does.
pub proof fn law_prose_round_a_path_comes_off(left: Seq<char>, path: Seq<char>, right: Seq<char>)
    requires
        all_in(left, Class::Wrapper),
        trails(right),
        bare(path),
        without_number(path) == path,
    ensures
        clean(left + path + right) == Some(path),
{
    lemma_core(left, path, right);
}

/// The same where a line, or a line and a column, follows the path.
pub proof fn law_prose_round_a_position_comes_off(
    left: Seq<char>,
    path: Seq<char>,
    line: Seq<char>,
    column: Seq<char>,
    right: Seq<char>,
)
    requires
        all_in(left, Class::Wrapper),
        trails(right),
        path.len() > 0,
        !Class::Wrapper.has(path.first()),
        without_number(path) == path,
        line.len() > 0,
        column.len() > 0,
        all_digits(line),
        all_digits(column),
    ensures
        clean(left + (path + seq![':'] + line) + right) == Some(path),
        clean(left + (path + seq![':'] + line + seq![':'] + column) + right) == Some(path),
{
    let one = path + seq![':'] + line;
    let two = one + seq![':'] + column;
    assert(one.last() == line[line.len() - 1]);
    assert(two.last() == column[column.len() - 1]);
    assert(one.first() == path.first() && two.first() == path.first());
    lemma_core(left, one, right);
    lemma_core(left, two, right);
    law_positions_are_stripped(path, line, column);
}

/// Nothing is left of a token that is made of wrappers and punctuation alone.
pub proof fn law_mere_punctuation_is_no_path(s: Seq<char>)
    requires
        trails(s),
    ensures
        clean(s) is None,
{
    lemma_mere(s);
    law_stripped_ends(s);
    let rest = strip_all(s);
    if rest.len() > 0 {
        assert(rest.last() == rest[rest.len() - 1]);
    }
}

proof fn lemma_mere(s: Seq<char>)
    requires
        trails(s),
    ensures
        trails(strip_all(s)),
    decreases s.len(),
{
    lemma_strip_pass(s);
    if strip_pass(s) != s {
        lemma_start_trails(s);
        lemma_end_trails(trim_start(s, Class::Wrapper), Class::Wrapper);
        lemma_end_trails(trim(s, Class::Wrapper), Class::Stop);
        lemma_mere(strip_pass(s));
    }
}

proof fn lemma_start_trails(s: Seq<char>)
    requires
        trails(s),
    ensures
        trails(trim_start(s, Class::Wrapper)),
    decreases s.len(),
{
    if s.len() > 0 && Class::Wrapper.has(s.first()) {
        let rest = s.drop_first();
        assert forall|i: int| 0 <= i < rest.len() implies Class::Wrapper.has(#[trigger] rest[i])
            || Class::Stop.has(rest[i]) by {
            assert(rest[i] == s[i + 1]);
        }
        lemma_start_trails(rest);
    }
}

proof fn lemma_end_trails(s: Seq<char>, k: Class)
    requires
        trails(s),
    ensures
        trails(trim_end(s, k)),
    decreases s.len(),
{
    if s.len() > 0 && k.has(s.last()) {
        let rest = s.drop_last();
        assert forall|i: int| 0 <= i < rest.len() implies Class::Wrapper.has(#[trigger] rest[i])
            || Class::Stop.has(rest[i]) by {
            assert(rest[i] == s[i]);
        }
        lemma_end_trails(rest, k);
    }
}

/// A number is made of the digits from 0 to 9.
pub proof fn law_numbers_are_digits(s: Seq<char>)
    ensures
        all_digits(s) <==> forall|i: int| 0 <= i < s.len() ==> "0123456789"@.contains(
            #[trigger] s[i],
        ),
{
    reveal_strlit("0123456789");
    let d = "0123456789"@;
    assert(d[0] == '0' && d[1] == '1' && d[2] == '2' && d[3] == '3' && d[4] == '4' && d[5] == '5'
        && d[6] == '6' && d[7] == '7' && d[8] == '8' && d[9] == '9');
    assert forall|c: char| #[trigger] d.contains(c) <==> ascii_digit(c) by {
        if ascii_digit(c) {
            assert(d[c as int - 48] == c);
        }
    }
}

/// What follows the last colon comes off where it is a number, and only there.
pub proof fn law_numbers_come_off(head: Seq<char>, tail: Seq<char>)
    requires
        !tail.contains(':'),
    ensures
        tail.len() > 0 && all_digits(tail) ==> without_number(head + seq![':'] + tail) == head,
        tail.len() == 0 || !all_digits(tail) ==> without_number(head + seq![':'] + tail) == head
            + seq![':'] + tail,
        without_number(tail) == tail,
{
    let s = head + seq![':'] + tail;
    let k = head.len() as int;
    assert(s[k] == ':');
    assert forall|i: int| k < i < s.len() implies s[i] != ':' by {
        assert(s[i] == tail[i - k - 1]);
    }
    lemma_rfind_unique(s, ':', k);
    assert(s.skip(k + 1) =~= tail);
    assert(s.take(k) =~= head);
    lemma_rfind_unique(tail, ':', -1);
}

/// At most two numbers come off: a third is part of the name.
pub proof fn law_two_numbers_at_most(a: Seq<char>, b: Seq<char>, c: Seq<char>, path: Seq<char>)
    requires
        a.len() > 0 && b.len() > 0 && c.len() > 0,
        all_digits(a) && all_digits(b) && all_digits(c),
    ensures
        without_position(path + seq![':'] + a + seq![':'] + b + seq![':'] + c) == path + seq![':']
            + a,
{
    law_numbers_come_off(path + seq![':'] + a, b);
    law_numbers_come_off(path + seq![':'] + a + seq![':'] + b, c);
}

/// Wrappers are quotes, brackets, separators of lists, stars and white space; stops are
/// what ends a sentence.
pub proof fn law_what_prose_puts_round_paths(c: char)
    ensures
        33 <= c as u32 <= 126 ==> (Class::Wrapper.has(c) <==> "`\"'()[]{}<>,;*"@.contains(c)),
        Class::Stop.has(c) <==> ".:!?"@.contains(c),
{
    reveal_strlit("`\"'()[]{}<>,;*");
    reveal_strlit(".:!?");
    let w = "`\"'()[]{}<>,;*"@;
    let t = ".:!?"@;
    assert(w[0] == '`' && w[1] == '"' && w[2] == '\'' && w[3] == '(' && w[4] == ')' && w[5] == '['
        && w[6] == ']' && w[7] == '{' && w[8] == '}' && w[9] == '<' && w[10] == '>' && w[11] == ','
        && w[12] == ';' && w[13] == '*');
    assert(t[0] == '.' && t[1] == ':' && t[2] == '!' && t[3] == '?');
}

} // verus!
