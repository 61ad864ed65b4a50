//! Taking text apart and putting it together.

use crate::text::{
    decimal, find, find_str, join, lemma_find, lemma_find_unique, lemma_rfind, lemma_run,
    lemma_split_concat, lemma_split_none, lex_less, replace, rfind, run, split, to_lower, trim,
    trim_end, trim_start, white_space, word_char, words, Class,
};
use vstd::prelude::*;

verus! {

/// Is every character of this text in a class?
pub open spec fn all_in(s: Seq<char>, k: Class) -> bool {
    forall|i: int| 0 <= i < s.len() ==> k.has(#[trigger] s[i])
}

/// Is no character of this text in a class?
pub open spec fn none_in(s: Seq<char>, k: Class) -> bool {
    forall|i: int| 0 <= i < s.len() ==> !k.has(#[trigger] s[i])
}

/// White space is what Unicode says it is; of ASCII, the blank and the controls from
/// the tab to the carriage return.
pub proof fn law_white_space(c: char)
    ensures
        (c as u32) < 128 ==> (white_space(c) <==> c == ' ' || c == '\t' || c == '\n' || c
            == '\r' || c as u32 == 11 || c as u32 == 12),
        c as u32 >= 128 ==> (white_space(c) <==> c as u32 == 0x85 || c as u32 == 0xa0 || c as u32
            == 0x1680 || 0x2000 <= c as u32 <= 0x200a || c as u32 == 0x2028 || c as u32 == 0x2029
            || c as u32 == 0x202f || c as u32 == 0x205f || c as u32 == 0x3000),
        Class::White.has(c) <==> white_space(c),
{
}

/// The separators of paths, and the brackets round a header.
pub proof fn law_separators(c: char)
    ensures
        Class::Slash.has(c) <==> c as u32 == 0x2f,
        Class::Backslash.has(c) <==> c as u32 == 0x5c,
        Class::EitherSlash.has(c) <==> c as u32 == 0x2f || c as u32 == 0x5c,
        Class::Bracket.has(c) <==> c as u32 == 0x5b || c as u32 == 0x5d,
        Class::NonWord.has(c) <==> !word_char(c),
{
}

/// Trimming takes off what is in the class at both ends, all of it and nothing else.
pub proof fn law_trim_takes_off_the_ends(left: Seq<char>, s: Seq<char>, right: Seq<char>, k: Class)
    requires
        all_in(left, k),
        all_in(right, k),
        s.len() > 0 ==> !k.has(s.first()) && !k.has(s.last()),
    ensures
        trim(left + s + right, k) == s,
        s.len() > 0 ==> trim_start(left + s + right, k) == s + right,
        s.len() > 0 ==> trim_end(left + s + right, k) == left + s,
{
    if s.len() > 0 {
        assert(left + s + right =~= left + (s + right));
        assert((s + right).first() == s.first());
        assert((left + s).last() == s.last());
        lemma_trim_left(left, s + right, k);
        lemma_trim_right(left + s, right, k);
        lemma_trim_right(s, right, k);
    } else {
        assert(left + s + right =~= (left + right) + s);
        assert(all_in(left + right, k)) by {
            let both = left + right;
            assert forall|i: int| 0 <= i < both.len() implies k.has(#[trigger] both[i]) by {
                if i < left.len() {
                    assert(both[i] == left[i]);
                } else {
                    assert(both[i] == right[i - left.len()]);
                }
            }
        }
        lemma_trim_left(left + right, s, k);
        assert(trim_end(s, k) == s);
    }
}

pub proof fn lemma_trim_left(left: Seq<char>, s: Seq<char>, k: Class)
    requires
        all_in(left, k),
        s.len() > 0 ==> !k.has(s.first()),
    ensures
        trim_start(left + s, k) == s,
    decreases left.len(),
{
    let whole = left + s;
    if left.len() > 0 {
        assert(whole.first() == left[0]);
        assert(whole.drop_first() =~= left.drop_first() + s);
        assert forall|i: int| 0 <= i < left.drop_first().len() implies k.has(
            #[trigger] left.drop_first()[i],
        ) by {
            assert(left.drop_first()[i] == left[i + 1]);
        }
        lemma_trim_left(left.drop_first(), s, k);
    } else {
        assert(whole =~= s);
    }
}

pub proof fn lemma_trim_right(s: Seq<char>, right: Seq<char>, k: Class)
    requires
        all_in(right, k),
        s.len() > 0 ==> !k.has(s.last()),
    ensures
        trim_end(s + right, k) == s,
    decreases right.len(),
{
    let whole = s + right;
    if right.len() > 0 {
        assert(whole.last() == right[right.len() - 1]);
        assert(whole.drop_last() =~= s + right.drop_last());
        assert forall|i: int| 0 <= i < right.drop_last().len() implies k.has(
            #[trigger] right.drop_last()[i],
        ) by {
            assert(right.drop_last()[i] == right[i]);
        }
        lemma_trim_right(s, right.drop_last(), k);
    } else {
        assert(whole =~= s);
    }
}

/// The words of a text are what stands between the separators: a separator parts
/// what is before it from what is after it, text without one is a single word, and
/// no word is empty.
pub proof fn law_words_stand_between_separators(a: Seq<char>, c: char, b: Seq<char>, k: Class)
    requires
        k.has(c),
    ensures
        words(a + seq![c] + b, k) == words(a, k) + words(b, k),
        none_in(a, k) && a.len() > 0 ==> words(a, k) == seq![a],
        a.len() == 0 ==> words(a, k) == Seq::<Seq<char>>::empty(),
{
    lemma_words_apart(a, c, b, k);
    if none_in(a, k) && a.len() > 0 {
        lemma_one_word(a, k);
    }
}

pub proof fn lemma_run_is(s: Seq<char>, k: Class, n: int)
    requires
        0 <= n <= s.len(),
        forall|i: int| 0 <= i < n ==> !k.has(#[trigger] s[i]),
        n < s.len() ==> k.has(s[n]),
    ensures
        run(s, k) == n,
    decreases s.len(),
{
    if n > 0 {
        assert(!k.has(s[0]));
        let rest = s.drop_first();
        assert forall|i: int| 0 <= i < n - 1 implies !k.has(#[trigger] rest[i]) by {
            assert(rest[i] == s[i + 1]);
        }
        if n < s.len() {
            assert(rest[n - 1] == s[n]);
        }
        lemma_run_is(rest, k, n - 1);
    } else if s.len() > 0 {
        assert(k.has(s.first()));
    }
}

pub proof fn lemma_one_word(w: Seq<char>, k: Class)
    requires
        w.len() > 0,
        none_in(w, k),
    ensures
        words(w, k) == seq![w],
{
    lemma_run_is(w, k, w.len() as int);
    assert(!k.has(w[0]));
    assert(w.take(w.len() as int) =~= w);
    let rest = w.skip(w.len() as int);
    assert(rest.len() == 0);
    assert(words(rest, k) == Seq::<Seq<char>>::empty());
    assert(words(w, k) =~= seq![w]);
}

proof fn lemma_words_apart(a: Seq<char>, c: char, b: Seq<char>, k: Class)
    requires
        k.has(c),
    ensures
        words(a + seq![c] + b, k) == words(a, k) + words(b, k),
    decreases a.len(),
{
    let s = a + seq![c] + b;
    if a.len() == 0 {
        assert(s.first() == c);
        assert(s.drop_first() =~= b);
        assert(words(s, k) =~= words(a, k) + words(b, k));
    } else if k.has(a.first()) {
        assert(s.first() == a.first());
        assert(s.drop_first() =~= a.drop_first() + seq![c] + b);
        lemma_words_apart(a.drop_first(), c, b, k);
    } else {
        lemma_run(a, k);
        let n = run(a, k) as int;
        assert(s.first() == a.first());
        assert forall|i: int| 0 <= i < n implies !k.has(#[trigger] s[i]) by {
            assert(s[i] == a[i]);
        }
        if n < a.len() {
            assert(s[n] == a[n]);
        } else {
            assert(s[n] == c);
        }
        lemma_run_is(s, k, n);
        assert(n > 0);
        assert(s.take(n) =~= a.take(n));
        assert(s.skip(n) =~= a.skip(n) + seq![c] + b);
        lemma_words_apart(a.skip(n), c, b, k);
        assert(words(s, k) == seq![s.take(n)] + words(s.skip(n), k));
        assert(words(a, k) == seq![a.take(n)] + words(a.skip(n), k));
        assert(words(s, k) =~= words(a, k) + words(b, k));
    }
}

/// The pieces of a text are what stands between the separators, empty pieces too.
pub proof fn law_pieces_stand_between_separators(a: Seq<char>, c: char, b: Seq<char>)
    ensures
        split(a + seq![c] + b, c) == split(a, c) + split(b, c),
        !a.contains(c) ==> split(a, c) == seq![a],
{
    let tail = seq![c] + b;
    assert(a + seq![c] + b =~= a + tail);
    lemma_split_concat(a, tail, c);
    lemma_split_concat(b, b, c);
    assert(tail.first() == c);
    lemma_find_unique(tail, c, 0);
    assert(tail.take(0) =~= Seq::<char>::empty());
    assert(tail.skip(1) =~= b);
    assert(split(tail, c) == seq![tail.take(0)] + split(b, c));
    assert(split(tail, c).first() =~= Seq::<char>::empty());
    assert(split(tail, c).drop_first() =~= split(b, c));
    assert(split(a, c).last() + split(tail, c).first() =~= split(a, c).last());
    assert(split(a, c).drop_last() + seq![split(a, c).last()] =~= split(a, c));
    assert(split(a + tail, c) =~= split(a, c) + split(b, c));
    if !a.contains(c) {
        lemma_split_none(a, c);
    }
}

/// Joining goes part by part, with the separator between and nowhere else; two
/// lists are joined as their joined texts are.
pub proof fn law_join_puts_separators_between(
    a: Seq<Seq<char>>,
    b: Seq<Seq<char>>,
    part: Seq<char>,
    sep: Seq<char>,
)
    ensures
        join(seq![part], sep) == part,
        a.len() > 0 && b.len() > 0 ==> join(a + b, sep) == join(a, sep) + sep + join(b, sep),
    decreases b.len(),
{
    if a.len() > 0 && b.len() > 0 {
        let whole = a + b;
        assert(whole.last() == b.last());
        if b.len() == 1 {
            assert(whole.drop_last() =~= a);
            assert(b.last() == b[0]);
        } else {
            law_join_puts_separators_between(a, b.drop_last(), part, sep);
            assert(whole.drop_last() =~= a + b.drop_last());
            assert(join(whole, sep) =~= join(a, sep) + sep + join(b, sep));
        }
    }
}

/// What is split at a character and joined with it again is what it was.
pub proof fn law_joining_undoes_splitting(s: Seq<char>, c: char)
    ensures
        join(split(s, c), seq![c]) == s,
    decreases s.len(),
{
    lemma_find(s, c);
    let k = find(s, c) as int;
    if k < s.len() {
        let rest = s.skip(k + 1);
        law_joining_undoes_splitting(rest, c);
        lemma_split_concat(rest, rest, c);
        law_join_puts_separators_between(seq![s.take(k)], split(rest, c), s.take(k), seq![c]);
        assert(s =~= s.take(k) + seq![c] + rest);
    }
}

/// Lower case is letter by letter, `A` to `a` and so on to `Z`; nothing else changes.
pub proof fn law_lower_case_is_letter_by_letter(s: Seq<char>, i: int)
    requires
        0 <= i < s.len(),
    ensures
        to_lower(s).len() == s.len(),
        'A' <= s[i] <= 'Z' ==> to_lower(s)[i] as int - 'a' as int == s[i] as int - 'A' as int,
        !('A' <= s[i] <= 'Z') ==> to_lower(s)[i] == s[i],
{
}

/// Replacing is character by character.
pub proof fn law_replacing_is_character_by_character(s: Seq<char>, from: char, to: char, i: int)
    requires
        0 <= i < s.len(),
    ensures
        replace(s, from, to).len() == s.len(),
        s[i] == from ==> replace(s, from, to)[i] == to,
        s[i] != from ==> replace(s, from, to)[i] == s[i],
{
}

/// The order of strings: the first place where two differ decides, and what comes to
/// an end there comes first.
pub proof fn law_first_difference_decides(
    common: Seq<char>,
    x: char,
    y: char,
    a: Seq<char>,
    b: Seq<char>,
)
    ensures
        x != y ==> (lex_less(common + seq![x] + a, common + seq![y] + b) <==> (x as u32) < (
        y as u32)),
        lex_less(common, common + seq![y] + b),
        !lex_less(common + seq![x] + a, common),
        !lex_less(common, common),
    decreases common.len(),
{
    let (s, t) = (common + seq![x] + a, common + seq![y] + b);
    if common.len() > 0 {
        let rest = common.drop_first();
        law_first_difference_decides(rest, x, y, a, b);
        assert(s.first() == common.first() && t.first() == common.first());
        assert(s.drop_first() =~= rest + seq![x] + a);
        assert(t.drop_first() =~= rest + seq![y] + b);
    } else {
        assert(s.first() == x && t.first() == y);
    }
}

/// The number that a run of decimal digits stands for.
pub open spec fn value(digits: Seq<char>) -> int
    decreases digits.len(),
{
    if digits.len() == 0 {
        0
    } else {
        10 * value(digits.drop_last()) + (digits.last() as int - '0' as int)
    }
}

/// A number is written in decimal digits that stand for it, without a leading zero.
pub proof fn law_numbers_are_written_in_decimal(n: nat, i: int)
    ensures
        value(decimal(n)) == n,
        decimal(n).len() > 0,
        0 <= i < decimal(n).len() ==> '0' <= decimal(n)[i] <= '9',
        n > 0 ==> decimal(n)[0] != '0',
    decreases n,
{
    if n >= 10 {
        law_numbers_are_written_in_decimal(n / 10, i);
        assert(decimal(n).drop_last() =~= decimal(n / 10));
        assert(decimal(n)[0] == decimal(n / 10)[0]);
    } else {
        assert(decimal(n).drop_last() =~= Seq::<char>::empty());
        assert(value(decimal(n).drop_last()) == 0);
        assert(decimal(n).last() == (48 + n) as char);
    }
}

/// The first place of a character is where it stands with none before it; the last,
/// with none after it.
pub proof fn law_first_and_last_place(s: Seq<char>, c: char, i: int)
    requires
        0 <= i < s.len(),
    ensures
        s[i] == c ==> find(s, c) <= i <= rfind(s, c),
        find(s, c) < s.len() ==> s[find(s, c) as int] == c,
        rfind(s, c) >= 0 ==> s[rfind(s, c)] == c,
{
    lemma_find(s, c);
    lemma_rfind(s, c);
}

/// A text is found at the first place where it stands, and not found where it
/// stands nowhere.
pub proof fn law_text_is_found_where_it_first_stands(s: Seq<char>, pat: Seq<char>, i: int)
    requires
        0 <= i <= s.len(),
    ensures
        pat.is_prefix_of(s.skip(i)) ==> (find_str(s, pat) matches Some(k) && k <= i),
        find_str(s, pat) matches Some(k) ==> 0 <= k <= s.len() && pat.is_prefix_of(s.skip(k)),
    decreases s.len(),
{
    assert(s.skip(0) =~= s);
    if !pat.is_prefix_of(s) && s.len() > 0 {
        let rest = s.drop_first();
        if i > 0 {
            law_text_is_found_where_it_first_stands(rest, pat, i - 1);
            assert(rest.skip(i - 1) =~= s.skip(i));
        } else {
            law_text_is_found_where_it_first_stands(rest, pat, 0);
        }
        if let Some(k) = find_str(rest, pat) {
            assert(rest.skip(k) =~= s.skip(k + 1));
        }
    }
}

} // verus!
