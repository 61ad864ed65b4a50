//! Paths on Windows.

use crate::laws::text::{
    law_join_puts_separators_between, law_pieces_stand_between_separators,
    law_words_stand_between_separators, lemma_run_is,
};
use crate::path::{climbs_out, depth, identity, Platform};
use crate::text::{
    ascii_letter, join, lemma_rfind, lemma_rfind_unique, lemma_split_none, lemma_words, lower,
    replace, split, trim_end, words, Class,
};
use crate::unix::{dot, dot_dot, stem_len};
use crate::windows::{
    absolute, below, body_len, component_start, components, drive, file_name, join_path, kept,
    key_of, last_end, last_start, lead, lemma_with_extension, mark, marked, names, parent, root,
    root_counts, root_shown, settle, start_len, walked, with_extension, Lead, LeadKind,
};
use vstd::prelude::*;

verus! {

/// Does this separate components?
pub open spec fn slash(c: char) -> bool {
    c == '\\' || c == '/'
}

/// No separator in it.
pub open spec fn one_piece(s: Seq<char>) -> bool {
    forall|i: int| 0 <= i < s.len() ==> !slash(#[trigger] s[i])
}

/// Is this the name of a file or a directory: one component, neither `.` nor `..`, with
/// no colon in it?
pub open spec fn name(s: Seq<char>) -> bool {
    s.len() > 0 && one_piece(s) && s != dot() && s != dot_dot() && !s.contains(':')
}

/// The root of a drive.
pub open spec fn top(d: char, s: char) -> Seq<char> {
    seq![d, ':', s]
}

/// Is this a path from the root of a drive on?
pub open spec fn from_top(p: Seq<char>) -> bool {
    p.len() >= 3 && ascii_letter(p[0]) && p[1] == ':' && slash(p[2])
}

/// The components of a path that follows another.
pub open spec fn inner(p: Seq<char>) -> Seq<Seq<char>> {
    components(top('C', '\\') + p).skip(2)
}

proof fn lemma_drive(p: Seq<char>)
    requires
        drive(p),
    ensures
        lead(p) == (Lead { kind: LeadKind::Drive, first: p.take(1), second: seq![], len: 2 }),
{
}

proof fn lemma_kept_concat(a: Seq<Seq<char>>, b: Seq<Seq<char>>, first: bool, all: bool)
    ensures
        kept(a + b, first, all) == kept(a, first, all) + kept(b, first && a.len() == 0, all),
    decreases a.len(),
{
    let s = a + b;
    if a.len() > 0 {
        assert(s.first() == a.first());
        assert(s.drop_first() =~= a.drop_first() + b);
        lemma_kept_concat(a.drop_first(), b, false, all);
    } else {
        assert(s =~= b);
    }
    assert(kept(s, first, all) =~= kept(a, first, all) + kept(b, first && a.len() == 0, all));
}

/// The names in a path from a top on.
proof fn lemma_top(d: char, s: char, b: Seq<char>)
    requires
        ascii_letter(d),
        slash(s),
    ensures
        lead(top(d, s) + b) == (Lead {
            kind: LeadKind::Drive,
            first: seq![d],
            second: seq![],
            len: 2,
        }),
        root_shown(top(d, s) + b),
        names(top(d, s) + b) == kept(words(b, Class::EitherSlash), false, false),
        components(top(d, s) + b) == seq![seq![d, ':'], root()] + names(top(d, s) + b),
        start_len(top(d, s) + b) == 3,
{
    let p = top(d, s) + b;
    let none = Seq::<char>::empty();
    assert(p[0] == d && p[1] == ':' && p[2] == s);
    lemma_drive(p);
    assert(p.take(1) =~= seq![d]);
    assert(p.take(2) =~= seq![d, ':']);
    assert(p.skip(2) =~= none + seq![s] + b);
    law_words_stand_between_separators(none, s, b, Class::EitherSlash);
    assert(words(p.skip(2), Class::EitherSlash) =~= words(b, Class::EitherSlash));
    assert(components(p) =~= seq![seq![d, ':'], root()] + names(p));
}

proof fn lemma_inner(b: Seq<char>)
    ensures
        inner(b) == kept(words(b, Class::EitherSlash), false, false),
{
    lemma_top('C', '\\', b);
    assert(inner(b) =~= names(top('C', '\\') + b));
}

/// A path is absolute where it names a drive and starts at its root, and not where it
/// lacks either.
pub proof fn law_absolute_paths_name_a_drive(d: char, s: char, b: Seq<char>, p: Seq<char>)
    requires
        ascii_letter(d),
        slash(s),
        p.len() > 0 ==> !slash(p[0]),
    ensures
        absolute(top(d, s) + b),
        !absolute(seq![d, ':'] + p),
        !drive(p) ==> !absolute(p),
        !absolute(seq![s] + p),
{
    lemma_top(d, s, b);
    let q = seq![d, ':'] + p;
    assert(q[0] == d && q[1] == ':');
    lemma_drive(q);
    if p.len() > 0 {
        assert(q[2] == p[0]);
    }
    let r = seq![s] + p;
    assert(r[0] == s);
    if r.len() > 1 {
        assert(r[1] == p[0]);
    }
}

/// A path is absolute where it starts with a server and a share.
pub proof fn law_shares_are_absolute(
    a: char,
    b: char,
    server: Seq<char>,
    c: char,
    share: Seq<char>,
    rest: Seq<char>,
)
    requires
        slash(a) && slash(b) && slash(c),
        server.len() > 0 && one_piece(server) && server != dot() && server != seq!['?'],
        share.len() > 0 && one_piece(share),
        rest.len() > 0 ==> slash(rest[0]),
    ensures
        absolute(seq![a, b] + server + seq![c] + share + rest),
        lead(seq![a, b] + server + seq![c] + share + rest).len == server.len() + share.len() + 3,
{
    let p = seq![a, b] + server + seq![c] + share + rest;
    let k = Class::EitherSlash;
    assert(p[0] == a && p[1] == b && p[2] == server[0]);
    if server.len() == 1 {
        assert(p[2] != '.') by {
            if server[0] == '.' {
                assert(server =~= dot());
            }
        }
        assert(p[2] != '?') by {
            if server[0] == '?' {
                assert(server =~= seq!['?']);
            }
        }
    } else {
        assert(p[3] == server[1]);
    }
    let s = p.skip(2);
    let n = server.len() as int;
    assert forall|i: int| 0 <= i < n implies !k.has(#[trigger] s[i]) by {
        assert(s[i] == server[i]);
    }
    assert(s[n] == c);
    lemma_run_is(s, k, n);
    assert(s.take(n) =~= server);
    let t = s.skip(n + 1);
    let m = share.len() as int;
    assert forall|i: int| 0 <= i < m implies !k.has(#[trigger] t[i]) by {
        assert(t[i] == share[i]);
    }
    if rest.len() > 0 {
        assert(t[m] == rest[0]);
    } else {
        assert(t.len() == m);
    }
    lemma_run_is(t, k, m);
    assert(t.take(m) =~= share);
}

/// What starts with `\\?\` or names a device is absolute.
pub proof fn law_verbatim_paths_are_absolute(rest: Seq<char>, a: char, b: char, c: char)
    requires
        slash(a) && slash(b) && slash(c),
    ensures
        absolute(seq!['\\', '\\', '?', '\\'] + rest),
        absolute(seq![a, b, '.', c] + rest),
{
    let p = seq!['\\', '\\', '?', '\\'] + rest;
    assert(p[0] == '\\' && p[1] == '\\' && p[2] == '?' && p[3] == '\\');
    let q = seq![a, b, '.', c] + rest;
    assert(q[0] == a && q[1] == b && q[2] == '.' && q[3] == c);
}

/// Behind `\\?\` and a drive only a backslash separates, and a `.` is a name like any
/// other.
pub proof fn law_verbatim_paths_are_taken_as_written(d: char, rest: Seq<char>)
    requires
        ascii_letter(d),
    ensures
        components(seq!['\\', '\\', '?', '\\', d, ':', '\\'] + rest) == seq![
            seq!['\\', '\\', '?', '\\', d, ':'],
            root(),
        ] + words(rest, Class::Backslash),
{
    let p = seq!['\\', '\\', '?', '\\', d, ':', '\\'] + rest;
    let none = Seq::<char>::empty();
    let s = p.skip(4);
    assert(p[0] == '\\' && p[1] == '\\' && p[2] == '?' && p[3] == '\\');
    assert(s[0] == d && s[1] == ':' && s[2] == '\\');
    assert(lead(p).kind == LeadKind::VerbatimDrive && lead(p).len == 6);
    assert(p[6] == '\\');
    assert(p.take(6) =~= seq!['\\', '\\', '?', '\\', d, ':']);
    assert(p.skip(6) =~= none + seq!['\\'] + rest);
    law_words_stand_between_separators(none, '\\', rest, Class::Backslash);
    assert(words(p.skip(6), Class::Backslash) =~= words(rest, Class::Backslash));
    lemma_all_kept(words(rest, Class::Backslash), false);
    assert(components(p) =~= seq![
        seq!['\\', '\\', '?', '\\', d, ':'],
        root(),
    ] + words(rest, Class::Backslash));
}

proof fn lemma_all_kept(pieces: Seq<Seq<char>>, first: bool)
    ensures
        kept(pieces, first, true) == pieces,
    decreases pieces.len(),
{
    if pieces.len() > 0 {
        lemma_all_kept(pieces.drop_first(), false);
        assert(pieces =~= seq![pieces.first()] + pieces.drop_first());
    }
}

/// A slash of either kind parts the components before it from those after it; between
/// slashes a name or a `..` is a component of its own, and nothing or a `.` is none.
pub proof fn law_components_stand_between_slashes(a: Seq<char>, s: char, b: Seq<char>, d: char)
    requires
        slash(s),
        ascii_letter(d),
    ensures
        from_top(a) ==> components(a + seq![s] + b) == components(a) + inner(b),
        inner(a + seq![s] + b) == inner(a) + inner(b),
        components(top(d, s) + b) == seq![seq![d, ':'], root()] + inner(b),
        one_piece(a) && a.len() > 0 && a != dot() ==> inner(a) == seq![a],
        a.len() == 0 || a == dot() ==> inner(a) == Seq::<Seq<char>>::empty(),
        one_piece(a) && a.len() > 0 && !drive(a) ==> components(a) == seq![a] && components(
            a + seq![s] + b,
        ) == seq![a] + inner(b),
{
    lemma_top(d, s, b);
    lemma_inner(b);
    lemma_inner_apart(a, s, b);
    if from_top(a) {
        lemma_from_top(a, s, b);
    }
    if one_piece(a) && a.len() > 0 && !drive(a) {
        lemma_relative(a, s, b);
    }
}

proof fn lemma_inner_apart(a: Seq<char>, s: char, b: Seq<char>)
    requires
        slash(s),
    ensures
        inner(a + seq![s] + b) == inner(a) + inner(b),
        one_piece(a) && a.len() > 0 && a != dot() ==> inner(a) == seq![a],
        a.len() == 0 || a == dot() ==> inner(a) == Seq::<Seq<char>>::empty(),
{
    let k = Class::EitherSlash;
    lemma_inner(a);
    lemma_inner(b);
    lemma_inner(a + seq![s] + b);
    law_words_stand_between_separators(a, s, b, k);
    lemma_kept_concat(words(a, k), words(b, k), false, false);
    lemma_one_kept(a);
    if a.len() == 0 {
        assert(words(a, k) =~= Seq::<Seq<char>>::empty());
    }
    if a == dot() {
        assert(one_piece(a));
    }
}

proof fn lemma_from_top(a: Seq<char>, s: char, b: Seq<char>)
    requires
        slash(s),
        from_top(a),
    ensures
        components(a + seq![s] + b) == components(a) + inner(b),
        names(a + seq![s] + b) == names(a) + inner(b),
{
    let k = Class::EitherSlash;
    let rest = a.skip(3);
    lemma_inner(b);
    assert(a =~= top(a[0], a[2]) + rest);
    assert(a + seq![s] + b =~= top(a[0], a[2]) + (rest + seq![s] + b));
    lemma_top(a[0], a[2], rest);
    lemma_top(a[0], a[2], rest + seq![s] + b);
    law_words_stand_between_separators(rest, s, b, k);
    lemma_kept_concat(words(rest, k), words(b, k), false, false);
    assert(components(a + seq![s] + b) =~= components(a) + inner(b));
}

/// A path that starts with a name has no lead and no root.
proof fn lemma_no_lead(a: Seq<char>, p: Seq<char>)
    requires
        one_piece(a) && a.len() > 0 && !drive(a),
        a.len() <= p.len(),
        forall|i: int| 0 <= i < a.len() ==> a[i] == p[i],
        a.len() < p.len() ==> slash(p[a.len() as int]),
    ensures
        lead(p).kind == LeadKind::Nothing,
        lead(p).len == 0,
        !root_shown(p),
        !root_counts(p),
{
    assert(!slash(a[0]));
    if a.len() > 1 {
        assert(a[1] == p[1]);
    }
}

proof fn lemma_relative(a: Seq<char>, s: char, b: Seq<char>)
    requires
        slash(s),
        one_piece(a) && a.len() > 0 && !drive(a),
    ensures
        components(a) == seq![a],
        components(a + seq![s] + b) == seq![a] + inner(b),
{
    let k = Class::EitherSlash;
    let p = a + seq![s] + b;
    lemma_no_lead(a, a);
    lemma_no_lead(a, p);
    lemma_inner(b);
    law_words_stand_between_separators(a, s, b, k);
    lemma_one_kept(a);
    lemma_kept_concat(words(a, k), words(b, k), true, false);
    assert(a.skip(0) =~= a);
    assert(p.skip(0) =~= p);
    assert(components(a) =~= seq![a]);
    assert(components(p) =~= seq![a] + inner(b));
}

proof fn lemma_one_kept(s: Seq<char>)
    ensures
        s == dot() ==> kept(seq![s], false, false) == Seq::<Seq<char>>::empty(),
        s != dot() ==> kept(seq![s], false, false) == seq![s],
        kept(seq![s], true, false) == seq![s],
{
    assert(seq![s].drop_first() =~= Seq::<Seq<char>>::empty());
    assert(kept(seq![s].drop_first(), false, false) =~= Seq::<Seq<char>>::empty());
    assert(seq![s].first() == s);
    assert(seq![s] + Seq::<Seq<char>>::empty() =~= seq![s]);
}

// ---- Identity and what lies below -----------------------------------------

proof fn lemma_marked(d: char, s: char, b: Seq<char>)
    requires
        ascii_letter(d),
        slash(s),
    ensures
        marked(top(d, s) + b) == seq![seq!['d', lower(d), '\\'], root()] + inner(b),
{
    let p = top(d, s) + b;
    lemma_top(d, s, b);
    lemma_inner(b);
    assert(mark(lead(p)) =~= seq!['d', lower(d), '\\']);
    assert(marked(p) =~= seq![seq!['d', lower(d), '\\'], root()] + inner(b));
}

/// Components joined by backslashes come apart into the same components.
proof fn lemma_split_join(parts: Seq<Seq<char>>)
    requires
        parts.len() > 0,
        forall|i: int| 0 <= i < parts.len() ==> !(#[trigger] parts[i]).contains('\\'),
    ensures
        split(join(parts, root()), '\\') == parts,
    decreases parts.len(),
{
    let last = parts.last();
    assert(last == parts[parts.len() - 1]);
    lemma_split_none(last, '\\');
    if parts.len() == 1 {
        assert(parts =~= seq![last]);
    } else {
        let rest = parts.drop_last();
        assert forall|i: int| 0 <= i < rest.len() implies !(#[trigger] rest[i]).contains('\\') by {
            assert(rest[i] == parts[i]);
        }
        lemma_split_join(rest);
        law_pieces_stand_between_separators(join(rest, root()), '\\', last);
        assert(parts =~= rest + seq![last]);
    }
}

proof fn lemma_kept_from(pieces: Seq<Seq<char>>, first: bool, all: bool)
    requires
        forall|i: int|
            0 <= i < pieces.len() ==> (#[trigger] pieces[i]).len() > 0 && one_piece(pieces[i]),
    ensures
        forall|i: int|
            0 <= i < kept(pieces, first, all).len() ==> (#[trigger] kept(
                pieces,
                first,
                all,
            )[i]).len() > 0 && one_piece(kept(pieces, first, all)[i]),
    decreases pieces.len(),
{
    if pieces.len() > 0 {
        let rest = pieces.drop_first();
        assert forall|i: int| 0 <= i < rest.len() implies (#[trigger] rest[i]).len() > 0
            && one_piece(rest[i]) by {
            assert(rest[i] == pieces[i + 1]);
        }
        lemma_kept_from(rest, false, all);
        let tail = kept(rest, false, all);
        let whole = kept(pieces, first, all);
        assert(pieces.first() == pieces[0]);
        assert forall|i: int| 0 <= i < whole.len() implies (#[trigger] whole[i]).len() > 0
            && one_piece(whole[i]) by {
            if whole != tail {
                assert(whole == seq![pieces.first()] + tail);
                if i > 0 {
                    assert(whole[i] == tail[i - 1]);
                }
            } else {
                assert(whole[i] == tail[i]);
            }
        }
    }
}

proof fn lemma_inner_pieces(b: Seq<char>)
    ensures
        forall|i: int|
            0 <= i < inner(b).len() ==> (#[trigger] inner(b)[i]).len() > 0 && one_piece(inner(b)[i])
                && !inner(b)[i].contains('\\'),
{
    let pieces = words(b, Class::EitherSlash);
    lemma_inner(b);
    lemma_words(b, Class::EitherSlash);
    assert forall|i: int| 0 <= i < pieces.len() implies (#[trigger] pieces[i]).len() > 0
        && one_piece(pieces[i]) by {
        assert forall|j: int| 0 <= j < pieces[i].len() implies !slash(#[trigger] pieces[i][j]) by {
            assert(!Class::EitherSlash.has(words(b, Class::EitherSlash)[i][j]));
        }
    }
    lemma_kept_from(pieces, false, false);
}

proof fn lemma_identity(d: char, s: char, b: Seq<char>)
    requires
        ascii_letter(d),
        slash(s),
    ensures
        identity(Platform::Windows, top(d, s) + b) == if inner(b).len() > 0 {
            seq!['d', lower(d), '\\', '\\', '\\', '\\'] + join(inner(b), root())
        } else {
            seq!['d', lower(d), '\\', '\\', '\\']
        },
        inner(b).len() > 0 ==> join(inner(b), root()).len() > 0 && split(
            join(inner(b), root()),
            '\\',
        ) == inner(b),
{
    let first = seq!['d', lower(d), '\\'];
    let head = seq![first, root()];
    lemma_marked(d, s, b);
    lemma_inner_pieces(b);
    assert(head.drop_last() =~= seq![first]);
    assert(join(seq![first], root()) == first);
    assert(join(head, root()) =~= seq!['d', lower(d), '\\', '\\', '\\']);
    if inner(b).len() > 0 {
        law_join_puts_separators_between(head, inner(b), first, root());
        assert(join(head + inner(b), root()) =~= seq![
            'd',
            lower(d),
            '\\',
            '\\',
            '\\',
            '\\',
        ] + join(inner(b), root()));
        lemma_split_join(inner(b));
        let text = join(inner(b), root());
        if text.len() == 0 {
            assert(split(text, '\\') =~= seq![text]);
            assert(inner(b)[0].len() > 0);
        }
    } else {
        assert(head + inner(b) =~= head);
    }
}

/// Two paths from the root of a drive have one identity where the drive is the same, the
/// case of its letter aside, and the components are; the kind of slash is of no
/// account.
pub proof fn law_identity_is_that_of_the_components(
    d: char,
    s: char,
    b: Seq<char>,
    e: char,
    t: char,
    c: Seq<char>,
)
    requires
        ascii_letter(d) && ascii_letter(e),
        slash(s) && slash(t),
    ensures
        identity(Platform::Windows, top(d, s) + b) == identity(Platform::Windows, top(e, t) + c)
            <==> lower(d) == lower(e) && inner(b) == inner(c),
{
    lemma_identity(d, s, b);
    lemma_identity(e, t, c);
    let x = identity(Platform::Windows, top(d, s) + b);
    let y = identity(Platform::Windows, top(e, t) + c);
    if x == y {
        assert(x[1] == lower(d) && y[1] == lower(e));
        if inner(b).len() > 0 && inner(c).len() > 0 {
            assert(x.skip(6) =~= join(inner(b), root()));
            assert(y.skip(6) =~= join(inner(c), root()));
        } else {
            assert(inner(b) =~= inner(c));
        }
    }
}

/// What lies below a directory is what follows it in the path, whichever slashes and
/// whichever case of the drive's letter the two are written with.
pub proof fn law_below_is_what_follows(
    d: char,
    s: char,
    e: char,
    t: char,
    base: Seq<char>,
    u: char,
    rest: Seq<char>,
)
    requires
        ascii_letter(d) && ascii_letter(e),
        lower(d) == lower(e),
        slash(s) && slash(t) && slash(u),
    ensures
        below(top(e, t) + (base + seq![u] + rest), top(d, s) + base) == Some(inner(rest)),
{
    lemma_below_marked(d, s, base, u, rest);
    lemma_below_marked(e, t, base, u, rest);
    lemma_same_mark(d, s, e, t, base);
    let m = marked(top(d, s) + base);
    let whole = top(e, t) + (base + seq![u] + rest);
    lemma_follows(m, marked(whole), components(whole), components(top(e, t) + base), inner(rest));
}

proof fn lemma_same_mark(d: char, s: char, e: char, t: char, base: Seq<char>)
    requires
        ascii_letter(d) && ascii_letter(e),
        lower(d) == lower(e),
        slash(s) && slash(t),
    ensures
        marked(top(d, s) + base) == marked(top(e, t) + base),
        marked(top(d, s) + base).len() == components(top(e, t) + base).len(),
{
    lemma_marked(d, s, base);
    lemma_marked(e, t, base);
    lemma_top(e, t, base);
    lemma_inner(base);
}

proof fn lemma_below_marked(d: char, s: char, base: Seq<char>, u: char, rest: Seq<char>)
    requires
        ascii_letter(d),
        slash(s) && slash(u),
    ensures
        marked(top(d, s) + (base + seq![u] + rest)) == marked(top(d, s) + base) + inner(rest),
        components(top(d, s) + (base + seq![u] + rest)) == components(top(d, s) + base) + inner(
            rest,
        ),
{
    let tail = base + seq![u] + rest;
    lemma_marked(d, s, base);
    lemma_marked(d, s, tail);
    lemma_inner_apart(base, u, rest);
    lemma_top(d, s, base);
    lemma_top(d, s, tail);
    lemma_inner(base);
    lemma_inner(tail);
    lemma_assoc(seq![seq!['d', lower(d), '\\'], root()], inner(base), inner(rest));
    lemma_assoc(seq![seq![d, ':'], root()], inner(base), inner(rest));
}

proof fn lemma_assoc(x: Seq<Seq<char>>, y: Seq<Seq<char>>, z: Seq<Seq<char>>)
    ensures
        x + (y + z) == (x + y) + z,
{
    assert(x + (y + z) =~= (x + y) + z);
}

proof fn lemma_follows(
    m: Seq<Seq<char>>,
    whole: Seq<Seq<char>>,
    comps: Seq<Seq<char>>,
    head: Seq<Seq<char>>,
    rest: Seq<Seq<char>>,
)
    requires
        whole == m + rest,
        comps == head + rest,
        head.len() == m.len(),
    ensures
        m.is_prefix_of(whole),
        comps.skip(m.len() as int) == rest,
{
    assert(whole.subrange(0, m.len() as int) =~= m);
    assert(comps.skip(m.len() as int) =~= rest);
}

/// Nothing lies below a directory of another drive.
pub proof fn law_drives_are_apart(
    d: char,
    s: char,
    base: Seq<char>,
    e: char,
    t: char,
    p: Seq<char>,
)
    requires
        ascii_letter(d) && ascii_letter(e),
        lower(d) != lower(e),
        slash(s) && slash(t),
    ensures
        below(top(e, t) + p, top(d, s) + base) is None,
{
    lemma_marked(d, s, base);
    lemma_marked(e, t, p);
    let m = marked(top(d, s) + base);
    let w = marked(top(e, t) + p);
    if m.is_prefix_of(w) {
        assert(m[0] == w[0]);
        assert(m[0][1] == lower(d) && w[0][1] == lower(e));
    }
}

// ---- Settling -------------------------------------------------------------

proof fn lemma_settle_concat(a: Seq<Seq<char>>, c: Seq<Seq<char>>, b: Seq<Seq<char>>)
    requires
        settle(a) == settle(c),
    ensures
        settle(a + b) == settle(c + b),
    decreases b.len(),
{
    if b.len() == 0 {
        assert(a + b =~= a);
        assert(c + b =~= c);
    } else {
        lemma_settle_concat(a, c, b.drop_last());
        assert((a + b).drop_last() =~= a + b.drop_last());
        assert((c + b).drop_last() =~= c + b.drop_last());
        assert((a + b).last() == b.last());
        assert((c + b).last() == b.last());
    }
}

/// A `.` leads nowhere, and a `..` takes back the name before it, but neither a drive
/// nor a root.
pub proof fn law_dots_cancel(a: Seq<Seq<char>>, n: Seq<char>, b: Seq<Seq<char>>)
    requires
        name(n),
    ensures
        settle(a + seq![dot()] + b) == settle(a + b),
        settle(a + seq![n, dot_dot()] + b) == settle(a + b),
        settle(a).len() == 0 || settle(a).last() == root() ==> settle(a + seq![dot_dot()] + b)
            == settle(a + b),
        settle(a.push(n)) == settle(a).push(n),
{
    assert(!n.contains('\\')) by {
        assert forall|i: int| 0 <= i < n.len() implies n[i] != '\\' by {
            assert(!slash(n[i]));
        }
    }
    assert(root().contains('\\')) by {
        assert(root()[0] == '\\');
    }
    let one = a + seq![dot()];
    assert(one.drop_last() =~= a);
    assert(one.last() == dot());
    lemma_settle_concat(one, a, b);
    let named = a.push(n);
    assert(named.drop_last() =~= a);
    assert(named.last() == n);
    assert(settle(named) == settle(a).push(n));
    let two = a + seq![n, dot_dot()];
    assert(two.drop_last() =~= named);
    assert(two.last() == dot_dot());
    assert(dot_dot().len() == 2 && dot().len() == 1);
    assert(settle(named).last() == n);
    assert(settle(named).drop_last() =~= settle(a));
    assert(settle(two) == settle(a));
    lemma_settle_concat(two, a, b);
    let up = a + seq![dot_dot()];
    assert(up.drop_last() =~= a);
    assert(up.last() == dot_dot());
    if settle(a).len() == 0 || settle(a).last() == root() {
        assert(settle(up) == settle(a));
        lemma_settle_concat(up, a, b);
    }
}

// ---- Parents, names, joining ----------------------------------------------

proof fn lemma_component_at(p: Seq<char>, k: int, n: int)
    requires
        start_len(p) <= k < n <= p.len(),
        k > 0,
        k == start_len(p) || lead(p).kind.separators().has(p[k - 1]),
        forall|i: int| k <= i < n ==> !lead(p).kind.separators().has(#[trigger] p[i]),
    ensures
        component_start(p, n) == k,
    decreases n,
{
    assert(!lead(p).kind.separators().has(p[n - 1]));
    if n - 1 > k {
        lemma_component_at(p, k, n - 1);
    } else {
        assert(component_start(p, k) == k);
    }
}

/// Where the last component of a path from the root of a drive starts and ends.
proof fn lemma_last(head: Seq<char>, n: Seq<char>)
    requires
        from_top(head),
        slash(head.last()),
        n.len() > 0 && one_piece(n) && n != dot(),
    ensures
        ({
            let p = head + n;
            &&& start_len(p) == 3
            &&& lead(p).kind == LeadKind::Drive
            &&& last_end(p) == p.len()
            &&& last_start(p) == head.len()
            &&& p.subrange(last_start(p), last_end(p)) == n
        }),
{
    let p = head + n;
    let len = p.len() as int;
    let k = head.len() as int;
    assert(p =~= top(head[0], head[2]) + p.skip(3));
    lemma_top(head[0], head[2], p.skip(3));
    assert(p[len - 1] == n[n.len() - 1]);
    assert(!slash(n[n.len() - 1]));
    if p[len - 1] == '.' {
        if n.len() > 1 {
            assert(p[len - 2] == n[n.len() - 2]);
            assert(!slash(n[n.len() - 2]));
        } else {
            assert(n =~= dot());
        }
    }
    assert(body_len(p, len) == len);
    assert(p[k - 1] == head.last());
    assert forall|i: int| k <= i < len implies !lead(p).kind.separators().has(#[trigger] p[i]) by {
        assert(p[i] == n[i - k]);
        assert(!slash(n[i - k]));
    }
    lemma_component_at(p, k, len);
    assert(p.subrange(k, len) =~= n);
}

/// Does a directory end where its last component does?
pub open spec fn trimmed(dir: Seq<char>) -> bool {
    &&& dir.len() > 3
    &&& !slash(dir.last())
    &&& !(dir.last() == '.' && slash(dir[dir.len() - 2]))
}

/// The parent of a name in a directory is the directory, and its file name is the name;
/// the root of a drive has neither.
pub proof fn law_a_name_in_a_directory(dir: Seq<char>, d: char, s: char, n: Seq<char>)
    requires
        ascii_letter(d),
        slash(s),
        n.len() > 0 && one_piece(n) && n != dot(),
    ensures
        from_top(dir) && trimmed(dir) ==> parent(dir + seq![s] + n) == Some(dir),
        parent(top(d, s) + n) == Some(top(d, s)),
        parent(top(d, s)) is None,
        file_name(top(d, s)) is None,
        n != dot_dot() && from_top(dir) ==> file_name(dir + seq![s] + n) == Some(n),
        n != dot_dot() ==> file_name(top(d, s) + n) == Some(n),
        from_top(dir) ==> file_name(dir + seq![s] + dot_dot()) is None,
{
    let none = Seq::<char>::empty();
    lemma_last(top(d, s), n);
    assert((top(d, s) + n).take(3) =~= top(d, s));
    lemma_top(d, s, none);
    assert(top(d, s) + none =~= top(d, s));
    assert(dot_dot().len() == 2 && dot().len() == 1);
    if from_top(dir) {
        let head = dir + seq![s];
        lemma_last(head, n);
        lemma_last(head, dot_dot());
        let p = head + n;
        let k = dir.len() as int;
        assert(p[k] == s);
        if trimmed(dir) {
            assert(p[k - 1] == dir.last() && p[k - 2] == dir[k - 2]);
            assert(body_len(p, k + 1) == body_len(p, k));
            if dir.last() == '.' {
                assert(!slash(dir[k - 2]));
                if k - 1 == 3 {
                    assert(p[2] == dir[2]);
                }
            }
            assert(body_len(p, k) == k);
            assert(p.take(k) =~= dir);
        }
    }
}

/// The same of a path that starts with a name.
pub proof fn law_a_name_in_a_relative_directory(
    first: Seq<char>,
    more: Seq<char>,
    s: char,
    n: Seq<char>,
)
    requires
        name(first),
        more.len() > 0 ==> slash(more[0]),
        slash(s),
        name(n),
    ensures
        ({
            let dir = first + more;
            &&& !slash(dir.last()) && !(dir.last() == '.' && dir.len() > 1 && slash(
                dir[dir.len() - 2],
            )) ==> parent(dir + seq![s] + n) == Some(dir)
            &&& file_name(dir + seq![s] + n) == Some(n)
            &&& parent(n) == Some(Seq::<char>::empty())
            &&& file_name(n) == Some(n)
        }),
{
    let dir = first + more;
    let rest = more + seq![s] + n;
    let none = Seq::<char>::empty();
    assert(rest[0] == if more.len() > 0 {
        more[0]
    } else {
        s
    });
    lemma_relative_start(first, rest);
    assert(first + rest =~= dir + seq![s] + n);
    assert(dir.len() == 1 ==> dir.last() != '.') by {
        if dir.len() == 1 && dir.last() == '.' {
            assert(first =~= dot());
        }
    }
    lemma_relative_parent(dir, s, n);
    lemma_relative_start(n, none);
    assert(n + none =~= n);
    lemma_relative_last(n, 0, n);
    assert(n.take(0) =~= none);
}

proof fn lemma_relative_parent(dir: Seq<char>, s: char, n: Seq<char>)
    requires
        dir.len() > 0,
        dir.len() == 1 ==> dir.last() != '.',
        slash(s),
        name(n),
        lead(dir + seq![s] + n).kind == LeadKind::Nothing,
        start_len(dir + seq![s] + n) == 0,
    ensures
        !slash(dir.last()) && !(dir.last() == '.' && dir.len() > 1 && slash(dir[dir.len() - 2]))
            ==> parent(dir + seq![s] + n) == Some(dir),
        file_name(dir + seq![s] + n) == Some(n),
{
    let p = dir + seq![s] + n;
    let k = dir.len() as int;
    lemma_relative_last(p, k + 1, n);
    if !slash(dir.last()) && !(dir.last() == '.' && dir.len() > 1 && slash(dir[dir.len() - 2])) {
        lemma_relative_body(p, k);
        assert(p.take(k) =~= dir);
    }
}

proof fn lemma_relative_body(p: Seq<char>, k: int)
    requires
        lead(p).kind == LeadKind::Nothing,
        start_len(p) == 0,
        0 < k < p.len(),
        slash(p[k]),
        !slash(p[k - 1]),
        p[k - 1] == '.' ==> k > 1 && !slash(p[k - 2]),
    ensures
        body_len(p, k + 1) == k,
{
    assert(body_len(p, k) == k);
}

proof fn lemma_relative_start(first: Seq<char>, rest: Seq<char>)
    requires
        name(first),
        rest.len() > 0 ==> slash(rest[0]),
    ensures
        lead(first + rest).kind == LeadKind::Nothing,
        start_len(first + rest) == 0,
{
    let p = first + rest;
    assert(!drive(first)) by {
        if drive(first) {
            assert(first.contains(first[1]));
        }
    }
    if rest.len() > 0 {
        assert(p[first.len() as int] == rest[0]);
    }
    lemma_no_lead(first, p);
    assert(p[0] == first[0]);
    if p[0] == '.' {
        if first.len() == 1 {
            assert(first =~= dot());
        } else {
            assert(p[1] == first[1]);
            assert(!slash(first[1]));
        }
    }
}

/// Where the last component of a path without a lead starts and ends.
proof fn lemma_relative_last(p: Seq<char>, k: int, n: Seq<char>)
    requires
        lead(p).kind == LeadKind::Nothing,
        start_len(p) == 0,
        name(n),
        0 <= k,
        p.len() == k + n.len(),
        k > 0 ==> slash(p[k - 1]),
        forall|i: int| 0 <= i < n.len() ==> p[k + i] == n[i],
    ensures
        last_end(p) == p.len(),
        last_start(p) == k,
        p.subrange(last_start(p), last_end(p)) == n,
        k == 0 ==> body_len(p, 0) == 0,
{
    let len = p.len() as int;
    let m = n.len() as int;
    assert(p[k + (m - 1)] == n[m - 1]);
    assert(p[len - 1] == n[m - 1]);
    assert(!slash(n[m - 1]));
    if p[len - 1] == '.' {
        if m > 1 {
            assert(p[k + (m - 2)] == n[m - 2]);
            assert(p[len - 2] == n[m - 2]);
            assert(!slash(n[m - 2]));
        } else {
            assert(n =~= dot());
        }
    }
    assert(body_len(p, len) == len);
    assert forall|i: int| k <= i < len implies !lead(p).kind.separators().has(#[trigger] p[i]) by {
        assert(p[k + (i - k)] == n[i - k]);
        assert(!slash(n[i - k]));
    }
    lemma_relative_component(p, k, len);
    assert(p.subrange(k, len) =~= n);
}

proof fn lemma_relative_component(p: Seq<char>, k: int, n: int)
    requires
        start_len(p) == 0,
        0 <= k < n <= p.len(),
        k > 0 ==> lead(p).kind.separators().has(p[k - 1]),
        forall|i: int| k <= i < n ==> !lead(p).kind.separators().has(#[trigger] p[i]),
    ensures
        component_start(p, n) == k,
    decreases n,
{
    assert(!lead(p).kind.separators().has(p[n - 1]));
    if n - 1 > k {
        lemma_relative_component(p, k, n - 1);
    } else {
        assert(component_start(p, k) == k);
    }
}

/// What names a drive is seen as it is from anywhere, what starts at the root is seen on
/// the same drive, and what does neither is seen below, with one separator between.
pub proof fn law_joining_paths(d: char, s: char, a: Seq<char>, n: Seq<char>, b: Seq<char>)
    requires
        ascii_letter(d),
        slash(s),
        from_top(a),
        name(n),
        b.len() > 0 ==> slash(b[0]),
    ensures
        join_path(a, top(d, s) + b) == top(d, s) + b,
        join_path(a, seq![s] + n) == a.take(2) + (seq![s] + n),
        !slash(a.last()) ==> join_path(a, n + b) == a + seq!['\\'] + (n + b),
        slash(a.last()) ==> join_path(a, n + b) == a + (n + b),
{
    lemma_top(d, s, b);
    lemma_drive(a);
    let r = seq![s] + n;
    assert(r[0] == s && r[1] == n[0]);
    assert(!slash(n[0]));
    assert(!drive(n)) by {
        if drive(n) {
            assert(n.contains(n[1]));
        }
    }
    lemma_no_lead(n, n + b);
}

/// An extension takes the place of what follows the last dot of a file name, unless the
/// name starts there; where there is none it is added.
pub proof fn law_extensions_are_replaced(
    head: Seq<char>,
    stem: Seq<char>,
    old: Seq<char>,
    ext: Seq<char>,
)
    requires
        from_top(head),
        slash(head.last()),
        stem.len() > 0 && one_piece(stem),
        one_piece(old),
        !old.contains('.'),
        stem + dot() + old != dot_dot(),
    ensures
        with_extension(head + (stem + dot() + old), ext) == head + stem + dot() + ext,
        !stem.skip(1).contains('.') && stem != dot() && stem != dot_dot() ==> with_extension(
            head + stem,
            ext,
        ) == head + stem + dot() + ext,
{
    let n = stem + dot() + old;
    let k = stem.len() as int;
    assert forall|i: int| 0 <= i < n.len() implies !slash(#[trigger] n[i]) by {
        if i < k {
            assert(n[i] == stem[i]);
        } else if i > k {
            assert(n[i] == old[i - k - 1]);
        }
    }
    assert(n.len() > 1);
    assert(n[k] == '.');
    assert forall|i: int| k < i < n.len() implies n[i] != '.' by {
        assert(n[i] == old[i - k - 1]);
    }
    lemma_rfind_unique(n, '.', k);
    lemma_extended(head, n, ext);
    assert(n.take(k) =~= stem);
    if !stem.skip(1).contains('.') && stem != dot() && stem != dot_dot() {
        assert forall|i: int| 0 < i < stem.len() implies stem[i] != '.' by {
            assert(stem[i] == stem.skip(1)[i - 1]);
            assert(stem.skip(1).contains(stem.skip(1)[i - 1]));
        }
        lemma_rfind_unique(stem, '.', if stem[0] == '.' {
            0int
        } else {
            -1
        });
        lemma_extended(head, stem, ext);
        assert(stem.take(k) =~= stem);
    }
}

proof fn lemma_extended(head: Seq<char>, n: Seq<char>, ext: Seq<char>)
    requires
        from_top(head),
        slash(head.last()),
        n.len() > 0 && one_piece(n),
        n != dot(),
        n != dot_dot(),
    ensures
        with_extension(head + n, ext) == head + n.take(stem_len(n)) + dot() + ext,
{
    let p = head + n;
    lemma_last(head, n);
    assert(file_name(p) == Some(n));
    lemma_with_extension(p, ext);
    lemma_rfind(n, '.');
    let k = stem_len(n);
    assert(0 <= k <= n.len());
    assert(p.take(head.len() + k) =~= head + n.take(k));
}

// ---- Keys -----------------------------------------------------------------

pub open spec fn all_names(parts: Seq<Seq<char>>) -> bool {
    forall|i: int| 0 <= i < parts.len() ==> name(#[trigger] parts[i])
}

/// The root of a drive and the names below it.
pub open spec fn placed(d: char, parts: Seq<Seq<char>>) -> Seq<Seq<char>> {
    seq![seq![d, ':'], root()] + parts
}

proof fn lemma_walked_top(d: char)
    requires
        ascii_letter(d),
    ensures
        walked(placed(d, seq![])) == top(d, '\\'),
{
    let first = seq![d, ':'];
    let none = Seq::<Seq<char>>::empty();
    assert(placed(d, seq![]).drop_last() =~= seq![first]);
    assert(seq![first].drop_last() =~= none);
    assert(walked(none) =~= Seq::<char>::empty());
    assert(first[1] == ':' && dot()[0] == '.' && dot_dot()[1] == '.' && first.len() == 2
        && dot().len() == 1);
    lemma_drive(first);
    assert(seq![first].last() == first);
    assert(walked(seq![first]) == join_path(walked(none), first));
    assert(walked(seq![first]) == first);
    assert(root()[0] == '\\' && dot()[0] == '.' && dot_dot()[0] == '.');
    assert(placed(d, seq![]).last() == root());
    assert(lead(root()).kind == LeadKind::Nothing);
    assert(root_shown(root()));
    assert(join_path(first, root()) =~= top(d, '\\'));
}

proof fn lemma_walked_push(a: Seq<Seq<char>>, n: Seq<char>)
    requires
        n != dot(),
        n != dot_dot(),
    ensures
        walked(a.push(n)) == join_path(walked(a), n),
{
    assert(a.push(n).drop_last() =~= a);
}

/// One name further down from a place on a drive.
proof fn lemma_step(at: Seq<char>, n: Seq<char>)
    requires
        from_top(at),
        name(n),
    ensures
        join_path(at, n) == (if slash(at.last()) {
            at
        } else {
            at + root()
        }) + n,
        from_top(join_path(at, n)),
        trimmed(join_path(at, n)),
{
    let none = Seq::<char>::empty();
    law_joining_paths(at[0], '\\', at, n, none);
    assert(n + none =~= n);
    let now = join_path(at, n);
    assert(!slash(n[n.len() - 1]));
    assert(now[0] == at[0] && now[1] == at[1] && now[2] == at[2]);
    assert(now.last() == n[n.len() - 1]);
    if now.last() == '.' {
        if n.len() > 1 {
            assert(now[now.len() - 2] == n[n.len() - 2]);
            assert(!slash(n[n.len() - 2]));
        } else {
            assert(n =~= dot());
        }
    }
}

proof fn lemma_walked_names(d: char, parts: Seq<Seq<char>>)
    requires
        ascii_letter(d),
        all_names(parts),
    ensures
        walked(placed(d, parts)) == top(d, '\\') + join(parts, root()),
        parts.len() == 0 ==> walked(placed(d, parts)) == top(d, '\\'),
        parts.len() > 0 ==> trimmed(walked(placed(d, parts))),
        from_top(walked(placed(d, parts))),
    decreases parts.len(),
{
    if parts.len() == 0 {
        lemma_walked_top(d);
        assert(parts =~= Seq::<Seq<char>>::empty());
        assert(top(d, '\\') + join(parts, root()) =~= top(d, '\\'));
    } else {
        let rest = parts.drop_last();
        let last = parts.last();
        assert(last == parts[parts.len() - 1]);
        assert forall|i: int| 0 <= i < rest.len() implies name(#[trigger] rest[i]) by {
            assert(rest[i] == parts[i]);
        }
        lemma_walked_names(d, rest);
        assert(placed(d, parts) =~= placed(d, rest).push(last));
        lemma_walked_push(placed(d, rest), last);
        lemma_step(walked(placed(d, rest)), last);
        lemma_join_last(parts);
        assert((top(d, '\\') + join(rest, root())) + root() + last =~= top(d, '\\') + (join(
            rest,
            root(),
        ) + root() + last));
    }
}

proof fn lemma_join_last(parts: Seq<Seq<char>>)
    requires
        parts.len() > 0,
    ensures
        parts.len() == 1 ==> join(parts, root()) == parts.last(),
        parts.len() > 1 ==> join(parts, root()) == join(parts.drop_last(), root()) + root()
            + parts.last(),
{
}

proof fn lemma_walked_concat(a: Seq<Seq<char>>, c: Seq<Seq<char>>, b: Seq<Seq<char>>)
    requires
        walked(a) == walked(c),
    ensures
        walked(a + b) == walked(c + b),
    decreases b.len(),
{
    if b.len() == 0 {
        assert(a + b =~= a);
        assert(c + b =~= c);
    } else {
        lemma_walked_concat(a, c, b.drop_last());
        assert((a + b).drop_last() =~= a + b.drop_last());
        assert((c + b).drop_last() =~= c + b.drop_last());
        assert((a + b).last() == b.last());
        assert((c + b).last() == b.last());
    }
}

/// The key of a path from the root of a drive does not change where a `.`, or a name and
/// the `..` that takes it back, come in between, nor where a `..` stands at the root.
pub proof fn law_keys_do_not_see_detours(
    d: char,
    parts: Seq<Seq<char>>,
    n: Seq<char>,
    rest: Seq<Seq<char>>,
)
    requires
        ascii_letter(d),
        all_names(parts),
        name(n),
    ensures
        key_of(placed(d, parts) + seq![dot()] + rest) == key_of(placed(d, parts) + rest),
        key_of(placed(d, parts) + seq![n, dot_dot()] + rest) == key_of(placed(d, parts) + rest),
        key_of(placed(d, seq![]) + seq![dot_dot()] + rest) == key_of(placed(d, seq![]) + rest),
{
    let a = placed(d, parts);
    lemma_walked_dot(a);
    lemma_walked_concat(a + seq![dot()], a, rest);
    lemma_walked_detour(d, parts, n);
    lemma_walked_concat(a + seq![n, dot_dot()], a, rest);
    lemma_walked_stop(d);
    lemma_walked_concat(placed(d, seq![]) + seq![dot_dot()], placed(d, seq![]), rest);
}

proof fn lemma_walked_dot(a: Seq<Seq<char>>)
    ensures
        walked(a + seq![dot()]) == walked(a),
{
    assert((a + seq![dot()]).drop_last() =~= a);
}

proof fn lemma_walked_stop(d: char)
    requires
        ascii_letter(d),
    ensures
        walked(placed(d, seq![]) + seq![dot_dot()]) == walked(placed(d, seq![])),
{
    let up = placed(d, seq![]) + seq![dot_dot()];
    assert(up.drop_last() =~= placed(d, seq![]));
    assert(up.last() == dot_dot());
    assert(dot_dot().len() == 2 && dot().len() == 1);
    lemma_walked_top(d);
    let n = seq!['a'];
    assert(n[0] == 'a' && dot()[0] == '.');
    law_a_name_in_a_directory(n, d, '\\', n);
}

proof fn lemma_walked_detour(d: char, parts: Seq<Seq<char>>, n: Seq<char>)
    requires
        ascii_letter(d),
        all_names(parts),
        name(n),
    ensures
        walked(placed(d, parts) + seq![n, dot_dot()]) == walked(placed(d, parts)),
{
    let a = placed(d, parts);
    let named = a.push(n);
    let two = a + seq![n, dot_dot()];
    lemma_walked_names(d, parts);
    lemma_walked_push(a, n);
    lemma_step(walked(a), n);
    lemma_step_back(walked(a), n);
    assert(two.drop_last() =~= named);
    assert(two.last() == dot_dot());
    assert(dot_dot().len() == 2 && dot().len() == 1);
}

/// A step down and a step up lead back.
proof fn lemma_step_back(at: Seq<char>, n: Seq<char>)
    requires
        from_top(at),
        at.len() == 3 || trimmed(at),
        name(n),
    ensures
        parent(join_path(at, n)) == Some(at),
{
    lemma_step(at, n);
    if at.len() == 3 {
        assert(at =~= top(at[0], at[2]));
        law_a_name_in_a_directory(at, at[0], at[2], n);
    } else {
        law_a_name_in_a_directory(at, at[0], '\\', n);
    }
}

/// The key of names below the root of a drive is the names with slashes between, behind
/// the drive.
pub proof fn law_plain_paths_are_their_own_keys(d: char, parts: Seq<Seq<char>>)
    requires
        ascii_letter(d),
        all_names(parts),
        parts.len() > 0,
    ensures
        key_of(placed(d, parts)) == top(d, '/') + join(parts, seq!['/']),
{
    lemma_walked_names(d, parts);
    lemma_slashed(parts);
    let at = walked(placed(d, parts));
    let text = replace(at, '\\', '/');
    assert(d != '\\');
    assert(text =~= top(d, '/') + join(parts, seq!['/']));
    assert(text.last() != '/') by {
        assert(text[text.len() - 1] == (if at[at.len() - 1] == '\\' {
            '/'
        } else {
            at[at.len() - 1]
        }));
    }
    assert(trim_end(text, Class::Slash) == text);
}

/// Names joined by backslashes come apart into the same names.
pub(crate) proof fn lemma_joined_inner(parts: Seq<Seq<char>>)
    requires
        parts.len() > 0,
        all_names(parts),
    ensures
        inner(join(parts, root())) == parts,
    decreases parts.len(),
{
    let last = parts.last();
    let none = Seq::<char>::empty();
    assert(last == parts[parts.len() - 1]);
    lemma_inner_apart(last, '\\', none);
    lemma_join_last(parts);
    if parts.len() == 1 {
        assert(parts =~= seq![last]);
    } else {
        let rest = parts.drop_last();
        assert forall|i: int| 0 <= i < rest.len() implies name(#[trigger] rest[i]) by {
            assert(rest[i] == parts[i]);
        }
        lemma_joined_inner(rest);
        lemma_inner_apart(join(rest, root()), '\\', last);
        assert(parts =~= rest + seq![last]);
    }
}

/// Names do not leave the directory that they start in.
pub(crate) proof fn lemma_names_stay(parts: Seq<Seq<char>>)
    requires
        all_names(parts),
    ensures
        !climbs_out(parts),
{
    assert forall|k: int| 0 <= k <= parts.len() implies depth(#[trigger] parts.take(k)) >= 0 by {
        lemma_names_depth(parts, k);
    }
}

proof fn lemma_names_depth(parts: Seq<Seq<char>>, k: int)
    requires
        all_names(parts),
        0 <= k <= parts.len(),
    ensures
        depth(parts.take(k)) == k,
    decreases k,
{
    if k > 0 {
        lemma_names_depth(parts, k - 1);
        assert(parts.take(k).drop_last() =~= parts.take(k - 1));
        assert(parts.take(k).last() == parts[k - 1]);
        assert(name(parts[k - 1]));
    } else {
        assert(parts.take(0) =~= Seq::<Seq<char>>::empty());
    }
}

/// A relative place that ends in a name.
spec fn relative_place(at: Seq<char>) -> bool {
    lead(at).kind == LeadKind::Nothing && at.len() > 0 && !slash(at.last())
}

proof fn lemma_relative_step(at: Seq<char>, n: Seq<char>)
    requires
        name(n),
    ensures
        join_path(Seq::empty(), n) == n,
        relative_place(at) ==> join_path(at, n) == at + root() + n,
{
    assert(!drive(n)) by {
        if drive(n) {
            assert(n.contains(n[1]));
        }
    }
    lemma_no_lead(n, n);
    assert(Seq::<char>::empty() + n =~= n);
}

proof fn lemma_walked_relative(parts: Seq<Seq<char>>)
    requires
        parts.len() > 0,
        all_names(parts),
    ensures
        walked(parts) == join(parts, root()),
        relative_place(walked(parts)),
        walked(parts)[0] == parts[0][0],
        walked(parts).len() > 1 ==> walked(parts)[1] != ':',
    decreases parts.len(),
{
    let last = parts.last();
    let rest = parts.drop_last();
    assert(last == parts[parts.len() - 1]);
    assert(parts =~= rest.push(last));
    lemma_walked_push(rest, last);
    lemma_join_last(parts);
    assert(!slash(last[last.len() - 1]));
    assert(!slash(parts[0][0])) by {
        assert(name(parts[0]));
    }
    if parts.len() == 1 {
        assert(rest =~= Seq::<Seq<char>>::empty());
        assert(walked(rest) =~= Seq::<char>::empty());
        lemma_relative_step(last, last);
        assert(walked(parts) == last);
        if last.len() > 1 {
            assert(last.contains(last[1]));
        }
    } else {
        assert forall|i: int| 0 <= i < rest.len() implies name(#[trigger] rest[i]) by {
            assert(rest[i] == parts[i]);
        }
        lemma_walked_relative(rest);
        let at = walked(rest);
        lemma_relative_step(at, last);
        let now = walked(parts);
        assert(now == at + root() + last);
        assert(now[0] == at[0]);
        assert(rest[0] == parts[0]);
        if at.len() > 1 {
            assert(now[1] == at[1]);
        } else {
            assert(now[1] == '\\');
        }
        assert(now.last() == last[last.len() - 1]);
    }
}

/// The key of names is the names with slashes between.
pub proof fn law_names_are_their_own_keys(parts: Seq<Seq<char>>)
    requires
        parts.len() > 0,
        all_names(parts),
    ensures
        key_of(parts) == join(parts, seq!['/']),
        key_of(parts).len() > 0,
{
    lemma_walked_relative(parts);
    lemma_slashed(parts);
    let at = walked(parts);
    let text = replace(at, '\\', '/');
    assert(text[text.len() - 1] == (if at[at.len() - 1] == '\\' {
        '/'
    } else {
        at[at.len() - 1]
    }));
    assert(trim_end(text, Class::Slash) == text);
}

proof fn lemma_slashed(parts: Seq<Seq<char>>)
    requires
        all_names(parts),
    ensures
        replace(join(parts, root()), '\\', '/') == join(parts, seq!['/']),
    decreases parts.len(),
{
    let text = join(parts, root());
    let other = join(parts, seq!['/']);
    if parts.len() > 0 {
        let last = parts.last();
        assert(last == parts[parts.len() - 1]);
        assert forall|i: int| 0 <= i < last.len() implies last[i] != '\\' by {
            assert(!slash(last[i]));
        }
        if parts.len() == 1 {
            assert(replace(text, '\\', '/') =~= other);
        } else {
            let rest = parts.drop_last();
            assert forall|i: int| 0 <= i < rest.len() implies name(#[trigger] rest[i]) by {
                assert(rest[i] == parts[i]);
            }
            lemma_slashed(rest);
            let head = join(rest, root());
            assert(text == head + root() + last);
            assert(replace(text, '\\', '/') =~= replace(head, '\\', '/') + seq!['/'] + last);
        }
    } else {
        assert(replace(text, '\\', '/') =~= other);
    }
}

} // verus!
