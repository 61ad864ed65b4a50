//! Paths on Unix.

use crate::laws::text::law_pieces_stand_between_separators;
use crate::path::{climbs_out, depth, identity, Platform};
use crate::text::{
    find, join, lemma_find, lemma_rfind, lemma_rfind_unique, lemma_split_concat, lemma_split_none,
    replace, split, trim_end, Class,
};
use crate::unix::{
    absolute, bare, below, body_len, components, dot, dot_dot, file_name, join_path, kept, key_of,
    last_start, lemma_body_len, lemma_parent, lemma_with_extension, parent, root, settle, spell,
    stem_len, with_extension,
};
use vstd::prelude::*;

verus! {

/// Is this the name of a file or a directory: one component, neither `.` nor `..`?
pub open spec fn name(s: Seq<char>) -> bool {
    s.len() > 0 && !s.contains('/') && s != dot() && s != dot_dot()
}

/// The components of a path that follows another.
pub open spec fn inner(p: Seq<char>) -> Seq<Seq<char>> {
    components(root() + p).skip(1)
}

/// A path is absolute where it starts with a slash.
pub proof fn law_absolute_paths_start_with_a_slash(p: Seq<char>)
    ensures
        absolute(root() + p),
        absolute(p) ==> exists|rest: Seq<char>| p == root() + rest,
{
    if absolute(p) {
        assert(p =~= root() + p.skip(1));
    }
}

proof fn lemma_kept_concat(a: Seq<Seq<char>>, b: Seq<Seq<char>>, at_start: bool)
    requires
        a.len() > 0,
    ensures
        kept(a + b, at_start) == kept(a, at_start) + kept(b, false),
    decreases a.len(),
{
    let s = a + b;
    assert(s.first() == a.first());
    assert(s.drop_first() =~= a.drop_first() + b);
    if a.len() > 1 {
        lemma_kept_concat(a.drop_first(), b, false);
    } else {
        assert(a.drop_first() + b =~= b);
        assert(kept(a.drop_first(), false) =~= Seq::<Seq<char>>::empty());
    }
    assert(kept(s, at_start) =~= kept(a, at_start) + kept(b, false));
}

proof fn lemma_inner(p: Seq<char>)
    ensures
        inner(p) == kept(split(p, '/'), false),
        components(root() + p).len() > 0,
        components(root() + p)[0] == root(),
{
    let none = Seq::<char>::empty();
    assert(root() + p =~= none + seq!['/'] + p);
    law_pieces_stand_between_separators(none, '/', p);
    assert(split(none, '/') =~= seq![none]);
    lemma_kept_concat(seq![none], split(p, '/'), false);
    assert(kept(seq![none].drop_first(), false) =~= Seq::<Seq<char>>::empty());
    assert(kept(seq![none], false) =~= Seq::<Seq<char>>::empty());
    assert(kept(split(root() + p, '/'), false) =~= kept(split(p, '/'), false));
    assert(inner(p) =~= kept(split(p, '/'), false));
}

/// A slash parts the components before it from those after it; between slashes a name
/// or a `..` is a component of its own, and nothing or a `.` is none. Only at the
/// start of a path a `.` counts.
pub proof fn law_components_stand_between_slashes(a: Seq<char>, b: Seq<char>)
    ensures
        a.len() > 0 ==> components(a + root() + b) == components(a) + inner(b),
        inner(a + root() + b) == inner(a) + inner(b),
        components(root() + b) == seq![root()] + inner(b),
        !a.contains('/') && a.len() > 0 ==> components(a) == seq![a],
        !a.contains('/') && a.len() > 0 && a != dot() ==> inner(a) == seq![a],
        a.len() == 0 || a == dot() ==> inner(a) == Seq::<Seq<char>>::empty(),
        components(Seq::empty()) == Seq::<Seq<char>>::empty(),
{
    let none = Seq::<char>::empty();
    lemma_inner(a);
    lemma_inner(b);
    lemma_inner(a + root() + b);
    law_pieces_stand_between_separators(a, '/', b);
    lemma_split_concat(a, a, '/');
    lemma_kept_concat(split(a, '/'), split(b, '/'), false);
    lemma_kept_concat(split(a, '/'), split(b, '/'), true);
    if a.len() > 0 {
        assert((a + root() + b).first() == a.first());
        assert(components(a + root() + b) =~= components(a) + inner(b));
    }
    assert(components(root() + b) =~= seq![root()] + inner(b));
    assert(split(none, '/') =~= seq![none]);
    lemma_one_kept(none);
    assert(components(none) =~= Seq::<Seq<char>>::empty());
    if !a.contains('/') {
        lemma_split_none(a, '/');
        lemma_one_kept(a);
        if a.len() > 0 {
            assert(a.contains(a[0]));
            assert(!absolute(a));
        }
    }
    if a.len() == 0 {
        assert(a =~= none);
    }
    if a == dot() {
        lemma_split_none(a, '/');
        lemma_one_kept(a);
    }
}

proof fn lemma_one_kept(s: Seq<char>)
    ensures
        s.len() == 0 || s == dot() ==> kept(seq![s], false) == Seq::<Seq<char>>::empty(),
        s.len() > 0 && s != dot() ==> kept(seq![s], false) == seq![s],
        s.len() > 0 ==> kept(seq![s], true) == seq![s],
        s.len() == 0 ==> kept(seq![s], true) == Seq::<Seq<char>>::empty(),
{
    assert(seq![s].drop_first() =~= Seq::<Seq<char>>::empty());
    assert(kept(seq![s].drop_first(), false) =~= Seq::<Seq<char>>::empty());
    assert(seq![s].first() == s);
    assert(seq![s] + Seq::<Seq<char>>::empty() =~= seq![s]);
}

// ---- Settling -------------------------------------------------------------

proof fn lemma_settle_concat(a: Seq<Seq<char>>, c: Seq<Seq<char>>, b: Seq<Seq<char>>)
    requires
        settle(a) == settle(c),
    ensures
        settle(a + b) == settle(c + b),
    decreases b.len(),
{
    if b.len() == 0 {
        assert(a + b =~= a);
        assert(c + b =~= c);
    } else {
        lemma_settle_concat(a, c, b.drop_last());
        assert((a + b).drop_last() =~= a + b.drop_last());
        assert((c + b).drop_last() =~= c + b.drop_last());
        assert((a + b).last() == b.last());
        assert((c + b).last() == b.last());
    }
}

/// A `.` leads nowhere, and a `..` takes back the name before it; where there is no name
/// to take back it leads nowhere too. Names alone stay as they are.
pub proof fn law_dots_cancel(
    a: Seq<Seq<char>>,
    n: Seq<char>,
    b: Seq<Seq<char>>,
)
    requires
        name(n),
    ensures
        settle(a + seq![dot()] + b) == settle(a + b),
        settle(a + seq![n, dot_dot()] + b) == settle(a + b),
        settle(a).len() == 0 || settle(a).last() == root() ==> settle(a + seq![dot_dot()] + b)
            == settle(a + b),
        settle(a.push(n)) == settle(a).push(n),
        settle(Seq::empty()) == Seq::<Seq<char>>::empty(),
        settle(seq![root()]) == seq![root()],
{
    assert(n != root()) by {
        assert(root()[0] == '/');
        if n == root() {
            assert(n.contains(n[0]));
        }
    }
    let one = a + seq![dot()];
    assert(one.drop_last() =~= a);
    assert(one.last() == dot());
    assert(settle(one) == settle(a));
    lemma_settle_concat(one, a, b);
    let named = a.push(n);
    assert(named.drop_last() =~= a);
    assert(settle(named) == settle(a).push(n));
    let two = a + seq![n, dot_dot()];
    assert(two.drop_last() =~= named);
    assert(two.last() == dot_dot());
    assert(dot_dot().len() == 2 && dot().len() == 1);
    assert(settle(a).push(n).drop_last() =~= settle(a));
    assert(settle(two) == settle(a));
    lemma_settle_concat(two, a, b);
    let up = a + seq![dot_dot()];
    assert(up.drop_last() =~= a);
    assert(up.last() == dot_dot());
    if settle(a).len() == 0 || settle(a).last() == root() {
        assert(settle(up) == settle(a));
        lemma_settle_concat(up, a, b);
    }
    let top = seq![root()];
    assert(top.drop_last() =~= Seq::<Seq<char>>::empty());
    assert(settle(top.drop_last()) =~= Seq::<Seq<char>>::empty());
    assert(root()[0] == '/' && dot()[0] == '.' && dot_dot()[0] == '.');
    assert(settle(top) =~= top);
}

/// Names stay where they are.
pub(crate) proof fn lemma_settle_names(a: Seq<Seq<char>>, parts: Seq<Seq<char>>)
    requires
        all_names(parts),
    ensures
        settle(a + parts) == settle(a) + parts,
    decreases parts.len(),
{
    if parts.len() == 0 {
        assert(a + parts =~= a);
        assert(settle(a) + parts =~= settle(a));
    } else {
        let rest = parts.drop_last();
        lemma_fewer_names(parts);
        lemma_settle_names(a, rest);
        law_dots_cancel(a + rest, parts.last(), seq![]);
        assert(a + parts =~= (a + rest).push(parts.last()));
        assert(settle(a) + parts =~= (settle(a) + rest).push(parts.last()));
    }
}

/// The key of a path does not change where a `.`, a further slash, or a name and the
/// `..` that takes it back come in between.
pub proof fn law_keys_do_not_see_detours(a: Seq<char>, n: Seq<char>, b: Seq<char>)
    requires
        a.len() > 0,
        name(n),
    ensures
        key_of(components(a + root() + (dot() + root() + b))) == key_of(components(a + root() + b)),
        key_of(components(a + root() + (root() + b))) == key_of(components(a + root() + b)),
        key_of(components(a + root() + (n + root() + (dot_dot() + root() + b)))) == key_of(
            components(a + root() + b),
        ),
        key_of(components(a + root())) == key_of(components(a)),
{
    let none = Seq::<char>::empty();
    assert(!dot_dot().contains('/'));
    law_components_stand_between_slashes(a, b);
    law_components_stand_between_slashes(a, none);
    assert(a + root() + none =~= a + root());
    assert(components(a) + inner(none) =~= components(a)) by {
        law_components_stand_between_slashes(none, none);
    }
    law_components_stand_between_slashes(a, dot() + root() + b);
    law_components_stand_between_slashes(dot(), b);
    assert(inner(dot() + root() + b) =~= inner(b));
    law_components_stand_between_slashes(a, root() + b);
    law_components_stand_between_slashes(none, b);
    assert(none + root() + b =~= root() + b);
    assert(inner(root() + b) =~= inner(b));
    let up = dot_dot() + root() + b;
    let detour = n + root() + up;
    law_components_stand_between_slashes(a, detour);
    law_components_stand_between_slashes(n, up);
    law_components_stand_between_slashes(dot_dot(), b);
    assert(dot_dot() != dot()) by {
        assert(dot_dot().len() == 2);
    }
    assert(inner(up) == seq![dot_dot()] + inner(b));
    assert(components(a + root() + detour) =~= components(a) + seq![n, dot_dot()] + inner(b));
    law_dots_cancel(components(a), n, inner(b));
}

/// Names, as they follow each other in a path.
pub open spec fn all_names(parts: Seq<Seq<char>>) -> bool {
    forall|i: int|
        0 <= i < parts.len() ==> name(#[trigger] parts[i]) && !parts[i].contains('\\')
}

proof fn lemma_names_settle(parts: Seq<Seq<char>>, top: bool)
    requires
        all_names(parts),
    ensures
        settle((if top {
            seq![root()]
        } else {
            seq![]
        }) + parts) == (if top {
            seq![root()]
        } else {
            seq![]
        }) + parts,
    decreases parts.len(),
{
    let head: Seq<Seq<char>> = if top {
        seq![root()]
    } else {
        seq![]
    };
    if parts.len() == 0 {
        assert(head + parts =~= head);
        let n = seq!['a'];
        assert(n[0] == 'a' && dot()[0] == '.' && dot_dot()[0] == '.');
        assert(name(n));
        law_dots_cancel(seq![], n, seq![]);
        if !top {
            assert(head =~= Seq::<Seq<char>>::empty());
        }
    } else {
        let rest = parts.drop_last();
        lemma_fewer_names(parts);
        lemma_names_settle(rest, top);
        law_dots_cancel(head + rest, parts.last(), seq![]);
        assert(head + parts =~= (head + rest).push(parts.last()));
    }
}

proof fn lemma_fewer_names(parts: Seq<Seq<char>>)
    requires
        parts.len() > 0,
        all_names(parts),
    ensures
        all_names(parts.drop_last()),
        name(parts.last()),
        !parts.last().contains('\\'),
{
    let rest = parts.drop_last();
    assert forall|i: int| 0 <= i < rest.len() implies name(#[trigger] rest[i])
        && !rest[i].contains('\\') by {
        assert(rest[i] == parts[i]);
    }
    assert(parts.last() == parts[parts.len() - 1]);
}

pub(crate) proof fn lemma_joined_text(parts: Seq<Seq<char>>)
    requires
        parts.len() > 0,
        all_names(parts),
    ensures
        join(parts, root()).len() > 0,
        join(parts, root()).last() != '/',
        !join(parts, root()).contains('\\'),
    decreases parts.len(),
{
    let last = parts.last();
    let text = join(parts, root());
    lemma_fewer_names(parts);
    assert(last.contains(last[last.len() - 1]));
    if parts.len() == 1 {
        assert(text == last);
    } else {
        lemma_joined_text(parts.drop_last());
        let head = join(parts.drop_last(), root());
        assert(text == head + root() + last);
        assert(text.last() == last[last.len() - 1]);
        assert forall|i: int| 0 <= i < text.len() implies text[i] != '\\' by {
            if i < head.len() {
                assert(text[i] == head[i]);
            } else if i > head.len() {
                assert(text[i] == last[i - head.len() - 1]);
            }
        }
    }
}

pub(crate) proof fn lemma_joined_components(parts: Seq<Seq<char>>)
    requires
        parts.len() > 0,
        all_names(parts),
    ensures
        components(join(parts, root())) == parts,
        inner(join(parts, root())) == parts,
    decreases parts.len(),
{
    let last = parts.last();
    let text = join(parts, root());
    lemma_fewer_names(parts);
    law_components_stand_between_slashes(last, last);
    if parts.len() == 1 {
        assert(parts =~= seq![last]);
    } else {
        let rest = parts.drop_last();
        lemma_joined_text(rest);
        lemma_joined_components(rest);
        law_components_stand_between_slashes(join(rest, root()), last);
        assert(parts =~= rest + seq![last]);
    }
}

/// A path of names, one slash between any two, is its own key; and a slash before it
/// stays.
pub proof fn law_plain_paths_are_their_own_keys(parts: Seq<Seq<char>>)
    requires
        parts.len() > 0,
        all_names(parts),
    ensures
        key_of(components(join(parts, root()))) == join(parts, root()),
        key_of(components(root() + join(parts, root()))) == root() + join(parts, root()),
{
    let text = join(parts, root());
    let none = Seq::<char>::empty();
    lemma_joined_components(parts);
    lemma_joined_text(parts);
    lemma_names_settle(parts, false);
    lemma_names_settle(parts, true);
    assert(Seq::<Seq<char>>::empty() + parts =~= parts);
    assert(parts[0] != root()) by {
        if parts[0] == root() {
            assert(parts[0].contains(parts[0][0]));
        }
    }
    assert(settle(parts) == parts);
    assert(spell(parts) == text);
    assert(replace(text, '\\', '/') =~= text) by {
        assert forall|i: int| 0 <= i < text.len() implies text[i] != '\\' by {
            assert(text.contains(text[i]));
        }
    }
    assert(trim_end(text, Class::Slash) == text);
    law_components_stand_between_slashes(none, text);
    let whole = seq![root()] + parts;
    assert(components(root() + text) == whole);
    assert(settle(whole) == whole);
    assert(whole.skip(1) =~= parts);
    let full = root() + text;
    assert(spell(whole) == full);
    assert(replace(full, '\\', '/') =~= full) by {
        assert forall|i: int| 0 <= i < full.len() implies full[i] != '\\' by {
            if i > 0 {
                assert(full[i] == text[i - 1]);
                assert(text.contains(text[i - 1]));
            }
        }
    }
    assert(full.last() == text.last());
}

/// A key is written with slashes alone, and does not end in one.
pub proof fn law_keys_are_written_with_slashes(comps: Seq<Seq<char>>)
    ensures
        !key_of(comps).contains('\\'),
        key_of(comps).len() > 0 ==> key_of(comps).last() != '/',
{
    let text = replace(spell(settle(comps)), '\\', '/');
    assert forall|i: int| 0 <= i < text.len() implies text[i] != '\\' by {}
    lemma_trimmed(text);
}

proof fn lemma_trimmed(s: Seq<char>)
    requires
        forall|i: int| 0 <= i < s.len() ==> s[i] != '\\',
    ensures
        forall|i: int|
            0 <= i < trim_end(s, Class::Slash).len() ==> trim_end(s, Class::Slash)[i] != '\\',
        trim_end(s, Class::Slash).len() > 0 ==> trim_end(s, Class::Slash).last() != '/',
    decreases s.len(),
{
    if s.len() > 0 && s.last() == '/' {
        lemma_trimmed(s.drop_last());
    }
}

/// What lies below a directory is what follows it in the path, and nothing lies below a
/// directory that the path does not start with.
pub proof fn law_below_is_what_follows(base: Seq<char>, rest: Seq<char>, p: Seq<char>)
    requires
        base.len() > 0,
    ensures
        below(base + root() + rest, base) == Some(inner(rest)),
        below(base, base) == Some(Seq::<Seq<char>>::empty()),
        below(p, base) matches Some(comps) ==> components(p) == components(base) + comps,
{
    law_components_stand_between_slashes(base, rest);
    let whole = components(base) + inner(rest);
    let n = components(base).len() as int;
    assert(whole.subrange(0, n) =~= components(base));
    assert(whole.skip(n) =~= inner(rest));
    assert(components(base).subrange(0, n) =~= components(base));
    assert(components(base).skip(n) =~= Seq::<Seq<char>>::empty());
    if components(base).is_prefix_of(components(p)) {
        assert(components(p) =~= components(base) + components(p).skip(n));
    }
}

// ---- Climbing out ---------------------------------------------------------

proof fn lemma_depth_concat(a: Seq<Seq<char>>, b: Seq<Seq<char>>)
    ensures
        depth(a + b) == depth(a) + depth(b),
    decreases b.len(),
{
    if b.len() == 0 {
        assert(a + b =~= a);
    } else {
        lemma_depth_concat(a, b.drop_last());
        assert((a + b).drop_last() =~= a + b.drop_last());
    }
}

proof fn lemma_depth_one(s: Seq<char>)
    ensures
        depth(seq![s]) == (if s == dot() {
            0int
        } else if s == dot_dot() {
            -1
        } else {
            1
        }),
{
    assert(seq![s].drop_last() =~= Seq::<Seq<char>>::empty());
    assert(depth(seq![s].drop_last()) == 0);
}

/// A path leaves its directory where it starts with `..`, and what has left has left;
/// going down into a name and up again, or staying, makes no difference wherever it
/// stands, and neither does a name at the end. Names alone never leave.
pub proof fn law_which_paths_climb_out(n: Seq<char>, rest: Seq<Seq<char>>)
    requires
        name(n),
    ensures
        climbs_out(seq![dot_dot()] + rest),
        climbs_out(seq![dot()] + rest) <==> climbs_out(rest),
        climbs_out(seq![n, dot_dot()] + rest) <==> climbs_out(rest),
        all_names(rest) ==> !climbs_out(rest),
{
    let none = Seq::<Seq<char>>::empty();
    lemma_depth_one(dot_dot());
    let up = seq![dot_dot()] + rest;
    assert(dot_dot().len() == 2 && dot().len() == 1);
    assert(up.take(1) =~= seq![dot_dot()]);
    assert(depth(up.take(1)) < 0);
    law_detours_do_not_climb_out(none, n, rest);
    assert(none + seq![dot()] + rest =~= seq![dot()] + rest);
    assert(none + seq![n, dot_dot()] + rest =~= seq![n, dot_dot()] + rest);
    assert(none + rest =~= rest);
    if all_names(rest) {
        assert forall|k: int| 0 <= k <= rest.len() implies depth(#[trigger] rest.take(k)) >= 0 by {
            lemma_names_depth(rest, k);
        }
    }
}

/// The same in the middle of a path.
pub proof fn law_detours_do_not_climb_out(a: Seq<Seq<char>>, n: Seq<char>, b: Seq<Seq<char>>)
    requires
        name(n),
    ensures
        climbs_out(a + seq![dot()] + b) <==> climbs_out(a + b),
        climbs_out(a + seq![n, dot_dot()] + b) <==> climbs_out(a + b),
        climbs_out(a.push(n)) <==> climbs_out(a),
        climbs_out(a) ==> climbs_out(a + b),
{
    assert(dot_dot().len() == 2 && dot().len() == 1);
    lemma_depth_one(dot_dot());
    lemma_depth_one(dot());
    lemma_depth_one(n);
    assert(seq![dot()].take(1) =~= seq![dot()]);
    lemma_same_climb(a, seq![dot()], b);
    let down_up = seq![n, dot_dot()];
    assert(down_up =~= seq![n] + seq![dot_dot()]);
    lemma_depth_concat(seq![n], seq![dot_dot()]);
    assert(down_up.take(1) =~= seq![n]);
    lemma_same_climb(a, down_up, b);
    lemma_climb_further(a, b);
    lemma_climb_further(a, seq![n]);
    assert(a.push(n) =~= a + seq![n]);
    if climbs_out(a.push(n)) {
        let s = a.push(n);
        let k = choose|k: int| 0 <= k <= s.len() && depth(#[trigger] s.take(k)) < 0;
        if k == s.len() {
            assert(s.take(k) =~= a + seq![n]);
            lemma_depth_concat(a, seq![n]);
            assert(a.take(a.len() as int) =~= a);
        } else {
            assert(s.take(k) =~= a.take(k));
        }
    }
}

proof fn lemma_climb_further(a: Seq<Seq<char>>, b: Seq<Seq<char>>)
    ensures
        climbs_out(a) ==> climbs_out(a + b),
{
    if climbs_out(a) {
        let k = choose|k: int| 0 <= k <= a.len() && depth(#[trigger] a.take(k)) < 0;
        assert((a + b).take(k) =~= a.take(k));
    }
}

proof fn lemma_names_depth(parts: Seq<Seq<char>>, k: int)
    requires
        all_names(parts),
        0 <= k <= parts.len(),
    ensures
        depth(parts.take(k)) == k,
    decreases k,
{
    if k > 0 {
        lemma_names_depth(parts, k - 1);
        assert(parts.take(k).drop_last() =~= parts.take(k - 1));
        assert(parts.take(k).last() == parts[k - 1]);
        assert(name(parts[k - 1]));
    } else {
        assert(parts.take(0) =~= Seq::<Seq<char>>::empty());
    }
}

proof fn lemma_same_climb(a: Seq<Seq<char>>, mid: Seq<Seq<char>>, b: Seq<Seq<char>>)
    requires
        1 <= mid.len() <= 2,
        depth(mid) == 0,
        depth(mid.take(1)) >= 0,
    ensures
        climbs_out(a + mid + b) <==> climbs_out(a + b),
{
    let s = a + mid + b;
    let t = a + b;
    let (n, m) = (a.len() as int, mid.len() as int);
    assert(t.take(n) =~= a);
    if climbs_out(s) {
        let k = choose|k: int| 0 <= k <= s.len() && depth(#[trigger] s.take(k)) < 0;
        if k <= n {
            assert(s.take(k) =~= t.take(k));
        } else if k < n + m {
            assert(s.take(k) =~= a + mid.take(1));
            lemma_depth_concat(a, mid.take(1));
            assert(depth(t.take(n)) < 0);
        } else {
            assert(s.take(k) =~= (a + mid) + b.take(k - n - m));
            lemma_depth_concat(a + mid, b.take(k - n - m));
            lemma_depth_concat(a, mid);
            lemma_depth_concat(a, b.take(k - n - m));
            assert(t.take(k - m) =~= a + b.take(k - n - m));
        }
    }
    if climbs_out(t) {
        let k = choose|k: int| 0 <= k <= t.len() && depth(#[trigger] t.take(k)) < 0;
        if k <= n {
            assert(s.take(k) =~= t.take(k));
        } else {
            assert(s.take(k + m) =~= (a + mid) + b.take(k - n));
            lemma_depth_concat(a + mid, b.take(k - n));
            lemma_depth_concat(a, mid);
            lemma_depth_concat(a, b.take(k - n));
            assert(t.take(k) =~= a + b.take(k - n));
        }
    }
}

// ---- Identity -------------------------------------------------------------

/// Components as they follow the start of a path: each one piece, and no `.` but, where
/// `at_start`, as the first.
spec fn pieces(parts: Seq<Seq<char>>, at_start: bool) -> bool {
    forall|i: int|
        0 <= i < parts.len() ==> (#[trigger] parts[i]).len() > 0 && !parts[i].contains('/') && (
        parts[i] == dot() ==> at_start && i == 0)
}

proof fn lemma_split_pieces(s: Seq<char>, c: char)
    ensures
        forall|i: int| 0 <= i < split(s, c).len() ==> !(#[trigger] split(s, c)[i]).contains(c),
    decreases s.len(),
{
    lemma_find(s, c);
    let k = find(s, c) as int;
    if k < s.len() {
        lemma_split_pieces(s.skip(k + 1), c);
        let rest = split(s.skip(k + 1), c);
        assert forall|i: int| 0 <= i < split(s, c).len() implies !(#[trigger] split(
            s,
            c,
        )[i]).contains(c) by {
            if i > 0 {
                assert(split(s, c)[i] == rest[i - 1]);
            } else {
                assert(split(s, c)[0] == s.take(k));
                assert forall|j: int| 0 <= j < k implies s.take(k)[j] != c by {
                    assert(s.take(k)[j] == s[j]);
                }
            }
        }
    } else {
        assert(split(s, c) =~= seq![s]);
    }
}

proof fn lemma_kept_pieces(segments: Seq<Seq<char>>, at_start: bool)
    requires
        forall|i: int| 0 <= i < segments.len() ==> !(#[trigger] segments[i]).contains('/'),
    ensures
        pieces(kept(segments, at_start), at_start),
    decreases segments.len(),
{
    if segments.len() > 0 {
        let rest = segments.drop_first();
        assert forall|i: int| 0 <= i < rest.len() implies !(#[trigger] rest[i]).contains('/') by {
            assert(rest[i] == segments[i + 1]);
        }
        lemma_kept_pieces(rest, false);
        let tail = kept(rest, false);
        let all = kept(segments, at_start);
        let first = segments.first();
        assert(first == segments[0]);
        if first.len() == 0 || (first == dot() && !at_start) {
            assert(all == tail);
        } else {
            assert forall|i: int| 0 <= i < all.len() implies (#[trigger] all[i]).len() > 0
                && !all[i].contains('/') && (all[i] == dot() ==> at_start && i == 0) by {
                if i > 0 {
                    assert(all[i] == tail[i - 1]);
                }
            }
        }
    }
}

/// Pieces joined by slashes come apart into the same pieces.
proof fn lemma_pieces_come_apart(parts: Seq<Seq<char>>, at_start: bool)
    requires
        parts.len() > 0,
        pieces(parts, at_start),
    ensures
        join(parts, root()).len() > 0,
        join(parts, root())[0] != '/',
        components(join(parts, root())) == parts,
        !at_start ==> inner(join(parts, root())) == parts,
    decreases parts.len(),
{
    let last = parts.last();
    let text = join(parts, root());
    assert(last == parts[parts.len() - 1]);
    law_components_stand_between_slashes(last, last);
    if parts.len() == 1 {
        assert(last.contains(last[0]));
        assert(parts =~= seq![last]);
    } else {
        let rest = parts.drop_last();
        assert(pieces(rest, at_start)) by {
            assert forall|i: int| 0 <= i < rest.len() implies (#[trigger] rest[i]).len() > 0
                && !rest[i].contains('/') && (rest[i] == dot() ==> at_start && i == 0) by {
                assert(rest[i] == parts[i]);
            }
        }
        lemma_pieces_come_apart(rest, at_start);
        let head = join(rest, root());
        assert(text == head + root() + last);
        assert(text[0] == head[0]);
        law_components_stand_between_slashes(head, last);
        assert(parts =~= rest + seq![last]);
    }
}

/// The identity of a path is its components spelled out: it comes apart into the same
/// components. So two paths have one identity where they have the same components, and
/// only there.
pub proof fn law_identity_is_that_of_the_components(p: Seq<char>, q: Seq<char>)
    ensures
        components(identity(Platform::Unix, p)) == components(p),
        identity(Platform::Unix, p) == identity(Platform::Unix, q) <==> components(p) == components(
            q,
        ),
{
    lemma_identity(p);
    lemma_identity(q);
}

proof fn lemma_identity(p: Seq<char>)
    ensures
        components(spell(components(p))) == components(p),
{
    let none = Seq::<char>::empty();
    lemma_split_pieces(p, '/');
    lemma_kept_pieces(split(p, '/'), true);
    lemma_kept_pieces(split(p, '/'), false);
    law_components_stand_between_slashes(none, none);
    if absolute(p) {
        let parts = kept(split(p, '/'), false);
        assert(components(p).skip(1) =~= parts);
        let text = join(parts, root());
        law_components_stand_between_slashes(none, text);
        if parts.len() > 0 {
            lemma_pieces_come_apart(parts, false);
        } else {
            assert(text =~= none);
        }
        assert(components(root() + text) =~= components(p));
    } else {
        let parts = kept(split(p, '/'), true);
        if parts.len() > 0 {
            lemma_pieces_come_apart(parts, true);
            assert(parts[0] != root()) by {
                if parts[0] == root() {
                    assert(parts[0].contains(parts[0][0]));
                }
            }
        } else {
            assert(spell(parts) =~= none);
            assert(components(none) =~= parts);
        }
    }
}

// ---- Parents, names, joining ----------------------------------------------

proof fn lemma_body_prefix(p: Seq<char>, q: Seq<char>, n: int)
    requires
        0 <= n <= p.len(),
        n <= q.len(),
        forall|i: int| 0 <= i < n ==> p[i] == q[i],
    ensures
        body_len(p, n) == body_len(q, n),
    decreases n,
{
    if n > 0 {
        lemma_body_prefix(p, q, n - 1);
    }
}

/// Where the last component of `head` and a name starts and ends.
proof fn lemma_last(head: Seq<char>, n: Seq<char>)
    requires
        head.len() > 0 ==> head.last() == '/',
        n.len() > 0,
        !n.contains('/'),
        n != dot() || head.len() == 0,
    ensures
        ({
            let p = head + n;
            &&& body_len(p, p.len() as int) == p.len()
            &&& last_start(p) == head.len()
            &&& !bare(p)
            &&& p.subrange(last_start(p), body_len(p, p.len() as int)) == n
        }),
{
    let p = head + n;
    let len = p.len() as int;
    let k = head.len() as int;
    assert(n.contains(n[n.len() - 1]));
    assert(p[len - 1] == n[n.len() - 1]);
    if p[len - 1] == '.' && len >= 2 && p[len - 2] == '/' {
        if n.len() > 1 {
            assert(p[len - 2] == n[n.len() - 2]);
            assert(n.contains(n[n.len() - 2]));
        } else {
            assert(n =~= dot());
            assert(head.len() > 0);
        }
    }
    assert(body_len(p, len) == len);
    assert(p.take(len) =~= p);
    assert forall|i: int| k - 1 < i < p.len() implies p[i] != '/' by {
        assert(p[i] == n[i - k]);
        assert(n.contains(n[i - k]));
    }
    if k > 0 {
        assert(p[k - 1] == head.last());
    }
    lemma_rfind_unique(p, '/', k - 1);
    assert(p.subrange(k, len) =~= n);
    if len == 1 {
        assert(p[0] == n[0] || k == 1);
    }
}

/// The parent of a name in a directory is the directory, and its file name is the name;
/// a name by itself is in the empty path. A `..` is a component but no file name.
pub proof fn law_a_name_in_a_directory(dir: Seq<char>, n: Seq<char>)
    requires
        n.len() > 0,
        !n.contains('/'),
        n != dot(),
    ensures
        dir.len() > 0 && dir.last() != '/' && !(seq!['/', '.']).is_suffix_of(dir) ==> parent(
            dir + root() + n,
        ) == Some(dir),
        parent(root() + n) == Some(root()),
        parent(n) == Some(Seq::<char>::empty()),
        parent(root()) is None,
        parent(Seq::empty()) is None,
        n != dot_dot() ==> file_name(dir + root() + n) == Some(n) && file_name(n) == Some(n),
        file_name(dir + root() + dot_dot()) is None,
        file_name(root()) is None,
{
    let none = Seq::<char>::empty();
    let head = dir + root();
    let p = head + n;
    let k = dir.len() as int;
    assert(head.last() == '/');
    lemma_last(head, n);
    lemma_last(none, n);
    assert(none + n =~= n);
    lemma_last(root(), n);
    assert(!dot_dot().contains('/'));
    assert(dot_dot().len() == 2 && dot().len() == 1);
    lemma_last(head, dot_dot());
    assert(body_len(p, k + 1) == if k == 0 {
        1
    } else {
        body_len(p, k)
    }) by {
        assert(p[k] == '/');
    }
    if dir.len() > 0 && dir.last() != '/' && !(seq!['/', '.']).is_suffix_of(dir) {
        assert(p[k - 1] == dir.last());
        if k >= 2 && p[k - 1] == '.' && p[k - 2] == '/' {
            assert(dir.subrange(k - 2, k) =~= seq!['/', '.']);
        }
        assert(body_len(p, k) == k);
        assert(p.take(k) =~= dir);
    }
    let q = root() + n;
    assert(q[0] == '/');
    assert(body_len(q, 1) == 1);
    assert(q.take(1) =~= root());
    assert(n.take(0) =~= none);
    assert(body_len(root(), 1) == 1);
    assert(body_len(none, 0) == 0);
}

/// Slashes at the end, and `.` components, change neither the parent nor the name.
pub proof fn law_slashes_at_the_end_are_free(p: Seq<char>)
    requires
        p.len() > 0,
    ensures
        parent(p + root()) == parent(p),
        file_name(p + root()) == file_name(p),
        parent(p + root() + dot()) == parent(p),
        file_name(p + root() + dot()) == file_name(p),
{
    lemma_same_body(p, p + root());
    lemma_same_body(p, p + root() + dot());
    let n = p.len() as int;
    let q = p + root();
    assert(q[n] == '/');
    lemma_body_prefix(q, p, n);
    let r = p + root() + dot();
    assert(r[n + 1] == '.' && r[n] == '/');
    lemma_body_prefix(r, p, n);
    assert(body_len(r, n + 2) == body_len(r, n + 1));
}

proof fn lemma_same_body(p: Seq<char>, q: Seq<char>)
    requires
        p.len() > 0,
        p.len() <= q.len(),
        forall|i: int| 0 <= i < p.len() ==> p[i] == q[i],
    ensures
        body_len(q, q.len() as int) == body_len(p, p.len() as int) ==> parent(q) == parent(p)
            && file_name(q) == file_name(p),
{
    let n = body_len(p, p.len() as int);
    lemma_body_len(p, p.len() as int);
    if body_len(q, q.len() as int) == n {
        assert(q.take(n) =~= p.take(n));
        assert(last_start(p) == last_start(q));
        let s = last_start(p);
        lemma_parent(p);
        if !bare(p) {
            assert(0 <= s <= n);
            lemma_body_prefix(p, q, s);
            let m = body_len(p, s);
            assert(q.take(m) =~= p.take(m));
            assert(q.subrange(s, n) =~= p.subrange(s, n));
        }
    }
}

/// An absolute path is seen as it is from anywhere; another is seen below, with one
/// slash between.
pub proof fn law_joining_paths(a: Seq<char>, b: Seq<char>)
    ensures
        join_path(a, root() + b) == root() + b,
        !absolute(b) && a.len() > 0 && a.last() != '/' ==> join_path(a, b) == a + root() + b,
        !absolute(b) ==> join_path(a + root(), b) == a + root() + b,
        !absolute(b) ==> join_path(Seq::empty(), b) == b,
{
    assert((a + root()).last() == '/');
    assert(Seq::<char>::empty() + b =~= b);
}

/// An extension takes the place of what follows the last dot of a file name, unless the
/// name starts there; where there is none it is added.
pub proof fn law_extensions_are_replaced(
    head: Seq<char>,
    stem: Seq<char>,
    old: Seq<char>,
    ext: Seq<char>,
)
    requires
        head.len() > 0 ==> head.last() == '/',
        stem.len() > 0,
        !stem.contains('/'),
        !old.contains('/'),
        !old.contains('.'),
        stem + dot() + old != dot_dot(),
    ensures
        with_extension(head + (stem + dot() + old), ext) == head + stem + dot() + ext,
        !stem.skip(1).contains('.') && stem != dot() && stem != dot_dot() ==> with_extension(
            head + stem,
            ext,
        ) == head + stem + dot() + ext,
{
    let n = stem + dot() + old;
    let k = stem.len() as int;
    assert forall|i: int| 0 <= i < n.len() implies n[i] != '/' by {
        if i < k {
            assert(n[i] == stem[i]);
        } else if i > k {
            assert(n[i] == old[i - k - 1]);
        }
    }
    assert(n.len() > 1);
    assert(n[k] == '.');
    assert forall|i: int| k < i < n.len() implies n[i] != '.' by {
        assert(n[i] == old[i - k - 1]);
    }
    lemma_rfind_unique(n, '.', k);
    lemma_extended(head, n, ext);
    assert(n.take(k) =~= stem);
    if !stem.skip(1).contains('.') && stem != dot() && stem != dot_dot() {
        assert forall|i: int| 0 < i < stem.len() implies stem[i] != '.' by {
            assert(stem[i] == stem.skip(1)[i - 1]);
            assert(stem.skip(1).contains(stem.skip(1)[i - 1]));
        }
        lemma_rfind_unique(stem, '.', if stem[0] == '.' {
            0int
        } else {
            -1
        });
        lemma_extended(head, stem, ext);
        assert(stem.take(k) =~= stem);
    }
}

proof fn lemma_extended(head: Seq<char>, n: Seq<char>, ext: Seq<char>)
    requires
        head.len() > 0 ==> head.last() == '/',
        n.len() > 0,
        !n.contains('/'),
        n != dot(),
        n != dot_dot(),
    ensures
        with_extension(head + n, ext) == head + n.take(stem_len(n)) + dot() + ext,
{
    let p = head + n;
    lemma_last(head, n);
    assert(file_name(p) == Some(n));
    lemma_with_extension(p, ext);
    lemma_rfind(n, '.');
    let k = stem_len(n);
    assert(0 <= k <= n.len());
    assert(p.take(head.len() + k) =~= head + n.take(k));
}

} // verus!
