//! The lexical rules of paths on Unix.
//!
//! A path is text. `/` separates its components, repeated separators count as
//! one, and a `.` is dropped everywhere but at the very start. Nothing here
//! looks at a disk: these are the rules by which path text is taken apart and
//! put together.

use crate::path::{inside, is_climbing_out, Platform};
use crate::text::{
    after_last, joined, join, lemma_rfind, replace, replaced, rfind, same, split, splitted, trim_end,
    trimmed_end, views, Class,
};
use vstd::prelude::*;
use vstd::slice::slice_subrange;

verus! {

/// The component that an absolute path starts with.
pub open spec fn root() -> Seq<char> {
    seq!['/']
}

pub open spec fn dot() -> Seq<char> {
    seq!['.']
}

pub open spec fn dot_dot() -> Seq<char> {
    seq!['.', '.']
}

pub open spec fn absolute(p: Seq<char>) -> bool {
    p.len() > 0 && p.first() == '/'
}

pub fn is_absolute(p: &[char]) -> (b: bool)
    ensures
        b == absolute(p@),
{
    p.len() > 0 && p[0] == '/'
}

pub(crate) fn is_dot(s: &[char]) -> (b: bool)
    ensures
        b == (s@ == dot()),
{
    let b = s.len() == 1 && s[0] == '.';
    assert(b ==> s@ =~= dot());
    b
}

pub(crate) fn is_dot_dot(s: &[char]) -> (b: bool)
    ensures
        b == (s@ == dot_dot()),
{
    let b = s.len() == 2 && s[0] == '.' && s[1] == '.';
    assert(b ==> s@ =~= dot_dot());
    b
}

pub(crate) fn is_root(s: &[char]) -> (b: bool)
    ensures
        b == (s@ == root()),
{
    let b = s.len() == 1 && s[0] == '/';
    assert(b ==> s@ =~= root());
    b
}

// ---- Components -----------------------------------------------------------

/// The segments that count: not the empty ones, and a `.` only where a path
/// starts with it.
pub open spec fn kept(segments: Seq<Seq<char>>, at_start: bool) -> Seq<Seq<char>>
    decreases segments.len(),
{
    if segments.len() == 0 {
        seq![]
    } else {
        let rest = kept(segments.drop_first(), false);
        let s = segments.first();
        if s.len() == 0 || (s == dot() && !at_start) {
            rest
        } else {
            seq![s] + rest
        }
    }
}

/// The components of a path: the root if it is absolute, then the segments
/// that count.
pub open spec fn components(p: Seq<char>) -> Seq<Seq<char>> {
    if absolute(p) {
        seq![root()] + kept(split(p, '/'), false)
    } else {
        kept(split(p, '/'), true)
    }
}

pub fn components_of<'a>(p: &'a [char]) -> (v: Vec<&'a [char]>)
    ensures
        views(v@) == components(p@),
{
    let segments = splitted(p, '/');
    let mut v: Vec<&'a [char]> = Vec::new();
    let mut at_start: bool = true;
    if is_absolute(p) {
        let first: &'a [char] = slice_subrange(p, 0, 1);
        assert(first@ == root());
        v.push(first);
        at_start = false;
        assert(views(v@) == seq![root()]);
    } else {
        assert(views(v@) == Seq::<Seq<char>>::empty());
    }
    let ghost head = views(v@);
    let mut i: usize = 0;
    assert(views(segments@).skip(0) == views(segments@));
    while i < segments.len()
        invariant
            i <= segments@.len(),
            views(segments@) == split(p@, '/'),
            components(p@) == views(v@) + kept(views(segments@).skip(i as int), at_start),
        decreases segments@.len() - i,
    {
        let s: &'a [char] = segments[i];
        let ghost pushed = v@;
        let ghost rest = views(segments@).skip(i as int);
        assert(rest.first() == s@);
        assert(rest.drop_first() == views(segments@).skip(i + 1));
        if s.len() > 0 && (at_start || !is_dot(s)) {
            v.push(s);
            assert(views(v@) == views(pushed).push(s@));
        }
        at_start = false;
        i += 1;
    }
    v
}

/// What is left when each `.` is dropped and each `..` takes back the component
/// before it. A `..` with nothing before it, or only the root, is dropped.
pub open spec fn settle(comps: Seq<Seq<char>>) -> Seq<Seq<char>>
    decreases comps.len(),
{
    if comps.len() == 0 {
        seq![]
    } else {
        let done = settle(comps.drop_last());
        let c = comps.last();
        if c == dot() {
            done
        } else if c == dot_dot() {
            if done.len() > 0 && done.last() != root() {
                done.drop_last()
            } else {
                done
            }
        } else {
            done.push(c)
        }
    }
}

pub fn settled<'a>(comps: &Vec<&'a [char]>) -> (v: Vec<&'a [char]>)
    ensures
        views(v@) == settle(views(comps@)),
{
    let mut v: Vec<&'a [char]> = Vec::new();
    let mut i: usize = 0;
    assert(views(v@) == Seq::<Seq<char>>::empty());
    while i < comps.len()
        invariant
            i <= comps@.len(),
            views(v@) == settle(views(comps@).take(i as int)),
        decreases comps@.len() - i,
    {
        let c: &'a [char] = comps[i];
        let ghost before = v@;
        let ghost taken = views(comps@).take(i + 1);
        assert(taken.drop_last() == views(comps@).take(i as int));
        assert(taken.last() == c@);
        if is_dot(c) {
        } else if is_dot_dot(c) {
            if v.len() > 0 && !is_root(v[v.len() - 1]) {
                assert(views(before).last() == before.last()@);
                v.pop();
                assert(views(v@) == views(before).drop_last());
            } else {
                assert(v@.len() > 0 ==> views(before).last() == before.last()@);
            }
        } else {
            v.push(c);
            assert(views(v@) == views(before).push(c@));
        }
        i += 1;
    }
    assert(views(comps@).take(comps@.len() as int) == views(comps@));
    v
}

/// The path text that a list of components spells.
pub open spec fn spell(comps: Seq<Seq<char>>) -> Seq<char> {
    if comps.len() > 0 && comps.first() == root() {
        root() + join(comps.skip(1), root())
    } else {
        join(comps, root())
    }
}

pub(crate) fn spelled(comps: &Vec<&[char]>) -> (r: Vec<char>)
    ensures
        r@ == spell(views(comps@)),
{
    let mut slash: Vec<char> = Vec::new();
    slash.push('/');
    assert(slash@ == root());
    if comps.len() > 0 && is_root(comps[0]) {
        let mut rest: Vec<&[char]> = Vec::new();
        let mut i: usize = 1;
        while i < comps.len()
            invariant
                1 <= i <= comps@.len(),
                rest@ == comps@.subrange(1, i as int),
            decreases comps@.len() - i,
        {
            rest.push(comps[i]);
            i += 1;
        }
        assert(views(rest@) == views(comps@).skip(1));
        assert(views(comps@).first() == comps@[0]@);
        let tail = joined(&rest, slash.as_slice());
        slash.extend_from_slice(tail.as_slice());
        slash
    } else {
        assert(comps@.len() > 0 ==> views(comps@).first() == comps@[0]@);
        joined(comps, slash.as_slice())
    }
}

/// The key text of a list of components: settled, with `/` for every `\`, and
/// no `/` at the end.
pub open spec fn key_of(comps: Seq<Seq<char>>) -> Seq<char> {
    trim_end(replace(spell(settle(comps)), '\\', '/'), Class::Slash)
}

pub(crate) fn key_text(comps: &Vec<&[char]>) -> (r: Vec<char>)
    ensures
        r@ == key_of(views(comps@)),
{
    let done = settled(comps);
    let text = replaced(spelled(&done).as_slice(), '\\', '/');
    let mut r: Vec<char> = Vec::new();
    r.extend_from_slice(trimmed_end(text.as_slice(), Class::Slash));
    r
}

/// A path reduced to a stable string for use in a key. Not made canonical: that
/// would touch the disk and fail for a directory that has since moved.
pub fn normalize_path_key(p: &[char]) -> (r: Vec<char>)
    ensures
        r@ == key_of(components(p@)),
{
    key_text(&components_of(p))
}

/// The components of `p` that follow those of `base`, where `p` starts with
/// them.
pub open spec fn below(p: Seq<char>, base: Seq<char>) -> Option<Seq<Seq<char>>> {
    if components(base).is_prefix_of(components(p)) {
        Some(components(p).skip(components(base).len() as int))
    } else {
        None
    }
}

/// What follows in `whole` after `head`, where it starts with it.
fn remainder<'a>(whole: &Vec<&'a [char]>, head: &Vec<&[char]>) -> (r: Option<Vec<&'a [char]>>)
    ensures
        match r {
            Some(v) => views(head@).is_prefix_of(views(whole@)) && views(v@) == views(whole@).skip(
                head@.len() as int,
            ),
            None => !views(head@).is_prefix_of(views(whole@)),
        },
{
    if head.len() > whole.len() {
        return None;
    }
    let mut i: usize = 0;
    while i < head.len()
        invariant
            i <= head@.len() <= whole@.len(),
            views(head@).take(i as int).is_prefix_of(views(whole@)),
        decreases head@.len() - i,
    {
        if !same(head[i], whole[i]) {
            assert(views(head@)[i as int] != views(whole@)[i as int]);
            return None;
        }
        assert(views(head@).take(i + 1) == views(head@).take(i as int).push(views(head@)[i as int]));
        assert(views(whole@).take(i + 1) == views(whole@).take(i as int).push(
            views(whole@)[i as int],
        ));
        i += 1;
    }
    assert(views(head@).take(head@.len() as int) == views(head@));
    let mut v: Vec<&'a [char]> = Vec::new();
    while i < whole.len()
        invariant
            head@.len() <= i <= whole@.len(),
            v@ == whole@.subrange(head@.len() as int, i as int),
        decreases whole@.len() - i,
    {
        v.push(whole[i]);
        i += 1;
    }
    assert(views(v@) == views(whole@).skip(head@.len() as int));
    Some(v)
}

/// The key of a path below `base`.
pub fn inside_key(p: &[char], base: &[char]) -> (r: Option<Vec<char>>)
    ensures
        match r {
            Some(k) => inside(Platform::Unix, p@, base@) matches Some(comps) && k@ == key_of(comps),
            None => inside(Platform::Unix, p@, base@) is None,
        },
{
    let whole = components_of(p);
    let head = components_of(base);
    match remainder(&whole, &head) {
        None => None,
        Some(comps) => {
            if !is_climbing_out(&comps) {
                return Some(key_text(&comps));
            }
            match remainder(&settled(&whole), &settled(&head)) {
                None => None,
                Some(comps) => Some(key_text(&comps)),
            }
        },
    }
}

// ---- Parents, names, joining ----------------------------------------------

/// How much of the first `n` characters of `p` is left without the separators
/// and the `.` components at their end. The separator of the root stays.
pub open spec fn body_len(p: Seq<char>, n: int) -> int
    decreases n,
{
    if n <= 0 {
        0
    } else if p[n - 1] == '/' {
        if n == 1 {
            1
        } else {
            body_len(p, n - 1)
        }
    } else if p[n - 1] == '.' && n >= 2 && p[n - 2] == '/' {
        body_len(p, n - 1)
    } else {
        n
    }
}

/// Where the last component of `p` starts.
pub open spec fn last_start(p: Seq<char>) -> int {
    rfind(p.take(body_len(p, p.len() as int)), '/') + 1
}

/// Is `p` empty or nothing but the root?
pub open spec fn bare(p: Seq<char>) -> bool {
    let n = body_len(p, p.len() as int);
    n == 0 || (n == 1 && p[0] == '/')
}

/// The text of `p` without its last component; `None` for the root and for the
/// empty path.
pub open spec fn parent(p: Seq<char>) -> Option<Seq<char>> {
    if bare(p) {
        None
    } else {
        Some(p.take(body_len(p, last_start(p))))
    }
}

/// The last component of `p`, unless that is the root, a `.` or a `..`.
pub open spec fn file_name(p: Seq<char>) -> Option<Seq<char>> {
    let name = p.subrange(last_start(p), body_len(p, p.len() as int));
    if bare(p) || name == dot() || name == dot_dot() {
        None
    } else {
        Some(name)
    }
}

pub proof fn lemma_body_len(p: Seq<char>, n: int)
    requires
        0 <= n <= p.len(),
    ensures
        0 <= body_len(p, n) <= n,
        n > 0 ==> body_len(p, n) > 0,
        body_len(p, n) > 0 && p[body_len(p, n) - 1] == '/' ==> body_len(p, n) == 1,
        forall|i: int| body_len(p, n) <= i < n ==> (#[trigger] p[i]) == '/' || p[i] == '.',
    decreases n,
{
    if n > 1 && p[n - 1] == '/' {
        lemma_body_len(p, n - 1);
    } else if n >= 2 && p[n - 1] == '.' && p[n - 2] == '/' {
        lemma_body_len(p, n - 1);
    }
}

/// The last component of a path that is not bare is not empty, and a parent is
/// shorter than what it is the parent of.
pub proof fn lemma_parent(p: Seq<char>)
    ensures
        !bare(p) ==> 0 <= last_start(p) < body_len(p, p.len() as int) <= p.len(),
        bare(p) ==> 0 <= body_len(p, p.len() as int) <= p.len(),
        !bare(p) ==> 0 <= body_len(p, last_start(p)) <= last_start(p),
        parent(p) matches Some(d) ==> d.len() < p.len(),
{
    let n = body_len(p, p.len() as int);
    lemma_body_len(p, p.len() as int);
    if !bare(p) {
        let head = p.take(n);
        lemma_rfind(head, '/');
        assert(head[n - 1] == p[n - 1]);
        lemma_body_len(p, last_start(p));
    }
}

fn body_len_of(p: &[char], n: usize) -> (r: usize)
    requires
        n <= p@.len(),
    ensures
        r == body_len(p@, n as int),
        r <= n,
{
    let mut r: usize = n;
    while r > 0
        invariant
            r <= n <= p@.len(),
            body_len(p@, n as int) == body_len(p@, r as int),
        decreases r,
    {
        if p[r - 1] == '/' {
            if r == 1 {
                return 1;
            }
            r -= 1;
        } else if p[r - 1] == '.' && r >= 2 && p[r - 2] == '/' {
            r -= 1;
        } else {
            return r;
        }
    }
    0
}

/// The start and the end of the last component of a path that is not bare.
fn last_component(p: &[char]) -> (r: Option<(usize, usize)>)
    ensures
        match r {
            Some((start, end)) => !bare(p@) && start == last_start(p@) && end == body_len(
                p@,
                p@.len() as int,
            ) && start < end <= p@.len(),
            None => bare(p@),
        },
{
    proof {
        lemma_parent(p@);
    }
    let end: usize = body_len_of(p, p.len());
    if end == 0 || (end == 1 && p[0] == '/') {
        return None;
    }
    let head = slice_subrange(p, 0, end);
    assert(head@ == p@.take(end as int));
    Some((after_last(head, '/'), end))
}

pub fn parent_of<'a>(p: &'a [char]) -> (r: Option<&'a [char]>)
    ensures
        match r {
            Some(d) => parent(p@) == Some(d@),
            None => parent(p@) is None,
        },
{
    match last_component(p) {
        Some((start, _)) => {
            let n: usize = body_len_of(p, start);
            let d: &'a [char] = slice_subrange(p, 0, n);
            assert(d@ == p@.take(n as int));
            Some(d)
        },
        None => None,
    }
}

pub fn file_name_of<'a>(p: &'a [char]) -> (r: Option<&'a [char]>)
    ensures
        match r {
            Some(n) => file_name(p@) == Some(n@),
            None => file_name(p@) is None,
        },
{
    match last_component(p) {
        Some((start, end)) => {
            let name: &'a [char] = slice_subrange(p, start, end);
            if is_dot(name) || is_dot_dot(name) {
                None
            } else {
                Some(name)
            }
        },
        None => None,
    }
}

/// `b` seen from `a`: `b` itself where it is absolute, else both with one
/// separator between them.
pub open spec fn join_path(a: Seq<char>, b: Seq<char>) -> Seq<char> {
    if absolute(b) {
        b
    } else if a.len() > 0 && a.last() != '/' {
        a + root() + b
    } else {
        a + b
    }
}

pub fn joined_path(a: &[char], b: &[char]) -> (r: Vec<char>)
    ensures
        r@ == join_path(a@, b@),
{
    let mut r: Vec<char> = Vec::new();
    if !is_absolute(b) {
        r.extend_from_slice(a);
        if a.len() > 0 && a[a.len() - 1] != '/' {
            r.push('/');
            assert(r@ == a@ + root());
        }
    }
    r.extend_from_slice(b);
    r
}

/// How long the part of a file name before its extension is: all of it where it
/// has no `.` past its first character.
pub open spec fn stem_len(name: Seq<char>) -> int {
    if rfind(name, '.') <= 0 {
        name.len() as int
    } else {
        rfind(name, '.')
    }
}

/// `p` with its extension replaced by `ext`; unchanged where it has no file
/// name.
pub open spec fn with_extension(p: Seq<char>, ext: Seq<char>) -> Seq<char> {
    match file_name(p) {
        Some(name) => p.take(last_start(p) + stem_len(name)) + dot() + ext,
        None => p,
    }
}

pub fn extended(p: &[char], ext: &[char]) -> (r: Vec<char>)
    ensures
        r@ == with_extension(p@, ext@),
{
    let mut r: Vec<char> = Vec::new();
    match last_component(p) {
        Some((start, end)) => {
            let name = slice_subrange(p, start, end);
            if is_dot(name) || is_dot_dot(name) {
                r.extend_from_slice(p);
                return r;
            }
            let cut: usize = after_last(name, '.');
            let stem: usize = if cut <= 1 { name.len() } else { cut - 1 };
            r.extend_from_slice(slice_subrange(p, 0, start + stem));
            r.push('.');
            assert(r@ == p@.take(start + stem) + dot());
            r.extend_from_slice(ext);
            r
        },
        None => {
            r.extend_from_slice(p);
            r
        },
    }
}

/// A path with its extension replaced: the head up to the end of the stem, and the
/// new extension.
pub(crate) proof fn lemma_with_extension(p: Seq<char>, ext: Seq<char>)
    ensures
        file_name(p) matches Some(name) ==> {
            let s = last_start(p);
            &&& 0 <= s < s + name.len() <= p.len()
            &&& name == p.subrange(s, s + name.len())
            &&& with_extension(p, ext) == p.take(s + stem_len(name)) + dot() + ext
            &&& forall|i: int|
                s + name.len() <= i < p.len() ==> (#[trigger] p[i]) == '/' || p[i] == '.'
        },
        file_name(p) is None ==> with_extension(p, ext) == p,
{
    lemma_parent(p);
    lemma_body_len(p, p.len() as int);
}

} // verus!
