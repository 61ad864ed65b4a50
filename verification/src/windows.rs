//! The lexical rules of paths on Windows.
//!
//! A path may lead with a drive (`C:`), a share (`\\server\share`), a device
//! (`\\.\NUL`) or a verbatim form of these (`\\?\C:`, `\\?\UNC\server\share`,
//! `\\?\name`). `\` and `/` both separate components, but after a verbatim lead
//! only `\` does, and there a `.` is a component everywhere. Only a path with both
//! a lead and a root is absolute; every lead but a drive implies its root.

use crate::path::{inside, is_climbing_out, Platform};
use crate::text::{
    after_last, ascii_letter, find_char, join, joined, lemma_find, lemma_run, lowered, replace,
    replaced, run, same, to_lower, trim_end, trimmed_end, views, words, words_of, Class,
};
use crate::unix::{dot, dot_dot, is_dot, is_dot_dot, stem_len};
use vstd::prelude::*;
use vstd::slice::slice_subrange;

verus! {

// ---- What a path leads with -----------------------------------------------

#[derive(Debug, Clone, Copy, PartialEq, Eq, Structural)]
pub enum LeadKind {
    Nothing,
    Drive,
    Share,
    Device,
    Verbatim,
    VerbatimShare,
    VerbatimDrive,
}

impl LeadKind {
    pub open spec fn verbatim(self) -> bool {
        self == LeadKind::Verbatim || self == LeadKind::VerbatimShare || self
            == LeadKind::VerbatimDrive
    }

    pub fn is_verbatim(self) -> (b: bool)
        ensures
            b == self.verbatim(),
    {
        match self {
            LeadKind::Verbatim | LeadKind::VerbatimShare | LeadKind::VerbatimDrive => true,
            _ => false,
        }
    }

    /// What separates the components behind this lead.
    pub open spec fn separators(self) -> Class {
        if self.verbatim() {
            Class::Backslash
        } else {
            Class::EitherSlash
        }
    }

    pub fn separator_class(self) -> (k: Class)
        ensures
            k == self.separators(),
    {
        if self.is_verbatim() {
            Class::Backslash
        } else {
            Class::EitherSlash
        }
    }

    /// Does this lead imply a root?
    pub open spec fn implies_root(self) -> bool {
        self != LeadKind::Nothing && self != LeadKind::Drive
    }

    pub fn has_implied_root(self) -> (b: bool)
        ensures
            b == self.implies_root(),
    {
        match self {
            LeadKind::Nothing | LeadKind::Drive => false,
            _ => true,
        }
    }

    /// A letter for each kind.
    pub open spec fn mark(self) -> char {
        match self {
            LeadKind::Nothing => 'n',
            LeadKind::Drive => 'd',
            LeadKind::Share => 's',
            LeadKind::Device => 'e',
            LeadKind::Verbatim => 'v',
            LeadKind::VerbatimShare => 'w',
            LeadKind::VerbatimDrive => 'x',
        }
    }

    fn mark_of(self) -> (c: char)
        ensures
            c == self.mark(),
    {
        match self {
            LeadKind::Nothing => 'n',
            LeadKind::Drive => 'd',
            LeadKind::Share => 's',
            LeadKind::Device => 'e',
            LeadKind::Verbatim => 'v',
            LeadKind::VerbatimShare => 'w',
            LeadKind::VerbatimDrive => 'x',
        }
    }
}

/// What a path leads with: the names in it, a drive's letter or a server and its
/// share, and how much of the text it takes up.
pub struct Lead {
    pub kind: LeadKind,
    pub first: Seq<char>,
    pub second: Seq<char>,
    pub len: int,
}

/// A drive letter and a colon.
pub open spec fn drive(s: Seq<char>) -> bool {
    s.len() >= 2 && ascii_letter(s[0]) && s[1] == ':'
}

/// The text after the first piece of `s` and the separator behind it.
pub open spec fn after_piece(s: Seq<char>, k: Class) -> Seq<char> {
    if run(s, k) < s.len() {
        s.skip(run(s, k) as int + 1)
    } else {
        seq![]
    }
}

/// The server and the share that `s` begins with, `skipped` characters into the
/// path.
pub open spec fn share(kind: LeadKind, s: Seq<char>, k: Class, skipped: int) -> Lead {
    let server = s.take(run(s, k) as int);
    let rest = after_piece(s, k);
    let name = rest.take(run(rest, k) as int);
    Lead {
        kind,
        first: server,
        second: name,
        len: skipped + server.len() + (if name.len() > 0 {
            1 + name.len()
        } else {
            0
        }),
    }
}

pub open spec fn no_lead() -> Lead {
    Lead { kind: LeadKind::Nothing, first: seq![], second: seq![], len: 0 }
}

/// What stands behind `\\?\`.
pub open spec fn verbatim_lead(p: Seq<char>) -> Lead {
    let s = p.skip(4);
    let name = s.take(run(s, Class::Backslash) as int);
    if s.len() >= 4 && s[0] == 'U' && s[1] == 'N' && s[2] == 'C' && Class::EitherSlash.has(s[3]) {
        share(LeadKind::VerbatimShare, p.skip(8), Class::Backslash, 8)
    } else if drive(s) && (s.len() == 2 || Class::EitherSlash.has(s[2])) {
        Lead { kind: LeadKind::VerbatimDrive, first: s.take(1), second: seq![], len: 6 }
    } else {
        Lead { kind: LeadKind::Verbatim, first: name, second: seq![], len: 4int + name.len() }
    }
}

/// What a path leads with. The separators of a verbatim lead are written `\`; a
/// share needs both of its names.
pub open spec fn lead(p: Seq<char>) -> Lead {
    if p.len() >= 2 && Class::EitherSlash.has(p[0]) && Class::EitherSlash.has(p[1]) {
        let name = p.skip(4).take(run(p.skip(4), Class::EitherSlash) as int);
        let shared = share(LeadKind::Share, p.skip(2), Class::EitherSlash, 2);
        if p.len() >= 4 && p[0] == '\\' && p[1] == '\\' && p[2] == '?' && p[3] == '\\' {
            verbatim_lead(p)
        } else if p.len() >= 4 && p[2] == '.' && Class::EitherSlash.has(p[3]) {
            Lead { kind: LeadKind::Device, first: name, second: seq![], len: 4int + name.len() }
        } else if shared.first.len() > 0 && shared.second.len() > 0 {
            shared
        } else {
            no_lead()
        }
    } else if drive(p) {
        Lead { kind: LeadKind::Drive, first: p.take(1), second: seq![], len: 2 }
    } else {
        no_lead()
    }
}

/// The kind and the extent of a lead, with its names.
struct Found<'a> {
    kind: LeadKind,
    first: &'a [char],
    second: &'a [char],
    len: usize,
}

impl<'a> Found<'a> {
    spec fn is(self, l: Lead) -> bool {
        &&& self.kind == l.kind
        &&& self.first@ == l.first
        &&& self.second@ == l.second
        &&& self.len == l.len
    }
}

fn run_of(s: &[char], k: Class) -> (n: usize)
    ensures
        n == run(s@, k),
        n <= s@.len(),
{
    let mut n: usize = 0;
    assert(s@.skip(0) == s@);
    while n < s.len() && !k.contains(s[n])
        invariant
            n <= s@.len(),
            run(s@, k) == n + run(s@.skip(n as int), k),
        decreases s@.len() - n,
    {
        assert(s@.skip(n as int).drop_first() == s@.skip(n + 1));
        n += 1;
    }
    n
}

fn share_of<'a>(kind: LeadKind, s: &'a [char], k: Class, skipped: usize) -> (f: Found<'a>)
    requires
        skipped + s@.len() <= usize::MAX,
    ensures
        f.is(share(kind, s@, k, skipped as int)),
        f.len <= skipped + s@.len(),
{
    let n: usize = run_of(s, k);
    let server: &'a [char] = slice_subrange(s, 0, n);
    assert(server@ == s@.take(n as int));
    let rest: &'a [char] = if n < s.len() {
        slice_subrange(s, n + 1, s.len())
    } else {
        slice_subrange(s, n, n)
    };
    assert(rest@ == after_piece(s@, k));
    let m: usize = run_of(rest, k);
    let name: &'a [char] = slice_subrange(rest, 0, m);
    assert(name@ == rest@.take(m as int));
    let len: usize = if m > 0 {
        skipped + n + 1 + m
    } else {
        skipped + n
    };
    Found { kind, first: server, second: name, len }
}

fn is_drive(s: &[char]) -> (b: bool)
    ensures
        b == drive(s@),
{
    s.len() >= 2 && ('A' <= s[0] && s[0] <= 'Z' || 'a' <= s[0] && s[0] <= 'z') && s[1] == ':'
}

fn lead_of<'a>(p: &'a [char]) -> (f: Found<'a>)
    ensures
        f.is(lead(p@)),
        f.len <= p@.len(),
{
    let end: usize = p.len();
    let none: &'a [char] = slice_subrange(p, 0, 0);
    assert(none@ == Seq::<char>::empty());
    if end >= 2 && Class::EitherSlash.contains(p[0]) && Class::EitherSlash.contains(p[1]) {
        if end >= 4 && p[0] == '\\' && p[1] == '\\' && p[2] == '?' && p[3] == '\\' {
            let s: &'a [char] = slice_subrange(p, 4, end);
            assert(s@ == p@.skip(4));
            if end >= 8 && p[4] == 'U' && p[5] == 'N' && p[6] == 'C'
                && Class::EitherSlash.contains(p[7]) {
                let rest: &'a [char] = slice_subrange(p, 8, end);
                assert(rest@ == p@.skip(8));
                return share_of(LeadKind::VerbatimShare, rest, Class::Backslash, 8);
            }
            if is_drive(s) && (s.len() == 2 || Class::EitherSlash.contains(s[2])) {
                let letter: &'a [char] = slice_subrange(s, 0, 1);
                assert(letter@ == s@.take(1));
                return Found { kind: LeadKind::VerbatimDrive, first: letter, second: none, len: 6 };
            }
            let n: usize = run_of(s, Class::Backslash);
            let name: &'a [char] = slice_subrange(s, 0, n);
            assert(name@ == s@.take(n as int));
            return Found { kind: LeadKind::Verbatim, first: name, second: none, len: 4 + n };
        }
        if end >= 4 && p[2] == '.' && Class::EitherSlash.contains(p[3]) {
            let s: &'a [char] = slice_subrange(p, 4, end);
            assert(s@ == p@.skip(4));
            let n: usize = run_of(s, Class::EitherSlash);
            let name: &'a [char] = slice_subrange(s, 0, n);
            assert(name@ == s@.take(n as int));
            return Found { kind: LeadKind::Device, first: name, second: none, len: 4 + n };
        }
        let s: &'a [char] = slice_subrange(p, 2, end);
        assert(s@ == p@.skip(2));
        let f = share_of(LeadKind::Share, s, Class::EitherSlash, 2);
        if f.first.len() > 0 && f.second.len() > 0 {
            f
        } else {
            Found { kind: LeadKind::Nothing, first: none, second: none, len: 0 }
        }
    } else if is_drive(p) {
        let letter: &'a [char] = slice_subrange(p, 0, 1);
        assert(letter@ == p@.take(1));
        Found { kind: LeadKind::Drive, first: letter, second: none, len: 2 }
    } else {
        Found { kind: LeadKind::Nothing, first: none, second: none, len: 0 }
    }
}

/// Does a separator stand right behind the lead?
pub open spec fn root_shown(p: Seq<char>) -> bool {
    let l = lead(p);
    l.len < p.len() && l.kind.separators().has(p[l.len])
}

pub open spec fn rooted(p: Seq<char>) -> bool {
    root_shown(p) || lead(p).kind.implies_root()
}

pub open spec fn absolute(p: Seq<char>) -> bool {
    rooted(p) && lead(p).kind != LeadKind::Nothing
}

fn shows_root(p: &[char], f: &Found) -> (b: bool)
    requires
        f.is(lead(p@)),
    ensures
        b == root_shown(p@),
{
    f.len < p.len() && f.kind.separator_class().contains(p[f.len])
}

pub fn is_absolute(p: &[char]) -> (b: bool)
    ensures
        b == absolute(p@),
{
    let f = lead_of(p);
    f.kind != LeadKind::Nothing && (f.kind.has_implied_root() || shows_root(p, &f))
}

// ---- Components -----------------------------------------------------------

pub open spec fn root() -> Seq<char> {
    seq!['\\']
}

/// The pieces that count: a `.` only where `all` of them do, or where it is the
/// `first` one.
pub open spec fn kept(pieces: Seq<Seq<char>>, first: bool, all: bool) -> Seq<Seq<char>>
    decreases pieces.len(),
{
    if pieces.len() == 0 {
        seq![]
    } else {
        let rest = kept(pieces.drop_first(), false, all);
        if pieces.first() == dot() && !first && !all {
            rest
        } else {
            seq![pieces.first()] + rest
        }
    }
}

/// The components behind lead and root.
pub open spec fn names(p: Seq<char>) -> Seq<Seq<char>> {
    let l = lead(p);
    kept(
        words(p.skip(l.len), l.kind.separators()),
        l.kind == LeadKind::Nothing && !root_shown(p),
        l.kind.verbatim(),
    )
}

/// Is the root a component of its own? An implied one is, but not behind a
/// verbatim lead.
pub open spec fn root_counts(p: Seq<char>) -> bool {
    root_shown(p) || (lead(p).kind.implies_root() && !lead(p).kind.verbatim())
}

/// The components of a path: what it leads with, the root, then the names.
pub open spec fn components(p: Seq<char>) -> Seq<Seq<char>> {
    (if lead(p).kind != LeadKind::Nothing {
        seq![p.take(lead(p).len)]
    } else {
        seq![]
    }) + (if root_counts(p) {
        seq![root()]
    } else {
        seq![]
    }) + names(p)
}

/// A text that tells leads apart: two leads are the same where this is, whichever
/// separators and whichever case of the drive's letter they are written with.
pub open spec fn mark(l: Lead) -> Seq<char> {
    seq![l.kind.mark()] + (if l.kind == LeadKind::Drive || l.kind == LeadKind::VerbatimDrive {
        to_lower(l.first)
    } else {
        l.first
    }) + root() + l.second
}

/// The components of a path, with the mark of its lead in place of the lead.
pub open spec fn marked(p: Seq<char>) -> Seq<Seq<char>> {
    (if lead(p).kind != LeadKind::Nothing {
        seq![mark(lead(p))]
    } else {
        seq![]
    }) + (if root_counts(p) {
        seq![root()]
    } else {
        seq![]
    }) + names(p)
}

/// What the entries of a list spell.
pub open spec fn lists(v: Seq<Vec<char>>) -> Seq<Seq<char>> {
    v.map_values(|c: Vec<char>| c@)
}

fn owned(s: &[char]) -> (v: Vec<char>)
    ensures
        v@ == s@,
{
    let mut v: Vec<char> = Vec::new();
    v.extend_from_slice(s);
    assert(v@ =~= s@);
    v
}

fn push_owned(v: &mut Vec<Vec<char>>, s: &[char])
    ensures
        lists(final(v)@) == lists(old(v)@).push(s@),
{
    let ghost before = lists(v@);
    v.push(owned(s));
    assert(lists(v@) =~= before.push(s@));
}

fn names_of<'a>(p: &'a [char], f: &Found<'a>) -> (v: Vec<&'a [char]>)
    requires
        f.is(lead(p@)),
        f.len <= p@.len(),
    ensures
        views(v@) == names(p@),
{
    let body: &'a [char] = slice_subrange(p, f.len, p.len());
    assert(body@ == p@.skip(f.len as int));
    let pieces = words_of(body, f.kind.separator_class());
    let all: bool = f.kind.is_verbatim();
    let mut first: bool = f.kind == LeadKind::Nothing && !shows_root(p, f);
    let mut v: Vec<&'a [char]> = Vec::new();
    let mut i: usize = 0;
    assert(views(pieces@).skip(0) == views(pieces@));
    assert(views(v@) == Seq::<Seq<char>>::empty());
    while i < pieces.len()
        invariant
            i <= pieces@.len(),
            names(p@) == views(v@) + kept(views(pieces@).skip(i as int), first, all),
        decreases pieces@.len() - i,
    {
        let s: &'a [char] = pieces[i];
        let ghost pushed = v@;
        let ghost rest = views(pieces@).skip(i as int);
        assert(rest.first() == s@);
        assert(rest.drop_first() == views(pieces@).skip(i + 1));
        if first || all || !is_dot(s) {
            v.push(s);
            assert(views(v@) == views(pushed).push(s@));
        }
        first = false;
        i += 1;
    }
    v
}

fn counts_root(p: &[char], f: &Found) -> (b: bool)
    requires
        f.is(lead(p@)),
    ensures
        b == root_counts(p@),
{
    shows_root(p, f) || (f.kind.has_implied_root() && !f.kind.is_verbatim())
}

fn push_names(v: &mut Vec<Vec<char>>, names: &Vec<&[char]>)
    ensures
        lists(final(v)@) == lists(old(v)@) + views(names@),
{
    let ghost before = lists(v@);
    let mut i: usize = 0;
    while i < names.len()
        invariant
            i <= names@.len(),
            lists(v@) == before + views(names@).take(i as int),
        decreases names@.len() - i,
    {
        push_owned(v, names[i]);
        assert(views(names@).take(i + 1) =~= views(names@).take(i as int).push(names@[i as int]@));
        i += 1;
    }
    assert(views(names@).take(names@.len() as int) =~= views(names@));
}

pub fn components_of(p: &[char]) -> (v: Vec<Vec<char>>)
    ensures
        lists(v@) == components(p@),
{
    let f = lead_of(p);
    let mut v: Vec<Vec<char>> = Vec::new();
    assert(lists(v@) =~= seq![]);
    if f.kind != LeadKind::Nothing {
        let text = slice_subrange(p, 0, f.len);
        assert(text@ == p@.take(f.len as int));
        push_owned(&mut v, text);
    }
    if counts_root(p, &f) {
        let mut slash: Vec<char> = Vec::new();
        slash.push('\\');
        assert(slash@ =~= root());
        push_owned(&mut v, slash.as_slice());
    }
    push_names(&mut v, &names_of(p, &f));
    assert(lists(v@) =~= components(p@));
    v
}

fn mark_of(f: &Found) -> (m: Vec<char>)
    ensures
        forall|l: Lead| #[trigger] f.is(l) ==> m@ == mark(l),
{
    let mut m: Vec<char> = Vec::new();
    m.push(f.kind.mark_of());
    match f.kind {
        LeadKind::Drive | LeadKind::VerbatimDrive => {
            m.extend_from_slice(lowered(f.first).as_slice());
        },
        _ => {
            m.extend_from_slice(f.first);
        },
    }
    m.push('\\');
    m.extend_from_slice(f.second);
    assert forall|l: Lead| #[trigger] f.is(l) implies m@ == mark(l) by {
        assert(m@ =~= mark(l));
    }
    m
}

fn marked_of(p: &[char]) -> (v: Vec<Vec<char>>)
    ensures
        lists(v@) == marked(p@),
{
    let f = lead_of(p);
    let mut v: Vec<Vec<char>> = Vec::new();
    assert(lists(v@) =~= seq![]);
    if f.kind != LeadKind::Nothing {
        let m = mark_of(&f);
        push_owned(&mut v, m.as_slice());
    }
    if counts_root(p, &f) {
        let mut slash: Vec<char> = Vec::new();
        slash.push('\\');
        assert(slash@ =~= root());
        push_owned(&mut v, slash.as_slice());
    }
    push_names(&mut v, &names_of(p, &f));
    assert(lists(v@) =~= marked(p@));
    v
}

pub(crate) fn marked_text(p: &[char]) -> (r: Vec<char>)
    ensures
        r@ == join(marked(p@), root()),
{
    let parts = marked_of(p);
    let mut slash: Vec<char> = Vec::new();
    slash.push('\\');
    assert(slash@ =~= root());
    joined(&borrowed(&parts), slash.as_slice())
}

// ---- Parents and names ----------------------------------------------------

/// Does a path without a root start, behind its lead, with a `.`?
pub open spec fn dot_start(p: Seq<char>) -> bool {
    let l = lead(p);
    &&& !rooted(p)
    &&& l.len < p.len()
    &&& p[l.len] == '.'
    &&& l.len + 1 == p.len() || l.kind.separators().has(p[l.len + 1])
}

/// Where the names of a path start: behind the lead, the root or a `.` at the
/// start.
pub open spec fn start_len(p: Seq<char>) -> int {
    lead(p).len + (if root_shown(p) || dot_start(p) {
        1int
    } else {
        0
    })
}

/// How much of the first `n` characters of `p` is left without the separators
/// and, behind a lead that is not verbatim, the `.` components at their end.
pub open spec fn body_len(p: Seq<char>, n: int) -> int
    decreases n,
{
    let k = lead(p).kind.separators();
    if n <= start_len(p) || n <= 0 {
        n
    } else if k.has(p[n - 1]) {
        body_len(p, n - 1)
    } else if p[n - 1] == '.' && !lead(p).kind.verbatim() && (n - 1 == start_len(p) || k.has(
        p[n - 2],
    )) {
        body_len(p, n - 1)
    } else {
        n
    }
}

/// Where the component that ends at `n` starts.
pub open spec fn component_start(p: Seq<char>, n: int) -> int
    decreases n,
{
    if n <= start_len(p) || n <= 0 {
        start_len(p)
    } else if lead(p).kind.separators().has(p[n - 1]) {
        n
    } else {
        component_start(p, n - 1)
    }
}

/// Where the last name of a path ends; that is where the names start if there is
/// none.
pub open spec fn last_end(p: Seq<char>) -> int {
    body_len(p, p.len() as int)
}

/// Where the last name of a path starts.
pub open spec fn last_start(p: Seq<char>) -> int {
    component_start(p, last_end(p))
}

/// The text of `p` without its last component; `None` where that is the root or
/// the lead, or where there is none.
pub open spec fn parent(p: Seq<char>) -> Option<Seq<char>> {
    if last_end(p) > start_len(p) {
        Some(p.take(body_len(p, last_start(p))))
    } else if lead(p).kind == LeadKind::Nothing && dot_start(p) {
        Some(seq![])
    } else {
        None
    }
}

/// The last component of `p`, unless that is the lead, the root, a `.` or a `..`.
pub open spec fn file_name(p: Seq<char>) -> Option<Seq<char>> {
    let name = p.subrange(last_start(p), last_end(p));
    if last_end(p) > start_len(p) && name != dot() && name != dot_dot() {
        Some(name)
    } else {
        None
    }
}

proof fn lemma_lead_len(p: Seq<char>)
    ensures
        0 <= lead(p).len <= p.len(),
        0 <= start_len(p) <= p.len(),
{
    lemma_run(p.skip(4), Class::EitherSlash);
    lemma_run(p.skip(4), Class::Backslash);
    lemma_share_len(LeadKind::Share, p.skip(2), Class::EitherSlash, 2);
    lemma_share_len(LeadKind::VerbatimShare, p.skip(8), Class::Backslash, 8);
}

proof fn lemma_share_len(kind: LeadKind, s: Seq<char>, k: Class, skipped: int)
    ensures
        skipped <= share(kind, s, k, skipped).len <= skipped + s.len(),
{
    lemma_run(s, k);
    lemma_run(after_piece(s, k), k);
}

proof fn lemma_body_len(p: Seq<char>, n: int)
    requires
        start_len(p) <= n <= p.len(),
    ensures
        start_len(p) <= body_len(p, n) <= n,
        body_len(p, n) > start_len(p) ==> !lead(p).kind.separators().has(p[body_len(p, n) - 1]),
        forall|i: int|
            body_len(p, n) <= i < n ==> lead(p).kind.separators().has(#[trigger] p[i]) || p[i]
                == '.',
    decreases n,
{
    lemma_lead_len(p);
    let k = lead(p).kind.separators();
    if n > start_len(p) && (k.has(p[n - 1]) || p[n - 1] == '.') {
        lemma_body_len(p, n - 1);
    }
}

proof fn lemma_component_start(p: Seq<char>, n: int)
    requires
        start_len(p) <= n <= p.len(),
    ensures
        start_len(p) <= component_start(p, n) <= n,
        n > start_len(p) && !lead(p).kind.separators().has(p[n - 1]) ==> component_start(p, n) < n,
    decreases n,
{
    lemma_lead_len(p);
    if n > start_len(p) && !lead(p).kind.separators().has(p[n - 1]) {
        lemma_component_start(p, n - 1);
    }
}

/// A parent is shorter than what it is the parent of.
pub proof fn lemma_parent(p: Seq<char>)
    ensures
        0 <= start_len(p) <= last_end(p) <= p.len(),
        last_end(p) > start_len(p) ==> start_len(p) <= last_start(p) < last_end(p),
        last_end(p) > start_len(p) ==> start_len(p) <= body_len(p, last_start(p)) <= last_start(p),
        forall|i: int|
            last_end(p) <= i < p.len() ==> Class::EitherSlash.has(#[trigger] p[i]) || p[i] == '.',
        parent(p) matches Some(d) ==> d.len() < p.len(),
{
    lemma_lead_len(p);
    lemma_body_len(p, p.len() as int);
    if last_end(p) > start_len(p) {
        lemma_component_start(p, last_end(p));
        lemma_body_len(p, last_start(p));
    }
}

fn start_len_of(p: &[char], f: &Found) -> (n: usize)
    requires
        f.is(lead(p@)),
        f.len <= p@.len(),
    ensures
        n == start_len(p@),
        n <= p@.len(),
{
    let end: usize = p.len();
    if shows_root(p, f) {
        return f.len + 1;
    }
    if !f.kind.has_implied_root() && f.len < end && p[f.len] == '.' && (f.len + 1 == end
        || f.kind.separator_class().contains(p[f.len + 1])) {
        return f.len + 1;
    }
    f.len
}

fn body_len_of(p: &[char], n: usize, f: &Found, start: usize) -> (r: usize)
    requires
        f.is(lead(p@)),
        start == start_len(p@),
        start <= n <= p@.len(),
    ensures
        r == body_len(p@, n as int),
        start <= r <= n,
{
    let k = f.kind.separator_class();
    let mut r: usize = n;
    while r > start
        invariant
            f.is(lead(p@)),
            k == f.kind.separators(),
            start == start_len(p@),
            start <= r <= n <= p@.len(),
            body_len(p@, n as int) == body_len(p@, r as int),
        decreases r,
    {
        if k.contains(p[r - 1]) {
            r -= 1;
        } else if p[r - 1] == '.' && !f.kind.is_verbatim() && (r - 1 == start || k.contains(
            p[r - 2],
        )) {
            r -= 1;
        } else {
            return r;
        }
    }
    r
}

/// The start and the end of the last name of a path; `None` where it has no name.
fn last_name(p: &[char], f: &Found, start: usize) -> (r: Option<(usize, usize)>)
    requires
        f.is(lead(p@)),
        start == start_len(p@),
    ensures
        match r {
            Some((from, to)) => from == last_start(p@) && to == last_end(p@) && start <= from < to
                <= p@.len(),
            None => last_end(p@) <= start_len(p@),
        },
{
    proof {
        lemma_parent(p@);
    }
    let to: usize = body_len_of(p, p.len(), f, start);
    if to <= start {
        return None;
    }
    let k = f.kind.separator_class();
    let mut from: usize = to;
    while from > start && !k.contains(p[from - 1])
        invariant
            k == f.kind.separators(),
            f.is(lead(p@)),
            start == start_len(p@),
            start <= from <= to <= p@.len(),
            component_start(p@, to as int) == component_start(p@, from as int),
        decreases from,
    {
        from -= 1;
    }
    Some((from, to))
}

pub fn parent_of<'a>(p: &'a [char]) -> (r: Option<&'a [char]>)
    ensures
        match r {
            Some(d) => parent(p@) == Some(d@),
            None => parent(p@) is None,
        },
{
    let f = lead_of(p);
    let start: usize = start_len_of(p, &f);
    match last_name(p, &f, start) {
        Some((from, _)) => {
            let n: usize = body_len_of(p, from, &f, start);
            let d: &'a [char] = slice_subrange(p, 0, n);
            assert(d@ == p@.take(n as int));
            Some(d)
        },
        None => {
            if f.kind == LeadKind::Nothing && start == 1 && p[0] == '.' {
                let d: &'a [char] = slice_subrange(p, 0, 0);
                assert(d@ == Seq::<char>::empty());
                Some(d)
            } else {
                None
            }
        },
    }
}

pub fn file_name_of<'a>(p: &'a [char]) -> (r: Option<&'a [char]>)
    ensures
        match r {
            Some(n) => file_name(p@) == Some(n@),
            None => file_name(p@) is None,
        },
{
    let f = lead_of(p);
    let start: usize = start_len_of(p, &f);
    match last_name(p, &f, start) {
        Some((from, to)) => {
            let name: &'a [char] = slice_subrange(p, from, to);
            if is_dot(name) || is_dot_dot(name) {
                None
            } else {
                Some(name)
            }
        },
        None => None,
    }
}

/// `p` with its extension replaced by `ext`; unchanged where it has no file
/// name.
pub open spec fn with_extension(p: Seq<char>, ext: Seq<char>) -> Seq<char> {
    match file_name(p) {
        Some(name) => p.take(last_start(p) + stem_len(name)) + dot() + ext,
        None => p,
    }
}

pub fn extended(p: &[char], ext: &[char]) -> (r: Vec<char>)
    ensures
        r@ == with_extension(p@, ext@),
{
    let mut r: Vec<char> = Vec::new();
    let f = lead_of(p);
    let start: usize = start_len_of(p, &f);
    if let Some((from, to)) = last_name(p, &f, start) {
        let name = slice_subrange(p, from, to);
        if !is_dot(name) && !is_dot_dot(name) {
            let cut: usize = after_last(name, '.');
            let stem: usize = if cut <= 1 { name.len() } else { cut - 1 };
            r.extend_from_slice(slice_subrange(p, 0, from + stem));
            r.push('.');
            assert(r@ == p@.take(from + stem) + dot());
            r.extend_from_slice(ext);
            return r;
        }
    }
    r.extend_from_slice(p);
    r
}

/// A path with its extension replaced: the head up to the end of the stem, and the
/// new extension.
pub(crate) proof fn lemma_with_extension(p: Seq<char>, ext: Seq<char>)
    ensures
        file_name(p) matches Some(name) ==> {
            let s = last_start(p);
            &&& 0 <= s < s + name.len() <= p.len()
            &&& name == p.subrange(s, s + name.len())
            &&& with_extension(p, ext) == p.take(s + stem_len(name)) + dot() + ext
            &&& forall|i: int|
                s + name.len() <= i < p.len() ==> Class::EitherSlash.has(#[trigger] p[i]) || p[i]
                    == '.'
        },
        file_name(p) is None ==> with_extension(p, ext) == p,
{
    lemma_parent(p);
}

// ---- Joining --------------------------------------------------------------

/// The names of a verbatim path after those of another have been followed.
pub open spec fn followed(base: Seq<Seq<char>>, more: Seq<Seq<char>>) -> Seq<Seq<char>>
    decreases more.len(),
{
    if more.len() == 0 {
        base
    } else {
        let done = followed(base, more.drop_last());
        let c = more.last();
        if c == dot() {
            done
        } else if c == dot_dot() {
            if done.len() > 0 && done.last() != dot() && done.last() != dot_dot() {
                done.drop_last()
            } else {
                done
            }
        } else {
            done.push(c)
        }
    }
}

/// `b`, which has no lead, seen from the verbatim path `a`: such a path takes no
/// `.` and no `..`, so they are worked out.
pub open spec fn joined_verbatim(a: Seq<char>, b: Seq<char>) -> Seq<char> {
    let start = if root_shown(b) {
        seq![]
    } else {
        names(a)
    };
    let done = followed(start, names(b));
    a.take(lead(a).len) + (if done.len() > 0 {
        root() + join(done, root())
    } else if root_shown(a) || root_shown(b) {
        root()
    } else {
        seq![]
    })
}

/// Does a separator go between `a` and what follows it?
pub open spec fn needs_separator(a: Seq<char>) -> bool {
    &&& a.len() > 0
    &&& !Class::EitherSlash.has(a.last())
    &&& !(lead(a).kind == LeadKind::Drive && lead(a).len == a.len())
}

/// `b` seen from `a`: `b` itself where it has a lead of its own; where it has only
/// a root, `b` behind the lead of `a`; else both with one separator between them,
/// but for a bare drive, which takes none.
pub open spec fn join_path(a: Seq<char>, b: Seq<char>) -> Seq<char> {
    if lead(b).kind != LeadKind::Nothing {
        b
    } else if lead(a).kind.verbatim() && b.len() > 0 {
        joined_verbatim(a, b)
    } else if root_shown(b) {
        a.take(lead(a).len) + b
    } else if needs_separator(a) {
        a + root() + b
    } else {
        a + b
    }
}

fn followed_by<'a>(base: Vec<&'a [char]>, more: &Vec<&'a [char]>) -> (v: Vec<&'a [char]>)
    ensures
        views(v@) == followed(views(base@), views(more@)),
{
    let ghost start = views(base@);
    let mut v = base;
    let mut i: usize = 0;
    assert(views(more@).take(0) =~= seq![]);
    while i < more.len()
        invariant
            i <= more@.len(),
            views(v@) == followed(start, views(more@).take(i as int)),
        decreases more@.len() - i,
    {
        let c: &'a [char] = more[i];
        let ghost before = v@;
        let ghost taken = views(more@).take(i + 1);
        assert(taken.drop_last() == views(more@).take(i as int));
        assert(taken.last() == c@);
        assert(followed(start, taken.drop_last()) == views(before));
        if is_dot_dot(c) {
            assert(c@[1] == '.' && c@ != dot());
            if v.len() > 0 && !is_dot(v[v.len() - 1]) && !is_dot_dot(v[v.len() - 1]) {
                assert(views(before).last() == before.last()@);
                v.pop();
                assert(views(v@) == views(before).drop_last());
            } else {
                assert(v@.len() > 0 ==> views(before).last() == before.last()@);
            }
        } else if !is_dot(c) {
            v.push(c);
            assert(views(v@) == views(before).push(c@));
        }
        assert(views(v@) == followed(start, taken));
        i += 1;
    }
    assert(views(more@).take(more@.len() as int) == views(more@));
    v
}

pub fn joined_path(a: &[char], b: &[char]) -> (r: Vec<char>)
    ensures
        r@ == join_path(a@, b@),
{
    let fa = lead_of(a);
    let fb = lead_of(b);
    let mut r: Vec<char> = Vec::new();
    if fb.kind != LeadKind::Nothing {
        r.extend_from_slice(b);
        return r;
    }
    let head = slice_subrange(a, 0, fa.len);
    assert(head@ == a@.take(fa.len as int));
    let from_root: bool = shows_root(b, &fb);
    if fa.kind.is_verbatim() && b.len() > 0 {
        let start: Vec<&[char]> = if from_root {
            Vec::new()
        } else {
            names_of(a, &fa)
        };
        assert(views(start@) =~= if root_shown(b@) {
            seq![]
        } else {
            names(a@)
        });
        let more = names_of(b, &fb);
        let done = followed_by(start, &more);
        let mut slash: Vec<char> = Vec::new();
        slash.push('\\');
        assert(slash@ =~= root());
        r.extend_from_slice(head);
        if done.len() > 0 {
            r.extend_from_slice(slash.as_slice());
            r.extend_from_slice(joined(&done, slash.as_slice()).as_slice());
        } else if from_root || shows_root(a, &fa) {
            r.extend_from_slice(slash.as_slice());
        }
        assert(r@ =~= joined_verbatim(a@, b@));
        return r;
    }
    if from_root {
        r.extend_from_slice(head);
        r.extend_from_slice(b);
        return r;
    }
    r.extend_from_slice(a);
    if a.len() > 0 && !Class::EitherSlash.contains(a[a.len() - 1]) && !(fa.kind == LeadKind::Drive
        && fa.len == a.len()) {
        r.push('\\');
        assert(r@ == a@ + root());
    }
    r.extend_from_slice(b);
    r
}

// ---- Keys -----------------------------------------------------------------

/// The path that a list of components leads to: each is followed from where the
/// ones before it have led, a `.` nowhere and a `..` to the parent, if there is
/// one.
pub open spec fn walked(comps: Seq<Seq<char>>) -> Seq<char>
    decreases comps.len(),
{
    if comps.len() == 0 {
        seq![]
    } else {
        let at = walked(comps.drop_last());
        let c = comps.last();
        if c == dot() {
            at
        } else if c == dot_dot() {
            match parent(at) {
                Some(up) => up,
                None => at,
            }
        } else {
            join_path(at, c)
        }
    }
}

/// The key text of a list of components: where they lead to, with `/` for every
/// `\`, and no `/` at the end.
pub open spec fn key_of(comps: Seq<Seq<char>>) -> Seq<char> {
    trim_end(replace(walked(comps), '\\', '/'), Class::Slash)
}

fn key_text(comps: &Vec<Vec<char>>) -> (r: Vec<char>)
    ensures
        r@ == key_of(lists(comps@)),
{
    let ghost all = lists(comps@);
    let mut at: Vec<char> = Vec::new();
    let mut i: usize = 0;
    assert(all.take(0) =~= seq![]);
    while i < comps.len()
        invariant
            i <= comps@.len(),
            all == lists(comps@),
            at@ == walked(all.take(i as int)),
        decreases comps@.len() - i,
    {
        let c = comps[i].as_slice();
        assert(all.take(i + 1).drop_last() == all.take(i as int));
        assert(all.take(i + 1).last() == c@);
        if is_dot_dot(c) {
            let up: Option<Vec<char>> = match parent_of(at.as_slice()) {
                Some(d) => Some(owned(d)),
                None => None,
            };
            if let Some(d) = up {
                at = d;
            }
        } else if !is_dot(c) {
            at = joined_path(at.as_slice(), c);
        }
        i += 1;
    }
    assert(all.take(comps@.len() as int) == all);
    let text = replaced(at.as_slice(), '\\', '/');
    owned(trimmed_end(text.as_slice(), Class::Slash))
}

/// A path reduced to a stable string for use in a key.
pub fn normalize_path_key(p: &[char]) -> (r: Vec<char>)
    ensures
        r@ == key_of(components(p@)),
{
    key_text(&components_of(p))
}

/// The components of `p` that follow those of `base`, where `p` starts with
/// them.
pub open spec fn below(p: Seq<char>, base: Seq<char>) -> Option<Seq<Seq<char>>> {
    if marked(base).is_prefix_of(marked(p)) {
        Some(components(p).skip(marked(base).len() as int))
    } else {
        None
    }
}

/// What is left when each `.` is dropped and each `..` takes back the name before
/// it. Lead and root are not taken back; they alone hold a `\`.
pub open spec fn settle(comps: Seq<Seq<char>>) -> Seq<Seq<char>>
    decreases comps.len(),
{
    if comps.len() == 0 {
        seq![]
    } else {
        let done = settle(comps.drop_last());
        let c = comps.last();
        if c == dot() {
            done
        } else if c == dot_dot() {
            if done.len() > 0 && !done.last().contains('\\') {
                done.drop_last()
            } else {
                done
            }
        } else {
            done.push(c)
        }
    }
}

fn settled(comps: &Vec<Vec<char>>) -> (v: Vec<Vec<char>>)
    ensures
        lists(v@) == settle(lists(comps@)),
{
    let ghost all = lists(comps@);
    let mut v: Vec<Vec<char>> = Vec::new();
    let mut i: usize = 0;
    assert(all.take(0) =~= seq![]);
    assert(lists(v@) =~= seq![]);
    while i < comps.len()
        invariant
            i <= comps@.len(),
            all == lists(comps@),
            lists(v@) == settle(all.take(i as int)),
        decreases comps@.len() - i,
    {
        let c = comps[i].as_slice();
        let ghost before = v@;
        assert(all.take(i + 1).drop_last() == all.take(i as int));
        assert(all.take(i + 1).last() == c@);
        if is_dot_dot(c) {
            if v.len() > 0 {
                let last = v[v.len() - 1].as_slice();
                assert(lists(before).last() == last@);
                proof {
                    lemma_find(last@, '\\');
                }
                if find_char(last, '\\') == last.len() {
                    v.pop();
                    assert(lists(v@) =~= lists(before).drop_last());
                }
            }
        } else if !is_dot(c) {
            push_owned(&mut v, c);
        }
        i += 1;
    }
    assert(all.take(comps@.len() as int) == all);
    v
}

/// Does `whole` start with `head`?
fn starts_with(whole: &Vec<Vec<char>>, head: &Vec<Vec<char>>) -> (b: bool)
    ensures
        b == lists(head@).is_prefix_of(lists(whole@)),
{
    if head.len() > whole.len() {
        return false;
    }
    let mut i: usize = 0;
    while i < head.len()
        invariant
            i <= head@.len() <= whole@.len(),
            forall|j: int| 0 <= j < i ==> #[trigger] lists(head@)[j] == lists(whole@)[j],
        decreases head@.len() - i,
    {
        if !same(head[i].as_slice(), whole[i].as_slice()) {
            assert(lists(head@)[i as int] != lists(whole@)[i as int]);
            assert(lists(whole@).subrange(0, head@.len() as int)[i as int]
                == lists(whole@)[i as int]);
            return false;
        }
        i += 1;
    }
    assert(lists(whole@).subrange(0, head@.len() as int) =~= lists(head@));
    true
}

fn skipped(v: &Vec<Vec<char>>, n: usize) -> (r: Vec<Vec<char>>)
    requires
        n <= v@.len(),
    ensures
        lists(r@) == lists(v@).skip(n as int),
{
    let mut r: Vec<Vec<char>> = Vec::new();
    let mut i: usize = n;
    assert(lists(r@) =~= lists(v@).subrange(n as int, n as int));
    while i < v.len()
        invariant
            n <= i <= v@.len(),
            lists(r@) == lists(v@).subrange(n as int, i as int),
        decreases v@.len() - i,
    {
        push_owned(&mut r, v[i].as_slice());
        assert(lists(v@).subrange(n as int, i + 1) =~= lists(v@).subrange(n as int, i as int).push(
            v@[i as int]@,
        ));
        i += 1;
    }
    assert(lists(v@).subrange(n as int, v@.len() as int) =~= lists(v@).skip(n as int));
    r
}

fn borrowed(v: &Vec<Vec<char>>) -> (r: Vec<&[char]>)
    ensures
        views(r@) == lists(v@),
{
    let mut r: Vec<&[char]> = Vec::new();
    let mut i: usize = 0;
    assert(views(r@) =~= lists(v@).take(0));
    while i < v.len()
        invariant
            i <= v@.len(),
            views(r@) == lists(v@).take(i as int),
        decreases v@.len() - i,
    {
        let ghost before = r@;
        r.push(v[i].as_slice());
        assert(views(r@) =~= views(before).push(v@[i as int]@));
        assert(lists(v@).take(i + 1) =~= lists(v@).take(i as int).push(v@[i as int]@));
        i += 1;
    }
    assert(lists(v@).take(v@.len() as int) =~= lists(v@));
    r
}

/// The key of a path below `base`.
pub fn inside_key(p: &[char], base: &[char]) -> (r: Option<Vec<char>>)
    ensures
        match r {
            Some(k) => inside(Platform::Windows, p@, base@) matches Some(comps) && k@ == key_of(comps),
            None => inside(Platform::Windows, p@, base@) is None,
        },
{
    let whole = marked_of(p);
    let head = marked_of(base);
    if !starts_with(&whole, &head) {
        return None;
    }
    let comps = components_of(p);
    assert(components(p@).len() == marked(p@).len());
    assert(comps@.len() == lists(comps@).len() && whole@.len() == lists(whole@).len() && head@.len()
        == lists(head@).len());
    let rest = skipped(&comps, head.len());
    if !is_climbing_out(&borrowed(&rest)) {
        return Some(key_text(&rest));
    }
    let whole = settled(&whole);
    let head = settled(&head);
    if !starts_with(&whole, &head) {
        return None;
    }
    assert(whole@.len() == lists(whole@).len() && head@.len() == lists(head@).len());
    Some(key_text(&skipped(&whole, head.len())))
}

} // verus!
