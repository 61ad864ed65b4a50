//! Paths.
//!
//! A path is text, read by the rules of the platform that it belongs to. Nothing
//! here looks at a disk: these are the rules by which path text is taken apart and
//! put together.

use crate::text::{join, views};
use crate::unix::{dot, dot_dot, is_dot, is_dot_dot, stem_len};
use crate::{unix, windows};
use vstd::prelude::*;

verus! {

/// Whose rules a path goes by.
#[derive(Debug, Clone, Copy, PartialEq, Eq, Structural)]
pub enum Platform {
    /// Linux, macOS and their kin.
    Unix,
    Windows,
}

/// How far down a list of components leads: a name leads one down, a `..` one up
/// and a `.` nowhere.
pub open spec fn depth(comps: Seq<Seq<char>>) -> int
    decreases comps.len(),
{
    if comps.len() == 0 {
        0
    } else {
        depth(comps.drop_last()) + (if comps.last() == dot() {
            0int
        } else if comps.last() == dot_dot() {
            -1
        } else {
            1
        })
    }
}

/// Does a list of components leave the directory that it starts in? It does
/// where some of them, from the first on, hold more `..` than names.
pub open spec fn climbs_out(comps: Seq<Seq<char>>) -> bool {
    exists|n: int| 0 <= n <= comps.len() && depth(#[trigger] comps.take(n)) < 0
}

pub fn is_climbing_out(comps: &Vec<&[char]>) -> (b: bool)
    ensures
        b == climbs_out(views(comps@)),
{
    let ghost all = views(comps@);
    let mut down: usize = 0;
    let mut i: usize = 0;
    while i < comps.len()
        invariant
            i <= comps@.len(),
            all == views(comps@),
            down <= i,
            down == depth(all.take(i as int)),
            forall|n: int| 0 <= n <= i ==> depth(#[trigger] all.take(n)) >= 0,
        decreases comps@.len() - i,
    {
        let c = comps[i];
        assert(all.take(i + 1).drop_last() == all.take(i as int));
        assert(all.take(i + 1).last() == c@);
        if is_dot_dot(c) {
            if down == 0 {
                assert(depth(all.take(i + 1)) < 0);
                return true;
            }
            down -= 1;
        } else if !is_dot(c) {
            down += 1;
        }
        i += 1;
    }
    false
}

/// Does a path name its place without regard to where one is?
pub open spec fn absolute(on: Platform, p: Seq<char>) -> bool {
    match on {
        Platform::Unix => unix::absolute(p),
        Platform::Windows => windows::absolute(p),
    }
}

pub fn is_absolute(on: Platform, p: &[char]) -> (b: bool)
    ensures
        b == absolute(on, p@),
{
    match on {
        Platform::Unix => unix::is_absolute(p),
        Platform::Windows => windows::is_absolute(p),
    }
}

/// The components of a path, as they are written.
pub open spec fn components(on: Platform, p: Seq<char>) -> Seq<Seq<char>> {
    match on {
        Platform::Unix => unix::components(p),
        Platform::Windows => windows::components(p),
    }
}

/// The key text of a list of components: each `.` dropped, each `..` followed, and
/// `/` between what is left.
pub open spec fn key_of(on: Platform, comps: Seq<Seq<char>>) -> Seq<char> {
    match on {
        Platform::Unix => unix::key_of(comps),
        Platform::Windows => windows::key_of(comps),
    }
}

/// A path reduced to a stable string for use in a key. Not made canonical: that
/// would touch the disk and fail for a directory that has since moved.
pub fn normalize_path_key(on: Platform, p: &[char]) -> (r: Vec<char>)
    ensures
        r@ == key_of(on, components(on, p@)),
{
    match on {
        Platform::Unix => unix::normalize_path_key(p),
        Platform::Windows => windows::normalize_path_key(p),
    }
}

/// The components of `p` that follow those of `base`, where `p` starts with
/// them.
pub open spec fn below(on: Platform, p: Seq<char>, base: Seq<char>) -> Option<Seq<Seq<char>>> {
    match on {
        Platform::Unix => unix::below(p, base),
        Platform::Windows => windows::below(p, base),
    }
}

/// The components of a path that tell it from others, settled: each `.` dropped,
/// and each `..` with what it takes back.
pub open spec fn settled(on: Platform, p: Seq<char>) -> Seq<Seq<char>> {
    match on {
        Platform::Unix => unix::settle(unix::components(p)),
        Platform::Windows => windows::settle(windows::marked(p)),
    }
}

/// The components by which `p` is known below `base`: those that follow the ones
/// of `base`, where `p` starts with them. Where they climb out of `base` on the
/// way, both paths are settled first: then `p` is below `base` again, or it has
/// left for good and is not below it.
pub open spec fn inside(on: Platform, p: Seq<char>, base: Seq<char>) -> Option<Seq<Seq<char>>> {
    match below(on, p, base) {
        None => None,
        Some(comps) => if !climbs_out(comps) {
            Some(comps)
        } else if settled(on, base).is_prefix_of(settled(on, p)) {
            Some(settled(on, p).skip(settled(on, base).len() as int))
        } else {
            None
        },
    }
}

/// The key of a path below `base`.
pub fn inside_key(on: Platform, p: &[char], base: &[char]) -> (r: Option<Vec<char>>)
    ensures
        match r {
            Some(k) => inside(on, p@, base@) matches Some(comps) && k@ == key_of(on, comps),
            None => inside(on, p@, base@) is None,
        },
{
    match on {
        Platform::Unix => unix::inside_key(p, base),
        Platform::Windows => windows::inside_key(p, base),
    }
}

/// A text that is the same for two paths where they have the same components,
/// however these are separated.
pub open spec fn identity(on: Platform, p: Seq<char>) -> Seq<char> {
    match on {
        Platform::Unix => unix::spell(unix::components(p)),
        Platform::Windows => join(windows::marked(p), windows::root()),
    }
}

pub fn identity_of(on: Platform, p: &[char]) -> (r: Vec<char>)
    ensures
        r@ == identity(on, p@),
{
    match on {
        Platform::Unix => unix::spelled(&unix::components_of(p)),
        Platform::Windows => windows::marked_text(p),
    }
}

/// The text of `p` without its last component; `None` where that is the root or
/// where there is none.
pub open spec fn parent(on: Platform, p: Seq<char>) -> Option<Seq<char>> {
    match on {
        Platform::Unix => unix::parent(p),
        Platform::Windows => windows::parent(p),
    }
}

pub fn parent_of<'a>(on: Platform, p: &'a [char]) -> (r: Option<&'a [char]>)
    ensures
        match r {
            Some(d) => parent(on, p@) == Some(d@),
            None => parent(on, p@) is None,
        },
{
    match on {
        Platform::Unix => unix::parent_of(p),
        Platform::Windows => windows::parent_of(p),
    }
}

/// A parent is shorter than what it is the parent of.
pub proof fn lemma_parent(on: Platform, p: Seq<char>)
    ensures
        parent(on, p) matches Some(d) ==> d.len() < p.len(),
{
    unix::lemma_parent(p);
    windows::lemma_parent(p);
}

/// The last component of `p`, where that is a name.
pub open spec fn file_name(on: Platform, p: Seq<char>) -> Option<Seq<char>> {
    match on {
        Platform::Unix => unix::file_name(p),
        Platform::Windows => windows::file_name(p),
    }
}

pub fn file_name_of<'a>(on: Platform, p: &'a [char]) -> (r: Option<&'a [char]>)
    ensures
        match r {
            Some(n) => file_name(on, p@) == Some(n@),
            None => file_name(on, p@) is None,
        },
{
    match on {
        Platform::Unix => unix::file_name_of(p),
        Platform::Windows => windows::file_name_of(p),
    }
}

/// `b` seen from `a`.
pub open spec fn join_path(on: Platform, a: Seq<char>, b: Seq<char>) -> Seq<char> {
    match on {
        Platform::Unix => unix::join_path(a, b),
        Platform::Windows => windows::join_path(a, b),
    }
}

pub fn joined_path(on: Platform, a: &[char], b: &[char]) -> (r: Vec<char>)
    ensures
        r@ == join_path(on, a@, b@),
{
    match on {
        Platform::Unix => unix::joined_path(a, b),
        Platform::Windows => windows::joined_path(a, b),
    }
}

/// `p` with its extension replaced by `ext`; unchanged where it has no file
/// name.
pub open spec fn with_extension(on: Platform, p: Seq<char>, ext: Seq<char>) -> Seq<char> {
    match on {
        Platform::Unix => unix::with_extension(p, ext),
        Platform::Windows => windows::with_extension(p, ext),
    }
}

pub fn extended(on: Platform, p: &[char], ext: &[char]) -> (r: Vec<char>)
    ensures
        r@ == with_extension(on, p@, ext@),
{
    match on {
        Platform::Unix => unix::extended(p, ext),
        Platform::Windows => windows::extended(p, ext),
    }
}

/// Where the last name of `p` starts.
pub open spec fn last_start(on: Platform, p: Seq<char>) -> int {
    match on {
        Platform::Unix => unix::last_start(p),
        Platform::Windows => windows::last_start(p),
    }
}

/// A path with its extension replaced is its head, up to the end of the stem of its
/// name, and the new extension. Behind the name only separators and `.` follow.
pub proof fn lemma_with_extension(on: Platform, p: Seq<char>, ext: Seq<char>)
    ensures
        file_name(on, p) matches Some(name) ==> {
            let s = last_start(on, p);
            &&& 0 <= s < s + name.len() <= p.len()
            &&& name == p.subrange(s, s + name.len())
            &&& with_extension(on, p, ext) == p.take(s + stem_len(name)) + dot() + ext
            &&& forall|i: int|
                s + name.len() <= i < p.len() ==> (#[trigger] p[i]) == '/' || p[i] == '\\' || p[i]
                    == '.'
        },
        file_name(on, p) is None ==> with_extension(on, p, ext) == p,
{
    unix::lemma_with_extension(p, ext);
    windows::lemma_with_extension(p, ext);
}

} // verus!
