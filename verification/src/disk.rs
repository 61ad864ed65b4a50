//! What is known of a disk, and questions about the rest.
//!
//! The library reads no files. Routines whose answer depends on the disk take a
//! [`Disk`], the answers gathered so far, and return either their result or the
//! one [`Probe`] they cannot go on without. The caller puts the question to the
//! file system, records the answer and calls again.

use crate::path::Platform;
use crate::text::{chars, string};
use vstd::hash_map::StringHashMap;
use vstd::prelude::*;

verus! {

/// What stands at a path, links followed.
#[derive(Clone, Copy, Debug, PartialEq, Eq, Structural)]
pub enum Kind {
    /// Nothing, or nothing that can be seen.
    Missing,
    File,
    Directory,
    /// Something else: a device, a socket.
    Other,
}

/// A question about the disk.
#[derive(Clone, Debug, PartialEq, Eq)]
pub enum Probe {
    /// What stands at this path?
    Kind(String),
    /// What does the file at this path say, if it can be read as text?
    Text(String),
}

/// A [`Probe`] as a value of the specification.
pub enum Question {
    Kind(Seq<char>),
    Text(Seq<char>),
}

impl View for Probe {
    type V = Question;

    open spec fn view(&self) -> Question {
        match self {
            Probe::Kind(p) => Question::Kind(p@),
            Probe::Text(p) => Question::Text(p@),
        }
    }
}

/// A result, or the question that has to be answered first.
#[derive(Clone, Debug, PartialEq, Eq)]
pub enum Lookup<T> {
    Known(T),
    Ask(Probe),
}

/// A [`Lookup`] as a value of the specification.
pub enum Answer<T> {
    Known(T),
    Ask(Question),
}

pub open spec fn text_view(t: Option<String>) -> Option<Seq<char>> {
    match t {
        Some(s) => Some(s@),
        None => None,
    }
}

/// What a [`Disk`] knows.
pub struct DiskView {
    pub platform: Platform,
    pub kinds: Map<Seq<char>, Kind>,
    pub texts: Map<Seq<char>, Option<Seq<char>>>,
}

impl DiskView {
    pub open spec fn kind(self, p: Seq<char>) -> Answer<Kind> {
        if self.kinds.contains_key(p) {
            Answer::Known(self.kinds[p])
        } else {
            Answer::Ask(Question::Kind(p))
        }
    }

    pub open spec fn text(self, p: Seq<char>) -> Answer<Option<Seq<char>>> {
        if self.texts.contains_key(p) {
            Answer::Known(self.texts[p])
        } else {
            Answer::Ask(Question::Text(p))
        }
    }

    /// Has this question been answered?
    pub open spec fn answers(self, q: Question) -> bool {
        match q {
            Question::Kind(p) => self.kinds.contains_key(p),
            Question::Text(p) => self.texts.contains_key(p),
        }
    }

    /// Does `self` give every answer that `other` gives?
    pub open spec fn extends(self, other: DiskView) -> bool {
        &&& self.platform == other.platform
        &&& forall|p: Seq<char>| #[trigger]
            other.kinds.contains_key(p) ==> self.kinds.contains_key(p) && self.kinds[p]
                == other.kinds[p]
        &&& forall|p: Seq<char>| #[trigger]
            other.texts.contains_key(p) ==> self.texts.contains_key(p) && self.texts[p]
                == other.texts[p]
    }
}

/// The answers that have been gathered from a disk.
pub struct Disk {
    platform: Platform,
    kinds: StringHashMap<Kind>,
    texts: StringHashMap<Option<String>>,
}

impl View for Disk {
    type V = DiskView;

    closed spec fn view(&self) -> DiskView {
        DiskView {
            platform: self.platform,
            kinds: self.kinds@,
            texts: self.texts@.map_values(|t: Option<String>| text_view(t)),
        }
    }
}

impl Disk {
    /// A disk of which nothing is known but whose paths it holds.
    pub fn new(platform: Platform) -> (disk: Disk)
        ensures
            disk@.platform == platform,
            disk@.kinds == Map::<Seq<char>, Kind>::empty(),
            disk@.texts == Map::<Seq<char>, Option<Seq<char>>>::empty(),
    {
        let disk = Disk {
            platform,
            kinds: StringHashMap::new(),
            texts: StringHashMap::new(),
        };
        assert(disk@.texts =~= Map::<Seq<char>, Option<Seq<char>>>::empty());
        disk
    }

    /// Whose rules the paths of this disk go by.
    pub fn platform(&self) -> (on: Platform)
        ensures
            on == self@.platform,
    {
        self.platform
    }

    /// Records what stands at `path`.
    pub fn set_kind(&mut self, path: String, kind: Kind)
        ensures
            final(self)@.platform == old(self)@.platform,
            final(self)@.kinds == old(self)@.kinds.insert(path@, kind),
            final(self)@.texts == old(self)@.texts,
    {
        self.kinds.insert(path, kind);
    }

    /// Records what the file at `path` says; `None` if it cannot be read.
    pub fn set_text(&mut self, path: String, text: Option<String>)
        ensures
            final(self)@.platform == old(self)@.platform,
            final(self)@.kinds == old(self)@.kinds,
            final(self)@.texts == old(self)@.texts.insert(path@, text_view(text)),
    {
        let ghost before = self@.texts;
        let ghost key = path@;
        self.texts.insert(path, text);
        assert(self@.texts =~= before.insert(key, text_view(text)));
    }

    /// What stands at `path`, if that is known.
    pub fn kind(&self, path: &[char]) -> (r: Lookup<Kind>)
        ensures
            match r {
                Lookup::Known(k) => self@.kind(path@) == Answer::Known(k),
                Lookup::Ask(p) => self@.kind(path@) == Answer::<Kind>::Ask(p@),
            },
    {
        let key = string(path);
        match self.kinds.get(key.as_str()) {
            Some(k) => Lookup::Known(*k),
            None => Lookup::Ask(Probe::Kind(key)),
        }
    }

    /// What the file at `path` says, if that is known.
    pub fn text(&self, path: &[char]) -> (r: Lookup<Option<Vec<char>>>)
        ensures
            match r {
                Lookup::Known(Some(t)) => self@.text(path@) == Answer::Known(Some(t@)),
                Lookup::Known(None) => self@.text(path@) == Answer::Known(None::<Seq<char>>),
                Lookup::Ask(p) => self@.text(path@) == Answer::<Option<Seq<char>>>::Ask(p@),
            },
    {
        let key = string(path);
        match self.texts.get(key.as_str()) {
            Some(Some(t)) => Lookup::Known(Some(chars(t.as_str()))),
            Some(None) => Lookup::Known(None),
            None => Lookup::Ask(Probe::Text(key)),
        }
    }
}

} // verus!
