//! Work to be done on files, and what an interruption leaves behind.

use vstd::prelude::*;

verus! {

/// One step of work on disk. Each is complete, and has reached the disk, before
/// the next one starts.
#[derive(Debug, Clone, PartialEq, Eq)]
pub enum Step {
    /// Create the file, or empty it, and write these bytes.
    Write { path: String, bytes: Vec<u8> },
    /// Give the file another name, replacing what has that name.
    Rename { from: String, to: String },
}

/// A [`Step`] as a value of the specification.
pub enum Action {
    Write { path: Seq<char>, bytes: Seq<u8> },
    Rename { from: Seq<char>, to: Seq<char> },
}

impl View for Step {
    type V = Action;

    open spec fn view(&self) -> Action {
        match self {
            Step::Write { path, bytes } => Action::Write { path: path@, bytes: bytes@ },
            Step::Rename { from, to } => Action::Rename { from: from@, to: to@ },
        }
    }
}

pub open spec fn actions(steps: Seq<Step>) -> Seq<Action> {
    steps.map_values(|s: Step| s@)
}

/// The files after one action.
pub open spec fn done(files: Map<Seq<char>, Seq<u8>>, a: Action) -> Map<Seq<char>, Seq<u8>> {
    match a {
        Action::Write { path, bytes } => files.insert(path, bytes),
        Action::Rename { from, to } => if files.contains_key(from) {
            files.remove(from).insert(to, files[from])
        } else {
            files
        },
    }
}

/// The files after the first `n` actions.
pub open spec fn after(files: Map<Seq<char>, Seq<u8>>, todo: Seq<Action>, n: nat) -> Map<
    Seq<char>,
    Seq<u8>,
>
    decreases n,
{
    if n == 0 {
        files
    } else {
        done(after(files, todo, (n - 1) as nat), todo[n - 1])
    }
}

/// Can `state` be found on disk if the work stops somewhere? It can stop between
/// two actions, and it can stop in the middle of a write, which leaves the file
/// that is being written with any contents at all. A rename happens or does not.
pub open spec fn left_by(
    files: Map<Seq<char>, Seq<u8>>,
    todo: Seq<Action>,
    state: Map<Seq<char>, Seq<u8>>,
) -> bool {
    exists|n: nat, partial: Seq<u8>| #[trigger] stopped(files, todo, state, n, partial)
}

/// Is `state` what is left if the work stops after `n` actions, with `partial`
/// written by the next one if that is a write that has started?
pub open spec fn stopped(
    files: Map<Seq<char>, Seq<u8>>,
    todo: Seq<Action>,
    state: Map<Seq<char>, Seq<u8>>,
    n: nat,
    partial: Seq<u8>,
) -> bool {
    &&& n <= todo.len()
    &&& {
        ||| state == after(files, todo, n)
        ||| n < todo.len() && todo[n as int] is Write && state == after(files, todo, n).insert(
            todo[n as int]->path,
            partial,
        )
    }
}

} // verus!
