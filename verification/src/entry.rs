//! What to ask for on behalf of one entry.
//!
//! The functions here take what was learned about the entry as plain values:
//! what its name has to become, and whether a name is taken. None of them
//! looks anything up.
//!
//! Nothing is ever renamed onto a name that is taken. Before each rename the
//! new place is asked about; where something stands there, a file's rename
//! and a merge's move end the walk, and only a directory that meets its own
//! normalized name goes on, into a merge.

use crate::action::{Action, Request};
use crate::normalize::text;
use crate::path::{ancestry, ancestry_of, child, duplicate, names, sibling, sibling_of, Path};
use vstd::prelude::*;

verus! {

/// The request of an action that may be there.
pub open spec fn request(action: Option<Action>) -> Option<Request> {
    match action {
        Some(action) => Some(action@),
        None => None,
    }
}

/// For an entry whose name has to become something else, the first thing is
/// to learn whether that name is taken.
pub open spec fn probe_request(path: Path, correction: Option<Seq<char>>) -> Option<Request> {
    match correction {
        Some(target) => Some(Request::Exists(sibling(path, target))),
        None => None,
    }
}

/// A file is renamed where its new name is free. Where it is taken, the walk
/// ends: a file is never renamed onto what stands there.
pub open spec fn settle_file_request(path: Path, target: Seq<char>, taken: bool) -> Request {
    if taken {
        Request::Collision(sibling(path, target), ancestry(path))
    } else {
        Request::Rename(path, sibling(path, target))
    }
}

/// A directory is renamed where its new name is free. Where it is taken, the
/// directory is opened, to be emptied into what stands there.
pub open spec fn settle_dir_request(path: Path, target: Seq<char>, taken: bool) -> Request {
    if taken {
        Request::OpenDir(path)
    } else {
        Request::Rename(path, sibling(path, target))
    }
}

/// Where the entry `name` of the directory at `path` goes in a merge: into
/// the directory beside it that is called `target`, under its own name.
pub open spec fn destination(path: Path, target: Seq<char>, name: Seq<char>) -> Path {
    sibling(path, target).push(name)
}

/// In a merge, before an entry moves, the first thing is to learn whether
/// its place in the destination is taken.
pub open spec fn move_probe_request(path: Path, target: Seq<char>, name: Seq<char>) -> Request {
    Request::Exists(destination(path, target, name))
}

/// In a merge, an entry moves where its place in the destination is free.
/// Where it is taken, the walk ends: the entry stays where it is, and so
/// does what stands in its place.
pub open spec fn settle_move_request(
    path: Path,
    target: Seq<char>,
    name: Seq<char>,
    taken: bool,
) -> Request {
    if taken {
        Request::Collision(destination(path, target, name), ancestry(path))
    } else {
        Request::Rename(path.push(name), destination(path, target, name))
    }
}

/// What to do first about the name of the entry at `path`, be it a file or a
/// directory: nothing, or ask whether its new name is taken.
pub fn probe(path: &Vec<String>, correction: &Option<String>) -> (action: Option<Action>)
    requires
        path.len() > 0,
    ensures
        request(action) == probe_request(names(path@), text(*correction)),
{
    match correction {
        Some(target) => Some(Action::Exists(sibling_of(path, target))),
        None => None,
    }
}

/// What to do about the file at `path` once it is known whether `target`,
/// its new name, is taken: give up, or rename it.
pub fn settle_file(path: &Vec<String>, target: &String, taken: bool) -> (action: Action)
    requires
        path.len() > 0,
    ensures
        action@ == settle_file_request(names(path@), target@, taken),
{
    if taken {
        Action::Collision(sibling_of(path, target), ancestry_of(path))
    } else {
        Action::Rename(duplicate(path), sibling_of(path, target))
    }
}

/// What to do about the directory at `path` once it is known whether
/// `target`, its new name, is taken: start a merge, or rename it.
pub fn settle_dir(path: &Vec<String>, target: &String, taken: bool) -> (action: Action)
    requires
        path.len() > 0,
    ensures
        action@ == settle_dir_request(names(path@), target@, taken),
{
    if taken {
        Action::OpenDir(duplicate(path))
    } else {
        Action::Rename(duplicate(path), sibling_of(path, target))
    }
}

/// What to do first about the entry `name` of the directory at `path`, which
/// is being merged into the one called `target`: ask whether its place there
/// is taken.
pub fn probe_move(path: &Vec<String>, target: &String, name: &String) -> (action: Action)
    requires
        path.len() > 0,
    ensures
        action@ == move_probe_request(names(path@), target@, name@),
{
    Action::Exists(child(&sibling_of(path, target), name))
}

/// What to do about that entry once it is known whether its place is taken:
/// give up, or move it.
pub fn settle_move(path: &Vec<String>, target: &String, name: &String, taken: bool) -> (action:
    Action)
    requires
        path.len() > 0,
    ensures
        action@ == settle_move_request(names(path@), target@, name@, taken),
{
    let to = child(&sibling_of(path, target), name);
    if taken {
        Action::Collision(to, ancestry_of(path))
    } else {
        Action::Rename(child(path, name), to)
    }
}

} // verus!
