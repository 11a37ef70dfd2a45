//! What a walker and its caller say to each other.

use crate::path::{chain, names, Path};
use vstd::prelude::*;

verus! {

/// What the caller reports back after an action.
#[derive(Clone, Debug, PartialEq, Eq)]
pub enum Event {
    /// The action succeeded and there is nothing to add.
    Done,
    /// The action failed.
    Failed,
    /// The listing's next entry, by its name.
    Entry(String),
    /// The listing has no further entry.
    End,
    /// The answer to a question.
    Answer(bool),
}

/// What the walker asks for, over paths as contracts see them.
pub enum Request {
    /// Open the directory and start to list it. Listings nest: the one
    /// opened last is the one that `NextEntry` reads.
    OpenDir(Path),
    /// Read the next entry of the innermost open listing, and close the
    /// listing if there is none.
    NextEntry,
    /// Say whether the path is a directory.
    IsDir(Path),
    /// Say whether anything exists at the path.
    Exists(Path),
    /// Rename the first path to the second.
    Rename(Path, Path),
    /// Remove the directory, which is expected to be empty.
    RemoveDir(Path),
    /// The walk ended well.
    Finish,
    /// The walk is given up over the failure just reported. The paths say
    /// what was being processed, from the place of the failure outwards and
    /// up to the root.
    Abort(Seq<Path>),
    /// The walk is given up because the first path, to which an entry was to
    /// be renamed or moved, is taken. Nothing was asked to be changed on that
    /// entry's behalf. The paths after it are as in `Abort`.
    Collision(Path, Seq<Path>),
}

/// What the walker asks for, as the caller gets it.
#[derive(Clone, Debug, PartialEq, Eq)]
pub enum Action {
    /// Open the directory and start to list it.
    OpenDir(Vec<String>),
    /// Read the next entry of the innermost open listing.
    NextEntry,
    /// Say whether the path is a directory.
    IsDir(Vec<String>),
    /// Say whether anything exists at the path.
    Exists(Vec<String>),
    /// Rename the first path to the second.
    Rename(Vec<String>, Vec<String>),
    /// Remove the directory.
    RemoveDir(Vec<String>),
    /// The walk ended well.
    Finish,
    /// The walk is given up; the paths are those that were being processed.
    Abort(Vec<Vec<String>>),
    /// The walk is given up because the first path is taken; the paths after
    /// it are those that were being processed.
    Collision(Vec<String>, Vec<Vec<String>>),
}

impl View for Action {
    type V = Request;

    open spec fn view(&self) -> Request {
        match *self {
            Action::OpenDir(path) => Request::OpenDir(names(path@)),
            Action::NextEntry => Request::NextEntry,
            Action::IsDir(path) => Request::IsDir(names(path@)),
            Action::Exists(path) => Request::Exists(names(path@)),
            Action::Rename(from, to) => Request::Rename(names(from@), names(to@)),
            Action::RemoveDir(path) => Request::RemoveDir(names(path@)),
            Action::Finish => Request::Finish,
            Action::Abort(contexts) => Request::Abort(chain(contexts@)),
            Action::Collision(taken, contexts) => Request::Collision(
                names(taken@),
                chain(contexts@),
            ),
        }
    }
}

} // verus!
