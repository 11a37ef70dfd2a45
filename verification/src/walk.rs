//! The walk over a directory tree, as a conversation.
//!
//! A `Walker` never touches the filesystem. It hands out one `Action` at a
//! time, its caller carries the action out and reports what happened as an
//! `Event`, and the walker answers with the next action. Directories are
//! walked depth first: the entries of a directory are all dealt with before
//! the directory's own name is looked at, and the root's name never is.
//!
//! The walker renames nothing onto a name that is taken. It asks first, and
//! where the answer is yes it ends the walk, but for a directory that meets
//! its own normalized name: that one is merged, entry by entry, each of them
//! asked about in its turn.
//!
//! What the walker does is fixed by `next`, a function on plain values;
//! `Walker::step` is proved to compute it.

use crate::action::{Action, Event, Request};
use crate::entry;
use crate::entry::{
    move_probe_request, probe_request, settle_dir_request, settle_file_request,
    settle_move_request,
};
use crate::normalize::{correction, due_form, is_nfc, nfc_of};
use crate::path::{
    ancestry, ancestry_of, chain, child, duplicate, names, parent, prefix, sibling, Path,
};
use vstd::prelude::*;

verus! {

/// What the walker is waiting for.
#[derive(Clone, Copy, Debug, PartialEq, Eq, Structural)]
pub enum Phase {
    /// A directory is being opened to walk its entries.
    Opening,
    /// The next entry of the directory that is being walked was asked for.
    Listing,
    /// Whether the entry at hand is a directory was asked.
    Kind,
    /// Whether the normal form of a file's name is taken was asked.
    FileProbing,
    /// Whether the normal form of a directory's name is taken was asked.
    DirProbing,
    /// The entry at hand is being renamed to its normal form.
    Renaming,
    /// A directory is being opened to move its entries away.
    MergeOpening,
    /// The next entry of the directory that is being emptied was asked for.
    MergeListing,
    /// Whether the place that an entry is to move to is taken was asked.
    MergeProbing,
    /// An entry of the directory that is being emptied is being moved.
    MergeMoving,
    /// The emptied directory is being removed.
    MergeRemoving,
    /// The walk is over: it ended well or was given up.
    Finished,
}

/// Where a walk stands: what it waits for, and the path it is at. While a
/// directory is opened or listed the path is that directory's; otherwise it
/// is the path of the entry at hand. While a merge asks about the place of
/// an entry, and while it moves it, `moving` is that entry's name.
pub struct State {
    pub phase: Phase,
    pub path: Path,
    pub moving: Option<Seq<char>>,
}

/// The state of a walk that is at `path` and has no entry on the move.
pub open spec fn at(phase: Phase, path: Path) -> State {
    State { phase, path, moving: None }
}

/// The state in which every walk begins: the root is being opened.
pub open spec fn initial() -> State {
    at(Phase::Opening, Seq::empty())
}

/// The states that a walk can be in: outside a listing there is an entry at
/// hand, nothing is probed for, renamed or merged but an entry whose name is
/// not normalized, and an entry is on the move only while its place is asked
/// about and while it moves.
pub open spec fn inv(s: State) -> bool {
    &&& s.moving is Some <==> s.phase == Phase::MergeProbing || s.phase == Phase::MergeMoving
    &&& match s.phase {
        Phase::Opening | Phase::Listing | Phase::Finished => true,
        Phase::Kind => s.path.len() > 0,
        _ => s.path.len() > 0 && !is_nfc(s.path.last()),
    }
}

/// The events that may follow the action that led to `s`.
pub open spec fn accepts(s: State, e: Event) -> bool {
    match s.phase {
        Phase::Listing | Phase::MergeListing => e is Entry || e is End || e is Failed,
        Phase::Kind | Phase::FileProbing | Phase::DirProbing | Phase::MergeProbing => e is Answer,
        Phase::Finished => false,
        _ => e is Done || e is Failed,
    }
}

/// Back to the listing of the directory that holds the entry at hand.
pub open spec fn resume(path: Path) -> (State, Request) {
    (at(Phase::Listing, parent(path)), Request::NextEntry)
}

/// The walk is given up. `contexts` are the paths that were being processed
/// when the failure came, the innermost first and the root last: the caller
/// wraps the failure in one line of report for each.
pub open spec fn give_up(path: Path, contexts: Seq<Path>) -> (State, Request) {
    (at(Phase::Finished, path), Request::Abort(contexts))
}

/// The report on a directory that could not be opened. Below the root the
/// directory is named twice, once for its own walk and once as an entry of
/// the directory that holds it; the root, which is nobody's entry, once.
pub open spec fn unopened(path: Path) -> Seq<Path> {
    if path.len() == 0 {
        ancestry(path)
    } else {
        seq![path] + ancestry(path)
    }
}

/// A file's name: kept if it is normalized; else the next thing to learn is
/// whether its normal form is taken.
pub open spec fn process_file(path: Path) -> (State, Request) {
    match probe_request(path, due_form(path.last())) {
        Some(probe) => (at(Phase::FileProbing, path), probe),
        None => resume(path),
    }
}

/// A file whose name is not normalized: renamed if its normal form is free.
/// If it is taken the walk ends, and the file stays as it is.
pub open spec fn settle_file(path: Path, taken: bool) -> (State, Request) {
    (
        at(if taken { Phase::Finished } else { Phase::Renaming }, path),
        settle_file_request(path, nfc_of(path.last()), taken),
    )
}

/// The name of a directory whose entries are done: kept if it is normalized;
/// else the next thing to learn is whether its normal form is taken.
pub open spec fn process_dir(path: Path) -> (State, Request) {
    match probe_request(path, due_form(path.last())) {
        Some(probe) => (at(Phase::DirProbing, path), probe),
        None => resume(path),
    }
}

/// A directory whose name is not normalized: renamed if its normal form is
/// free, else emptied into what stands there. Whether a directory stands
/// there is not asked. If it is a file, nothing exists below it: each move is
/// asked for and fails, and a directory without entries is removed at once.
pub open spec fn settle_dir(path: Path, taken: bool) -> (State, Request) {
    (
        at(if taken { Phase::MergeOpening } else { Phase::Renaming }, path),
        settle_dir_request(path, nfc_of(path.last()), taken),
    )
}

/// The walk of one directory: open it, then take its entries one by one. A
/// directory among them is walked before its own name is processed; a file's
/// name is processed at once. A failure is reported under the directory
/// that was being walked and every directory above it, up to the root.
pub open spec fn scan(s: State, e: Event) -> (State, Request) {
    match s.phase {
        Phase::Opening => match e {
            Event::Done => (at(Phase::Listing, s.path), Request::NextEntry),
            _ => give_up(s.path, unopened(s.path)),
        },
        Phase::Listing => match e {
            Event::Entry(name) => (
                at(Phase::Kind, s.path.push(name@)),
                Request::IsDir(s.path.push(name@)),
            ),
            Event::End => if s.path.len() == 0 {
                (at(Phase::Finished, s.path), Request::Finish)
            } else {
                process_dir(s.path)
            },
            _ => give_up(s.path, ancestry(s.path)),
        },
        _ => match e {
            Event::Answer(true) => (at(Phase::Opening, s.path), Request::OpenDir(s.path)),
            _ => process_file(s.path),
        },
    }
}

/// The merge of the directory at hand into the one that carries its normal
/// name. Each entry is asked about first: if its place in the destination is
/// free it moves across under its own name, and if it is taken the walk ends
/// there, with that entry and all that follow it left where they are and the
/// directory not removed. Once every entry has moved the emptied directory is
/// removed. The first failure ends the merge too, and nothing is undone.
pub open spec fn merge_dir(s: State, e: Event) -> (State, Request) {
    let target = nfc_of(s.path.last());
    match (s.phase, e) {
        (Phase::MergeOpening, Event::Done) | (Phase::MergeMoving, Event::Done) => (
            at(Phase::MergeListing, s.path),
            Request::NextEntry,
        ),
        (Phase::MergeListing, Event::Entry(name)) => (
            State { phase: Phase::MergeProbing, path: s.path, moving: Some(name@) },
            move_probe_request(s.path, target, name@),
        ),
        (Phase::MergeProbing, Event::Answer(taken)) => (
            if taken {
                at(Phase::Finished, s.path)
            } else {
                State { phase: Phase::MergeMoving, path: s.path, moving: s.moving }
            },
            settle_move_request(s.path, target, s.moving.unwrap(), taken),
        ),
        (Phase::MergeListing, Event::End) => (
            at(Phase::MergeRemoving, s.path),
            Request::RemoveDir(s.path),
        ),
        (Phase::MergeRemoving, Event::Done) => resume(s.path),
        _ => give_up(s.path, ancestry(s.path)),
    }
}

/// The state after `e` was reported in state `s`, and the request that
/// answers it.
pub open spec fn next(s: State, e: Event) -> (State, Request) {
    match s.phase {
        Phase::Opening | Phase::Listing | Phase::Kind => scan(s, e),
        Phase::FileProbing => settle_file(s.path, e == Event::Answer(true)),
        Phase::DirProbing => settle_dir(s.path, e == Event::Answer(true)),
        Phase::Renaming => match e {
            Event::Done => resume(s.path),
            _ => give_up(s.path, ancestry(s.path)),
        },
        Phase::Finished => (s, Request::Finish),
        _ => merge_dir(s, e),
    }
}

/// What the walk in state `s` has asked for and is waiting to hear of. A
/// walk that is over has asked for nothing more.
pub open spec fn asked(s: State) -> Request {
    match s.phase {
        Phase::Opening | Phase::MergeOpening => Request::OpenDir(s.path),
        Phase::Listing | Phase::MergeListing => Request::NextEntry,
        Phase::Kind => Request::IsDir(s.path),
        Phase::FileProbing | Phase::DirProbing => Request::Exists(
            sibling(s.path, nfc_of(s.path.last())),
        ),
        Phase::Renaming => Request::Rename(s.path, sibling(s.path, nfc_of(s.path.last()))),
        Phase::MergeProbing => move_probe_request(
            s.path,
            nfc_of(s.path.last()),
            s.moving.unwrap(),
        ),
        Phase::MergeMoving => settle_move_request(
            s.path,
            nfc_of(s.path.last()),
            s.moving.unwrap(),
            false,
        ),
        Phase::MergeRemoving => Request::RemoveDir(s.path),
        Phase::Finished => Request::Finish,
    }
}

/// A walk in progress.
#[derive(Debug)]
pub struct Walker {
    phase: Phase,
    path: Vec<String>,
    /// The normal form of the last name of `path`, from the time it is
    /// probed for until the entry is renamed or its last entry has moved.
    target: String,
    /// The name of the entry that a merge is asking about or moving.
    moving: String,
}

impl View for Walker {
    type V = State;

    closed spec fn view(&self) -> State {
        State {
            phase: self.phase,
            path: names(self.path@),
            moving: if self.phase == Phase::MergeProbing || self.phase == Phase::MergeMoving {
                Some(self.moving@)
            } else {
                None
            },
        }
    }
}

impl Walker {
    /// A walker is always in a state that a walk can be in, and from the
    /// time it probes for an entry's normal form it remembers that form.
    #[verifier::type_invariant]
    spec fn valid(&self) -> bool {
        &&& inv(self@)
        &&& match self.phase {
            Phase::FileProbing
            | Phase::DirProbing
            | Phase::MergeOpening
            | Phase::MergeListing
            | Phase::MergeProbing
            | Phase::MergeMoving => {
                self.target@ == nfc_of(self@.path.last()) && is_nfc(self.target@)
            },
            _ => true,
        }
    }

    /// A walker for a fresh walk, and the first thing to do: open the root.
    pub fn start() -> (begun: (Walker, Action))
        ensures
            begun.0@ == initial(),
            begun.1@ == Request::OpenDir(Seq::empty()),
    {
        let walker = Walker {
            phase: Phase::Opening,
            path: Vec::new(),
            target: String::new(),
            moving: String::new(),
        };
        let root: Vec<String> = Vec::new();
        assert(names(walker.path@) =~= Seq::empty());
        assert(names(root@) =~= Seq::empty());
        (walker, Action::OpenDir(root))
    }

    /// What the walker is waiting for. Whatever it is, the walker is in a
    /// state that a walk can be in.
    pub fn phase(&self) -> (phase: Phase)
        ensures
            phase == self@.phase,
            inv(self@),
    {
        proof {
            use_type_invariant(self);
        }
        self.phase
    }

    /// Whether the walk is over.
    pub fn is_finished(&self) -> (over: bool)
        ensures
            over == (self@.phase == Phase::Finished),
    {
        matches!(self.phase, Phase::Finished)
    }

    /// Whether `event` may be reported now.
    pub fn expects(&self, event: &Event) -> (ok: bool)
        ensures
            ok == accepts(self@, *event),
    {
        match self.phase {
            Phase::Listing | Phase::MergeListing => matches!(
                event,
                Event::Entry(_) | Event::End | Event::Failed
            ),
            Phase::Kind | Phase::FileProbing | Phase::DirProbing | Phase::MergeProbing => matches!(
                event,
                Event::Answer(_)
            ),
            Phase::Finished => false,
            _ => matches!(event, Event::Done | Event::Failed),
        }
    }

    /// Leaves the entry at hand and asks for the next one beside it.
    fn resume(&mut self) -> (action: Action)
        requires
            old(self)@.path.len() > 0,
        ensures
            (final(self)@, action@) == resume(old(self)@.path),
    {
        self.phase = Phase::Listing;
        self.path = prefix(&self.path, self.path.len() - 1);
        Action::NextEntry
    }

    /// Ends the walk over a failure. The report names the path at hand and
    /// every directory above it; a directory below the root is named once
    /// more where it was its opening that failed.
    fn give_up(&mut self, opening: bool) -> (action: Action)
        ensures
            (final(self)@, action@) == give_up(
                old(self)@.path,
                if opening {
                    unopened(old(self)@.path)
                } else {
                    ancestry(old(self)@.path)
                },
            ),
    {
        self.phase = Phase::Finished;
        let mut above = ancestry_of(&self.path);
        if opening && self.path.len() > 0 {
            let mut contexts: Vec<Vec<String>> = Vec::new();
            contexts.push(duplicate(&self.path));
            contexts.append(&mut above);
            assert(chain(contexts@) =~= seq![names(self.path@)] + ancestry(names(self.path@)));
            Action::Abort(contexts)
        } else {
            Action::Abort(above)
        }
    }

    /// Looks at the name of the entry at hand. Where it is normalized the
    /// walk goes on beside the entry; else the walker remembers what the
    /// name has to become and asks whether that name is taken.
    fn process(&mut self, probing: Phase) -> (action: Action)
        requires
            old(self)@.path.len() > 0,
            old(self)@.phase == Phase::Kind || old(self)@.phase == Phase::Listing,
            probing == Phase::FileProbing || probing == Phase::DirProbing,
        ensures
            (final(self)@, action@) == (match probe_request(
                old(self)@.path,
                due_form(old(self)@.path.last()),
            ) {
                Some(probe) => (at(probing, old(self)@.path), probe),
                None => resume(old(self)@.path),
            }),
    {
        let last: usize = self.path.len() - 1;
        let correction = correction(self.path[last].as_str());
        match (entry::probe(&self.path, &correction), correction) {
            (Some(probe), Some(target)) => {
                self.target = target;
                self.phase = probing;
                probe
            },
            _ => self.resume(),
        }
    }

    /// Processes the name of the file at hand.
    fn process_file(&mut self) -> (action: Action)
        requires
            old(self)@.phase == Phase::Kind,
        ensures
            (final(self)@, action@) == process_file(old(self)@.path),
    {
        proof {
            use_type_invariant(&*self);
        }
        self.process(Phase::FileProbing)
    }

    /// Processes the name of the directory at hand, whose entries are done.
    fn process_dir(&mut self) -> (action: Action)
        requires
            old(self)@.phase == Phase::Listing,
            old(self)@.path.len() > 0,
        ensures
            (final(self)@, action@) == process_dir(old(self)@.path),
    {
        self.process(Phase::DirProbing)
    }

    /// Renames the file at hand, or ends the walk where its normal form is
    /// taken.
    fn settle_file(&mut self, taken: bool) -> (action: Action)
        requires
            old(self)@.phase == Phase::FileProbing,
        ensures
            (final(self)@, action@) == settle_file(old(self)@.path, taken),
            is_nfc(nfc_of(old(self)@.path.last())),
    {
        proof {
            use_type_invariant(&*self);
        }
        self.phase = if taken {
            Phase::Finished
        } else {
            Phase::Renaming
        };
        entry::settle_file(&self.path, &self.target, taken)
    }

    /// Renames the directory at hand, or starts to merge it where its normal
    /// form is taken.
    fn settle_dir(&mut self, taken: bool) -> (action: Action)
        requires
            old(self)@.phase == Phase::DirProbing,
        ensures
            (final(self)@, action@) == settle_dir(old(self)@.path, taken),
            is_nfc(nfc_of(old(self)@.path.last())),
    {
        proof {
            use_type_invariant(&*self);
        }
        self.phase = if taken {
            Phase::MergeOpening
        } else {
            Phase::Renaming
        };
        entry::settle_dir(&self.path, &self.target, taken)
    }

    /// One step of the walk of a directory.
    fn scan(&mut self, event: Event) -> (action: Action)
        requires
            accepts(old(self)@, event),
            old(self)@.phase == Phase::Opening || old(self)@.phase == Phase::Listing || old(
                self,
            )@.phase == Phase::Kind,
        ensures
            (final(self)@, action@) == scan(old(self)@, event),
            !(action@ is Rename),
    {
        match self.phase {
            Phase::Opening => match event {
                Event::Done => {
                    self.phase = Phase::Listing;
                    Action::NextEntry
                },
                _ => self.give_up(true),
            },
            Phase::Listing => match event {
                Event::Entry(name) => {
                    self.path = child(&self.path, &name);
                    self.phase = Phase::Kind;
                    Action::IsDir(duplicate(&self.path))
                },
                Event::End => if self.path.len() == 0 {
                    self.phase = Phase::Finished;
                    Action::Finish
                } else {
                    self.process_dir()
                },
                _ => self.give_up(false),
            },
            _ => match event {
                Event::Answer(true) => {
                    self.phase = Phase::Opening;
                    Action::OpenDir(duplicate(&self.path))
                },
                _ => self.process_file(),
            },
        }
    }

    /// One step of a merge.
    fn merge_dir(&mut self, event: Event) -> (action: Action)
        requires
            accepts(old(self)@, event),
            old(self)@.phase == Phase::MergeOpening || old(self)@.phase == Phase::MergeListing
                || old(self)@.phase == Phase::MergeProbing || old(self)@.phase
                == Phase::MergeMoving || old(self)@.phase == Phase::MergeRemoving,
        ensures
            (final(self)@, action@) == merge_dir(old(self)@, event),
            action@ is Rename || action@ is RemoveDir ==> is_nfc(
                nfc_of(old(self)@.path.last()),
            ),
    {
        proof {
            use_type_invariant(&*self);
        }
        match (self.phase, event) {
            (Phase::MergeOpening, Event::Done) | (Phase::MergeMoving, Event::Done) => {
                self.phase = Phase::MergeListing;
                Action::NextEntry
            },
            (Phase::MergeListing, Event::Entry(name)) => {
                let probe = entry::probe_move(&self.path, &self.target, &name);
                self.moving = name;
                self.phase = Phase::MergeProbing;
                probe
            },
            (Phase::MergeProbing, Event::Answer(taken)) => {
                let action = entry::settle_move(&self.path, &self.target, &self.moving, taken);
                self.phase = if taken {
                    Phase::Finished
                } else {
                    Phase::MergeMoving
                };
                action
            },
            (Phase::MergeListing, Event::End) => {
                self.phase = Phase::MergeRemoving;
                Action::RemoveDir(duplicate(&self.path))
            },
            (Phase::MergeRemoving, Event::Done) => self.resume(),
            _ => self.give_up(false),
        }
    }

    /// Takes the report of what the last action came to and answers with the
    /// next action. Whatever is renamed gets a normalized name, and a
    /// directory is removed only in favour of one with a normalized name.
    pub fn step(&mut self, event: Event) -> (action: Action)
        requires
            accepts(old(self)@, event),
        ensures
            (final(self)@, action@) == next(old(self)@, event),
            inv(old(self)@) && inv(final(self)@),
            action@ is Rename || action@ is RemoveDir ==> is_nfc(
                nfc_of(old(self)@.path.last()),
            ),
    {
        proof {
            use_type_invariant(&*self);
        }
        let action = match self.phase {
            Phase::Opening | Phase::Listing | Phase::Kind => self.scan(event),
            Phase::FileProbing => self.settle_file(matches!(event, Event::Answer(true))),
            Phase::DirProbing => self.settle_dir(matches!(event, Event::Answer(true))),
            Phase::Renaming => match event {
                Event::Done => self.resume(),
                _ => self.give_up(false),
            },
            Phase::Finished => Action::Finish,
            _ => self.merge_dir(event),
        };
        proof {
            use_type_invariant(&*self);
        }
        action
    }

    /// As `step`, for a caller that cannot show that `event` is expected:
    /// an event out of turn is refused, and the walker stays as it was.
    pub fn try_step(&mut self, event: Event) -> (action: Option<Action>)
        ensures
            accepts(old(self)@, event) ==> action is Some && (final(self)@, action->Some_0@)
                == next(old(self)@, event),
            !accepts(old(self)@, event) ==> action is None && *final(self) == *old(self),
            inv(old(self)@) && inv(final(self)@),
            action matches Some(Action::Rename(_, _)) ==> is_nfc(nfc_of(old(self)@.path.last())),
            action matches Some(Action::RemoveDir(_)) ==> is_nfc(nfc_of(old(self)@.path.last())),
    {
        if self.expects(&event) {
            Some(self.step(event))
        } else {
            proof {
                use_type_invariant(&*self);
            }
            None
        }
    }
}

} // verus!
