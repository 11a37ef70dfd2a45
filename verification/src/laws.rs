//! What holds of every walk.
//!
//! The statements here are about `next`, the function that `Walker::step`
//! computes, and so about every walker, whatever the filesystem answers.

use crate::action::{Event, Request};
use crate::entry::destination;
use crate::normalize::{is_nfc, nfc_of};
use crate::path::{ancestry, normal_sibling, Path};
use crate::walk::{
    accepts, asked, at, initial, inv, next, process_dir, process_file, resume, Phase, State,
};
use vstd::prelude::*;

verus! {

/// A request that changes the tree.
pub open spec fn changes(r: Request) -> bool {
    r is Rename || r is RemoveDir
}

/// The path that a request changes first: the one it renames or removes.
pub open spec fn touched(r: Request) -> Path {
    match r {
        Request::Rename(from, _) => from,
        Request::RemoveDir(path) => path,
        _ => Seq::empty(),
    }
}

/// The walk is waiting to hear whether a name is taken.
pub open spec fn probing(s: State) -> bool {
    s.phase == Phase::FileProbing || s.phase == Phase::DirProbing || s.phase
        == Phase::MergeProbing
}

/// The path that the walk in state `s` has asked about: in a merge the place
/// of the entry on the move, else the place of the entry at hand under its
/// normalized name.
pub open spec fn probed(s: State) -> Path {
    if s.phase == Phase::MergeProbing {
        destination(s.path, nfc_of(s.path.last()), s.moving.unwrap())
    } else {
        normal_sibling(s.path)
    }
}

/// If `r` is a rename, then `e`, the event that it answers, says that
/// nothing exists at a path, and `before`, the request that `e` answers, has
/// asked just that of the place that `r` renames to.
pub open spec fn probed_first(r: Request, e: Event, before: Request) -> bool {
    match r {
        Request::Rename(_, to) => e == Event::Answer(false) && before == Request::Exists(to),
        _ => true,
    }
}

/// Every name on the path is normalized.
pub open spec fn normalized(path: Path) -> bool {
    forall|i: int| 0 <= i < path.len() ==> is_nfc(#[trigger] path[i])
}

/// A state of a walk that has met normalized names only.
pub open spec fn settled(s: State) -> bool {
    inv(s) && normalized(s.path)
}

/// An event that reports no name but a normalized one.
pub open spec fn reports_normalized(e: Event) -> bool {
    match e {
        Event::Entry(name) => is_nfc(name@),
        _ => true,
    }
}

/// Each of `events` may be reported in its turn, starting in state `s`.
pub open spec fn in_turn(s: State, events: Seq<Event>) -> bool
    decreases events.len(),
{
    events.len() == 0 || (accepts(s, events.first()) && in_turn(
        next(s, events.first()).0,
        events.drop_first(),
    ))
}

/// The requests that answer `events`, one for each, starting in state `s`.
pub open spec fn replies(s: State, events: Seq<Event>) -> Seq<Request>
    decreases events.len(),
{
    if events.len() == 0 {
        Seq::empty()
    } else {
        seq![next(s, events.first()).1] + replies(next(s, events.first()).0, events.drop_first())
    }
}

/// The number of listings that are open in state `s`: one for each directory
/// from the root down to the one that is being listed or emptied.
pub open spec fn open_listings(s: State) -> nat {
    match s.phase {
        Phase::Listing | Phase::MergeListing | Phase::MergeProbing | Phase::MergeMoving => {
            s.path.len() + 1
        },
        _ => s.path.len(),
    }
}

/// A walk begins in a state that it can be in, and every step leads to such
/// a state again.
pub proof fn law_states_stay_valid(s: State, e: Event)
    requires
        inv(s),
        accepts(s, e),
    ensures
        inv(initial()),
        inv(next(s, e).0),
{
}

/// An entry whose name is already normalized is left as it is: be it a file
/// or a directory, processing its name asks for nothing but the next entry
/// beside it.
pub proof fn law_normalized_name_is_kept(path: Path)
    requires
        path.len() > 0,
        is_nfc(path.last()),
    ensures
        process_file(path) == resume(path),
        process_dir(path) == resume(path),
        !changes(resume(path).1),
{
}

/// No step changes anything but on behalf of an entry whose name is not
/// normalized: what is renamed or removed is the entry at hand or, in a
/// merge, an entry directly in it. So no directory above the entry at hand
/// is renamed while the walk is below it, and the root never is.
pub proof fn law_change_needs_unnormalized_name(s: State, e: Event)
    requires
        inv(s),
        accepts(s, e),
        changes(next(s, e).1),
    ensures
        s.path.len() > 0,
        !is_nfc(s.path.last()),
        touched(next(s, e).1) == s.path || touched(next(s, e).1).drop_last() == s.path,
        touched(next(s, e).1).len() > 0,
{
    if s.phase == Phase::MergeProbing {
        assert(s.path.push(s.moving.unwrap()).drop_last() =~= s.path);
    }
}

/// What a rename asks for: the name of the entry at hand gives way to its
/// normal form, and no other name on the path changes. In a merge the entry
/// that moves keeps its own name.
pub proof fn law_rename_normalizes_one_name(s: State, e: Event)
    requires
        inv(s),
        accepts(s, e),
        next(s, e).1 is Rename,
    ensures
        ({
            let from = next(s, e).1->Rename_0;
            let to = next(s, e).1->Rename_1;
            let at = s.path.len() - 1;
            &&& from.len() == to.len()
            &&& 0 <= at < from.len()
            &&& from.take(at + 1) == s.path
            &&& to.take(at + 1) == normal_sibling(s.path)
            &&& from.skip(at + 1) == to.skip(at + 1)
        }),
{
    let from = next(s, e).1->Rename_0;
    let to = next(s, e).1->Rename_1;
    let at = s.path.len() - 1;
    assert(from.take(at + 1) =~= s.path);
    assert(to.take(at + 1) =~= normal_sibling(s.path));
    assert(from.skip(at + 1) =~= to.skip(at + 1));
}

/// Where a walk stands tells what it is waiting to hear of: as long as the
/// walk goes on, the request that a step answers with is the one that the
/// new state stands for. So whenever the walk comes to wait for an answer on
/// a name, what it has asked is whether the place in question exists.
pub proof fn law_state_tells_what_was_asked(s: State, e: Event)
    requires
        inv(s),
        accepts(s, e),
    ensures
        next(s, e).0.phase != Phase::Finished ==> next(s, e).1 == asked(next(s, e).0),
        probing(next(s, e).0) ==> next(s, e).1 == Request::Exists(probed(next(s, e).0)),
{
}

/// Nothing is renamed onto a name that is taken. A rename is asked for only
/// in answer to the word that nothing exists at a path, and that path, which
/// the step before has asked about, is the place that the rename leads to.
/// This holds of a file, of a directory and of each entry that a merge moves.
pub proof fn law_rename_follows_probe(s: State, e: Event, answer: Event)
    requires
        inv(s),
        accepts(s, e),
        accepts(next(s, e).0, answer),
        next(next(s, e).0, answer).1 is Rename,
    ensures
        probed_first(next(next(s, e).0, answer).1, answer, next(s, e).1),
{
}

/// Where the place of a file, or of an entry that a merge is to move, is
/// taken, the walk ends there. Its last word names the place and asks for no
/// change: the entry stays where it is, what stands in its place is not
/// touched, and a directory that was being emptied is not removed.
pub proof fn law_taken_name_ends_walk(s: State, e: Event)
    requires
        inv(s),
        s.phase == Phase::FileProbing || s.phase == Phase::MergeProbing,
    ensures
        next(s, Event::Answer(true)) == (
            at(Phase::Finished, s.path),
            Request::Collision(probed(s), ancestry(s.path)),
        ),
        !accepts(next(s, Event::Answer(true)).0, e),
{
}

/// The paths that a request hands over for the report, if it ends the walk.
pub open spec fn contexts(r: Request) -> Seq<Path> {
    match r {
        Request::Abort(contexts) => contexts,
        Request::Collision(_, contexts) => contexts,
        _ => Seq::empty(),
    }
}

/// However a walk is given up, the report runs from the path at hand up to
/// the root. Its first path is the one that was being processed; each path
/// after it is the one before it or the directory that holds that one; and
/// its last path is the root, which is named there and nowhere else.
pub proof fn law_report_runs_up_to_the_root(s: State, e: Event)
    requires
        inv(s),
        accepts(s, e),
        next(s, e).1 is Abort || next(s, e).1 is Collision,
    ensures
        ({
            let chain = contexts(next(s, e).1);
            &&& chain.len() > s.path.len()
            &&& chain.first() == s.path
            &&& chain.last() == Seq::<Seq<char>>::empty()
            &&& forall|i: int| 0 <= i < chain.len() - 1 ==> (#[trigger] chain[i]).len() > 0
            &&& forall|i: int|
                0 < i < chain.len() ==> #[trigger] chain[i] == chain[i - 1] || chain[i]
                    == chain[i - 1].drop_last()
        }),
{
    let chain = contexts(next(s, e).1);
    let up = ancestry(s.path);
    assert(up.first() =~= s.path);
    assert(up.last() =~= Seq::<Seq<char>>::empty());
    assert forall|i: int| 0 < i < up.len() implies #[trigger] up[i] == up[i - 1].drop_last() by {
        assert(up[i] =~= up[i - 1].drop_last());
    }
    if chain != up {
        assert(chain == seq![s.path] + up);
        assert forall|i: int| 0 < i < chain.len() implies #[trigger] chain[i] == chain[i - 1]
            || chain[i] == chain[i - 1].drop_last() by {
            if i > 1 {
                assert(chain[i] == up[i - 1]);
                assert(chain[i - 1] == up[i - 2]);
            }
        }
    }
}

/// A directory that is being emptied is removed only when its listing has
/// ended, and its listing is read on only after a directory was opened or an
/// entry has moved. So every entry that was listed has moved by then.
pub proof fn law_removal_follows_moves(s: State, e: Event)
    requires
        inv(s),
        accepts(s, e),
    ensures
        next(s, e).1 is RemoveDir ==> s.phase == Phase::MergeListing && e is End && next(
            s,
            e,
        ).1 == Request::RemoveDir(s.path),
        next(s, e).0.phase == Phase::MergeListing ==> (s.phase == Phase::MergeOpening || s.phase
            == Phase::MergeMoving) && e is Done,
        next(s, e).0.phase == Phase::MergeMoving ==> s.phase == Phase::MergeProbing && e
            == Event::Answer(false),
{
}

/// Listings nest. While the walk goes on, one more listing is open after a
/// directory was opened, one less after a listing ended, and as many as
/// before after any other step. The next entry is asked for only while a
/// listing is open, and the walk ends well only as the last one closes.
pub proof fn law_listings_nest(s: State, e: Event)
    requires
        inv(s),
        accepts(s, e),
    ensures
        next(s, e).0.phase != Phase::Finished ==> open_listings(next(s, e).0) == open_listings(s)
            + (if (s.phase == Phase::Opening || s.phase == Phase::MergeOpening) && e is Done {
            1int
        } else {
            0int
        }) - (if e is End {
            1int
        } else {
            0int
        }),
        next(s, e).1 is NextEntry ==> open_listings(next(s, e).0) > 0,
        next(s, e).1 is Finish ==> e is End && open_listings(s) == 1,
{
}

/// The name of a directory is looked at only when its listing has ended:
/// the walk comes to probe for a directory's normal form from nowhere but
/// the end of that directory's own entries.
pub proof fn law_directory_follows_its_entries(s: State, e: Event)
    requires
        inv(s),
        accepts(s, e),
        next(s, e).0.phase == Phase::DirProbing,
    ensures
        s.phase == Phase::Listing,
        e is End,
        next(s, e).0.path == s.path,
{
}

/// A walk that meets normalized names only stays among such names.
pub proof fn law_settled_stays_settled(s: State, e: Event)
    requires
        settled(s),
        accepts(s, e),
        reports_normalized(e),
    ensures
        settled(next(s, e).0),
        !changes(next(s, e).1),
{
}

/// Every event is answered by one request.
pub proof fn law_one_reply_each(s: State, events: Seq<Event>)
    ensures
        replies(s, events).len() == events.len(),
    decreases events.len(),
{
    if events.len() > 0 {
        law_one_reply_each(next(s, events.first()).0, events.drop_first());
    }
}

/// A tree in which every name is normalized is left alone: however the walk
/// goes, as long as every name that is listed is normalized, not one request
/// renames or removes anything. So a second walk over a tree that the first
/// one has normalized changes nothing.
pub proof fn law_normalized_tree_is_left_alone(s: State, events: Seq<Event>)
    requires
        settled(s),
        in_turn(s, events),
        forall|i: int| 0 <= i < events.len() ==> reports_normalized(#[trigger] events[i]),
    ensures
        settled(initial()),
        replies(s, events).len() == events.len(),
        forall|i: int| 0 <= i < events.len() ==> !changes(#[trigger] replies(s, events)[i]),
    decreases events.len(),
{
    law_one_reply_each(s, events);
    if events.len() > 0 {
        let e = events.first();
        let rest = events.drop_first();
        law_settled_stays_settled(s, e);
        assert forall|i: int| 0 <= i < rest.len() implies reports_normalized(
            #[trigger] rest[i],
        ) by {
            assert(rest[i] == events[i + 1]);
        }
        law_normalized_tree_is_left_alone(next(s, e).0, rest);
        assert forall|i: int| 0 <= i < events.len() implies !changes(
            #[trigger] replies(s, events)[i],
        ) by {
            if i > 0 {
                assert(replies(s, events)[i] == replies(next(s, e).0, rest)[i - 1]);
            }
        }
    }
}

/// The request that `events[i]` answers: the reply to the event before it,
/// or `before` for the first event.
pub open spec fn answered(s: State, before: Request, events: Seq<Event>, i: int) -> Request {
    if i == 0 {
        before
    } else {
        replies(s, events)[i - 1]
    }
}

/// In a walk that goes on from state `s`, which `before` has led to, every
/// rename was probed for first.
proof fn lemma_renames_were_probed(s: State, before: Request, events: Seq<Event>)
    requires
        inv(s),
        probing(s) ==> before == Request::Exists(probed(s)),
        in_turn(s, events),
    ensures
        forall|i: int|
            0 <= i < events.len() ==> probed_first(
                #[trigger] replies(s, events)[i],
                events[i],
                answered(s, before, events, i),
            ),
    decreases events.len(),
{
    law_one_reply_each(s, events);
    if events.len() > 0 {
        let e = events.first();
        let rest = events.drop_first();
        let after = next(s, e).0;
        let reply = next(s, e).1;
        lemma_probe_or_none(s, e);
        lemma_renames_were_probed(after, reply, rest);
        law_one_reply_each(after, rest);
        assert forall|i: int| 0 <= i < events.len() implies probed_first(
            #[trigger] replies(s, events)[i],
            events[i],
            answered(s, before, events, i),
        ) by {
            if i > 0 {
                assert(replies(s, events)[i] == replies(after, rest)[i - 1]);
                assert(events[i] == rest[i - 1]);
                assert(answered(s, before, events, i) == answered(after, reply, rest, i - 1));
                assert(probed_first(
                    replies(after, rest)[i - 1],
                    rest[i - 1],
                    answered(after, reply, rest, i - 1),
                ));
            }
        }
    }
}

/// A step keeps the walk valid, and where it leads to a wait on a name it
/// has asked about the place in question.
proof fn lemma_probe_or_none(s: State, e: Event)
    requires
        inv(s),
        accepts(s, e),
    ensures
        inv(next(s, e).0),
        probing(next(s, e).0) ==> next(s, e).1 == Request::Exists(probed(next(s, e).0)),
{
}

/// From the first step of a walk to its last, nothing is renamed onto a name
/// that is taken: each rename answers the word that nothing exists at a
/// path, and the request just before it has asked that of the very place
/// that the rename leads to.
pub proof fn law_every_rename_was_probed(events: Seq<Event>)
    requires
        in_turn(initial(), events),
    ensures
        replies(initial(), events).len() == events.len(),
        forall|i: int|
            0 <= i < events.len() && (#[trigger] replies(initial(), events)[i]) is Rename ==> i > 0
                && probed_first(
                replies(initial(), events)[i],
                events[i],
                replies(initial(), events)[i - 1],
            ),
{
    law_one_reply_each(initial(), events);
    lemma_renames_were_probed(initial(), Request::Finish, events);
    assert forall|i: int|
        0 <= i < events.len() && (#[trigger] replies(initial(), events)[i]) is Rename implies i > 0
        && probed_first(
        replies(initial(), events)[i],
        events[i],
        replies(initial(), events)[i - 1],
    ) by {
        assert(probed_first(
            replies(initial(), events)[i],
            events[i],
            answered(initial(), Request::Finish, events, i),
        ));
    }
}

/// What is reported while a merge moves `children` one after the other: each
/// is listed, its place is found free, and its move succeeds.
pub open spec fn moved(children: Seq<String>) -> Seq<Event>
    decreases children.len(),
{
    if children.len() == 0 {
        Seq::empty()
    } else {
        seq![Event::Entry(children.first()), Event::Answer(false), Event::Done] + moved(
            children.drop_first(),
        )
    }
}

/// What the merge of the directory at `path` asks for to move `children`:
/// for each of them whether its place is taken, then its move, then the next
/// entry.
pub open spec fn moves(path: Path, children: Seq<String>) -> Seq<Request>
    decreases children.len(),
{
    if children.len() == 0 {
        Seq::empty()
    } else {
        let to = destination(path, nfc_of(path.last()), children.first()@);
        seq![
            Request::Exists(to),
            Request::Rename(path.push(children.first()@), to),
            Request::NextEntry,
        ] + moves(path, children.drop_first())
    }
}

/// The first event of a sequence is answered by `next`, and the walk goes on
/// from there with the rest.
proof fn lemma_first_step(s: State, e: Event, rest: Seq<Event>)
    ensures
        in_turn(s, seq![e] + rest) == (accepts(s, e) && in_turn(next(s, e).0, rest)),
        replies(s, seq![e] + rest) == seq![next(s, e).1] + replies(next(s, e).0, rest),
{
    assert((seq![e] + rest).first() == e);
    assert((seq![e] + rest).drop_first() =~= rest);
}

/// A merge moves the entries in the order in which they are listed, however
/// many there are: while each place is free and each move succeeds, the
/// merge asks for just these moves, and then goes on with whatever follows
/// as if it had just begun to list.
pub proof fn law_merge_moves_in_order(path: Path, children: Seq<String>, rest: Seq<Event>)
    requires
        path.len() > 0,
        !is_nfc(path.last()),
    ensures
        in_turn(at(Phase::MergeListing, path), moved(children) + rest) == in_turn(
            at(Phase::MergeListing, path),
            rest,
        ),
        replies(at(Phase::MergeListing, path), moved(children) + rest) == moves(path, children)
            + replies(at(Phase::MergeListing, path), rest),
    decreases children.len(),
{
    let listing = at(Phase::MergeListing, path);
    if children.len() == 0 {
        assert(moved(children) + rest =~= rest);
        assert(moves(path, children) + replies(listing, rest) =~= replies(listing, rest));
    } else {
        let name = children.first();
        let to = destination(path, nfc_of(path.last()), name@);
        let later = moved(children.drop_first()) + rest;
        let probing = State { phase: Phase::MergeProbing, path, moving: Some(name@) };
        let moving = State { phase: Phase::MergeMoving, path, moving: Some(name@) };
        assert(moved(children) + rest =~= seq![Event::Entry(name)] + (seq![Event::Answer(false)]
            + (seq![Event::Done] + later)));
        lemma_first_step(
            listing,
            Event::Entry(name),
            seq![Event::Answer(false)] + (seq![Event::Done] + later),
        );
        lemma_first_step(probing, Event::Answer(false), seq![Event::Done] + later);
        lemma_first_step(moving, Event::Done, later);
        law_merge_moves_in_order(path, children.drop_first(), rest);
        assert(moves(path, children) + replies(listing, rest) =~= seq![Request::Exists(to)] + (
        seq![Request::Rename(path.push(name@), to)] + (seq![Request::NextEntry] + (moves(
            path,
            children.drop_first(),
        ) + replies(listing, rest)))));
    }
}

/// A merge that meets no taken place moves every entry and then removes the
/// emptied directory. With every move and the removal done, the walk goes on
/// beside that directory.
pub proof fn law_merge_empties_then_removes(path: Path, children: Seq<String>)
    requires
        path.len() > 0,
        !is_nfc(path.last()),
    ensures
        in_turn(at(Phase::MergeListing, path), moved(children) + seq![Event::End, Event::Done]),
        replies(at(Phase::MergeListing, path), moved(children) + seq![Event::End, Event::Done])
            == moves(path, children) + seq![Request::RemoveDir(path), Request::NextEntry],
{
    let listing = at(Phase::MergeListing, path);
    let removing = at(Phase::MergeRemoving, path);
    let tail = seq![Event::End, Event::Done];
    law_merge_moves_in_order(path, children, tail);
    assert(tail =~= seq![Event::End] + seq![Event::Done]);
    lemma_first_step(listing, Event::End, seq![Event::Done]);
    assert(seq![Event::Done] =~= seq![Event::Done] + Seq::<Event>::empty());
    lemma_first_step(removing, Event::Done, Seq::empty());
    assert(replies(listing, tail) =~= seq![Request::RemoveDir(path), Request::NextEntry]);
}

/// A merge ends at the first entry whose place is taken. The entries before
/// it have moved and stay moved. The entry itself is asked about and nothing
/// more: neither its move nor the removal of the directory is asked for, and
/// the walk is over.
pub proof fn law_merge_stops_at_taken_place(path: Path, children: Seq<String>, blocked: String)
    requires
        path.len() > 0,
        !is_nfc(path.last()),
    ensures
        in_turn(
            at(Phase::MergeListing, path),
            moved(children) + seq![Event::Entry(blocked), Event::Answer(true)],
        ),
        replies(
            at(Phase::MergeListing, path),
            moved(children) + seq![Event::Entry(blocked), Event::Answer(true)],
        ) == moves(path, children) + seq![
            Request::Exists(destination(path, nfc_of(path.last()), blocked@)),
            Request::Collision(
                destination(path, nfc_of(path.last()), blocked@),
                ancestry(path),
            ),
        ],
{
    let listing = at(Phase::MergeListing, path);
    let probing = State { phase: Phase::MergeProbing, path, moving: Some(blocked@) };
    let tail = seq![Event::Entry(blocked), Event::Answer(true)];
    let to = destination(path, nfc_of(path.last()), blocked@);
    law_merge_moves_in_order(path, children, tail);
    assert(tail =~= seq![Event::Entry(blocked)] + seq![Event::Answer(true)]);
    lemma_first_step(listing, Event::Entry(blocked), seq![Event::Answer(true)]);
    assert(seq![Event::Answer(true)] =~= seq![Event::Answer(true)] + Seq::<Event>::empty());
    lemma_first_step(probing, Event::Answer(true), Seq::empty());
    assert(replies(listing, tail) =~= seq![
        Request::Exists(to),
        Request::Collision(to, ancestry(path)),
    ]);
}

} // verus!
