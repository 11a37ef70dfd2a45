//! A model of the directory tree, and what a walk makes of it.
//!
//! The library never sees a filesystem. To say what a walk achieves, this
//! module describes one: a tree as the set of its paths, what each request
//! does to it, and what a caller that carries the requests out on it may
//! report. The laws at the end are about every walk over every such tree.

use crate::action::{Event, Request};
use crate::laws::{
    changes, law_one_reply_each, law_settled_stays_settled, open_listings, replies,
    reports_normalized, settled,
};
use crate::normalize::{is_nfc, nfc_of};
use crate::path::{normal_sibling, Path};
use crate::walk::{accepts, asked, initial, inv, next, Phase, State};
use vstd::prelude::*;

verus! {

/// `p` is `q` or a directory on the way to `q`.
pub open spec fn under(p: Path, q: Path) -> bool {
    p.len() <= q.len() && q.take(p.len() as int) == p
}

/// `p` is a directory on the way to `q`.
pub open spec fn below(p: Path, q: Path) -> bool {
    p.len() < q.len() && q.take(p.len() as int) == p
}

/// Whether `q` is among `paths` once what stood at `from` stands at `to`:
/// either it was there and had no part in the move, or it is the new place
/// of a path that was at `from` or below it.
pub open spec fn lands(paths: Set<Path>, from: Path, to: Path, q: Path) -> bool {
    ||| paths.contains(q) && !under(from, q) && !under(to, q)
    ||| under(to, q) && paths.contains(from + q.skip(to.len() as int))
}

/// A directory tree: the paths of all its entries, and which of them are
/// directories. Paths count from the root of the walk, which is the empty
/// path.
pub struct Tree {
    pub all: Set<Path>,
    pub dirs: Set<Path>,
}

impl Tree {
    /// Every directory is an entry, and every entry lies in a directory.
    pub open spec fn wf(self) -> bool {
        &&& forall|q: Path| #[trigger] self.dirs.contains(q) ==> self.all.contains(q)
        &&& forall|q: Path, m: int|
            self.all.contains(q) && 0 <= m < q.len() ==> self.dirs.contains(#[trigger] q.take(m))
    }

    /// Every entry below `p` has a normalized name.
    pub open spec fn tidy(self, p: Path) -> bool {
        forall|q: Path| #[trigger] self.all.contains(q) && below(p, q) ==> is_nfc(q.last())
    }

    /// The names of the entries of the directory `d`.
    pub open spec fn children(self, d: Path) -> Set<Seq<char>> {
        Set::new(|n: Seq<char>| self.all.contains(d.push(n)))
    }

    /// The tree after the entry at `from` was renamed to `to`, with all that
    /// is below it.
    pub open spec fn renamed(self, from: Path, to: Path) -> Tree {
        Tree {
            all: Set::new(|q: Path| lands(self.all, from, to, q)),
            dirs: Set::new(|q: Path| lands(self.dirs, from, to, q)),
        }
    }

    /// The tree after the directory at `p` was removed.
    pub open spec fn removed(self, p: Path) -> Tree {
        Tree { all: self.all.remove(p), dirs: self.dirs.remove(p) }
    }

    /// A rename of `from` to `to` can succeed: the entry exists, the new
    /// place lies in a directory, and it is not inside the entry itself.
    pub open spec fn can_rename(self, from: Path, to: Path) -> bool {
        &&& self.all.contains(from)
        &&& from.len() > 0
        &&& to.len() > 0
        &&& self.dirs.contains(to.drop_last())
        &&& !under(from, to)
    }

    /// The directory at `p` can be removed: it is one, and it is empty.
    pub open spec fn can_remove(self, p: Path) -> bool {
        &&& self.dirs.contains(p)
        &&& forall|q: Path| #[trigger] self.all.contains(q) ==> !below(p, q)
    }
}

/// A prefix of a prefix is a prefix.
proof fn lemma_take_take(q: Path, a: int, b: int)
    requires
        0 <= a <= b <= q.len(),
    ensures
        q.take(b).take(a) == q.take(a),
{
    assert(q.take(b).take(a) =~= q.take(a));
}

/// What a path under `p` starts with, a path that starts with it is under
/// `p` too.
proof fn lemma_under_prefix(p: Path, q: Path, m: int)
    requires
        0 <= m <= q.len(),
        under(p, q.take(m)),
    ensures
        under(p, q),
{
    lemma_take_take(q, p.len() as int, m);
}

/// A path is its first names followed by the rest.
proof fn lemma_split(q: Path, k: int)
    requires
        0 <= k <= q.len(),
    ensures
        q.take(k) + q.skip(k) == q,
{
    assert(q.take(k) + q.skip(k) =~= q);
}

/// A rename to a free place in a directory leaves a tree a tree.
proof fn lemma_renamed_wf(tree: Tree, from: Path, to: Path)
    requires
        tree.wf(),
        tree.can_rename(from, to),
        !tree.all.contains(to),
    ensures
        tree.renamed(from, to).wf(),
{
    let after = tree.renamed(from, to);
    let l = to.len() as int;
    assert forall|q: Path| #[trigger] after.dirs.contains(q) implies after.all.contains(q) by {}
    assert forall|q: Path, m: int| after.all.contains(q) && 0 <= m < q.len() implies after.dirs.contains(
        #[trigger] q.take(m),
    ) by {
        let head = q.take(m);
        if under(to, q) && tree.all.contains(from + q.skip(l)) {
            let old = from + q.skip(l);
            if m >= l {
                lemma_take_take(q, l, m);
                assert(from + head.skip(l) =~= old.take(from.len() + m - l));
                assert(tree.dirs.contains(old.take(from.len() + m - l)));
            } else {
                lemma_take_take(q, m, l);
                assert(head == to.take(m));
                lemma_take_take(to, m, l - 1);
                assert(to.drop_last() =~= to.take(l - 1));
                if m < l - 1 {
                    assert(tree.all.contains(to.drop_last()));
                    assert(tree.dirs.contains(to.drop_last().take(m)));
                }
                assert(tree.dirs.contains(head));
                if under(from, head) {
                    lemma_under_prefix(from, to, m);
                }
                assert(!under(to, head));
            }
        } else {
            assert(tree.all.contains(q));
            assert(tree.dirs.contains(head));
            if under(from, head) {
                lemma_under_prefix(from, q, m);
            }
            if under(to, head) {
                lemma_under_prefix(to, q, m);
            }
        }
    }
}

/// Paths that agree on their first `k` names and on the next one agree on
/// their first `k + 1` names, and the other way round.
proof fn lemma_extend(q: Path, p: Path, k: int)
    requires
        0 <= k < q.len(),
        k < p.len(),
    ensures
        (q.take(k) == p.take(k) && q[k] == p[k]) <==> q.take(k + 1) == p.take(k + 1),
{
    assert(q.take(k + 1) =~= q.take(k).push(q[k]));
    assert(p.take(k + 1) =~= p.take(k).push(p[k]));
    if q.take(k + 1) == p.take(k + 1) {
        lemma_take_take(q, k, k + 1);
        lemma_take_take(p, k, k + 1);
        assert(q.take(k + 1)[k] == p.take(k + 1)[k]);
    }
}

/// A walk over a tree: where the walker stands, the tree as it is now, and
/// for each open listing the names that it has yet to yield, the listing of
/// the root first.
pub struct World {
    pub state: State,
    pub tree: Tree,
    pub listings: Seq<Set<Seq<char>>>,
}

/// The beginning of a walk over `tree`.
pub open spec fn start(tree: Tree) -> World {
    World { state: initial(), tree, listings: Seq::empty() }
}

/// What a caller may report that carries out on the tree what the walker
/// has asked for. Any operation may fail. One that succeeds has found what
/// it needs, and an answer says what the tree holds. A listing yields, in
/// any order, names that the directory held when it was opened or holds now,
/// and it ends only when it has yielded every name that it held when it was
/// opened.
pub open spec fn honest(w: World, e: Event) -> bool {
    match asked(w.state) {
        Request::OpenDir(d) => e is Failed || (e is Done && w.tree.dirs.contains(d)),
        Request::NextEntry => match e {
            Event::Entry(name) => w.listings.last().contains(name@) || w.tree.all.contains(
                w.state.path.push(name@),
            ),
            Event::End => forall|n: Seq<char>| !w.listings.last().contains(n),
            Event::Failed => true,
            _ => false,
        },
        Request::IsDir(p) => e == Event::Answer(w.tree.dirs.contains(p)),
        Request::Exists(p) => e == Event::Answer(w.tree.all.contains(p)),
        Request::Rename(from, to) => e is Failed || (e is Done && w.tree.can_rename(from, to)),
        Request::RemoveDir(p) => e is Failed || (e is Done && w.tree.can_remove(p)),
        _ => false,
    }
}

/// The walk after `e` was reported: the walker has taken its step, and the
/// tree and the listings are as the operation has left them. An operation
/// that failed has changed nothing.
pub open spec fn after(w: World, e: Event) -> World {
    let state = next(w.state, e).0;
    match (asked(w.state), e) {
        (Request::OpenDir(d), Event::Done) => World {
            state,
            tree: w.tree,
            listings: w.listings.push(w.tree.children(d)),
        },
        (Request::NextEntry, Event::Entry(name)) => World {
            state,
            tree: w.tree,
            listings: w.listings.update(w.listings.len() - 1, w.listings.last().remove(name@)),
        },
        (Request::NextEntry, Event::End) => World {
            state,
            tree: w.tree,
            listings: w.listings.drop_last(),
        },
        (Request::Rename(from, to), Event::Done) => World {
            state,
            tree: w.tree.renamed(from, to),
            listings: w.listings,
        },
        (Request::RemoveDir(p), Event::Done) => World {
            state,
            tree: w.tree.removed(p),
            listings: w.listings,
        },
        _ => World { state, tree: w.tree, listings: w.listings },
    }
}

/// In the directory whose listing is the `j`th, every entry that the
/// listing has yielded and that the walk is not at or below has a
/// normalized name, and so has everything below such an entry.
pub open spec fn level_done(all: Set<Path>, pending: Set<Seq<char>>, path: Path, j: int) -> bool {
    forall|q: Path|
        #[trigger] all.contains(q) && q.len() > j && q.take(j) == path.take(j) && !pending.contains(
            q[j],
        ) && !(j < path.len() && q[j] == path[j]) ==> is_nfc(q.last())
}

/// The walk has looked at everything below the entry at hand.
pub open spec fn past_scan(phase: Phase) -> bool {
    phase != Phase::Opening && phase != Phase::Listing && phase != Phase::Kind && phase
        != Phase::Finished
}

/// A directory is being emptied into the one with its normalized name.
pub open spec fn merging(phase: Phase) -> bool {
    phase == Phase::MergeOpening || phase == Phase::MergeListing || phase == Phase::MergeProbing
        || phase == Phase::MergeMoving || phase == Phase::MergeRemoving
}

/// What holds of a walk over a tree at every step: the walker and the tree
/// are valid, there is one listing for each directory from the root to where
/// the walk stands, what the walk has dealt with is normalized, a place that
/// a rename leads to was found free, and a merge has somewhere to go.
pub open spec fn orderly(w: World) -> bool {
    &&& inv(w.state)
    &&& w.tree.wf()
    &&& w.state.phase != Phase::Finished ==> {
        &&& w.listings.len() == open_listings(w.state)
        &&& forall|j: int|
            0 <= j < w.listings.len() ==> level_done(
                w.tree.all,
                #[trigger] w.listings[j],
                w.state.path,
                j,
            )
        &&& past_scan(w.state.phase) ==> w.tree.tidy(w.state.path)
        &&& asked(w.state) matches Request::Rename(_, to) ==> !w.tree.all.contains(to)
        &&& merging(w.state.phase) ==> w.tree.all.contains(normal_sibling(w.state.path))
    }
}

/// Where the walker has asked for a rename or a removal, the normal form of
/// the name at hand is itself normalized. `Walker::step` ensures this of
/// every rename and every removal that it asks for.
pub open spec fn composed(w: World) -> bool {
    changes(asked(w.state)) ==> is_nfc(nfc_of(w.state.path.last()))
}

/// A directory is opened: a listing of its entries is added.
proof fn lemma_opened(w: World)
    requires
        orderly(w),
        w.state.phase == Phase::Opening || w.state.phase == Phase::MergeOpening,
        honest(w, Event::Done),
    ensures
        orderly(after(w, Event::Done)),
{
    let v = after(w, Event::Done);
    let path = w.state.path;
    let k = w.listings.len() as int;
    assert(v.state.path == path);
    assert forall|j: int| 0 <= j < v.listings.len() implies level_done(
        v.tree.all,
        #[trigger] v.listings[j],
        v.state.path,
        j,
    ) by {
        if j < k {
            assert(v.listings[j] == w.listings[j]);
            assert(level_done(w.tree.all, w.listings[j], path, j));
        } else {
            assert forall|q: Path|
                #[trigger] v.tree.all.contains(q) && q.len() > j && q.take(j) == path.take(j)
                    && !v.listings[j].contains(q[j]) && !(j < path.len() && q[j]
                    == path[j]) implies is_nfc(q.last()) by {
                assert(path.take(j) =~= path);
                assert(q.take(j + 1) =~= path.push(q[j]));
                if j + 1 < q.len() {
                    assert(w.tree.dirs.contains(q.take(j + 1)));
                } else {
                    assert(q.take(j + 1) =~= q);
                }
                assert(w.tree.children(path).contains(q[j]));
            }
        }
    }
}

/// A level that is done stays done while the walk stands at another path
/// that leads through the same directory and the same entry of it.
proof fn lemma_level_kept(all: Set<Path>, pending: Set<Seq<char>>, old: Path, new: Path, j: int)
    requires
        level_done(all, pending, old, j),
        0 <= j <= old.len(),
        j <= new.len(),
        old.take(j) == new.take(j),
        j < old.len() ==> j < new.len() && old[j] == new[j],
    ensures
        level_done(all, pending, new, j),
{
}

/// Once the entry at hand and all below it are normalized, the level of the
/// directory that holds it is done with nothing left out.
proof fn lemma_level_resumed(all: Set<Path>, pending: Set<Seq<char>>, path: Path)
    requires
        path.len() > 0,
        level_done(all, pending, path, path.len() - 1),
        forall|q: Path| #[trigger] all.contains(q) && under(path, q) ==> is_nfc(q.last()),
    ensures
        level_done(all, pending, path.drop_last(), path.len() - 1),
{
    let k = path.len() - 1;
    let d = path.drop_last();
    assert(d.take(k) =~= path.take(k));
    assert forall|q: Path|
        #[trigger] all.contains(q) && q.len() > k && q.take(k) == d.take(k) && !pending.contains(
            q[k],
        ) && !(k < d.len() && q[k] == d[k]) implies is_nfc(q.last()) by {
        if q[k] == path[k] {
            lemma_extend(q, path, k);
            assert(path.take(k + 1) =~= path);
            assert(under(path, q));
        }
    }
}

/// The levels above the directory that holds the entry at hand, after the
/// walk has left the entry.
proof fn lemma_levels_above(w: World, v: World)
    requires
        orderly(w),
        w.state.phase != Phase::Finished,
        w.state.path.len() > 0,
        v.state.path == w.state.path.drop_last(),
        v.tree.all == w.tree.all,
    ensures
        forall|j: int|
            0 <= j < w.state.path.len() - 1 && j < w.listings.len() ==> level_done(
                v.tree.all,
                #[trigger] w.listings[j],
                v.state.path,
                j,
            ),
{
    let path = w.state.path;
    let d = path.drop_last();
    assert forall|j: int| 0 <= j < path.len() - 1 && j < w.listings.len() implies level_done(
        v.tree.all,
        #[trigger] w.listings[j],
        v.state.path,
        j,
    ) by {
        assert(level_done(w.tree.all, w.listings[j], path, j));
        assert(d.take(j) =~= path.take(j));
        lemma_level_kept(w.tree.all, w.listings[j], path, d, j);
    }
}

/// A listing of a walk yields a name: the walk turns to that entry.
proof fn lemma_listed(w: World, e: Event)
    requires
        orderly(w),
        w.state.phase == Phase::Listing,
        e is Entry,
        honest(w, e),
    ensures
        orderly(after(w, e)),
{
    let v = after(w, e);
    let path = w.state.path;
    let name = e->Entry_0@;
    let k = path.len() as int;
    assert(v.state.path == path.push(name));
    assert forall|j: int| 0 <= j < v.listings.len() implies level_done(
        v.tree.all,
        #[trigger] v.listings[j],
        v.state.path,
        j,
    ) by {
        assert(level_done(w.tree.all, w.listings[j], path, j));
        assert(v.state.path.take(j) =~= path.take(j));
        if j < k {
            assert(v.listings[j] == w.listings[j]);
            lemma_level_kept(w.tree.all, w.listings[j], path, v.state.path, j);
        } else {
            assert(v.listings[j] == w.listings[j].remove(name));
        }
    }
}

/// The listing of a directory that is being emptied yields a name.
proof fn lemma_merge_listed(w: World, e: Event)
    requires
        orderly(w),
        w.state.phase == Phase::MergeListing,
        e is Entry,
        honest(w, e),
    ensures
        orderly(after(w, e)),
{
    let v = after(w, e);
    let path = w.state.path;
    let k = path.len() as int;
    assert forall|j: int| 0 <= j < v.listings.len() implies level_done(
        v.tree.all,
        #[trigger] v.listings[j],
        v.state.path,
        j,
    ) by {
        if j < k {
            assert(v.listings[j] == w.listings[j]);
            assert(level_done(w.tree.all, w.listings[j], path, j));
        } else {
            lemma_level_tidy(w.tree, v.listings[j], path);
        }
    }
}

/// Below an entry with nothing unnormalized below it, the level is done
/// whatever the listing has yet to yield.
proof fn lemma_level_tidy(tree: Tree, pending: Set<Seq<char>>, path: Path)
    requires
        tree.tidy(path),
    ensures
        level_done(tree.all, pending, path, path.len() as int),
{
    assert(path.take(path.len() as int) =~= path);
}

/// The walk learns whether the entry at hand is a directory.
proof fn lemma_kind(w: World, e: Event)
    requires
        orderly(w),
        w.state.phase == Phase::Kind,
        honest(w, e),
    ensures
        orderly(after(w, e)),
{
    let v = after(w, e);
    let path = w.state.path;
    let k = path.len() - 1;
    if e == Event::Answer(true) {
    } else {
        assert(!w.tree.dirs.contains(path));
        assert forall|q: Path| #[trigger] w.tree.all.contains(q) && below(path, q) implies false by {
            assert(w.tree.dirs.contains(q.take(path.len() as int)));
        }
        if is_nfc(path.last()) {
            assert forall|q: Path| #[trigger] w.tree.all.contains(q) && under(path, q) implies is_nfc(
                q.last(),
            ) by {
                if q.len() == path.len() {
                    assert(q.take(path.len() as int) =~= q);
                } else {
                    assert(below(path, q));
                }
            }
            assert(level_done(w.tree.all, w.listings[k], path, k));
            lemma_level_resumed(w.tree.all, w.listings[k], path);
            lemma_levels_above(w, v);
        } else {
            assert(w.tree.tidy(path));
        }
    }
}

/// The listing of a directory of the walk ends: the walk turns to the
/// directory's own name, or is over if the directory is the root.
proof fn lemma_scan_ended(w: World)
    requires
        orderly(w),
        w.state.phase == Phase::Listing,
        honest(w, Event::End),
    ensures
        orderly(after(w, Event::End)),
        w.state.path.len() == 0 ==> w.tree.tidy(Seq::empty()),
{
    let v = after(w, Event::End);
    let path = w.state.path;
    let k = path.len() as int;
    assert(level_done(w.tree.all, w.listings[k], path, k));
    assert(w.listings[k] == w.listings.last());
    assert(path.take(k) =~= path);
    assert(w.tree.tidy(path));
    if k == 0 {
        assert(path =~= Seq::empty());
    } else {
        assert forall|j: int| 0 <= j < k implies v.listings[j] == w.listings[j] by {}
        if is_nfc(path.last()) {
            assert forall|q: Path| #[trigger] w.tree.all.contains(q) && under(path, q) implies is_nfc(
                q.last(),
            ) by {
                if q.len() == path.len() {
                    assert(q.take(path.len() as int) =~= q);
                } else {
                    assert(below(path, q));
                }
            }
            assert(level_done(w.tree.all, w.listings[k - 1], path, k - 1));
            lemma_level_resumed(w.tree.all, w.listings[k - 1], path);
            lemma_levels_above(w, v);
        } else {
            assert forall|j: int| 0 <= j < v.listings.len() implies level_done(
                v.tree.all,
                #[trigger] v.listings[j],
                v.state.path,
                j,
            ) by {
                assert(level_done(w.tree.all, w.listings[j], path, j));
            }
        }
    }
}

/// The listing of a directory that is being emptied ends.
proof fn lemma_merge_ended(w: World)
    requires
        orderly(w),
        w.state.phase == Phase::MergeListing,
        honest(w, Event::End),
    ensures
        orderly(after(w, Event::End)),
{
    let v = after(w, Event::End);
    assert forall|j: int| 0 <= j < v.listings.len() implies level_done(
        v.tree.all,
        #[trigger] v.listings[j],
        v.state.path,
        j,
    ) by {
        assert(v.listings[j] == w.listings[j]);
        assert(level_done(w.tree.all, w.listings[j], w.state.path, j));
    }
}

/// The walk learns whether a place is taken.
proof fn lemma_probed(w: World, e: Event)
    requires
        orderly(w),
        w.state.phase == Phase::FileProbing || w.state.phase == Phase::DirProbing || w.state.phase
            == Phase::MergeProbing,
        honest(w, e),
    ensures
        orderly(after(w, e)),
{
    let v = after(w, e);
    if v.state.phase != Phase::Finished {
        assert forall|j: int| 0 <= j < v.listings.len() implies level_done(
            v.tree.all,
            #[trigger] v.listings[j],
            v.state.path,
            j,
        ) by {
            assert(level_done(w.tree.all, w.listings[j], w.state.path, j));
        }
    }
}

/// The entry at hand is renamed to its normal form, which was free.
proof fn lemma_renamed(w: World)
    requires
        orderly(w),
        composed(w),
        w.state.phase == Phase::Renaming,
        honest(w, Event::Done),
    ensures
        orderly(after(w, Event::Done)),
{
    let v = after(w, Event::Done);
    let from = w.state.path;
    let k = from.len() - 1;
    let d = from.drop_last();
    let t = nfc_of(from.last());
    let to = d.push(t);
    assert(v.tree == w.tree.renamed(from, to));
    lemma_renamed_wf(w.tree, from, to);
    assert(d.take(k) =~= from.take(k));
    assert(to.take(k) =~= d);
    assert(from.take(k) =~= d);
    assert forall|j: int| 0 <= j < v.listings.len() implies level_done(
        v.tree.all,
        #[trigger] v.listings[j],
        v.state.path,
        j,
    ) by {
        assert(level_done(w.tree.all, w.listings[j], from, j));
        assert(d.take(j) =~= from.take(j));
        assert forall|q: Path|
            #[trigger] v.tree.all.contains(q) && q.len() > j && q.take(j) == d.take(j)
                && !v.listings[j].contains(q[j]) && !(j < d.len() && q[j] == d[j]) implies is_nfc(
            q.last(),
        ) by {
            if under(to, q) && w.tree.all.contains(from + q.skip(to.len() as int)) {
                let old = from + q.skip(to.len() as int);
                lemma_take_take(q, j, k + 1);
                assert(q[j] == to[j]);
                if j < k {
                    assert(to[j] == d[j]);
                } else if q.len() == k + 1 {
                    assert(q.take(k + 1) =~= q);
                    assert(q.last() == t);
                } else {
                    assert(old.take(from.len() as int) =~= from);
                    assert(below(from, old));
                    assert(old.last() == q.last());
                }
            } else {
                assert(w.tree.all.contains(q));
                if j == k && q[k] == from[k] {
                    lemma_extend(q, from, k);
                    assert(from.take(k + 1) =~= from);
                    assert(under(from, q));
                }
            }
        }
    }
}

/// An entry of the directory that is being emptied has moved to its place,
/// which was free.
proof fn lemma_moved(w: World)
    requires
        orderly(w),
        w.state.phase == Phase::MergeMoving,
        honest(w, Event::Done),
    ensures
        orderly(after(w, Event::Done)),
{
    let v = after(w, Event::Done);
    let path = w.state.path;
    let k = path.len() - 1;
    let d = path.drop_last();
    let t = nfc_of(path.last());
    let c = w.state.moving.unwrap();
    let from = path.push(c);
    let to = d.push(t).push(c);
    assert(v.tree == w.tree.renamed(from, to));
    lemma_renamed_wf(w.tree, from, to);
    assert(to.take(k + 1) =~= d.push(t));
    assert(from.take(k + 1) =~= path);
    assert(d.push(t)[k] == t);
    assert(path[k] != t);
    assert(v.tree.all.contains(d.push(t)));
    assert forall|q: Path| #[trigger] v.tree.all.contains(q) && below(path, q) implies is_nfc(
        q.last(),
    ) by {
        if under(to, q) {
            lemma_take_take(q, k + 1, k + 2);
            assert(q.take(k + 1)[k] == path[k]);
            assert(q.take(k + 1)[k] == to.take(k + 1)[k]);
        }
    }
    assert forall|j: int| 0 <= j < v.listings.len() implies level_done(
        v.tree.all,
        #[trigger] v.listings[j],
        v.state.path,
        j,
    ) by {
        if j == k + 1 {
            lemma_level_tidy(v.tree, v.listings[j], path);
        } else {
            assert(level_done(w.tree.all, w.listings[j], path, j));
            assert forall|q: Path|
                #[trigger] v.tree.all.contains(q) && q.len() > j && q.take(j) == path.take(j)
                    && !v.listings[j].contains(q[j]) && !(j < path.len() && q[j]
                    == path[j]) implies is_nfc(q.last()) by {
                if under(to, q) && w.tree.all.contains(from + q.skip(to.len() as int)) {
                    let old = from + q.skip(to.len() as int);
                    lemma_take_take(q, j, k + 2);
                    assert(q[j] == to[j]);
                    if j < k {
                        assert(to[j] == d[j]);
                        assert(d[j] == path[j]);
                    } else {
                        assert(old.take(path.len() as int) =~= path);
                        assert(below(path, old));
                        if q.len() == to.len() {
                            assert(q.take(k + 2) =~= q);
                            assert(old =~= from);
                        }
                        assert(old.last() == q.last());
                    }
                }
            }
        }
    }
}

/// The emptied directory is removed.
proof fn lemma_removed(w: World)
    requires
        orderly(w),
        w.state.phase == Phase::MergeRemoving,
        honest(w, Event::Done),
    ensures
        orderly(after(w, Event::Done)),
{
    let v = after(w, Event::Done);
    let path = w.state.path;
    let k = path.len() - 1;
    let d = path.drop_last();
    assert(v.tree == w.tree.removed(path));
    assert forall|q: Path, m: int| v.tree.all.contains(q) && 0 <= m < q.len() implies v.tree.dirs.contains(
        #[trigger] q.take(m),
    ) by {
        assert(w.tree.dirs.contains(q.take(m)));
        if q.take(m) == path {
            assert(below(path, q));
        }
    }
    assert forall|j: int| 0 <= j < v.listings.len() implies level_done(
        v.tree.all,
        #[trigger] v.listings[j],
        v.state.path,
        j,
    ) by {
        assert(level_done(w.tree.all, w.listings[j], path, j));
        assert(d.take(j) =~= path.take(j));
        assert forall|q: Path|
            #[trigger] v.tree.all.contains(q) && q.len() > j && q.take(j) == d.take(j)
                && !v.listings[j].contains(q[j]) && !(j < d.len() && q[j] == d[j]) implies is_nfc(
            q.last(),
        ) by {
            assert(w.tree.all.contains(q));
            if j == k && q[k] == path[k] {
                lemma_extend(q, path, k);
                assert(path.take(k + 1) =~= path);
                if q.len() == path.len() {
                    assert(q.take(k + 1) =~= q);
                } else {
                    assert(below(path, q));
                }
            }
        }
    }
}

/// As long as its caller reports what the tree holds, a walk stays orderly:
/// what it has dealt with is normalized and stays so, whatever it renames,
/// moves or removes.
pub proof fn law_walk_stays_orderly(w: World, e: Event)
    requires
        orderly(w),
        composed(w),
        honest(w, e),
    ensures
        accepts(w.state, e),
        orderly(after(w, e)),
{
    match w.state.phase {
        Phase::Opening | Phase::MergeOpening => {
            if e is Done {
                lemma_opened(w);
            }
        },
        Phase::Listing => {
            if e is Entry {
                lemma_listed(w, e);
            } else if e is End {
                lemma_scan_ended(w);
            }
        },
        Phase::MergeListing => {
            if e is Entry {
                lemma_merge_listed(w, e);
            } else if e is End {
                lemma_merge_ended(w);
            }
        },
        Phase::Kind => {
            lemma_kind(w, e);
        },
        Phase::FileProbing | Phase::DirProbing | Phase::MergeProbing => {
            lemma_probed(w, e);
        },
        Phase::Renaming => {
            if e is Done {
                lemma_renamed(w);
            }
        },
        Phase::MergeMoving => {
            if e is Done {
                lemma_moved(w);
            }
        },
        Phase::MergeRemoving => {
            if e is Done {
                lemma_removed(w);
            }
        },
        Phase::Finished => {},
    }
}

/// The walk after each of `events` was reported in its turn.
pub open spec fn run(w: World, events: Seq<Event>) -> World
    decreases events.len(),
{
    if events.len() == 0 {
        w
    } else {
        run(after(w, events.first()), events.drop_first())
    }
}

/// Each of `events` is what a caller may report at its turn that carries
/// the walker's requests out on the tree.
pub open spec fn reported(w: World, events: Seq<Event>) -> bool
    decreases events.len(),
{
    events.len() == 0 || (honest(w, events.first()) && reported(
        after(w, events.first()),
        events.drop_first(),
    ))
}

/// At every turn of the run, where a rename was asked for, the normal form
/// that it leads to is normalized.
pub open spec fn composed_along(w: World, events: Seq<Event>) -> bool
    decreases events.len(),
{
    events.len() == 0 || (composed(w) && composed_along(
        after(w, events.first()),
        events.drop_first(),
    ))
}

/// The run ends well: the answer to the last of `events` is that the walk
/// has finished.
pub open spec fn ends_well(w: World, events: Seq<Event>) -> bool {
    events.len() > 0 && replies(w.state, events).last() is Finish
}

/// A walk that has met normalized names only, over a tree in which every
/// name is normalized, with no listing that holds any other name.
pub open spec fn calm(w: World) -> bool {
    &&& settled(w.state)
    &&& w.tree.tidy(Seq::empty())
    &&& w.state.phase != Phase::Finished ==> w.listings.len() == open_listings(w.state)
    &&& forall|j: int, n: Seq<char>|
        0 <= j < w.listings.len() && #[trigger] w.listings[j].contains(n) ==> is_nfc(n)
}

/// The reply to the last event of a run is the reply to the last event of
/// what follows the first.
proof fn lemma_last_reply(s: State, events: Seq<Event>)
    requires
        events.len() > 1,
    ensures
        replies(s, events).last() == replies(
            next(s, events.first()).0,
            events.drop_first(),
        ).last(),
{
    law_one_reply_each(next(s, events.first()).0, events.drop_first());
}

/// A walk begins orderly on every tree, and calm on one in which every name
/// is normalized.
pub proof fn law_walk_begins_orderly(tree: Tree)
    requires
        tree.wf(),
    ensures
        orderly(start(tree)),
        composed(start(tree)),
        tree.tidy(Seq::empty()) ==> calm(start(tree)),
{
}

/// After a walk that has ended well, every name below the root is
/// normalized. This holds of every tree, of every order in which listings
/// yield their names, and of every course that renames and merges take, as
/// long as the walker was told what the tree held.
pub proof fn law_finished_walk_leaves_names_normalized(w: World, events: Seq<Event>)
    requires
        orderly(w),
        reported(w, events),
        composed_along(w, events),
        ends_well(w, events),
    ensures
        orderly(run(w, events)),
        run(w, events).tree.tidy(Seq::empty()),
    decreases events.len(),
{
    let e = events.first();
    let rest = events.drop_first();
    law_walk_stays_orderly(w, e);
    if rest.len() == 0 {
        assert(replies(w.state, events) =~= seq![next(w.state, e).1]);
        assert(next(w.state, e).1 is Finish);
        assert(w.state.phase == Phase::Listing && e is End && w.state.path.len() == 0);
        lemma_scan_ended(w);
        assert(run(after(w, e), rest) == after(w, e));
    } else {
        lemma_last_reply(w.state, events);
        law_finished_walk_leaves_names_normalized(after(w, e), rest);
    }
}

/// A calm walk stays calm, asks for no change and leaves the tree as it is.
pub proof fn law_calm_walk_stays_calm(w: World, e: Event)
    requires
        calm(w),
        honest(w, e),
    ensures
        accepts(w.state, e),
        reports_normalized(e),
        calm(after(w, e)),
        after(w, e).tree == w.tree,
        !changes(next(w.state, e).1),
{
    let v = after(w, e);
    if let Event::Entry(name) = e {
        let entry = w.state.path.push(name@);
        assert(w.listings.last() == w.listings[w.listings.len() - 1]);
        assert(entry.take(0) =~= Seq::<Seq<char>>::empty());
        assert(below(Seq::<Seq<char>>::empty(), entry));
        assert(entry.last() == name@);
        assert(is_nfc(name@));
    }
    law_settled_stays_settled(w.state, e);
    assert forall|j: int, n: Seq<char>|
        0 <= j < v.listings.len() && #[trigger] v.listings[j].contains(n) implies is_nfc(n) by {
        if j < w.listings.len() {
            assert(w.listings[j].contains(n));
        } else {
            let d = w.state.path;
            assert(w.tree.all.contains(d.push(n)));
            assert(d.push(n).take(0) =~= Seq::<Seq<char>>::empty());
            assert(below(Seq::<Seq<char>>::empty(), d.push(n)));
            assert(d.push(n).last() == n);
        }
    }
}

/// A walk over a tree in which every name is normalized changes nothing:
/// whatever the order of the listings and wherever the walk ends, no request
/// renames, moves or removes anything, and the tree stays as it was.
pub proof fn law_normalized_tree_stays_as_it_is(w: World, events: Seq<Event>)
    requires
        calm(w),
        reported(w, events),
    ensures
        calm(run(w, events)),
        run(w, events).tree == w.tree,
        replies(w.state, events).len() == events.len(),
        forall|i: int| 0 <= i < events.len() ==> !changes(#[trigger] replies(w.state, events)[i]),
    decreases events.len(),
{
    law_one_reply_each(w.state, events);
    if events.len() > 0 {
        let e = events.first();
        let rest = events.drop_first();
        law_calm_walk_stays_calm(w, e);
        law_normalized_tree_stays_as_it_is(after(w, e), rest);
        assert forall|i: int| 0 <= i < events.len() implies !changes(
            #[trigger] replies(w.state, events)[i],
        ) by {
            if i > 0 {
                assert(replies(w.state, events)[i] == replies(after(w, e).state, rest)[i - 1]);
            }
        }
    }
}

/// A second walk changes nothing. Let a first walk over a tree end well,
/// and let a second walk begin on the tree that the first has left. Then
/// the second asks for no rename, no move and no removal, and leaves the
/// tree as it found it.
pub proof fn law_second_walk_changes_nothing(tree: Tree, first: Seq<Event>, second: Seq<Event>)
    requires
        tree.wf(),
        reported(start(tree), first),
        composed_along(start(tree), first),
        ends_well(start(tree), first),
        reported(start(run(start(tree), first).tree), second),
    ensures
        run(start(run(start(tree), first).tree), second).tree == run(start(tree), first).tree,
        replies(initial(), second).len() == second.len(),
        forall|i: int| 0 <= i < second.len() ==> !changes(#[trigger] replies(initial(), second)[i]),
{
    law_walk_begins_orderly(tree);
    law_finished_walk_leaves_names_normalized(start(tree), first);
    let left = run(start(tree), first).tree;
    law_walk_begins_orderly(left);
    law_normalized_tree_stays_as_it_is(start(left), second);
}

/// The path with each of its names in its normal form.
pub open spec fn normal(q: Path) -> Path {
    q.map_values(|n: Seq<char>| nfc_of(n))
}

/// The normal forms of `paths`.
pub open spec fn normal_paths(paths: Set<Path>) -> Set<Path> {
    Set::new(|p: Path| exists|q: Path| #[trigger] paths.contains(q) && normal(q) == p)
}

/// The normal form of a path is made of the normal forms of its parts.
proof fn lemma_normal_parts(a: Path, b: Path)
    ensures
        normal(a + b) == normal(a) + normal(b),
{
    assert(normal(a + b) =~= normal(a) + normal(b));
}

/// A path and the one beside it under its normalized name have one normal
/// form, once the normalized name is known to be normalized.
proof fn lemma_normal_sibling(path: Path)
    requires
        path.len() > 0,
        is_nfc(nfc_of(path.last())),
    ensures
        normal(normal_sibling(path)) == normal(path),
{
    assert(normal(normal_sibling(path)) =~= normal(path));
}

/// A rename between two places of one normal form leaves the normal forms
/// of the tree's paths as they were.
proof fn lemma_normal_renamed(tree: Tree, from: Path, to: Path)
    requires
        tree.wf(),
        tree.can_rename(from, to),
        !tree.all.contains(to),
        normal(from) == normal(to),
    ensures
        normal_paths(tree.renamed(from, to).all) == normal_paths(tree.all),
{
    let new = tree.renamed(from, to).all;
    let l = to.len() as int;
    let f = from.len() as int;
    assert forall|p: Path| normal_paths(new).contains(p) implies normal_paths(tree.all).contains(
        p,
    ) by {
        let q = choose|q: Path| #[trigger] new.contains(q) && normal(q) == p;
        if under(to, q) && tree.all.contains(from + q.skip(l)) {
            let old = from + q.skip(l);
            lemma_split(q, l);
            lemma_normal_parts(from, q.skip(l));
            lemma_normal_parts(to, q.skip(l));
            assert(tree.all.contains(old) && normal(old) == p);
        } else {
            assert(tree.all.contains(q) && normal(q) == p);
        }
    }
    assert forall|p: Path| normal_paths(tree.all).contains(p) implies normal_paths(new).contains(
        p,
    ) by {
        let q = choose|q: Path| #[trigger] tree.all.contains(q) && normal(q) == p;
        if under(from, q) {
            let moved = to + q.skip(f);
            assert(moved.take(l) =~= to);
            assert(moved.skip(l) =~= q.skip(f));
            lemma_split(q, f);
            lemma_normal_parts(from, q.skip(f));
            lemma_normal_parts(to, q.skip(f));
            assert(lands(tree.all, from, to, moved));
            assert(new.contains(moved) && normal(moved) == p);
        } else {
            if under(to, q) {
                if l < q.len() {
                    assert(tree.dirs.contains(q.take(l)));
                } else {
                    assert(q.take(l) =~= q);
                }
            }
            assert(lands(tree.all, from, to, q));
            assert(new.contains(q) && normal(q) == p);
        }
    }
    assert(normal_paths(new) =~= normal_paths(tree.all));
}

/// The removal of a path whose normal form another path of the tree has
/// leaves the normal forms of the tree's paths as they were.
proof fn lemma_normal_removed(all: Set<Path>, gone: Path, twin: Path)
    requires
        all.contains(twin),
        twin != gone,
        normal(twin) == normal(gone),
    ensures
        normal_paths(all.remove(gone)) == normal_paths(all),
{
    let new = all.remove(gone);
    assert forall|p: Path| normal_paths(new).contains(p) implies normal_paths(all).contains(p) by {
        let q = choose|q: Path| #[trigger] new.contains(q) && normal(q) == p;
        assert(all.contains(q) && normal(q) == p);
    }
    assert forall|p: Path| normal_paths(all).contains(p) implies normal_paths(new).contains(p) by {
        let q = choose|q: Path| #[trigger] all.contains(q) && normal(q) == p;
        if q == gone {
            assert(new.contains(twin) && normal(twin) == p);
        } else {
            assert(new.contains(q) && normal(q) == p);
        }
    }
    assert(normal_paths(new) =~= normal_paths(all));
}

/// In a tree in which every name is normalized, every path is its own
/// normal form.
proof fn lemma_tidy_is_normal(tree: Tree)
    requires
        tree.wf(),
        tree.tidy(Seq::empty()),
    ensures
        normal_paths(tree.all) == tree.all,
{
    assert forall|q: Path| tree.all.contains(q) implies normal(q) == q by {
        assert forall|i: int| 0 <= i < q.len() implies nfc_of(q[i]) == q[i] by {
            let head = q.take(i + 1);
            if i + 1 < q.len() {
                assert(tree.dirs.contains(head));
            } else {
                assert(head =~= q);
            }
            assert(head.take(0) =~= Seq::<Seq<char>>::empty());
            assert(tree.all.contains(head) && below(Seq::<Seq<char>>::empty(), head));
            assert(head.last() == q[i]);
        }
        assert(normal(q) =~= q);
    }
    assert forall|p: Path| normal_paths(tree.all).contains(p) implies tree.all.contains(p) by {
        let q = choose|q: Path| #[trigger] tree.all.contains(q) && normal(q) == p;
    }
    assert forall|p: Path| tree.all.contains(p) implies normal_paths(tree.all).contains(p) by {
        assert(tree.all.contains(p) && normal(p) == p);
    }
    assert(normal_paths(tree.all) =~= tree.all);
}

/// No step of a walk loses a path or invents one: whatever is renamed,
/// moved or removed, the normal forms of the paths of the tree stay the
/// same.
pub proof fn law_walk_keeps_normal_paths(w: World, e: Event)
    requires
        orderly(w),
        composed(w),
        honest(w, e),
    ensures
        normal_paths(after(w, e).tree.all) == normal_paths(w.tree.all),
{
    let path = w.state.path;
    if e is Done && w.state.phase == Phase::Renaming {
        lemma_normal_sibling(path);
        lemma_normal_renamed(w.tree, path, normal_sibling(path));
    } else if e is Done && w.state.phase == Phase::MergeMoving {
        let c = seq![w.state.moving.unwrap()];
        lemma_normal_sibling(path);
        lemma_normal_parts(path, c);
        lemma_normal_parts(normal_sibling(path), c);
        assert(path + c =~= path.push(w.state.moving.unwrap()));
        assert(normal_sibling(path) + c =~= normal_sibling(path).push(w.state.moving.unwrap()));
        lemma_normal_renamed(w.tree, path + c, normal_sibling(path) + c);
    } else if e is Done && w.state.phase == Phase::MergeRemoving {
        lemma_normal_sibling(path);
        lemma_normal_removed(w.tree.all, path, normal_sibling(path));
    }
}

/// A walk that has ended well leaves exactly the normal forms of the paths
/// that it found: every entry is still there, under the normalized name of
/// each directory on its way and of its own, and nothing else is.
pub proof fn law_finished_walk_leaves_normal_paths(w: World, events: Seq<Event>)
    requires
        orderly(w),
        reported(w, events),
        composed_along(w, events),
        ends_well(w, events),
    ensures
        run(w, events).tree.all == normal_paths(w.tree.all),
{
    law_finished_walk_leaves_names_normalized(w, events);
    lemma_tidy_is_normal(run(w, events).tree);
    lemma_run_keeps_normal_paths(w, events);
}

/// A run of steps leaves the normal forms of the tree's paths as they were.
proof fn lemma_run_keeps_normal_paths(w: World, events: Seq<Event>)
    requires
        orderly(w),
        reported(w, events),
        composed_along(w, events),
    ensures
        normal_paths(run(w, events).tree.all) == normal_paths(w.tree.all),
    decreases events.len(),
{
    if events.len() > 0 {
        law_walk_stays_orderly(w, events.first());
        law_walk_keeps_normal_paths(w, events.first());
        lemma_run_keeps_normal_paths(after(w, events.first()), events.drop_first());
    }
}

} // verus!
