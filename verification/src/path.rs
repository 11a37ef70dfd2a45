//! Paths below the root of a walk.
//!
//! A path is the sequence of names that leads from the root to an entry; the
//! root itself is the empty sequence. Contracts speak of a path as a sequence
//! of texts, code holds it as a `Vec<String>`.

use crate::normalize::nfc_of;
use vstd::prelude::*;

verus! {

/// A path as contracts see it: one text per name, the root's side first.
pub type Path = Seq<Seq<char>>;

/// The path that a vector of names stands for.
pub open spec fn names(segments: Seq<String>) -> Path {
    segments.map_values(|name: String| name@)
}

/// The paths that a vector of vectors of names stands for.
pub open spec fn chain(paths: Seq<Vec<String>>) -> Seq<Path> {
    paths.map_values(|path: Vec<String>| names(path@))
}

/// The directory that holds the entry at `path`.
pub open spec fn parent(path: Path) -> Path
    recommends
        path.len() > 0,
{
    path.drop_last()
}

/// The path beside `path` whose last name is `name`.
pub open spec fn sibling(path: Path, name: Seq<char>) -> Path
    recommends
        path.len() > 0,
{
    path.drop_last().push(name)
}

/// The path beside `path` that carries the normal form of its last name.
pub open spec fn normal_sibling(path: Path) -> Path
    recommends
        path.len() > 0,
{
    sibling(path, nfc_of(path.last()))
}

/// `path` itself and then each directory above it, the nearest first and
/// the root, which is the empty path, last.
pub open spec fn ancestry(path: Path) -> Seq<Path> {
    Seq::new(path.len() + 1, |i: int| path.take(path.len() - i))
}

/// The first `len` names of `path`.
pub fn prefix(path: &Vec<String>, len: usize) -> (head: Vec<String>)
    requires
        len <= path.len(),
    ensures
        names(head@) == names(path@).take(len as int),
{
    let mut head: Vec<String> = Vec::new();
    let mut i: usize = 0;
    while i < len
        invariant
            i <= len <= path.len(),
            head.len() == i,
            names(head@) =~= names(path@).take(i as int),
        decreases len - i,
    {
        let name = path[i].clone();
        proof {
            let grown = head@.push(name);
            assert forall|k: int| 0 <= k < grown.len() implies names(grown)[k] == names(
                path@,
            ).take(i + 1)[k] by {
                if k < i {
                    assert(names(head@)[k] == names(path@).take(i as int)[k]);
                }
            }
            assert(names(grown) =~= names(path@).take(i + 1));
        }
        head.push(name);
        i += 1;
    }
    head
}

/// A copy of `path`.
pub fn duplicate(path: &Vec<String>) -> (copy: Vec<String>)
    ensures
        names(copy@) == names(path@),
{
    assert(names(path@).take(path.len() as int) =~= names(path@));
    prefix(path, path.len())
}

/// The path of the entry `name` in the directory `path`.
pub fn child(path: &Vec<String>, name: &String) -> (below: Vec<String>)
    ensures
        names(below@) == names(path@).push(name@),
{
    let mut below = duplicate(path);
    below.push(name.clone());
    assert(names(below@) =~= names(path@).push(name@));
    below
}

/// The path beside `path` whose last name is `name`.
pub fn sibling_of(path: &Vec<String>, name: &String) -> (beside: Vec<String>)
    requires
        path.len() > 0,
    ensures
        names(beside@) == sibling(names(path@), name@),
{
    let mut beside = prefix(path, path.len() - 1);
    beside.push(name.clone());
    assert(names(beside@) =~= sibling(names(path@), name@));
    beside
}

/// `path` itself and then each directory above it, the nearest first and
/// the root last.
pub fn ancestry_of(path: &Vec<String>) -> (above: Vec<Vec<String>>)
    ensures
        chain(above@) == ancestry(names(path@)),
{
    let mut above: Vec<Vec<String>> = Vec::new();
    let mut len: usize = path.len();
    while len > 0
        invariant
            len <= path.len(),
            above.len() == path.len() - len,
            forall|i: int|
                0 <= i < above.len() ==> names(#[trigger] above@[i]@) == names(path@).take(
                    path.len() - i,
                ),
        decreases len,
    {
        above.push(prefix(path, len));
        len -= 1;
    }
    above.push(prefix(path, 0));
    assert(chain(above@) =~= ancestry(names(path@)));
    above
}

} // verus!
