//! Conflicts between two versions of a file, line by line.

use crate::bytemap::{sorted_pairs, ByteMap, Pairs};
use crate::bytes::{equal, lines, lookup, slice, split_lines, to_vec, views};
use crate::objects::ObjectStore;
use crate::reference::SLASH;
use vstd::prelude::*;

verus! {

/// The greater of the two numbers of lines.
pub open spec fn longer(a: Seq<Seq<u8>>, b: Seq<Seq<u8>>) -> int {
    if a.len() >= b.len() {
        a.len() as int
    } else {
        b.len() as int
    }
}

/// The two versions differ in line `i`: one of them has no such line, or the
/// lines are not the same.
pub open spec fn line_differs(a: Seq<Seq<u8>>, b: Seq<Seq<u8>>, i: int) -> bool {
    i >= a.len() || i >= b.len() || a[i] != b[i]
}

/// The index at or after `i` of the first line in which the two versions do
/// not differ, or the greater number of lines.
pub open spec fn run_end(a: Seq<Seq<u8>>, b: Seq<Seq<u8>>, i: int) -> int
    decreases longer(a, b) - i,
{
    if 0 <= i < longer(a, b) && line_differs(a, b, i) {
        run_end(a, b, i + 1)
    } else {
        i
    }
}

/// The ranges of lines from index `i` on in which the two versions differ:
/// each range is a longest run of such lines, given by the numbers of its
/// first and last line, counted from one.
pub open spec fn ranges_from(a: Seq<Seq<u8>>, b: Seq<Seq<u8>>, i: int) -> Seq<(int, int)>
    decreases longer(a, b) - i,
{
    if i < 0 || i >= longer(a, b) {
        Seq::empty()
    } else if !line_differs(a, b, i) {
        ranges_from(a, b, i + 1)
    } else {
        let end = run_end(a, b, i + 1);
        if i < end <= longer(a, b) {
            seq![(i + 1, end)] + ranges_from(a, b, end)
        } else {
            Seq::empty()
        }
    }
}

/// The ranges of lines in which the two versions differ.
pub open spec fn conflict_ranges_of(a: Seq<Seq<u8>>, b: Seq<Seq<u8>>) -> Seq<(int, int)> {
    ranges_from(a, b, 0)
}

/// The ranges that a vector of pairs of numbers holds.
pub open spec fn range_views(v: Seq<(usize, usize)>) -> Seq<(int, int)> {
    Seq::new(v.len(), |i: int| (v[i].0 as int, v[i].1 as int))
}

/// Whether the two versions differ in line `i`.
fn differs_at(a: &Vec<Vec<u8>>, b: &Vec<Vec<u8>>, i: usize) -> (r: bool)
    ensures
        r == line_differs(views(a@), views(b@), i as int),
{
    if i >= a.len() || i >= b.len() {
        return true;
    }
    !equal(a[i].as_slice(), b[i].as_slice())
}

/// The ranges of lines in which the two versions of a file differ.
pub fn conflict_ranges(current: &Vec<Vec<u8>>, target: &Vec<Vec<u8>>) -> (r: Vec<(usize, usize)>)
    ensures
        range_views(r@) == conflict_ranges_of(views(current@), views(target@)),
{
    let ghost a = views(current@);
    let ghost b = views(target@);
    let n: usize = if current.len() >= target.len() {
        current.len()
    } else {
        target.len()
    };
    let mut out: Vec<(usize, usize)> = Vec::new();
    let mut i: usize = 0;
    assert(range_views(out@) + ranges_from(a, b, 0) =~= ranges_from(a, b, 0));
    while i < n
        invariant
            i <= n,
            n == longer(a, b),
            a == views(current@),
            b == views(target@),
            range_views(out@) + ranges_from(a, b, i as int) == ranges_from(a, b, 0),
        decreases n - i,
    {
        if differs_at(current, target, i) {
            let first: usize = i;
            i += 1;
            while i < n && differs_at(current, target, i)
                invariant
                    first < i <= n,
                    n == longer(a, b),
                    a == views(current@),
                    b == views(target@),
                    run_end(a, b, first + 1) == run_end(a, b, i as int),
                decreases n - i,
            {
                i += 1;
            }
            let ghost before = range_views(out@);
            out.push((first + 1, i));
            proof {
                assert(run_end(a, b, first + 1) == i);
                assert(range_views(out@) =~= before.push((first + 1, i as int)));
                assert(before + ranges_from(a, b, first as int) =~= before.push(
                    (first + 1, i as int),
                ) + ranges_from(a, b, i as int));
            }
        } else {
            i += 1;
        }
    }
    assert(range_views(out@) + ranges_from(a, b, i as int) =~= range_views(out@));
    out
}

/// The index after the last `/` before `end`, or zero.
pub open spec fn name_start(path: Seq<u8>, end: int) -> int
    decreases end,
{
    if end <= 0 || end > path.len() {
        0
    } else if path[end - 1] == SLASH {
        end
    } else {
        name_start(path, end - 1)
    }
}

/// The name of a file without its directories: what stands after the last
/// `/` of its path.
pub open spec fn base_name(path: Seq<u8>) -> Seq<u8> {
    path.subrange(name_start(path, path.len() as int), path.len() as int)
}

/// The name of a file without its directories.
pub fn file_name(path: &[u8]) -> (r: Vec<u8>)
    ensures
        r@ == base_name(path@),
{
    let n: usize = path.len();
    let mut start: usize = n;
    while start > 0 && path[start - 1] != SLASH
        invariant
            start <= n,
            n == path@.len(),
            name_start(path@, n as int) == name_start(path@, start as int),
        decreases start,
    {
        start -= 1;
    }
    to_vec(slice(path, start, n))
}

/// A range of lines of a file in which two versions of it differ.
pub struct Conflict {
    /// The name of the file without its directories.
    pub name: Vec<u8>,
    /// The number of the first line of the range, counted from one.
    pub start: usize,
    /// The number of the last line of the range.
    pub end: usize,
}

/// A conflict over byte sequences and integers.
pub struct ConflictView {
    pub name: Seq<u8>,
    pub start: int,
    pub end: int,
}

impl View for Conflict {
    type V = ConflictView;

    open spec fn view(&self) -> ConflictView {
        ConflictView { name: self.name@, start: self.start as int, end: self.end as int }
    }
}

/// The conflicts that a vector holds.
pub open spec fn conflict_views(v: Seq<Conflict>) -> Seq<ConflictView> {
    Seq::new(v.len(), |i: int| v[i]@)
}

/// Both sides have the file, with different blobs, and neither blob is the
/// one of the common ancestor: the file was changed on both sides.
pub open spec fn is_contested(
    base: Option<Seq<u8>>,
    current: Option<Seq<u8>>,
    target: Option<Seq<u8>>,
) -> bool {
    current is Some && target is Some && current != target && base != current && base != target
}

/// The lines of the blob under `hash`, none if it is not stored.
pub open spec fn blob_lines(objects: Map<Seq<u8>, Seq<u8>>, hash: Seq<u8>) -> Seq<Seq<u8>> {
    if objects.contains_key(hash) {
        lines(objects[hash])
    } else {
        Seq::empty()
    }
}

/// The ranges with the name of the file.
pub open spec fn named(name: Seq<u8>, ranges: Seq<(int, int)>) -> Seq<ConflictView> {
    Seq::new(
        ranges.len(),
        |i: int| ConflictView { name, start: ranges[i].0, end: ranges[i].1 },
    )
}

/// The conflicts in one file of the current tree: none unless the file is
/// contested, else the ranges of lines in which its two blobs differ.
pub open spec fn conflicts_at(
    objects: Map<Seq<u8>, Seq<u8>>,
    base: Map<Seq<u8>, Seq<u8>>,
    target: Map<Seq<u8>, Seq<u8>>,
    path: Seq<u8>,
    mine: Seq<u8>,
) -> Seq<ConflictView> {
    if is_contested(lookup(base, path), Some(mine), lookup(target, path)) {
        named(
            base_name(path),
            conflict_ranges_of(blob_lines(objects, mine), blob_lines(objects, target[path])),
        )
    } else {
        Seq::empty()
    }
}

/// The conflicts in the given files of the current tree, in their order.
pub open spec fn conflicts_in(
    objects: Map<Seq<u8>, Seq<u8>>,
    base: Map<Seq<u8>, Seq<u8>>,
    target: Map<Seq<u8>, Seq<u8>>,
    files: Pairs,
) -> Seq<ConflictView>
    decreases files.len(),
{
    if files.len() == 0 {
        Seq::empty()
    } else {
        conflicts_in(objects, base, target, files.drop_last()) + conflicts_at(
            objects,
            base,
            target,
            files.last().0,
            files.last().1,
        )
    }
}

/// The conflicts of a merge: those in each file of the current tree, in the
/// order of the paths.
pub open spec fn conflicts_of(
    objects: Map<Seq<u8>, Seq<u8>>,
    base: Map<Seq<u8>, Seq<u8>>,
    current: Map<Seq<u8>, Seq<u8>>,
    target: Map<Seq<u8>, Seq<u8>>,
) -> Seq<ConflictView> {
    conflicts_in(objects, base, target, sorted_pairs(current))
}

/// The lines of the blob under `hash`, none if it is not stored.
pub fn lines_of_blob(store: &ObjectStore, hash: &[u8]) -> (r: Vec<Vec<u8>>)
    ensures
        views(r@) == blob_lines(store@, hash@),
{
    match store.get_object(hash) {
        Ok(content) => split_lines(content.as_slice()),
        Err(_) => {
            let none: Vec<Vec<u8>> = Vec::new();
            assert(views(none@) =~= Seq::<Seq<u8>>::empty());
            none
        },
    }
}

/// The conflicts in one file of the current tree.
pub fn path_conflicts(
    store: &ObjectStore,
    base: &ByteMap,
    target: &ByteMap,
    path: &[u8],
    mine: &[u8],
) -> (r: Vec<Conflict>)
    ensures
        conflict_views(r@) == conflicts_at(store@, base@, target@, path@, mine@),
{
    let mut out: Vec<Conflict> = Vec::new();
    assert(conflict_views(out@) =~= Seq::<ConflictView>::empty());
    let theirs: &Vec<u8> = match target.get(path) {
        Some(theirs) => theirs,
        None => {
            return out;
        },
    };
    if equal(mine, theirs.as_slice()) {
        return out;
    }
    match base.get(path) {
        Some(old) => {
            if equal(old.as_slice(), mine) || equal(old.as_slice(), theirs.as_slice()) {
                return out;
            }
        },
        None => {},
    }
    let my_lines: Vec<Vec<u8>> = lines_of_blob(store, mine);
    let their_lines: Vec<Vec<u8>> = lines_of_blob(store, theirs.as_slice());
    let ranges: Vec<(usize, usize)> = conflict_ranges(&my_lines, &their_lines);
    let ghost wanted = conflicts_at(store@, base@, target@, path@, mine@);
    let mut i: usize = 0;
    while i < ranges.len()
        invariant
            i <= ranges@.len(),
            wanted == named(base_name(path@), range_views(ranges@)),
            conflict_views(out@) == wanted.subrange(0, i as int),
        decreases ranges@.len() - i,
    {
        let ghost before = conflict_views(out@);
        let range: (usize, usize) = ranges[i];
        out.push(Conflict { name: file_name(path), start: range.0, end: range.1 });
        assert(conflict_views(out@) =~= before.push(wanted[i as int]));
        assert(conflict_views(out@) =~= wanted.subrange(0, i + 1));
        i += 1;
    }
    assert(wanted.subrange(0, ranges@.len() as int) =~= wanted);
    out
}

/// The conflicts of a merge.
pub fn find_conflicts(store: &ObjectStore, base: &ByteMap, current: &ByteMap, target: &ByteMap) -> (r:
    Vec<Conflict>)
    ensures
        conflict_views(r@) == conflicts_of(store@, base@, current@, target@),
{
    let n: usize = current.len();
    let ghost ps = current.pairs();
    let mut out: Vec<Conflict> = Vec::new();
    assert(conflict_views(out@) =~= Seq::<ConflictView>::empty());
    let mut i: usize = 0;
    while i < n
        invariant
            i <= n,
            n == ps.len(),
            ps == current.pairs(),
            conflict_views(out@) == conflicts_in(store@, base@, target@, ps.subrange(0, i as int)),
        decreases n - i,
    {
        proof {
            let next = ps.subrange(0, i + 1);
            assert(next.drop_last() =~= ps.subrange(0, i as int));
            assert(next.last() == ps[i as int]);
        }
        let mut found: Vec<Conflict> = path_conflicts(
            store,
            base,
            target,
            current.key_at(i).as_slice(),
            current.value_at(i).as_slice(),
        );
        let ghost before = conflict_views(out@);
        let ghost added = conflict_views(found@);
        out.append(&mut found);
        assert(conflict_views(out@) =~= before + added);
        i += 1;
    }
    assert(ps.subrange(0, n as int) =~= ps);
    out
}

} // verus!
