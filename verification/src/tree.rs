//! Trees: flat maps from paths to blob identifiers, the text in which they
//! are stored, and the three-way merge of such maps.

use crate::bytemap::{
    built, lemma_built_all, lemma_built_none, lemma_built_step, lemma_insert_at,
    lemma_map_of_drop_last, lemma_sorted_pairs, map_of, selected, sorted, sorted_pairs, ByteMap,
    Pairs,
};
use crate::bytes::{
    after_first, append, ascii_bytes, equal, find_sub, free_of, lemma_lines_push,
    lemma_split_joined, lines, literal, lookup, occurs_at, skip_past, split_at_byte, split_lines,
    split_once, strip_cr, to_vec, views, CR, LF, SPACE,
};
use crate::error::Error;
use crate::hash::{commit_hash_form, sha1_hex};
use crate::objects::{stored, ObjectStore};
use vstd::prelude::*;

verus! {

/// What stands before the blob identifier in a line of a tree.
pub open spec fn blob_tag() -> Seq<u8> {
    ascii_bytes("blob "@)
}

/// The bytes of `blob `.
pub fn blob_tag_bytes() -> (r: &'static [u8])
    ensures
        r@ == blob_tag(),
        r@.len() == 5,
{
    proof {
        reveal_strlit("blob ");
    }
    literal("blob ")
}

/// The line of a tree for one path: `blob <identifier> <path>` and a line feed.
pub open spec fn tree_line(path: Seq<u8>, hash: Seq<u8>) -> Seq<u8> {
    blob_tag() + hash + seq![SPACE] + path + seq![LF]
}

/// The text of the entries of a tree, one line for each, in their order.
pub open spec fn tree_text(ps: Pairs) -> Seq<u8>
    decreases ps.len(),
{
    if ps.len() == 0 {
        Seq::empty()
    } else {
        tree_text(ps.drop_last()) + tree_line(ps.last().0, ps.last().1)
    }
}

/// The text of a tree: its entries in the order of their paths. It depends on
/// what the tree holds alone.
pub open spec fn tree_text_of(tree: Map<Seq<u8>, Seq<u8>>) -> Seq<u8> {
    tree_text(sorted_pairs(tree))
}

/// The path and the blob identifier that a line of a tree gives: the
/// identifier stands after the first `blob ` and ends at the next space, the
/// path is the rest of the line. A line of another form gives nothing.
pub open spec fn parse_tree_line(line: Seq<u8>) -> Option<(Seq<u8>, Seq<u8>)> {
    match after_first(line, blob_tag()) {
        None => None,
        Some(rest) => match split_at_byte(rest, SPACE) {
            None => None,
            Some((hash, path)) => Some((path, hash)),
        },
    }
}

/// The tree that a sequence of lines gives; of two lines for one path the
/// later counts.
pub open spec fn parse_tree_lines(ls: Seq<Seq<u8>>) -> Map<Seq<u8>, Seq<u8>>
    decreases ls.len(),
{
    if ls.len() == 0 {
        Map::empty()
    } else {
        let before = parse_tree_lines(ls.drop_last());
        match parse_tree_line(ls.last()) {
            Some((path, hash)) => before.insert(path, hash),
            None => before,
        }
    }
}

/// The tree that a text stands for.
pub open spec fn parse_tree(text: Seq<u8>) -> Map<Seq<u8>, Seq<u8>> {
    parse_tree_lines(lines(text))
}

/// The text of a tree.
pub fn tree_content(tree: &ByteMap) -> (r: Vec<u8>)
    ensures
        r@ == tree_text_of(tree@),
{
    let n: usize = tree.len();
    let ghost ps = tree.pairs();
    let mut out: Vec<u8> = Vec::new();
    let mut i: usize = 0;
    while i < n
        invariant
            i <= n,
            n == ps.len(),
            ps == tree.pairs(),
            out@ == tree_text(ps.subrange(0, i as int)),
        decreases n - i,
    {
        let ghost before = out@;
        append(&mut out, blob_tag_bytes());
        append(&mut out, tree.value_at(i).as_slice());
        out.push(SPACE);
        append(&mut out, tree.key_at(i).as_slice());
        out.push(LF);
        proof {
            let next = ps.subrange(0, i + 1);
            assert(next.drop_last() =~= ps.subrange(0, i as int));
            assert(next.last() == ps[i as int]);
            assert(out@ =~= before + tree_line(ps[i as int].0, ps[i as int].1));
        }
        i += 1;
    }
    assert(ps.subrange(0, n as int) =~= ps);
    out
}

/// Reads the text of a tree.
pub fn parse_tree_content(text: &[u8]) -> (r: ByteMap)
    ensures
        r@ == parse_tree(text@),
{
    let ls: Vec<Vec<u8>> = split_lines(text);
    let mut out: ByteMap = ByteMap::new();
    let mut i: usize = 0;
    while i < ls.len()
        invariant
            i <= ls@.len(),
            out@ == parse_tree_lines(views(ls@).subrange(0, i as int)),
        decreases ls@.len() - i,
    {
        proof {
            let next = views(ls@).subrange(0, i + 1);
            assert(next.drop_last() =~= views(ls@).subrange(0, i as int));
            assert(next.last() == ls@[i as int]@);
        }
        let line: &[u8] = ls[i].as_slice();
        match skip_past(line, blob_tag_bytes()) {
            None => {},
            Some(rest) => match split_once(rest, SPACE) {
                None => {},
                Some((hash, path)) => {
                    out.insert(to_vec(path), to_vec(hash));
                },
            },
        }
        i += 1;
    }
    assert(views(ls@).subrange(0, ls@.len() as int) =~= views(ls@));
    out
}

/// The staged entries whose file is in the working tree.
pub open spec fn snapshot(
    index: Map<Seq<u8>, Seq<u8>>,
    worktree: Map<Seq<u8>, Seq<u8>>,
) -> Map<Seq<u8>, Seq<u8>> {
    selected(index, |p: Seq<u8>| worktree.contains_key(p), |p: Seq<u8>| index[p])
}

/// The tree of the next commit: the staged entries whose file is still in
/// the working tree. An entry whose file is gone is left out.
pub fn snapshot_tree(index: &ByteMap, worktree: &ByteMap) -> (r: ByteMap)
    ensures
        r@ == snapshot(index@, worktree@),
{
    let n: usize = index.len();
    let ghost ps = index.pairs();
    let ghost keep = |p: Seq<u8>| worktree@.contains_key(p);
    let ghost val = |p: Seq<u8>| index@[p];
    let mut out: ByteMap = ByteMap::new();
    proof {
        lemma_built_none(ps, keep, val);
    }
    let mut i: usize = 0;
    while i < n
        invariant
            i <= n,
            n == ps.len(),
            ps == index.pairs(),
            keep == (|p: Seq<u8>| worktree@.contains_key(p)),
            val == (|p: Seq<u8>| index@[p]),
            out@ == built(ps, i as int, keep, val),
        decreases n - i,
    {
        let path: &Vec<u8> = index.key_at(i);
        let hash: &Vec<u8> = index.value_at(i);
        proof {
            lemma_built_step(ps, i as int, keep, val);
        }
        if worktree.contains_key(path.as_slice()) {
            out.insert(to_vec(path.as_slice()), to_vec(hash.as_slice()));
        }
        i += 1;
    }
    proof {
        lemma_built_all(ps, keep, val);
        assert(out@ =~= snapshot(index@, worktree@));
    }
    out
}

/// Stores a tree and returns its identifier.
pub fn write_tree_from_map(tree: &ByteMap, store: &mut ObjectStore) -> (hash: Vec<u8>)
    ensures
        hash@ == sha1_hex(tree_text_of(tree@)),
        commit_hash_form(hash@),
        final(store)@ == stored(old(store)@, hash@, tree_text_of(tree@)),
{
    let content: Vec<u8> = tree_content(tree);
    store.put_object(content.as_slice())
}

/// Stores the tree of the next commit and returns its identifier.
pub fn create_tree(index: &ByteMap, worktree: &ByteMap, store: &mut ObjectStore) -> (hash: Vec<u8>)
    ensures
        hash@ == sha1_hex(tree_text_of(snapshot(index@, worktree@))),
        commit_hash_form(hash@),
        final(store)@ == stored(
            old(store)@,
            hash@,
            tree_text_of(snapshot(index@, worktree@)),
        ),
{
    let tree: ByteMap = snapshot_tree(index, worktree);
    write_tree_from_map(&tree, store)
}

/// The entries of the tree that is stored under `tree_hash`.
pub fn read_tree_entries(tree_hash: &[u8], store: &ObjectStore) -> (r: Result<ByteMap, Error>)
    ensures
        match r {
            Ok(tree) => store@.contains_key(tree_hash@) && tree@ == parse_tree(
                store@[tree_hash@],
            ),
            Err(e) => !store@.contains_key(tree_hash@) && e == Error::NotFound,
        },
{
    match store.get_object(tree_hash) {
        Ok(content) => Ok(parse_tree_content(content.as_slice())),
        Err(e) => Err(e),
    }
}

/// The lines of the blob that is stored under `hash`.
pub fn load_blob(hash: &[u8], store: &ObjectStore) -> (r: Result<Vec<Vec<u8>>, Error>)
    ensures
        match r {
            Ok(ls) => store@.contains_key(hash@) && views(ls@) == lines(store@[hash@]),
            Err(e) => !store@.contains_key(hash@) && e == Error::NotFound,
        },
{
    match store.get_object(hash) {
        Ok(content) => Ok(split_lines(content.as_slice())),
        Err(e) => Err(e),
    }
}

/// What a merge keeps of one path, given its blob in the tree of the common
/// ancestor, in the current tree and in the tree that is merged in.
///
/// - In both trees: the blob of the tree that is merged in.
/// - Only in the tree that is merged in: its blob, whether the path is new
///   there or was deleted in the current tree.
/// - Only in the current tree, with the blob of the ancestor: nothing, since
///   the other side deleted a file that was not changed here.
/// - Only in the current tree, with another blob or new there: its blob.
/// - In neither: nothing.
pub open spec fn merge_entry(
    base: Option<Seq<u8>>,
    current: Option<Seq<u8>>,
    target: Option<Seq<u8>>,
) -> Option<Seq<u8>> {
    match (current, target) {
        (_, Some(t)) => Some(t),
        (Some(c), None) => if base == Some(c) {
            None
        } else {
            Some(c)
        },
        (None, None) => None,
    }
}

/// What a merge keeps of the path `p`.
pub open spec fn merge_at(
    base: Map<Seq<u8>, Seq<u8>>,
    current: Map<Seq<u8>, Seq<u8>>,
    target: Map<Seq<u8>, Seq<u8>>,
    p: Seq<u8>,
) -> Option<Seq<u8>> {
    merge_entry(lookup(base, p), lookup(current, p), lookup(target, p))
}

/// The merged tree: for each path what `merge_entry` keeps of it.
pub open spec fn merged_tree(
    base: Map<Seq<u8>, Seq<u8>>,
    current: Map<Seq<u8>, Seq<u8>>,
    target: Map<Seq<u8>, Seq<u8>>,
) -> Map<Seq<u8>, Seq<u8>> {
    Map::new(
        |p: Seq<u8>| merge_at(base, current, target, p) is Some,
        |p: Seq<u8>| merge_at(base, current, target, p)->0,
    )
}

/// Merges the current tree and the tree that is merged in, given the tree of
/// their common ancestor.
pub fn merge_tree_simple(base: &ByteMap, current: &ByteMap, target: &ByteMap) -> (r: ByteMap)
    ensures
        r@ == merged_tree(base@, current@, target@),
{
    let ghost keep = |p: Seq<u8>| merge_at(base@, current@, target@, p) is Some;
    let ghost val = |p: Seq<u8>| merge_at(base@, current@, target@, p)->0;
    let ghost all = |p: Seq<u8>| true;
    let mut out: ByteMap = ByteMap::new();
    let n: usize = current.len();
    let ghost cs = current.pairs();
    proof {
        lemma_built_none(cs, keep, val);
    }
    let mut i: usize = 0;
    while i < n
        invariant
            i <= n,
            n == cs.len(),
            cs == current.pairs(),
            keep == (|p: Seq<u8>| merge_at(base@, current@, target@, p) is Some),
            val == (|p: Seq<u8>| merge_at(base@, current@, target@, p)->0),
            out@ == built(cs, i as int, keep, val),
        decreases n - i,
    {
        let path: &Vec<u8> = current.key_at(i);
        let mine: &Vec<u8> = current.value_at(i);
        proof {
            lemma_built_step(cs, i as int, keep, val);
        }
        match target.get(path.as_slice()) {
            Some(theirs) => {
                out.insert(to_vec(path.as_slice()), to_vec(theirs.as_slice()));
            },
            None => {
                let unchanged: bool = match base.get(path.as_slice()) {
                    Some(old) => equal(old.as_slice(), mine.as_slice()),
                    None => false,
                };
                if !unchanged {
                    out.insert(to_vec(path.as_slice()), to_vec(mine.as_slice()));
                }
            },
        }
        i += 1;
    }
    let ghost first = out@;
    let m: usize = target.len();
    let ghost ts = target.pairs();
    proof {
        lemma_built_all(cs, keep, val);
        lemma_built_none(ts, all, val);
        assert(first =~= first.union_prefer_right(built(ts, 0, all, val)));
    }
    let mut j: usize = 0;
    while j < m
        invariant
            j <= m,
            m == ts.len(),
            ts == target.pairs(),
            all == (|p: Seq<u8>| true),
            val == (|p: Seq<u8>| merge_at(base@, current@, target@, p)->0),
            out@ == first.union_prefer_right(built(ts, j as int, all, val)),
        decreases m - j,
    {
        let path: &Vec<u8> = target.key_at(j);
        let theirs: &Vec<u8> = target.value_at(j);
        proof {
            lemma_built_step(ts, j as int, all, val);
            assert(first.union_prefer_right(built(ts, j as int, all, val)).insert(path@, theirs@)
                =~= first.union_prefer_right(built(ts, j as int, all, val).insert(path@, theirs@)));
        }
        out.insert(to_vec(path.as_slice()), to_vec(theirs.as_slice()));
        j += 1;
    }
    proof {
        lemma_built_all(ts, all, val);
        assert(out@ =~= merged_tree(base@, current@, target@));
    }
    out
}

/// Where one side deleted a file that it had not changed and the other side
/// changed it, the merged tree holds the changed file, whichever side
/// deleted. A file that one side deleted and the other side did not change
/// stays out only if the side that is merged in deleted it.
pub proof fn law_edit_wins_over_delete(
    base: Map<Seq<u8>, Seq<u8>>,
    current: Map<Seq<u8>, Seq<u8>>,
    target: Map<Seq<u8>, Seq<u8>>,
    p: Seq<u8>,
)
    requires
        base.contains_key(p),
    ensures
        !current.contains_key(p) && target.contains_key(p) ==> merged_tree(
            base,
            current,
            target,
        ).contains_key(p) && merged_tree(base, current, target)[p] == target[p],
        current.contains_key(p) && !target.contains_key(p) && current[p] != base[p] ==> merged_tree(
            base,
            current,
            target,
        ).contains_key(p) && merged_tree(base, current, target)[p] == current[p],
        current.contains_key(p) && !target.contains_key(p) && current[p] == base[p]
            ==> !merged_tree(base, current, target).contains_key(p),
{
}

/// A file that only one side has is in the merged tree with that side's
/// blob, and a file that both sides have with the same blob keeps it.
pub proof fn law_merge_keeps_additions(
    base: Map<Seq<u8>, Seq<u8>>,
    current: Map<Seq<u8>, Seq<u8>>,
    target: Map<Seq<u8>, Seq<u8>>,
    p: Seq<u8>,
)
    ensures
        !base.contains_key(p) && current.contains_key(p) && !target.contains_key(p)
            ==> merged_tree(base, current, target).contains_key(p) && merged_tree(
            base,
            current,
            target,
        )[p] == current[p],
        !current.contains_key(p) && target.contains_key(p) ==> merged_tree(
            base,
            current,
            target,
        ).contains_key(p) && merged_tree(base, current, target)[p] == target[p],
        current.contains_key(p) && target.contains_key(p) && current[p] == target[p]
            ==> merged_tree(base, current, target).contains_key(p) && merged_tree(
            base,
            current,
            target,
        )[p] == current[p],
{
}

/// An entry that the text of a tree gives back as it is: its identifier
/// holds neither a space nor a line feed, and its path holds no line feed and
/// does not end with a carriage return.
pub open spec fn storable_entry(path: Seq<u8>, hash: Seq<u8>) -> bool {
    &&& free_of(hash, SPACE)
    &&& free_of(hash, LF)
    &&& free_of(path, LF)
    &&& path.len() > 0 ==> path.last() != CR
}

/// Every entry is storable.
pub open spec fn storable(ps: Pairs) -> bool {
    forall|i: int| 0 <= i < ps.len() ==> storable_entry((#[trigger] ps[i]).0, ps[i].1)
}

/// The line of a storable entry, without its line feed, holds no line feed
/// and is read back as that entry.
pub proof fn lemma_tree_line_parses(path: Seq<u8>, hash: Seq<u8>)
    requires
        storable_entry(path, hash),
    ensures
        free_of(blob_tag() + hash + seq![SPACE] + path, LF),
        strip_cr(blob_tag() + hash + seq![SPACE] + path) == blob_tag() + hash + seq![SPACE] + path,
        parse_tree_line(blob_tag() + hash + seq![SPACE] + path) == Some((path, hash)),
        tree_line(path, hash) == (blob_tag() + hash + seq![SPACE] + path) + seq![LF],
{
    reveal_strlit("blob ");
    let tag = blob_tag();
    let line = tag + hash + seq![SPACE] + path;
    assert(tag.len() == 5);
    assert(tag[0] == 'b' as u8 && tag[1] == 'l' as u8 && tag[2] == 'o' as u8 && tag[3] == 'b' as u8
        && tag[4] == ' ' as u8);
    assert forall|j: int| 0 <= j < line.len() implies line[j] != LF by {
        if j < 5 {
            assert(line[j] == tag[j]);
        } else if j < 5 + hash.len() {
            assert(line[j] == hash[j - 5]);
        } else if j == 5 + hash.len() {
            assert(line[j] == SPACE);
        } else {
            assert(line[j] == path[j - 6 - hash.len()]);
        }
    }
    if path.len() > 0 {
        assert(line.last() == path.last());
    } else {
        assert(line.last() == SPACE);
    }
    assert(line.subrange(0, 5) =~= tag);
    assert(occurs_at(line, tag, 0));
    assert(find_sub(line, tag, 0) == Some(0int));
    let rest = line.subrange(5, line.len() as int);
    assert(rest =~= hash + seq![SPACE] + path);
    lemma_split_joined(hash, SPACE, path);
    assert(tree_line(path, hash) =~= line + seq![LF]);
}

/// The text of a tree is empty or ends with a line feed.
pub proof fn lemma_tree_text_ends(ps: Pairs)
    ensures
        tree_text(ps).len() > 0 ==> tree_text(ps).last() == LF,
{
    if ps.len() > 0 {
        let line = tree_line(ps.last().0, ps.last().1);
        assert(line.last() == LF);
        assert(tree_text(ps).last() == line.last());
    }
}

/// The text of a tree is read back as the tree that it was written from,
/// where every entry is storable.
pub proof fn law_tree_round_trip(ps: Pairs)
    requires
        sorted(ps),
        storable(ps),
    ensures
        parse_tree(tree_text(ps)) == map_of(ps),
        tree_text_of(map_of(ps)) == tree_text(ps),
    decreases ps.len(),
{
    lemma_sorted_pairs(ps);
    if ps.len() == 0 {
        assert(lines(tree_text(ps)) =~= Seq::<Seq<u8>>::empty());
        assert(map_of(ps) =~= Map::<Seq<u8>, Seq<u8>>::empty());
    } else {
        let fewer = ps.drop_last();
        let path = ps.last().0;
        let hash = ps.last().1;
        lemma_map_of_drop_last(ps);
        assert forall|i: int| 0 <= i < fewer.len() implies storable_entry(
            (#[trigger] fewer[i]).0,
            fewer[i].1,
        ) by {
            assert(fewer[i] == ps[i]);
        }
        lemma_sorted_pairs(fewer);
        law_tree_round_trip(fewer);
        lemma_tree_text_ends(fewer);
        lemma_tree_line_parses(path, hash);
        let line = blob_tag() + hash + seq![SPACE] + path;
        lemma_lines_push(tree_text(fewer), line);
        let ls = lines(tree_text(ps));
        assert(ls == lines(tree_text(fewer)).push(line));
        assert(ls.drop_last() =~= lines(tree_text(fewer)));
        assert(ls.last() == line);
        assert forall|i: int| #![trigger fewer[i]] 0 <= i < fewer.len() implies crate::bytes::lex_lt(
            fewer[i].0,
            path,
        ) by {
            assert(fewer[i] == ps[i]);
            assert(crate::bytes::lex_lt(ps[i].0, ps[ps.len() - 1].0));
        }
        lemma_insert_at(fewer, fewer.len() as int, path, hash);
        assert(fewer.insert(fewer.len() as int, (path, hash)) =~= ps);
    }
}

} // verus!
