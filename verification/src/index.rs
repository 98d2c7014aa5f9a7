//! The staging index: for each staged path the identifier of its blob, the
//! text in which the index is kept, and staging and unstaging.

use crate::bytemap::{
    lemma_insert_at, lemma_map_of_drop_last, lemma_sorted_pairs, map_of, sorted, sorted_pairs,
    without_prefix, ByteMap, Pairs,
};
use crate::bytes::{append, free_of, has_prefix, is_space, lemma_lines_push, lemma_split_joined, lemma_trimmed_same, lex_lt, lines, lookup, split_at_byte, split_lines, split_once, starts_with, strip_cr, to_vec, trim, trimmed, views, LF, SPACE};
use crate::error::Error;
use crate::hash::sha1_hex;
use crate::objects::stored;
use crate::reference::{DOT, SLASH};
use crate::repository::{option_view, RepoView, Repository};
use crate::worktree::{is_protected, is_protected_path};
use vstd::prelude::*;

verus! {

/// The line of the index for one path: `<identifier> <path>` and a line feed.
pub open spec fn index_line(path: Seq<u8>, hash: Seq<u8>) -> Seq<u8> {
    hash + seq![SPACE] + path + seq![LF]
}

/// The text of the entries of an index, one line for each, in their order.
pub open spec fn index_text(ps: Pairs) -> Seq<u8>
    decreases ps.len(),
{
    if ps.len() == 0 {
        Seq::empty()
    } else {
        index_text(ps.drop_last()) + index_line(ps.last().0, ps.last().1)
    }
}

/// The text of an index: its entries in the order of their paths.
pub open spec fn index_text_of(index: Map<Seq<u8>, Seq<u8>>) -> Seq<u8> {
    index_text(sorted_pairs(index))
}

/// The path and the blob identifier that a line of the index gives: the line
/// without white space at its ends, split at its first space. A line without
/// a space gives nothing.
pub open spec fn parse_index_line(line: Seq<u8>) -> Option<(Seq<u8>, Seq<u8>)> {
    match split_at_byte(trimmed(line), SPACE) {
        Some((hash, path)) => Some((path, hash)),
        None => None,
    }
}

/// The index that a sequence of lines gives; of two lines for one path the
/// later counts.
pub open spec fn parse_index_lines(ls: Seq<Seq<u8>>) -> Map<Seq<u8>, Seq<u8>>
    decreases ls.len(),
{
    if ls.len() == 0 {
        Map::empty()
    } else {
        let before = parse_index_lines(ls.drop_last());
        match parse_index_line(ls.last()) {
            Some((path, hash)) => before.insert(path, hash),
            None => before,
        }
    }
}

/// The index that a text stands for.
pub open spec fn parse_index(text: Seq<u8>) -> Map<Seq<u8>, Seq<u8>> {
    parse_index_lines(lines(text))
}

/// The text of the index.
pub fn index_content(index: &ByteMap) -> (r: Vec<u8>)
    ensures
        r@ == index_text_of(index@),
{
    let n: usize = index.len();
    let ghost ps = index.pairs();
    let mut out: Vec<u8> = Vec::new();
    let mut i: usize = 0;
    while i < n
        invariant
            i <= n,
            n == ps.len(),
            ps == index.pairs(),
            out@ == index_text(ps.subrange(0, i as int)),
        decreases n - i,
    {
        let ghost before = out@;
        append(&mut out, index.value_at(i).as_slice());
        out.push(SPACE);
        append(&mut out, index.key_at(i).as_slice());
        out.push(LF);
        proof {
            let next = ps.subrange(0, i + 1);
            assert(next.drop_last() =~= ps.subrange(0, i as int));
            assert(next.last() == ps[i as int]);
            assert(out@ =~= before + index_line(ps[i as int].0, ps[i as int].1));
        }
        i += 1;
    }
    assert(ps.subrange(0, n as int) =~= ps);
    out
}

/// Reads the text of the index.
pub fn read_index(text: &[u8]) -> (r: ByteMap)
    ensures
        r@ == parse_index(text@),
{
    let ls: Vec<Vec<u8>> = split_lines(text);
    let mut out: ByteMap = ByteMap::new();
    let mut i: usize = 0;
    while i < ls.len()
        invariant
            i <= ls@.len(),
            out@ == parse_index_lines(views(ls@).subrange(0, i as int)),
        decreases ls@.len() - i,
    {
        proof {
            let next = views(ls@).subrange(0, i + 1);
            assert(next.drop_last() =~= views(ls@).subrange(0, i as int));
            assert(next.last() == ls@[i as int]@);
        }
        match split_once(trim(ls[i].as_slice()), SPACE) {
            None => {},
            Some((hash, path)) => {
                out.insert(to_vec(path), to_vec(hash));
            },
        }
        i += 1;
    }
    assert(views(ls@).subrange(0, ls@.len() as int) =~= views(ls@));
    out
}

/// The path with `/` in place of each `\`.
pub open spec fn normalized(path: Seq<u8>) -> Seq<u8> {
    Seq::new(
        path.len(),
        |i: int|
            if path[i] == '\\' as u8 {
                SLASH
            } else {
                path[i]
            },
    )
}

/// Brings a path into the form in which the index holds paths: `/` in place
/// of each `\`.
pub fn normalize_path(path: &[u8]) -> (r: Vec<u8>)
    ensures
        r@ == normalized(path@),
{
    let mut out: Vec<u8> = Vec::new();
    let mut i: usize = 0;
    while i < path.len()
        invariant
            i <= path@.len(),
            out@ == normalized(path@).subrange(0, i as int),
        decreases path@.len() - i,
    {
        let b: u8 = path[i];
        out.push(if b == '\\' as u8 { SLASH } else { b });
        assert(out@ =~= normalized(path@).subrange(0, i + 1));
        i += 1;
    }
    assert(normalized(path@).subrange(0, path@.len() as int) =~= normalized(path@));
    out
}

/// The path names the working tree as a whole.
pub open spec fn is_root(path: Seq<u8>) -> bool {
    path.len() == 0 || path == seq![DOT]
}

/// What every path in the directory `dir` starts with.
pub open spec fn dir_prefix(dir: Seq<u8>) -> Seq<u8> {
    if is_root(dir) {
        Seq::empty()
    } else if dir.last() == SLASH {
        dir
    } else {
        dir + seq![SLASH]
    }
}

/// `path` lies in the directory `dir`.
pub open spec fn lies_under(dir: Seq<u8>, path: Seq<u8>) -> bool {
    has_prefix(path, dir_prefix(dir))
}

/// `dir` is a directory of the working tree: the working tree as a whole, or
/// a path under which a file lies.
pub open spec fn is_dir(worktree: Map<Seq<u8>, Seq<u8>>, dir: Seq<u8>) -> bool {
    is_root(dir) || exists|p: Seq<u8>| worktree.contains_key(p) && #[trigger] lies_under(dir, p)
}

/// The repository with the file `path` of content `content` staged: its blob
/// is stored and the index holds the path with the identifier of the blob.
pub open spec fn staged(repo: RepoView, path: Seq<u8>, content: Seq<u8>) -> RepoView {
    RepoView {
        objects: stored(repo.objects, sha1_hex(content), content),
        index: repo.index.insert(path, sha1_hex(content)),
        ..repo
    }
}

/// The repository with those of `files` staged, in their order, that lie in
/// `dir` and are not protected.
pub open spec fn staged_all(repo: RepoView, dir: Seq<u8>, files: Pairs) -> RepoView
    decreases files.len(),
{
    if files.len() == 0 {
        repo
    } else {
        let before = staged_all(repo, dir, files.drop_last());
        let file = files.last();
        if lies_under(dir, file.0) && !is_protected(repo.git_dir, repo.exe, file.0) {
            staged(before, file.0, file.1)
        } else {
            before
        }
    }
}

/// Staging changes the store and the index and nothing else.
pub proof fn lemma_staged_all_frame(repo: RepoView, dir: Seq<u8>, files: Pairs)
    ensures
        staged_all(repo, dir, files).worktree == repo.worktree,
        staged_all(repo, dir, files).head == repo.head,
        staged_all(repo, dir, files).branches == repo.branches,
        staged_all(repo, dir, files).git_dir == repo.git_dir,
        staged_all(repo, dir, files).exe == repo.exe,
    decreases files.len(),
{
    if files.len() > 0 {
        lemma_staged_all_frame(repo, dir, files.drop_last());
    }
}

/// Where no file lies in the directory, staging it changes nothing.
pub proof fn lemma_staged_all_none(repo: RepoView, dir: Seq<u8>, files: Pairs)
    requires
        forall|j: int| 0 <= j < files.len() ==> !lies_under(dir, (#[trigger] files[j]).0),
    ensures
        staged_all(repo, dir, files) == repo,
    decreases files.len(),
{
    if files.len() > 0 {
        let fewer = files.drop_last();
        assert forall|j: int| 0 <= j < fewer.len() implies !lies_under(
            dir,
            (#[trigger] fewer[j]).0,
        ) by {
            assert(fewer[j] == files[j]);
        }
        lemma_staged_all_none(repo, dir, fewer);
        assert(!lies_under(dir, files[files.len() - 1].0));
    }
}

/// After staging the files of a directory, the index holds each of them
/// that is not protected with the identifier of its content, and what it held
/// for every other path.
pub proof fn law_staged_all_index(repo: RepoView, dir: Seq<u8>, files: Pairs, p: Seq<u8>)
    requires
        sorted(files),
    ensures
        staged_all(repo, dir, files).index.contains_key(p) <==> repo.index.contains_key(p) || (
        crate::bytemap::has_key(files, p) && lies_under(dir, p) && !is_protected(
            repo.git_dir,
            repo.exe,
            p,
        )),
        crate::bytemap::has_key(files, p) && lies_under(dir, p) && !is_protected(
            repo.git_dir,
            repo.exe,
            p,
        ) ==> staged_all(repo, dir, files).index[p] == sha1_hex(map_of(files)[p]),
        !(crate::bytemap::has_key(files, p) && lies_under(dir, p) && !is_protected(
            repo.git_dir,
            repo.exe,
            p,
        )) && repo.index.contains_key(p) ==> staged_all(repo, dir, files).index[p]
            == repo.index[p],
    decreases files.len(),
{
    if files.len() > 0 {
        let fewer = files.drop_last();
        let last = files.last();
        lemma_map_of_drop_last(files);
        law_staged_all_index(repo, dir, fewer, p);
        crate::bytemap::lemma_map_of_index(files, files.len() - 1);
        if crate::bytemap::has_key(fewer, p) {
            let i = crate::bytemap::index_of_key(fewer, p);
            assert(fewer[i] == files[i]);
            assert(files[i].0 == p);
        }
        if crate::bytemap::has_key(files, p) && p != last.0 {
            let i = crate::bytemap::index_of_key(files, p);
            assert(files[i].0 == p);
            assert(fewer[i] == files[i]);
            assert(fewer[i].0 == p);
        }
        if p == last.0 {
            assert(files[files.len() - 1].0 == p);
        }
    }
}

/// What adding `path` does. A file is staged, unless it is protected. Of a
/// directory every file in it is staged that is not protected. A path that
/// is neither is not found.
pub open spec fn added(repo: RepoView, path: Seq<u8>) -> Result<RepoView, Error> {
    if repo.worktree.contains_key(path) {
        if is_protected(repo.git_dir, repo.exe, path) {
            Ok(repo)
        } else {
            Ok(staged(repo, path, repo.worktree[path]))
        }
    } else if is_dir(repo.worktree, path) {
        Ok(staged_all(repo, path, sorted_pairs(repo.worktree)))
    } else {
        Err(Error::NotFound)
    }
}

/// Stores `content` as a blob and stages `path` with it.
pub fn stage_file(repo: &mut Repository, path: &[u8], content: &[u8])
    ensures
        final(repo)@ == staged(old(repo)@, path@, content@),
        final(repo).worktree == old(repo).worktree,
{
    let hash: Vec<u8> = repo.objects.put_object(content);
    repo.index.insert(to_vec(path), hash);
}

/// What every path in the directory `dir` starts with.
pub fn dir_prefix_of(dir: &[u8]) -> (r: Vec<u8>)
    ensures
        r@ == dir_prefix(dir@),
{
    if dir.len() == 0 {
        return Vec::new();
    }
    if dir.len() == 1 && dir[0] == DOT {
        assert(dir@ =~= seq![DOT]);
        return Vec::new();
    }
    assert(dir@ != seq![DOT]) by {
        if dir@ == seq![DOT] {
            assert(dir@.len() == 1);
            assert(dir@[0] == seq![DOT][0]);
        }
    }
    let mut out: Vec<u8> = to_vec(dir);
    if dir[dir.len() - 1] != SLASH {
        out.push(SLASH);
        assert(out@ =~= dir@ + seq![SLASH]);
    }
    out
}

/// Stages the file or the directory `path` of the working tree.
pub fn add_to_index(path: &[u8], repo: &mut Repository) -> (r: Result<(), Error>)
    ensures
        match r {
            Ok(_) => added(old(repo)@, path@) == Ok::<RepoView, Error>(final(repo)@),
            Err(e) => added(old(repo)@, path@) == Err::<RepoView, Error>(e) && final(repo)@ == old(
                repo,
            )@,
        },
{
    if repo.worktree.contains_key(path) {
        if !is_protected_path(repo, path) {
            let content: Vec<u8> = match repo.worktree.get(path) {
                Some(content) => to_vec(content.as_slice()),
                None => Vec::new(),
            };
            stage_file(repo, path, content.as_slice());
        }
        return Ok(());
    }
    let prefix: Vec<u8> = dir_prefix_of(path);
    let n: usize = repo.worktree.len();
    let ghost ps = repo.worktree.pairs();
    let ghost start = repo@;
    let mut any: bool = false;
    let mut i: usize = 0;
    while i < n
        invariant
            i <= n,
            n == ps.len(),
            ps == repo.worktree.pairs(),
            ps == sorted_pairs(start.worktree),
            repo.worktree == old(repo).worktree,
            start == old(repo)@,
            prefix@ == dir_prefix(path@),
            repo@ == staged_all(start, path@, ps.subrange(0, i as int)),
            any == exists|j: int| 0 <= j < i && lies_under(path@, (#[trigger] ps[j]).0),
        decreases n - i,
    {
        proof {
            let next = ps.subrange(0, i + 1);
            assert(next.drop_last() =~= ps.subrange(0, i as int));
            assert(next.last() == ps[i as int]);
            lemma_staged_all_frame(start, path@, ps.subrange(0, i as int));
        }
        let file: Vec<u8> = to_vec(repo.worktree.key_at(i).as_slice());
        assert(file@ == ps[i as int].0);
        if starts_with(file.as_slice(), prefix.as_slice()) {
            any = true;
            if !is_protected_path(repo, file.as_slice()) {
                let content: Vec<u8> = to_vec(repo.worktree.value_at(i).as_slice());
                stage_file(repo, file.as_slice(), content.as_slice());
            }
        }
        i += 1;
    }
    assert(ps.subrange(0, n as int) =~= ps);
    let root: bool = path.len() == 0 || (path.len() == 1 && path[0] == DOT);
    proof {
        if root && path@.len() == 1 {
            assert(path@ =~= seq![DOT]);
        }
        if !root && path@ == seq![DOT] {
            assert(path@[0] == seq![DOT][0]);
        }
        assert(root == is_root(path@));
        if any {
            let j = choose|j: int| 0 <= j < n && lies_under(path@, (#[trigger] ps[j]).0);
            crate::bytemap::lemma_map_of_index(ps, j);
            assert(start.worktree.contains_key(ps[j].0));
        }
        if !any {
            lemma_staged_all_none(start, path@, ps);
        }
        if !root && is_dir(start.worktree, path@) {
            let p = choose|p: Seq<u8>|
                start.worktree.contains_key(p) && #[trigger] lies_under(path@, p);
            let j = crate::bytemap::index_of_key(ps, p);
            assert(ps[j].0 == p);
            assert(lies_under(path@, ps[j].0));
        }
    }
    if any || root {
        Ok(())
    } else {
        Err(Error::NotFound)
    }
}

/// The repository without the staged path `path`.
pub open spec fn unstaged(repo: RepoView, path: Seq<u8>) -> RepoView {
    RepoView { index: repo.index.remove(path), ..repo }
}

/// The repository without the staged paths that start with `dir`.
pub open spec fn unstaged_under(repo: RepoView, dir: Seq<u8>) -> RepoView {
    RepoView { index: without_prefix(repo.index, dir), ..repo }
}

/// Takes `path` out of the index. Returns the blob that it was staged with,
/// or `None` for a path that was not staged.
pub fn remove_from_index(path: &[u8], repo: &mut Repository) -> (r: Option<Vec<u8>>)
    ensures
        final(repo)@ == unstaged(old(repo)@, path@),
        option_view(r) == lookup(old(repo)@.index, path@),
{
    repo.index.remove(path)
}

/// Takes every path that starts with `dir` out of the index.
pub fn remove_directory_entries_from_index(dir: &[u8], repo: &mut Repository)
    ensures
        final(repo)@ == unstaged_under(old(repo)@, dir@),
{
    repo.index.remove_prefixed(dir);
}

/// Staging a file a second time changes nothing: the index holds the path
/// once, with the blob of the file, and the store holds the blob once.
pub proof fn law_stage_idempotent(repo: RepoView, path: Seq<u8>)
    requires
        repo.worktree.contains_key(path),
    ensures
        added(repo, path) is Ok,
        added(added(repo, path)->Ok_0, path) == added(repo, path),
        !is_protected(repo.git_dir, repo.exe, path) ==> added(repo, path)->Ok_0.index.contains_key(
            path,
        ) && added(repo, path)->Ok_0.index[path] == sha1_hex(repo.worktree[path]),
{
    let once = added(repo, path)->Ok_0;
    if !is_protected(repo.git_dir, repo.exe, path) {
        let content = repo.worktree[path];
        assert(staged(once, path, content).index =~= once.index);
        assert(staged(once, path, content).objects =~= once.objects);
        assert(staged(once, path, content) =~= once);
    }
}

/// An entry that the text of the index gives back as it is: its identifier
/// is not empty and holds no white space, and its path is not empty, holds no
/// line feed and does not end with white space.
pub open spec fn storable_entry(path: Seq<u8>, hash: Seq<u8>) -> bool {
    &&& hash.len() > 0
    &&& forall|j: int| 0 <= j < hash.len() ==> !is_space(#[trigger] hash[j])
    &&& path.len() > 0
    &&& free_of(path, LF)
    &&& !is_space(path.last())
}

/// Every entry is storable.
pub open spec fn storable(ps: Pairs) -> bool {
    forall|i: int| 0 <= i < ps.len() ==> storable_entry((#[trigger] ps[i]).0, ps[i].1)
}

/// The line of a storable entry, without its line feed, holds no line feed
/// and is read back as that entry.
pub proof fn lemma_index_line_parses(path: Seq<u8>, hash: Seq<u8>)
    requires
        storable_entry(path, hash),
    ensures
        free_of(hash + seq![SPACE] + path, LF),
        strip_cr(hash + seq![SPACE] + path) == hash + seq![SPACE] + path,
        parse_index_line(hash + seq![SPACE] + path) == Some((path, hash)),
        index_line(path, hash) == (hash + seq![SPACE] + path) + seq![LF],
{
    let line = hash + seq![SPACE] + path;
    assert forall|j: int| 0 <= j < line.len() implies line[j] != LF by {
        if j < hash.len() {
            assert(line[j] == hash[j]);
            assert(!is_space(hash[j]));
        } else if j == hash.len() {
            assert(line[j] == SPACE);
        } else {
            assert(line[j] == path[j - 1 - hash.len()]);
        }
    }
    assert(line.last() == path.last());
    assert(line[0] == hash[0]);
    assert(!is_space(hash[0]));
    lemma_trimmed_same(line);
    assert(free_of(hash, SPACE)) by {
        assert forall|j: int| 0 <= j < hash.len() implies hash[j] != SPACE by {
            assert(!is_space(hash[j]));
        }
    }
    lemma_split_joined(hash, SPACE, path);
    assert(index_line(path, hash) =~= line + seq![LF]);
}

/// The text of an index is empty or ends with a line feed.
pub proof fn lemma_index_text_ends(ps: Pairs)
    ensures
        index_text(ps).len() > 0 ==> index_text(ps).last() == LF,
{
    if ps.len() > 0 {
        let line = index_line(ps.last().0, ps.last().1);
        assert(line.last() == LF);
        assert(index_text(ps).last() == line.last());
    }
}

/// The text of an index is read back as the index that it was written from,
/// where every entry is storable.
pub proof fn law_index_round_trip(ps: Pairs)
    requires
        sorted(ps),
        storable(ps),
    ensures
        parse_index(index_text(ps)) == map_of(ps),
        index_text_of(map_of(ps)) == index_text(ps),
    decreases ps.len(),
{
    lemma_sorted_pairs(ps);
    if ps.len() == 0 {
        assert(lines(index_text(ps)) =~= Seq::<Seq<u8>>::empty());
        assert(map_of(ps) =~= Map::<Seq<u8>, Seq<u8>>::empty());
    } else {
        let fewer = ps.drop_last();
        let path = ps.last().0;
        let hash = ps.last().1;
        lemma_map_of_drop_last(ps);
        assert forall|i: int| 0 <= i < fewer.len() implies storable_entry(
            (#[trigger] fewer[i]).0,
            fewer[i].1,
        ) by {
            assert(fewer[i] == ps[i]);
        }
        law_index_round_trip(fewer);
        lemma_index_text_ends(fewer);
        lemma_index_line_parses(path, hash);
        let line = hash + seq![SPACE] + path;
        lemma_lines_push(index_text(fewer), line);
        let ls = lines(index_text(ps));
        assert(ls == lines(index_text(fewer)).push(line));
        assert(ls.drop_last() =~= lines(index_text(fewer)));
        assert(ls.last() == line);
        assert forall|i: int| #![trigger fewer[i]] 0 <= i < fewer.len() implies lex_lt(
            fewer[i].0,
            path,
        ) by {
            assert(fewer[i] == ps[i]);
            assert(lex_lt(ps[i].0, ps[ps.len() - 1].0));
        }
        lemma_insert_at(fewer, fewer.len() as int, path, hash);
        assert(fewer.insert(fewer.len() as int, (path, hash)) =~= ps);
    }
}

} // verus!
