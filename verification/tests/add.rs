use mygit::checkout::{git_checkout, CheckoutOutcome};
use mygit::commands::{git_add, git_branch, git_commit, git_init, git_merge, MergeOutcome};
use mygit::reference::Head;
use mygit::remove::{git_rm, RmOutcome};
use mygit::repository::Repository;

#[allow(dead_code)]
fn new_repo(branch: &str) -> Repository {
    git_init(b".mygit", branch.as_bytes(), None)
}

#[allow(dead_code)]
fn write(repo: &mut Repository, name: &str, content: &str) {
    repo.worktree.insert(name.as_bytes().to_vec(), content.as_bytes().to_vec());
}

#[allow(dead_code)]
fn delete(repo: &mut Repository, name: &str) {
    repo.worktree.remove(name.as_bytes());
}

#[allow(dead_code)]
fn read(repo: &Repository, name: &str) -> Option<String> {
    repo.worktree.get(name.as_bytes()).map(|c| String::from_utf8_lossy(c).into_owned())
}

#[allow(dead_code)]
fn add(repo: &mut Repository, name: &str) {
    assert!(git_add(repo, name.as_bytes()).is_ok());
}

#[allow(dead_code)]
fn commit(repo: &mut Repository, message: &str) -> Vec<u8> {
    git_commit(repo, message.as_bytes())
}

#[allow(dead_code)]
fn init_commit(repo: &mut Repository, name: &str, content: &str) -> Vec<u8> {
    write(repo, name, content);
    add(repo, name);
    commit(repo, "msg")
}

#[allow(dead_code)]
fn branch(repo: &mut Repository, name: &str) {
    assert!(git_branch(repo, Some(name.as_bytes())).is_ok());
}

#[allow(dead_code)]
fn checkout(repo: &mut Repository, name: &str) -> CheckoutOutcome {
    git_checkout(repo, name.as_bytes(), false)
}

#[allow(dead_code)]
fn merge(repo: &mut Repository, name: &str) -> MergeOutcome {
    git_merge(repo, name.as_bytes())
}

#[allow(dead_code)]
fn rm(repo: &mut Repository, name: &str, recursive: bool) -> RmOutcome {
    git_rm(repo, name.as_bytes(), recursive)
}

#[allow(dead_code)]
fn staged(repo: &Repository, name: &str) -> bool {
    repo.index.contains_key(name.as_bytes())
}

#[allow(dead_code)]
fn head_is_detached_at(repo: &Repository, commit: &[u8]) -> bool {
    match &repo.head {
        Head::Detached(at) => at.as_slice() == commit,
        Head::Symbolic(_) => false,
    }
}

#[allow(dead_code)]
fn head_is_on(repo: &Repository, name: &str) -> bool {
    match &repo.head {
        Head::Symbolic(on) => on.as_slice() == name.as_bytes(),
        Head::Detached(_) => false,
    }
}

#[allow(dead_code)]
fn tip(repo: &Repository, name: &str) -> Vec<u8> {
    repo.branches.get(name.as_bytes()).cloned().unwrap_or_default()
}

#[test]
fn test_add_single_file() {
    let mut repo = new_repo("master");
    write(&mut repo, "file.txt", "hello");
    add(&mut repo, "file.txt");
    assert_eq!(
        repo.index.get(b"file.txt").cloned(),
        Some(b"aaf4c61ddcc5e8a2dabede0f3b482cd9aea9434d".to_vec())
    );
    assert_eq!(
        repo.objects.get_object(b"aaf4c61ddcc5e8a2dabede0f3b482cd9aea9434d").ok().cloned(),
        Some(b"hello".to_vec())
    );
}

#[test]
fn test_add_directory() {
    let mut repo = new_repo("master");
    write(&mut repo, "subdir/a.txt", "a");
    write(&mut repo, "subdir/b.txt", "b");
    write(&mut repo, "subdirectory.txt", "c");
    add(&mut repo, "subdir");
    assert!(staged(&repo, "subdir/a.txt"));
    assert!(staged(&repo, "subdir/b.txt"));
    assert!(!staged(&repo, "subdirectory.txt"));
    assert_eq!(repo.index.len(), 2);
}

#[test]
fn test_add_file_and_directory() {
    let mut repo = new_repo("master");
    write(&mut repo, "file.txt", "hello");
    write(&mut repo, "sub/inside.txt", "world");
    add(&mut repo, "file.txt");
    add(&mut repo, "sub");
    assert!(staged(&repo, "file.txt"));
    assert!(staged(&repo, "sub/inside.txt"));
}

#[test]
fn add_of_a_missing_path_is_not_found() {
    let mut repo = new_repo("master");
    write(&mut repo, "file.txt", "hello");
    assert_eq!(git_add(&mut repo, b"nothing.txt"), Err(mygit::error::Error::NotFound));
    assert!(repo.index.is_empty());
}

#[test]
fn add_of_the_root_stages_every_file_but_the_protected() {
    let mut repo = git_init(b".mygit", b"master", Some(b"tool".to_vec()));
    write(&mut repo, "a.txt", "a");
    write(&mut repo, "d/b.txt", "b");
    write(&mut repo, ".mygit/HEAD", "x");
    write(&mut repo, "tool", "binary");
    add(&mut repo, ".");
    assert!(staged(&repo, "a.txt"));
    assert!(staged(&repo, "d/b.txt"));
    assert!(!staged(&repo, ".mygit/HEAD"));
    assert!(!staged(&repo, "tool"));
}

#[test]
fn staging_a_file_twice_leaves_one_entry_and_one_blob() {
    let mut repo = new_repo("master");
    write(&mut repo, "file.txt", "hello");
    add(&mut repo, "file.txt");
    let index_once = mygit::index::index_content(&repo.index);
    let objects_once = repo.objects.objects.len();
    add(&mut repo, "file.txt");
    assert_eq!(repo.index.len(), 1);
    assert_eq!(mygit::index::index_content(&repo.index), index_once);
    assert_eq!(repo.objects.objects.len(), objects_once);
    assert_eq!(objects_once, 1);
}
