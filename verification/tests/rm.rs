use mygit::checkout::{git_checkout, CheckoutOutcome};
use mygit::commands::{git_add, git_branch, git_commit, git_init, git_merge, MergeOutcome};
use mygit::reference::Head;
use mygit::remove::{git_rm, RmOutcome};
use mygit::repository::Repository;

#[allow(dead_code)]
fn new_repo(branch: &str) -> Repository {
    git_init(b".mygit", branch.as_bytes(), None)
}

#[allow(dead_code)]
fn write(repo: &mut Repository, name: &str, content: &str) {
    repo.worktree.insert(name.as_bytes().to_vec(), content.as_bytes().to_vec());
}

#[allow(dead_code)]
fn delete(repo: &mut Repository, name: &str) {
    repo.worktree.remove(name.as_bytes());
}

#[allow(dead_code)]
fn read(repo: &Repository, name: &str) -> Option<String> {
    repo.worktree.get(name.as_bytes()).map(|c| String::from_utf8_lossy(c).into_owned())
}

#[allow(dead_code)]
fn add(repo: &mut Repository, name: &str) {
    assert!(git_add(repo, name.as_bytes()).is_ok());
}

#[allow(dead_code)]
fn commit(repo: &mut Repository, message: &str) -> Vec<u8> {
    git_commit(repo, message.as_bytes())
}

#[allow(dead_code)]
fn init_commit(repo: &mut Repository, name: &str, content: &str) -> Vec<u8> {
    write(repo, name, content);
    add(repo, name);
    commit(repo, "msg")
}

#[allow(dead_code)]
fn branch(repo: &mut Repository, name: &str) {
    assert!(git_branch(repo, Some(name.as_bytes())).is_ok());
}

#[allow(dead_code)]
fn checkout(repo: &mut Repository, name: &str) -> CheckoutOutcome {
    git_checkout(repo, name.as_bytes(), false)
}

#[allow(dead_code)]
fn merge(repo: &mut Repository, name: &str) -> MergeOutcome {
    git_merge(repo, name.as_bytes())
}

#[allow(dead_code)]
fn rm(repo: &mut Repository, name: &str, recursive: bool) -> RmOutcome {
    git_rm(repo, name.as_bytes(), recursive)
}

#[allow(dead_code)]
fn staged(repo: &Repository, name: &str) -> bool {
    repo.index.contains_key(name.as_bytes())
}

#[allow(dead_code)]
fn head_is_detached_at(repo: &Repository, commit: &[u8]) -> bool {
    match &repo.head {
        Head::Detached(at) => at.as_slice() == commit,
        Head::Symbolic(_) => false,
    }
}

#[allow(dead_code)]
fn head_is_on(repo: &Repository, name: &str) -> bool {
    match &repo.head {
        Head::Symbolic(on) => on.as_slice() == name.as_bytes(),
        Head::Detached(_) => false,
    }
}

#[allow(dead_code)]
fn tip(repo: &Repository, name: &str) -> Vec<u8> {
    repo.branches.get(name.as_bytes()).cloned().unwrap_or_default()
}

#[test]
fn test_rm_directory() {
    let mut repo = new_repo("master");
    write(&mut repo, "dir/file.txt", "test");
    add(&mut repo, "dir");
    assert_eq!(rm(&mut repo, "dir", true), RmOutcome::UnstagedDirectory);
    assert!(!staged(&repo, "dir/file.txt"));
    assert_eq!(read(&repo, "dir/file.txt"), None);
}

#[test]
fn test_rm_twice_same_file() {
    let mut repo = new_repo("master");
    write(&mut repo, "file.txt", "content");
    add(&mut repo, "file.txt");
    assert_eq!(rm(&mut repo, "file.txt", false), RmOutcome::Unstaged);
    assert_eq!(rm(&mut repo, "file.txt", false), RmOutcome::NotStaged);
    assert_eq!(read(&repo, "file.txt"), None);
}

#[test]
fn test_rm_directory_twice() {
    let mut repo = new_repo("master");
    write(&mut repo, "dir/file.txt", "test");
    add(&mut repo, "dir");
    assert_eq!(rm(&mut repo, "dir", true), RmOutcome::UnstagedDirectory);
    assert_eq!(rm(&mut repo, "dir", true), RmOutcome::UnstagedDirectory);
    assert!(repo.index.is_empty());
}

#[test]
fn test_rm_file_only_in_index() {
    let mut repo = new_repo("master");
    write(&mut repo, "file.txt", "hello");
    add(&mut repo, "file.txt");
    delete(&mut repo, "file.txt");
    assert_eq!(rm(&mut repo, "file.txt", false), RmOutcome::Unstaged);
    assert!(!staged(&repo, "file.txt"));
}

#[test]
fn test_rm_nested_file_in_directory() {
    let mut repo = new_repo("master");
    write(&mut repo, "a/b/c/deep.txt", "deep content");
    add(&mut repo, "a");
    assert!(staged(&repo, "a/b/c/deep.txt"));
    assert_eq!(rm(&mut repo, "a", true), RmOutcome::UnstagedDirectory);
    assert!(repo.index.is_empty());
    assert!(repo.worktree.is_empty());
}

#[test]
fn rm_of_a_directory_needs_the_recursive_flag() {
    let mut repo = new_repo("master");
    write(&mut repo, "dir/file.txt", "test");
    add(&mut repo, "dir");
    assert_eq!(rm(&mut repo, "dir", false), RmOutcome::IsDirectory);
    assert!(staged(&repo, "dir/file.txt"));
    assert_eq!(read(&repo, "dir/file.txt"), Some("test".to_string()));
}

#[test]
fn recursive_rm_unstages_every_path_with_the_prefix() {
    let mut repo = new_repo("master");
    write(&mut repo, "dir/file.txt", "1");
    write(&mut repo, "dirt.txt", "2");
    write(&mut repo, "other.txt", "3");
    add(&mut repo, ".");
    assert_eq!(rm(&mut repo, "dir", true), RmOutcome::UnstagedDirectory);
    assert!(!staged(&repo, "dir/file.txt"));
    assert!(!staged(&repo, "dirt.txt"));
    assert!(staged(&repo, "other.txt"));
    assert_eq!(read(&repo, "dirt.txt"), Some("2".to_string()));
}
