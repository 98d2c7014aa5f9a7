use mygit::checkout::{git_checkout, CheckoutOutcome};
use mygit::commands::{git_add, git_branch, git_commit, git_init, git_merge, MergeOutcome};
use mygit::reference::Head;
use mygit::remove::{git_rm, RmOutcome};
use mygit::repository::Repository;

#[allow(dead_code)]
fn new_repo(branch: &str) -> Repository {
    git_init(b".mygit", branch.as_bytes(), None)
}

#[allow(dead_code)]
fn write(repo: &mut Repository, name: &str, content: &str) {
    repo.worktree.insert(name.as_bytes().to_vec(), content.as_bytes().to_vec());
}

#[allow(dead_code)]
fn delete(repo: &mut Repository, name: &str) {
    repo.worktree.remove(name.as_bytes());
}

#[allow(dead_code)]
fn read(repo: &Repository, name: &str) -> Option<String> {
    repo.worktree.get(name.as_bytes()).map(|c| String::from_utf8_lossy(c).into_owned())
}

#[allow(dead_code)]
fn add(repo: &mut Repository, name: &str) {
    assert!(git_add(repo, name.as_bytes()).is_ok());
}

#[allow(dead_code)]
fn commit(repo: &mut Repository, message: &str) -> Vec<u8> {
    git_commit(repo, message.as_bytes())
}

#[allow(dead_code)]
fn init_commit(repo: &mut Repository, name: &str, content: &str) -> Vec<u8> {
    write(repo, name, content);
    add(repo, name);
    commit(repo, "msg")
}

#[allow(dead_code)]
fn branch(repo: &mut Repository, name: &str) {
    assert!(git_branch(repo, Some(name.as_bytes())).is_ok());
}

#[allow(dead_code)]
fn checkout(repo: &mut Repository, name: &str) -> CheckoutOutcome {
    git_checkout(repo, name.as_bytes(), false)
}

#[allow(dead_code)]
fn merge(repo: &mut Repository, name: &str) -> MergeOutcome {
    git_merge(repo, name.as_bytes())
}

#[allow(dead_code)]
fn rm(repo: &mut Repository, name: &str, recursive: bool) -> RmOutcome {
    git_rm(repo, name.as_bytes(), recursive)
}

#[allow(dead_code)]
fn staged(repo: &Repository, name: &str) -> bool {
    repo.index.contains_key(name.as_bytes())
}

#[allow(dead_code)]
fn head_is_detached_at(repo: &Repository, commit: &[u8]) -> bool {
    match &repo.head {
        Head::Detached(at) => at.as_slice() == commit,
        Head::Symbolic(_) => false,
    }
}

#[allow(dead_code)]
fn head_is_on(repo: &Repository, name: &str) -> bool {
    match &repo.head {
        Head::Symbolic(on) => on.as_slice() == name.as_bytes(),
        Head::Detached(_) => false,
    }
}

#[allow(dead_code)]
fn tip(repo: &Repository, name: &str) -> Vec<u8> {
    repo.branches.get(name.as_bytes()).cloned().unwrap_or_default()
}

#[test]
fn test_init_default_branch() {
    let repo = new_repo("master");
    assert!(head_is_on(&repo, "master"));
    assert!(repo.branches.contains_key(b"master"));
    assert_eq!(tip(&repo, "master"), Vec::<u8>::new());
    assert_eq!(mygit::reference::head_content(&repo.head), b"ref: refs/heads/master\n".to_vec());
    assert_eq!(repo.git_dir, b".mygit".to_vec());
    assert!(repo.objects.objects.is_empty());
    assert!(repo.index.is_empty());
}
