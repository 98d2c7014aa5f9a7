use mygit::checkout::{git_checkout, CheckoutOutcome};
use mygit::commands::{git_add, git_branch, git_commit, git_init, git_merge, MergeOutcome};
use mygit::reference::Head;
use mygit::remove::{git_rm, RmOutcome};
use mygit::repository::Repository;

#[allow(dead_code)]
fn new_repo(branch: &str) -> Repository {
    git_init(b".mygit", branch.as_bytes(), None)
}

#[allow(dead_code)]
fn write(repo: &mut Repository, name: &str, content: &str) {
    repo.worktree.insert(name.as_bytes().to_vec(), content.as_bytes().to_vec());
}

#[allow(dead_code)]
fn delete(repo: &mut Repository, name: &str) {
    repo.worktree.remove(name.as_bytes());
}

#[allow(dead_code)]
fn read(repo: &Repository, name: &str) -> Option<String> {
    repo.worktree.get(name.as_bytes()).map(|c| String::from_utf8_lossy(c).into_owned())
}

#[allow(dead_code)]
fn add(repo: &mut Repository, name: &str) {
    assert!(git_add(repo, name.as_bytes()).is_ok());
}

#[allow(dead_code)]
fn commit(repo: &mut Repository, message: &str) -> Vec<u8> {
    git_commit(repo, message.as_bytes())
}

#[allow(dead_code)]
fn init_commit(repo: &mut Repository, name: &str, content: &str) -> Vec<u8> {
    write(repo, name, content);
    add(repo, name);
    commit(repo, "msg")
}

#[allow(dead_code)]
fn branch(repo: &mut Repository, name: &str) {
    assert!(git_branch(repo, Some(name.as_bytes())).is_ok());
}

#[allow(dead_code)]
fn checkout(repo: &mut Repository, name: &str) -> CheckoutOutcome {
    git_checkout(repo, name.as_bytes(), false)
}

#[allow(dead_code)]
fn merge(repo: &mut Repository, name: &str) -> MergeOutcome {
    git_merge(repo, name.as_bytes())
}

#[allow(dead_code)]
fn rm(repo: &mut Repository, name: &str, recursive: bool) -> RmOutcome {
    git_rm(repo, name.as_bytes(), recursive)
}

#[allow(dead_code)]
fn staged(repo: &Repository, name: &str) -> bool {
    repo.index.contains_key(name.as_bytes())
}

#[allow(dead_code)]
fn head_is_detached_at(repo: &Repository, commit: &[u8]) -> bool {
    match &repo.head {
        Head::Detached(at) => at.as_slice() == commit,
        Head::Symbolic(_) => false,
    }
}

#[allow(dead_code)]
fn head_is_on(repo: &Repository, name: &str) -> bool {
    match &repo.head {
        Head::Symbolic(on) => on.as_slice() == name.as_bytes(),
        Head::Detached(_) => false,
    }
}

#[allow(dead_code)]
fn tip(repo: &Repository, name: &str) -> Vec<u8> {
    repo.branches.get(name.as_bytes()).cloned().unwrap_or_default()
}

#[test]
fn test_basic_commit() {
    let mut repo = new_repo("master");
    write(&mut repo, "hello.txt", "hello world");
    add(&mut repo, "hello.txt");
    let hash = commit(&mut repo, "initial commit");
    assert!(head_is_on(&repo, "master"));
    assert_eq!(tip(&repo, "master"), hash);
}

#[test]
fn test_branch_and_checkout() {
    let mut repo = new_repo("master");
    write(&mut repo, "file.txt", "v1");
    add(&mut repo, "file.txt");
    commit(&mut repo, "main commit");
    branch(&mut repo, "dev");
    assert_eq!(checkout(&mut repo, "dev"), CheckoutOutcome::Switched);
    write(&mut repo, "file.txt", "v2");
    add(&mut repo, "file.txt");
    commit(&mut repo, "dev commit");
    assert_eq!(checkout(&mut repo, "master"), CheckoutOutcome::Switched);
    assert_eq!(read(&repo, "file.txt"), Some("v1".to_string()));
}

#[test]
fn test_add_same_file_twice() {
    let mut repo = new_repo("master");
    write(&mut repo, "file.txt", "v1");
    add(&mut repo, "file.txt");
    commit(&mut repo, "v1 commit");
    write(&mut repo, "file.txt", "v2");
    add(&mut repo, "file.txt");
    let hash = commit(&mut repo, "v2 commit");
    assert_eq!(read(&repo, "file.txt"), Some("v2".to_string()));
    assert_eq!(repo.index.len(), 1);
    let tree = mygit::commands::commit_entries(&repo.objects, &hash).ok().unwrap();
    assert_eq!(tree.get(b"file.txt").cloned(), Some(mygit::hash::sha1_hash(b"v2")));
}

#[test]
fn test_merge_no_conflict() {
    let mut repo = new_repo("main");
    write(&mut repo, "file.txt", "v1");
    add(&mut repo, "file.txt");
    commit(&mut repo, "main commit");
    branch(&mut repo, "dev");
    checkout(&mut repo, "dev");
    write(&mut repo, "file.txt", "v2");
    add(&mut repo, "file.txt");
    commit(&mut repo, "dev commit");
    checkout(&mut repo, "main");
    assert!(matches!(merge(&mut repo, "dev"), MergeOutcome::Merged(_)));
    assert_eq!(read(&repo, "file.txt"), Some("v2".to_string()));
}

#[test]
fn test_merge_conflict() {
    let mut repo = new_repo("master");
    write(&mut repo, "test.txt", "line1\nline2\n");
    add(&mut repo, "test.txt");
    commit(&mut repo, "initial");
    branch(&mut repo, "temp1");
    checkout(&mut repo, "temp1");
    write(&mut repo, "test.txt", "line1\nchange-from-temp1\n");
    add(&mut repo, "test.txt");
    commit(&mut repo, "temp1 edit");
    checkout(&mut repo, "master");
    branch(&mut repo, "temp2");
    checkout(&mut repo, "temp2");
    write(&mut repo, "test.txt", "line1\nchange-from-temp2\n");
    add(&mut repo, "test.txt");
    let ours = commit(&mut repo, "temp2 edit");
    let objects = repo.objects.objects.len();
    match merge(&mut repo, "temp1") {
        MergeOutcome::Conflicted(conflicts) => {
            assert_eq!(conflicts.len(), 1);
            assert_eq!(conflicts[0].name, b"test.txt".to_vec());
            assert_eq!(conflicts[0].start, 2);
            assert_eq!(conflicts[0].end, 2);
        }
        _ => panic!("the merge has to report a conflict"),
    }
    assert_eq!(tip(&repo, "temp2"), ours);
    assert_eq!(repo.objects.objects.len(), objects);
    assert_eq!(read(&repo, "test.txt"), Some("line1\nchange-from-temp2\n".to_string()));
}
