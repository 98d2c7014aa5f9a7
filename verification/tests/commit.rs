use mygit::checkout::{git_checkout, CheckoutOutcome};
use mygit::commands::{git_add, git_branch, git_commit, git_init, git_merge, MergeOutcome};
use mygit::reference::Head;
use mygit::remove::{git_rm, RmOutcome};
use mygit::repository::Repository;

#[allow(dead_code)]
fn new_repo(branch: &str) -> Repository {
    git_init(b".mygit", branch.as_bytes(), None)
}

#[allow(dead_code)]
fn write(repo: &mut Repository, name: &str, content: &str) {
    repo.worktree.insert(name.as_bytes().to_vec(), content.as_bytes().to_vec());
}

#[allow(dead_code)]
fn delete(repo: &mut Repository, name: &str) {
    repo.worktree.remove(name.as_bytes());
}

#[allow(dead_code)]
fn read(repo: &Repository, name: &str) -> Option<String> {
    repo.worktree.get(name.as_bytes()).map(|c| String::from_utf8_lossy(c).into_owned())
}

#[allow(dead_code)]
fn add(repo: &mut Repository, name: &str) {
    assert!(git_add(repo, name.as_bytes()).is_ok());
}

#[allow(dead_code)]
fn commit(repo: &mut Repository, message: &str) -> Vec<u8> {
    git_commit(repo, message.as_bytes())
}

#[allow(dead_code)]
fn init_commit(repo: &mut Repository, name: &str, content: &str) -> Vec<u8> {
    write(repo, name, content);
    add(repo, name);
    commit(repo, "msg")
}

#[allow(dead_code)]
fn branch(repo: &mut Repository, name: &str) {
    assert!(git_branch(repo, Some(name.as_bytes())).is_ok());
}

#[allow(dead_code)]
fn checkout(repo: &mut Repository, name: &str) -> CheckoutOutcome {
    git_checkout(repo, name.as_bytes(), false)
}

#[allow(dead_code)]
fn merge(repo: &mut Repository, name: &str) -> MergeOutcome {
    git_merge(repo, name.as_bytes())
}

#[allow(dead_code)]
fn rm(repo: &mut Repository, name: &str, recursive: bool) -> RmOutcome {
    git_rm(repo, name.as_bytes(), recursive)
}

#[allow(dead_code)]
fn staged(repo: &Repository, name: &str) -> bool {
    repo.index.contains_key(name.as_bytes())
}

#[allow(dead_code)]
fn head_is_detached_at(repo: &Repository, commit: &[u8]) -> bool {
    match &repo.head {
        Head::Detached(at) => at.as_slice() == commit,
        Head::Symbolic(_) => false,
    }
}

#[allow(dead_code)]
fn head_is_on(repo: &Repository, name: &str) -> bool {
    match &repo.head {
        Head::Symbolic(on) => on.as_slice() == name.as_bytes(),
        Head::Detached(_) => false,
    }
}

#[allow(dead_code)]
fn tip(repo: &Repository, name: &str) -> Vec<u8> {
    repo.branches.get(name.as_bytes()).cloned().unwrap_or_default()
}

#[test]
fn test_commit_normal() {
    let mut repo = new_repo("master");
    write(&mut repo, "a.txt", "hello");
    add(&mut repo, "a.txt");
    let hash = commit(&mut repo, "add a.txt");
    assert_eq!(hash, b"2903940a52356962ce1ab37b02dbc9db618fc895".to_vec());
    assert_eq!(tip(&repo, "master"), hash);
    assert!(head_is_on(&repo, "master"));
    assert_eq!(
        repo.objects.get_object(b"9c7e48d50e43f144c1cd5a02526ebbece9eb9928").ok().cloned(),
        Some(b"blob aaf4c61ddcc5e8a2dabede0f3b482cd9aea9434d a.txt\n".to_vec())
    );
    let text = repo.objects.get_object(&hash).ok().cloned().unwrap_or_default();
    assert_eq!(
        text,
        b"tree 9c7e48d50e43f144c1cd5a02526ebbece9eb9928\nauthor Your Name <you@example.com>\ncommitter Your Name <you@example.com>\n\nadd a.txt".to_vec()
    );
}

#[test]
fn second_commit_names_the_first_as_its_parent() {
    let mut repo = new_repo("master");
    write(&mut repo, "a.txt", "hello");
    add(&mut repo, "a.txt");
    let first = commit(&mut repo, "add a.txt");
    let second = commit(&mut repo, "again");
    assert_eq!(second, b"66b988d0b74bcf6ed5dade71856ddea70e3ffd3c".to_vec());
    assert_eq!(
        mygit::commit::read_commit_parent(&second, &repo.objects),
        Some(first)
    );
    assert_eq!(
        mygit::commit::read_commit_tree(&second, &repo.objects),
        Ok(b"9c7e48d50e43f144c1cd5a02526ebbece9eb9928".to_vec())
    );
}

#[test]
fn test_commit_with_chinese_message() {
    let mut repo = new_repo("master");
    write(&mut repo, "a.txt", "你好");
    add(&mut repo, "a.txt");
    let hash = commit(&mut repo, "提交中文");
    assert_eq!(hash.len(), 40);
    let text = repo.objects.get_object(&hash).ok().cloned().unwrap_or_default();
    assert!(text.ends_with("\n\n提交中文".as_bytes()));
}

#[test]
fn test_commit_empty_message() {
    let mut repo = new_repo("master");
    write(&mut repo, "a.txt", "data");
    add(&mut repo, "a.txt");
    let hash = commit(&mut repo, "");
    assert_eq!(tip(&repo, "master"), hash);
    let text = repo.objects.get_object(&hash).ok().cloned().unwrap_or_default();
    assert!(text.ends_with(b">\n\n"));
}

#[test]
fn test_rm_then_add_same_file_commit() {
    let mut repo = new_repo("master");
    write(&mut repo, "a.txt", "1");
    add(&mut repo, "a.txt");
    assert_eq!(rm(&mut repo, "a.txt", false), RmOutcome::Unstaged);
    write(&mut repo, "a.txt", "2");
    add(&mut repo, "a.txt");
    let hash = commit(&mut repo, "rm then add same name commit");
    let tree = mygit::commands::commit_entries(&repo.objects, &hash).ok().unwrap();
    assert_eq!(tree.get(b"a.txt").cloned(), Some(mygit::hash::sha1_hash(b"2")));
}

#[test]
fn test_rm_then_add_then_add_commit() {
    let mut repo = new_repo("master");
    write(&mut repo, "a.txt", "old");
    add(&mut repo, "a.txt");
    rm(&mut repo, "a.txt", false);
    write(&mut repo, "a.txt", "new");
    add(&mut repo, ".");
    let hash = commit(&mut repo, "rm then add . commit");
    let tree = mygit::commands::commit_entries(&repo.objects, &hash).ok().unwrap();
    assert_eq!(tree.get(b"a.txt").cloned(), Some(mygit::hash::sha1_hash(b"new")));
}

#[test]
fn test_add_rm_then_commit() {
    let mut repo = new_repo("master");
    write(&mut repo, "a.txt", "something");
    add(&mut repo, "a.txt");
    rm(&mut repo, "a.txt", false);
    let hash = commit(&mut repo, "add then rm commit");
    let tree = mygit::commands::commit_entries(&repo.objects, &hash).ok().unwrap();
    assert!(tree.is_empty());
}

#[test]
fn test_add_rm_add_dot_then_commit() {
    let mut repo = new_repo("master");
    write(&mut repo, "a.txt", "one");
    add(&mut repo, "a.txt");
    rm(&mut repo, "a.txt", false);
    write(&mut repo, "a.txt", "two");
    add(&mut repo, ".");
    let hash = commit(&mut repo, "add rm add again commit");
    let tree = mygit::commands::commit_entries(&repo.objects, &hash).ok().unwrap();
    assert_eq!(tree.len(), 1);
}

#[test]
fn a_staged_file_that_is_gone_is_left_out_of_the_commit() {
    let mut repo = new_repo("master");
    write(&mut repo, "a.txt", "a");
    write(&mut repo, "b.txt", "b");
    add(&mut repo, ".");
    delete(&mut repo, "b.txt");
    let hash = commit(&mut repo, "one left");
    let tree = mygit::commands::commit_entries(&repo.objects, &hash).ok().unwrap();
    assert!(tree.contains_key(b"a.txt"));
    assert!(!tree.contains_key(b"b.txt"));
    assert!(staged(&repo, "b.txt"));
}
