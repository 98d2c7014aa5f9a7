use mygit::checkout::{git_checkout, CheckoutOutcome};
use mygit::commands::{git_add, git_branch, git_commit, git_init, git_merge, MergeOutcome};
use mygit::reference::Head;
use mygit::remove::{git_rm, RmOutcome};
use mygit::repository::Repository;

#[allow(dead_code)]
fn new_repo(branch: &str) -> Repository {
    git_init(b".mygit", branch.as_bytes(), None)
}

#[allow(dead_code)]
fn write(repo: &mut Repository, name: &str, content: &str) {
    repo.worktree.insert(name.as_bytes().to_vec(), content.as_bytes().to_vec());
}

#[allow(dead_code)]
fn delete(repo: &mut Repository, name: &str) {
    repo.worktree.remove(name.as_bytes());
}

#[allow(dead_code)]
fn read(repo: &Repository, name: &str) -> Option<String> {
    repo.worktree.get(name.as_bytes()).map(|c| String::from_utf8_lossy(c).into_owned())
}

#[allow(dead_code)]
fn add(repo: &mut Repository, name: &str) {
    assert!(git_add(repo, name.as_bytes()).is_ok());
}

#[allow(dead_code)]
fn commit(repo: &mut Repository, message: &str) -> Vec<u8> {
    git_commit(repo, message.as_bytes())
}

#[allow(dead_code)]
fn init_commit(repo: &mut Repository, name: &str, content: &str) -> Vec<u8> {
    write(repo, name, content);
    add(repo, name);
    commit(repo, "msg")
}

#[allow(dead_code)]
fn branch(repo: &mut Repository, name: &str) {
    assert!(git_branch(repo, Some(name.as_bytes())).is_ok());
}

#[allow(dead_code)]
fn checkout(repo: &mut Repository, name: &str) -> CheckoutOutcome {
    git_checkout(repo, name.as_bytes(), false)
}

#[allow(dead_code)]
fn merge(repo: &mut Repository, name: &str) -> MergeOutcome {
    git_merge(repo, name.as_bytes())
}

#[allow(dead_code)]
fn rm(repo: &mut Repository, name: &str, recursive: bool) -> RmOutcome {
    git_rm(repo, name.as_bytes(), recursive)
}

#[allow(dead_code)]
fn staged(repo: &Repository, name: &str) -> bool {
    repo.index.contains_key(name.as_bytes())
}

#[allow(dead_code)]
fn head_is_detached_at(repo: &Repository, commit: &[u8]) -> bool {
    match &repo.head {
        Head::Detached(at) => at.as_slice() == commit,
        Head::Symbolic(_) => false,
    }
}

#[allow(dead_code)]
fn head_is_on(repo: &Repository, name: &str) -> bool {
    match &repo.head {
        Head::Symbolic(on) => on.as_slice() == name.as_bytes(),
        Head::Detached(_) => false,
    }
}

#[allow(dead_code)]
fn tip(repo: &Repository, name: &str) -> Vec<u8> {
    repo.branches.get(name.as_bytes()).cloned().unwrap_or_default()
}

#[test]
fn test_branch_list_normal() {
    let mut repo = new_repo("main");
    init_commit(&mut repo, "file.txt", "data");
    branch(&mut repo, "dev");
    let names = git_branch(&mut repo, None).ok().unwrap();
    assert_eq!(names, vec![b"dev".to_vec(), b"main".to_vec()]);
}

#[test]
fn test_branch_list_in_detach() {
    let mut repo = new_repo("main");
    let hash = init_commit(&mut repo, "file.txt", "1");
    assert_eq!(git_checkout(&mut repo, &hash, false), CheckoutOutcome::Detached);
    assert!(head_is_detached_at(&repo, &hash));
    let names = git_branch(&mut repo, None).ok().unwrap();
    assert_eq!(names, vec![b"main".to_vec()]);
}

#[test]
fn test_branch_create_in_detach() {
    let mut repo = new_repo("main");
    let hash = init_commit(&mut repo, "file.txt", "1");
    git_checkout(&mut repo, &hash, false);
    branch(&mut repo, "new-branch");
    assert_eq!(tip(&repo, "new-branch"), hash);
}

#[test]
fn test_branch_after_add() {
    let mut repo = new_repo("main");
    write(&mut repo, "a.txt", "1");
    add(&mut repo, "a.txt");
    branch(&mut repo, "dev");
    assert_eq!(tip(&repo, "dev"), Vec::<u8>::new());
}

#[test]
fn test_branch_after_rm() {
    let mut repo = new_repo("main");
    write(&mut repo, "b.txt", "1");
    add(&mut repo, "b.txt");
    rm(&mut repo, "b.txt", false);
    let names = git_branch(&mut repo, None).ok().unwrap();
    assert_eq!(names, vec![b"main".to_vec()]);
}

#[test]
fn test_branch_after_add_then_remove_file_manually() {
    let mut repo = new_repo("main");
    write(&mut repo, "foo.txt", "data");
    add(&mut repo, "foo.txt");
    delete(&mut repo, "foo.txt");
    branch(&mut repo, "lostfile");
    assert!(repo.branches.contains_key(b"lostfile"));
}

#[test]
fn test_branch_after_rm_add_same_file() {
    let mut repo = new_repo("main");
    write(&mut repo, "x.txt", "aaa");
    add(&mut repo, "x.txt");
    rm(&mut repo, "x.txt", false);
    write(&mut repo, "x.txt", "aaa");
    add(&mut repo, "x.txt");
    branch(&mut repo, "resurrect");
    assert!(repo.branches.contains_key(b"resurrect"));
}

#[test]
fn test_commit_in_detached_head_does_not_change_branch() {
    let mut repo = new_repo("main");
    let first = init_commit(&mut repo, "file.txt", "1");
    git_checkout(&mut repo, &first, false);
    write(&mut repo, "file.txt", "2");
    add(&mut repo, "file.txt");
    let second = commit(&mut repo, "second");
    assert_ne!(first, second);
    assert_eq!(tip(&repo, "main"), first);
    assert!(head_is_detached_at(&repo, &second));
}

#[test]
fn test_checkout_branch_from_detached_head() {
    let mut repo = new_repo("main");
    let first = init_commit(&mut repo, "f.txt", "1");
    git_checkout(&mut repo, &first, false);
    branch(&mut repo, "dev");
    assert_eq!(checkout(&mut repo, "dev"), CheckoutOutcome::Switched);
    assert_eq!(mygit::reference::head_content(&repo.head), b"ref: refs/heads/dev\n".to_vec());
}

#[test]
fn test_create_invalid_branch_in_detached_should_fail() {
    let mut repo = new_repo("main");
    let first = init_commit(&mut repo, "a.txt", "1");
    git_checkout(&mut repo, &first, false);
    assert_eq!(
        git_branch(&mut repo, Some(b"bad:name")),
        Err(mygit::error::Error::InvalidName(mygit::error::NameError::Forbidden))
    );
    assert!(!repo.branches.contains_key(b"bad:name"));
}

#[test]
fn branch_of_an_existing_name_is_refused() {
    let mut repo = new_repo("main");
    init_commit(&mut repo, "a.txt", "1");
    branch(&mut repo, "dev");
    assert_eq!(
        git_branch(&mut repo, Some(b"dev")),
        Err(mygit::error::Error::AlreadyExists)
    );
}

#[test]
fn the_current_branch_cannot_be_deleted() {
    let mut repo = new_repo("main");
    init_commit(&mut repo, "a.txt", "1");
    branch(&mut repo, "dev");
    assert_eq!(
        mygit::commands::git_branch_delete(&mut repo, b"main"),
        Err(mygit::error::Error::IsCurrentBranch)
    );
    assert_eq!(mygit::commands::git_branch_delete(&mut repo, b"dev"), Ok(()));
    assert_eq!(
        mygit::commands::git_branch_delete(&mut repo, b"dev"),
        Err(mygit::error::Error::NotFound)
    );
    assert!(repo.branches.contains_key(b"main"));
}
