use mygit::checkout::{git_checkout, CheckoutOutcome};
use mygit::commands::{git_add, git_branch, git_commit, git_init, git_merge, MergeOutcome};
use mygit::reference::Head;
use mygit::remove::{git_rm, RmOutcome};
use mygit::repository::Repository;

#[allow(dead_code)]
fn new_repo(branch: &str) -> Repository {
    git_init(b".mygit", branch.as_bytes(), None)
}

#[allow(dead_code)]
fn write(repo: &mut Repository, name: &str, content: &str) {
    repo.worktree.insert(name.as_bytes().to_vec(), content.as_bytes().to_vec());
}

#[allow(dead_code)]
fn delete(repo: &mut Repository, name: &str) {
    repo.worktree.remove(name.as_bytes());
}

#[allow(dead_code)]
fn read(repo: &Repository, name: &str) -> Option<String> {
    repo.worktree.get(name.as_bytes()).map(|c| String::from_utf8_lossy(c).into_owned())
}

#[allow(dead_code)]
fn add(repo: &mut Repository, name: &str) {
    assert!(git_add(repo, name.as_bytes()).is_ok());
}

#[allow(dead_code)]
fn commit(repo: &mut Repository, message: &str) -> Vec<u8> {
    git_commit(repo, message.as_bytes())
}

#[allow(dead_code)]
fn init_commit(repo: &mut Repository, name: &str, content: &str) -> Vec<u8> {
    write(repo, name, content);
    add(repo, name);
    commit(repo, "msg")
}

#[allow(dead_code)]
fn branch(repo: &mut Repository, name: &str) {
    assert!(git_branch(repo, Some(name.as_bytes())).is_ok());
}

#[allow(dead_code)]
fn checkout(repo: &mut Repository, name: &str) -> CheckoutOutcome {
    git_checkout(repo, name.as_bytes(), false)
}

#[allow(dead_code)]
fn merge(repo: &mut Repository, name: &str) -> MergeOutcome {
    git_merge(repo, name.as_bytes())
}

#[allow(dead_code)]
fn rm(repo: &mut Repository, name: &str, recursive: bool) -> RmOutcome {
    git_rm(repo, name.as_bytes(), recursive)
}

#[allow(dead_code)]
fn staged(repo: &Repository, name: &str) -> bool {
    repo.index.contains_key(name.as_bytes())
}

#[allow(dead_code)]
fn head_is_detached_at(repo: &Repository, commit: &[u8]) -> bool {
    match &repo.head {
        Head::Detached(at) => at.as_slice() == commit,
        Head::Symbolic(_) => false,
    }
}

#[allow(dead_code)]
fn head_is_on(repo: &Repository, name: &str) -> bool {
    match &repo.head {
        Head::Symbolic(on) => on.as_slice() == name.as_bytes(),
        Head::Detached(_) => false,
    }
}

#[allow(dead_code)]
fn tip(repo: &Repository, name: &str) -> Vec<u8> {
    repo.branches.get(name.as_bytes()).cloned().unwrap_or_default()
}

#[test]
fn test_checkout_b_creates_and_switches_branch() {
    let mut repo = new_repo("main");
    write(&mut repo, "file.txt", "main");
    add(&mut repo, "file.txt");
    let first = commit(&mut repo, "main commit");
    assert_eq!(git_checkout(&mut repo, b"feature", true), CheckoutOutcome::Switched);
    assert!(head_is_on(&repo, "feature"));
    assert_eq!(tip(&repo, "feature"), first);
    assert_eq!(read(&repo, "file.txt"), Some("main".to_string()));
}

#[test]
fn test_checkout_from_branch_to_branch() {
    let mut repo = new_repo("main");
    init_commit(&mut repo, "a.txt", "1");
    branch(&mut repo, "dev");
    assert_eq!(checkout(&mut repo, "dev"), CheckoutOutcome::Switched);
    assert!(head_is_on(&repo, "dev"));
}

#[test]
fn test_checkout_to_detached_commit() {
    let mut repo = new_repo("main");
    let hash = init_commit(&mut repo, "a.txt", "1");
    assert_eq!(git_checkout(&mut repo, &hash, false), CheckoutOutcome::Detached);
    assert!(head_is_detached_at(&repo, &hash));
    let mut expected = hash.clone();
    expected.push(b'\n');
    assert_eq!(mygit::reference::head_content(&repo.head), expected);
}

#[test]
fn test_checkout_from_detached_to_branch() {
    let mut repo = new_repo("main");
    let hash = init_commit(&mut repo, "a.txt", "1");
    assert_eq!(git_checkout(&mut repo, &hash, false), CheckoutOutcome::Detached);
    assert_eq!(checkout(&mut repo, "main"), CheckoutOutcome::Switched);
    assert!(head_is_on(&repo, "main"));
    assert_eq!(
        mygit::reference::head_content(&repo.head),
        b"ref: refs/heads/main\n".to_vec()
    );
}

#[test]
fn test_checkout_detached_to_another_detached() {
    let mut repo = new_repo("main");
    let first = init_commit(&mut repo, "file.txt", "1");
    write(&mut repo, "file.txt", "2");
    add(&mut repo, "file.txt");
    let second = commit(&mut repo, "second");
    assert_eq!(git_checkout(&mut repo, &second, false), CheckoutOutcome::Detached);
    assert_eq!(read(&repo, "file.txt"), Some("2".to_string()));
    assert_eq!(git_checkout(&mut repo, &first, false), CheckoutOutcome::Detached);
    assert!(head_is_detached_at(&repo, &first));
    assert_eq!(read(&repo, "file.txt"), Some("1".to_string()));
}

#[test]
fn checkout_refuses_the_text_of_a_symbolic_head() {
    let mut repo = new_repo("main");
    init_commit(&mut repo, "a.txt", "1");
    assert_eq!(
        git_checkout(&mut repo, b"ref: refs/heads/main", false),
        CheckoutOutcome::RefSyntax
    );
    assert!(head_is_on(&repo, "main"));
}

#[test]
fn checkout_of_a_missing_branch_changes_nothing() {
    let mut repo = new_repo("main");
    init_commit(&mut repo, "a.txt", "1");
    assert_eq!(checkout(&mut repo, "nowhere"), CheckoutOutcome::NotFound);
    assert!(head_is_on(&repo, "main"));
    assert_eq!(read(&repo, "a.txt"), Some("1".to_string()));
}

#[test]
fn checkout_b_of_an_existing_branch_is_refused() {
    let mut repo = new_repo("main");
    init_commit(&mut repo, "a.txt", "1");
    branch(&mut repo, "dev");
    assert_eq!(git_checkout(&mut repo, b"dev", true), CheckoutOutcome::AlreadyExists);
    assert!(head_is_on(&repo, "main"));
}

#[test]
fn checkout_of_a_bad_name_is_refused() {
    let mut repo = new_repo("main");
    assert_eq!(
        git_checkout(&mut repo, b"bad:name", true),
        CheckoutOutcome::InvalidName(mygit::error::NameError::Forbidden)
    );
}

#[test]
fn checkout_of_a_branch_without_commits_clears_the_working_tree() {
    let mut repo = git_init(b".mygit", b"main", Some(b"tool".to_vec()));
    write(&mut repo, "a.txt", "1");
    write(&mut repo, ".mygit/HEAD", "kept");
    write(&mut repo, "tool", "kept");
    assert_eq!(git_checkout(&mut repo, b"fresh", true), CheckoutOutcome::EmptyBranch);
    assert!(head_is_on(&repo, "fresh"));
    assert_eq!(read(&repo, "a.txt"), None);
    assert_eq!(read(&repo, ".mygit/HEAD"), Some("kept".to_string()));
    assert_eq!(read(&repo, "tool"), Some("kept".to_string()));
}

#[test]
fn checkout_of_an_unknown_commit_detaches_and_clears() {
    let mut repo = new_repo("main");
    init_commit(&mut repo, "a.txt", "1");
    let unknown = b"0123456789abcdef0123456789abcdef01234567";
    assert_eq!(
        git_checkout(&mut repo, unknown, false),
        CheckoutOutcome::DetachedUnreadable(mygit::error::Error::NotFound)
    );
    assert!(head_is_detached_at(&repo, unknown));
    assert_eq!(read(&repo, "a.txt"), None);
}

#[test]
fn checkout_of_a_branch_at_an_unknown_commit_clears_the_working_tree() {
    let mut repo = new_repo("main");
    init_commit(&mut repo, "a.txt", "1");
    repo.branches.insert(b"lost".to_vec(), b"0123456789abcdef0123456789abcdef01234567".to_vec());
    assert_eq!(
        checkout(&mut repo, "lost"),
        CheckoutOutcome::Unreadable(mygit::error::Error::NotFound)
    );
    assert!(head_is_on(&repo, "lost"));
    assert_eq!(read(&repo, "a.txt"), None);
}
