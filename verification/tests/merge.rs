use mygit::checkout::{git_checkout, CheckoutOutcome};
use mygit::commands::{git_add, git_branch, git_commit, git_init, git_merge, MergeOutcome};
use mygit::reference::Head;
use mygit::remove::{git_rm, RmOutcome};
use mygit::repository::Repository;

#[allow(dead_code)]
fn new_repo(branch: &str) -> Repository {
    git_init(b".mygit", branch.as_bytes(), None)
}

#[allow(dead_code)]
fn write(repo: &mut Repository, name: &str, content: &str) {
    repo.worktree.insert(name.as_bytes().to_vec(), content.as_bytes().to_vec());
}

#[allow(dead_code)]
fn delete(repo: &mut Repository, name: &str) {
    repo.worktree.remove(name.as_bytes());
}

#[allow(dead_code)]
fn read(repo: &Repository, name: &str) -> Option<String> {
    repo.worktree.get(name.as_bytes()).map(|c| String::from_utf8_lossy(c).into_owned())
}

#[allow(dead_code)]
fn add(repo: &mut Repository, name: &str) {
    assert!(git_add(repo, name.as_bytes()).is_ok());
}

#[allow(dead_code)]
fn commit(repo: &mut Repository, message: &str) -> Vec<u8> {
    git_commit(repo, message.as_bytes())
}

#[allow(dead_code)]
fn init_commit(repo: &mut Repository, name: &str, content: &str) -> Vec<u8> {
    write(repo, name, content);
    add(repo, name);
    commit(repo, "msg")
}

#[allow(dead_code)]
fn branch(repo: &mut Repository, name: &str) {
    assert!(git_branch(repo, Some(name.as_bytes())).is_ok());
}

#[allow(dead_code)]
fn checkout(repo: &mut Repository, name: &str) -> CheckoutOutcome {
    git_checkout(repo, name.as_bytes(), false)
}

#[allow(dead_code)]
fn merge(repo: &mut Repository, name: &str) -> MergeOutcome {
    git_merge(repo, name.as_bytes())
}

#[allow(dead_code)]
fn rm(repo: &mut Repository, name: &str, recursive: bool) -> RmOutcome {
    git_rm(repo, name.as_bytes(), recursive)
}

#[allow(dead_code)]
fn staged(repo: &Repository, name: &str) -> bool {
    repo.index.contains_key(name.as_bytes())
}

#[allow(dead_code)]
fn head_is_detached_at(repo: &Repository, commit: &[u8]) -> bool {
    match &repo.head {
        Head::Detached(at) => at.as_slice() == commit,
        Head::Symbolic(_) => false,
    }
}

#[allow(dead_code)]
fn head_is_on(repo: &Repository, name: &str) -> bool {
    match &repo.head {
        Head::Symbolic(on) => on.as_slice() == name.as_bytes(),
        Head::Detached(_) => false,
    }
}

#[allow(dead_code)]
fn tip(repo: &Repository, name: &str) -> Vec<u8> {
    repo.branches.get(name.as_bytes()).cloned().unwrap_or_default()
}

#[test]
fn test_merge_fast_forward() {
    let mut repo = new_repo("main");
    let first = init_commit(&mut repo, "a.txt", "v1");
    branch(&mut repo, "dev");
    assert_eq!(checkout(&mut repo, "dev"), CheckoutOutcome::Switched);
    let second = init_commit(&mut repo, "b.txt", "v2");
    assert_eq!(checkout(&mut repo, "main"), CheckoutOutcome::Switched);
    let outcome = merge(&mut repo, "dev");
    let made = match outcome {
        MergeOutcome::Merged(id) => id,
        _ => Vec::new(),
    };
    assert_eq!(made.len(), 40);
    assert_eq!(tip(&repo, "main"), made);
    let text = String::from_utf8_lossy(repo.objects.get_object(&made).ok().unwrap()).into_owned();
    let first_text = String::from_utf8_lossy(&first).into_owned();
    let second_text = String::from_utf8_lossy(&second).into_owned();
    assert!(text.contains(&format!("parent {}\nparent {}\n", first_text, second_text)));
    assert!(text.ends_with("Merge branch 'dev' into 'main'"));
    assert_eq!(read(&repo, "a.txt"), Some("v1".to_string()));
    assert_eq!(read(&repo, "b.txt"), Some("v2".to_string()));
}

#[test]
fn test_merge_up_to_date() {
    let mut repo = new_repo("main");
    let first = init_commit(&mut repo, "x.txt", "x");
    let objects = repo.objects.objects.len();
    assert!(matches!(merge(&mut repo, "main"), MergeOutcome::AlreadyUpToDate));
    assert_eq!(tip(&repo, "main"), first);
    assert_eq!(repo.objects.objects.len(), objects);
    assert_eq!(read(&repo, "x.txt"), Some("x".to_string()));
}

#[test]
fn test_merge_add_same_file_conflict() {
    let mut repo = new_repo("main");
    init_commit(&mut repo, "base.txt", "base");
    branch(&mut repo, "a");
    branch(&mut repo, "b");
    checkout(&mut repo, "a");
    write(&mut repo, "conflict.txt", "aaa");
    add(&mut repo, "conflict.txt");
    let ours = commit(&mut repo, "a change");
    checkout(&mut repo, "b");
    write(&mut repo, "conflict.txt", "bbb");
    add(&mut repo, "conflict.txt");
    commit(&mut repo, "b change");
    checkout(&mut repo, "a");
    match merge(&mut repo, "b") {
        MergeOutcome::Conflicted(conflicts) => {
            assert_eq!(conflicts.len(), 1);
            assert_eq!(conflicts[0].name, b"conflict.txt".to_vec());
            assert_eq!((conflicts[0].start, conflicts[0].end), (1, 1));
        }
        _ => panic!("the merge has to report a conflict"),
    }
    assert_eq!(tip(&repo, "a"), ours);
    assert_eq!(read(&repo, "conflict.txt"), Some("aaa".to_string()));
}

#[test]
fn test_merge_add_same_file_no_conflict() {
    let mut repo = new_repo("main");
    init_commit(&mut repo, "base.txt", "base");
    branch(&mut repo, "a");
    branch(&mut repo, "b");
    checkout(&mut repo, "a");
    write(&mut repo, "same.txt", "ok");
    add(&mut repo, "same.txt");
    commit(&mut repo, "a add same");
    checkout(&mut repo, "b");
    write(&mut repo, "same.txt", "ok");
    add(&mut repo, "same.txt");
    commit(&mut repo, "b add same");
    checkout(&mut repo, "a");
    assert!(matches!(merge(&mut repo, "b"), MergeOutcome::Merged(_)));
    assert_eq!(read(&repo, "same.txt"), Some("ok".to_string()));
    assert_eq!(read(&repo, "base.txt"), Some("base".to_string()));
}

#[test]
fn test_merge_ab_delete_same_file() {
    let mut repo = new_repo("main");
    init_commit(&mut repo, "shared.txt", "content");
    branch(&mut repo, "a");
    branch(&mut repo, "b");
    checkout(&mut repo, "a");
    delete(&mut repo, "shared.txt");
    rm(&mut repo, "shared.txt", false);
    commit(&mut repo, "a delete");
    checkout(&mut repo, "b");
    delete(&mut repo, "shared.txt");
    rm(&mut repo, "shared.txt", false);
    commit(&mut repo, "b delete");
    checkout(&mut repo, "a");
    assert!(matches!(merge(&mut repo, "b"), MergeOutcome::Merged(_)));
    assert_eq!(read(&repo, "shared.txt"), None);
}

#[test]
fn test_merge_add_diff_files_no_conflict() {
    let mut repo = new_repo("main");
    init_commit(&mut repo, "base.txt", "base");
    branch(&mut repo, "a");
    branch(&mut repo, "b");
    checkout(&mut repo, "a");
    let ours = init_commit(&mut repo, "a.txt", "a");
    checkout(&mut repo, "b");
    let theirs = init_commit(&mut repo, "b.txt", "b");
    checkout(&mut repo, "a");
    let made = match merge(&mut repo, "b") {
        MergeOutcome::Merged(id) => id,
        _ => Vec::new(),
    };
    assert_eq!(made.len(), 40);
    let tree = mygit::commands::commit_entries(&repo.objects, &made).ok().unwrap();
    assert!(tree.contains_key(b"a.txt"));
    assert!(tree.contains_key(b"b.txt"));
    assert!(tree.contains_key(b"base.txt"));
    let text = String::from_utf8_lossy(repo.objects.get_object(&made).ok().unwrap()).into_owned();
    assert_eq!(text.matches("parent ").count(), 2);
    assert!(text.contains(&format!(
        "parent {}\nparent {}\n",
        String::from_utf8_lossy(&ours),
        String::from_utf8_lossy(&theirs)
    )));
}

#[test]
fn test_merge_add_and_delete_different_files() {
    let mut repo = new_repo("main");
    init_commit(&mut repo, "base.txt", "base");
    init_commit(&mut repo, "common.txt", "common");
    branch(&mut repo, "a");
    checkout(&mut repo, "a");
    init_commit(&mut repo, "a.txt", "a");
    checkout(&mut repo, "main");
    branch(&mut repo, "b");
    checkout(&mut repo, "b");
    assert_eq!(read(&repo, "common.txt"), Some("common".to_string()));
    delete(&mut repo, "common.txt");
    rm(&mut repo, "common.txt", false);
    rm(&mut repo, "a.txt", false);
    commit(&mut repo, "b delete common");
    checkout(&mut repo, "a");
    assert!(matches!(merge(&mut repo, "b"), MergeOutcome::Merged(_)));
    assert_eq!(read(&repo, "common.txt"), None);
    assert_eq!(read(&repo, "a.txt"), Some("a".to_string()));
    assert_eq!(read(&repo, "base.txt"), Some("base".to_string()));
}

#[test]
fn merge_of_a_missing_branch_changes_nothing() {
    let mut repo = new_repo("main");
    let first = init_commit(&mut repo, "x.txt", "x");
    assert!(matches!(merge(&mut repo, "nowhere"), MergeOutcome::TargetMissing));
    assert_eq!(tip(&repo, "main"), first);
}

#[test]
fn merge_needs_a_commit_on_both_branches() {
    let mut repo = new_repo("main");
    branch(&mut repo, "dev");
    init_commit(&mut repo, "x.txt", "x");
    assert!(matches!(merge(&mut repo, "dev"), MergeOutcome::EmptyBranch));
}

#[test]
fn merge_with_a_detached_head_is_refused() {
    let mut repo = new_repo("main");
    let first = init_commit(&mut repo, "x.txt", "x");
    branch(&mut repo, "dev");
    assert_eq!(git_checkout(&mut repo, &first, false), CheckoutOutcome::Detached);
    assert!(matches!(merge(&mut repo, "dev"), MergeOutcome::NotOnBranch));
}

#[test]
fn an_edit_wins_over_the_deletion_of_an_unchanged_file() {
    let mut repo = new_repo("main");
    init_commit(&mut repo, "f.txt", "old");
    branch(&mut repo, "a");
    branch(&mut repo, "b");
    checkout(&mut repo, "a");
    delete(&mut repo, "f.txt");
    rm(&mut repo, "f.txt", false);
    commit(&mut repo, "a deletes");
    checkout(&mut repo, "b");
    write(&mut repo, "f.txt", "new");
    add(&mut repo, "f.txt");
    commit(&mut repo, "b edits");
    checkout(&mut repo, "a");
    assert!(matches!(merge(&mut repo, "b"), MergeOutcome::Merged(_)));
    assert_eq!(read(&repo, "f.txt"), Some("new".to_string()));
}

#[test]
fn merge_of_a_branch_at_an_unknown_commit_changes_nothing() {
    let mut repo = new_repo("main");
    let first = init_commit(&mut repo, "x.txt", "x");
    repo.branches.insert(b"lost".to_vec(), b"0123456789abcdef0123456789abcdef01234567".to_vec());
    assert!(matches!(
        merge(&mut repo, "lost"),
        MergeOutcome::Unreadable(mygit::error::Error::NotFound)
    ));
    repo.objects.put(b"0123456789abcdef0123456789abcdef01234567", b"no tree line\n");
    assert!(matches!(
        merge(&mut repo, "lost"),
        MergeOutcome::Unreadable(mygit::error::Error::Corrupt)
    ));
    assert_eq!(tip(&repo, "main"), first);
    assert_eq!(read(&repo, "x.txt"), Some("x".to_string()));
}
