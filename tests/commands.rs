use git_playground::{Head, Repository, Signature};

fn sig() -> Signature {
    Signature { name: b"tester".to_vec(), time: 1_700_000_000 }
}

fn write_dummy_add_commit(repo: &mut Repository) {
    repo.write_file(b"dummy.txt".to_vec(), b"initial commit".to_vec());
    repo.add(b"dummy.txt").expect("failed to add dummy.txt");
    repo.commit(b"initial commit", &sig()).expect("failed to commit");
}

#[test]
fn test_git_init() {
    let repo = Repository::new();
    assert!(repo.log().is_empty());
    assert!(matches!(&repo.head, Head::Branch(b) if b.as_slice() == b"main"));
}

#[test]
fn test_git_show_branch() {
    let mut repo = Repository::new();
    if repo.head_commit().is_none() {
        write_dummy_add_commit(&mut repo);
    }
    repo.create_branch(b"other").unwrap();
    let branches = repo.list_branches();
    assert_eq!(branches, vec![(b"main".to_vec(), true), (b"other".to_vec(), false)]);
}

#[test]
fn test_git_create_branch() {
    let mut repo = Repository::new();
    let branch_name = b"create_test_branch";
    if repo.head_commit().is_none() {
        write_dummy_add_commit(&mut repo);
    }
    assert!(repo.create_branch(branch_name).is_ok());
    assert!(repo.branches.find(branch_name).is_some());
}

#[test]
fn test_git_delete_branch() {
    let mut repo = Repository::new();
    let branch_name = b"delete_test_branch";
    if repo.head_commit().is_none() {
        write_dummy_add_commit(&mut repo);
    }
    assert!(repo.create_branch(branch_name).is_ok());
    assert!(repo.branches.find(branch_name).is_some());
    assert!(repo.delete_branch(branch_name).is_ok());
    assert!(repo.branches.find(branch_name).is_none());
}

#[test]
fn test_git_checkout() {
    let mut repo = Repository::new();
    write_dummy_add_commit(&mut repo);
    let branch_name = b"test_branch";
    repo.create_branch(branch_name).expect("failed to create branch");
    repo.checkout(branch_name).expect("checkout failed");
    assert!(matches!(&repo.head, Head::Branch(b) if b.as_slice() == branch_name));
}

#[test]
fn test_git_add_specific_file() {
    let mut repo = Repository::new();
    let file_name = b"hello.txt";
    repo.write_file(file_name.to_vec(), Vec::new());
    repo.add(file_name).expect("failed to add file");
    let entries: Vec<_> =
        repo.index.entries.entries.iter().filter(|e| e.path.as_slice() == file_name).collect();
    assert_eq!(entries.len(), 1);
}

#[test]
fn test_git_commit() {
    let mut repo = Repository::new();
    let file_name = b"hello.txt";
    repo.write_file(file_name.to_vec(), Vec::new());
    repo.add(file_name).expect("failed to add file");
    let commit_msg = b"test commit msg";
    repo.commit(commit_msg, &sig()).expect("failed to commit message");
    let head = repo.head_commit().expect("failed to get HEAD");
    match repo.objects.get(&head) {
        Some(git_playground::Object::Commit(c)) => assert_eq!(c.message, commit_msg.to_vec()),
        _ => panic!("failed to find commit"),
    }
}

#[test]
fn test_git_log() {
    let mut repo = Repository::new();
    let file_name = b"world.txt";
    repo.write_file(file_name.to_vec(), Vec::new());
    repo.add(file_name).expect("failed to add file");
    let commit_msg = b"log test commit";
    let id = repo.commit(commit_msg, &sig()).expect("failed to commit");
    let logs = repo.log();
    let first = logs.first().expect("failed to get log");
    assert_eq!(first, &id);
    let summary = match repo.objects.get(first) {
        Some(git_playground::Object::Commit(c)) => git_playground::ops::summary(&c.message),
        _ => panic!("failed to find commit"),
    };
    let line = String::from_utf8(summary).unwrap();
    assert!(line.contains("log test commit"), "log differs");
}

fn staged(repo: &Repository, path: &[u8]) -> Option<Vec<u8>> {
    repo.index.entries.find(path).map(|i| repo.index.entries.entries[i].data.clone())
}

fn head_tree_id(repo: &Repository, path: &[u8]) -> Option<Vec<u8>> {
    let head = repo.head_commit()?;
    let tree = repo.commit_tree(&head).ok()?;
    tree.find(path).map(|i| tree.entries[i].data.clone())
}

fn write_add_commit(repo: &mut Repository, path: &[u8], content: &[u8], msg: &[u8]) -> Vec<u8> {
    repo.write_file(path.to_vec(), content.to_vec());
    repo.add(path).expect("add");
    repo.commit(msg, &sig()).expect("commit")
}

fn message_of(repo: &Repository, id: &[u8]) -> Vec<u8> {
    match repo.objects.get(id) {
        Some(git_playground::Object::Commit(c)) => c.message.clone(),
        _ => panic!("not a commit"),
    }
}

#[test]
fn test_git_add_all_files() {
    let mut repo = Repository::new();
    let file_name = b"bye.txt";
    repo.write_file(file_name.to_vec(), Vec::new());
    repo.write_file(b"other.txt".to_vec(), b"o".to_vec());
    repo.add_all().expect("failed to add file");
    let entries: Vec<_> =
        repo.index.entries.entries.iter().filter(|e| e.path.as_slice() == file_name).collect();
    assert_eq!(entries.len(), 1);
    assert_eq!(repo.index.entries.entries.len(), 2);
}

#[test]
fn git_merge_success_no_conflict() {
    let mut repo = Repository::new();
    write_dummy_add_commit(&mut repo);
    let feature_branch = b"feature";
    repo.create_branch(feature_branch).expect("failed to create feature branch");
    repo.checkout(feature_branch).unwrap();
    write_add_commit(&mut repo, b"new_file.txt", "feature 추가".as_bytes(), b"feat: add new file");
    repo.checkout(b"main").unwrap();
    let id = repo.merge(feature_branch, &sig()).expect("failed to merge feature branch");
    assert_eq!(message_of(&repo, &id), b"Merge commit".to_vec());
    assert_eq!(repo.head_commit(), Some(id));
}

#[test]
fn git_merge_conflict() {
    let mut repo = Repository::new();
    write_dummy_add_commit(&mut repo);
    let file_name = b"conflict.txt";
    write_add_commit(&mut repo, file_name, b"base", b"base commit");
    let branch_name = b"conflict_branch";
    repo.create_branch(branch_name).expect("failed to create conflict_branch");
    repo.checkout(branch_name).expect("failed to checkout conflict_branch");
    write_add_commit(&mut repo, file_name, b"branch", b"branch commit");
    repo.checkout(b"main").expect("failed to checkout main");
    repo.write_file(file_name.to_vec(), b"main".to_vec());
    repo.add(file_name).expect("failed to add main branch conflict.txt");
    let merge_result = repo.merge(branch_name, &sig());
    assert!(merge_result.is_err(), "merge did not fail");
}

#[test]
fn test_git_reset_soft() {
    let mut repo = Repository::new();
    write_dummy_add_commit(&mut repo);
    let file_name = b"reset_soft_test.txt";
    write_add_commit(&mut repo, file_name, b"original content", b"commit original content");
    repo.write_file(file_name.to_vec(), b"modified content".to_vec());
    repo.add(file_name).unwrap();
    let head = repo.head_commit().unwrap();
    repo.reset(&head, git_playground::ops::parse_reset_mode(b"soft"), Some(file_name)).expect("soft reset failed");
    assert_eq!(repo.read_file(file_name).unwrap(), &b"modified content".to_vec());
}

#[test]
fn test_git_reset_mixed() {
    let mut repo = Repository::new();
    write_dummy_add_commit(&mut repo);
    let file_name = b"reset_mixed_test.txt";
    write_add_commit(&mut repo, file_name, b"original content", b"commit original content");
    repo.write_file(file_name.to_vec(), b"modified content".to_vec());
    repo.add(file_name).unwrap();
    let head = repo.head_commit().unwrap();
    repo.reset(&head, git_playground::ops::parse_reset_mode(b"mixed"), Some(file_name)).expect("mixed reset failed");
    let tree_entry = head_tree_id(&repo, file_name).expect("file missing from HEAD tree");
    assert_eq!(staged(&repo, file_name), Some(tree_entry));
    assert_eq!(repo.read_file(file_name).unwrap(), &b"modified content".to_vec());
}

#[test]
fn test_git_reset_hard() {
    let mut repo = Repository::new();
    write_dummy_add_commit(&mut repo);
    let file_name = b"reset_hard_test.txt";
    write_add_commit(&mut repo, file_name, b"original content", b"commit original content");
    repo.write_file(file_name.to_vec(), b"modified content".to_vec());
    repo.add(file_name).unwrap();
    let head = repo.head_commit().unwrap();
    repo.reset(&head, git_playground::ops::parse_reset_mode(b"hard"), Some(file_name)).expect("hard reset failed");
    let tree_entry = head_tree_id(&repo, file_name).expect("file missing from HEAD tree");
    assert_eq!(staged(&repo, file_name), Some(tree_entry));
    assert_eq!(repo.read_file(file_name).unwrap(), &b"original content".to_vec());
}

#[test]
fn test_git_restore() {
    let mut repo = Repository::new();
    write_dummy_add_commit(&mut repo);
    let file_name = b"restore_test_file.txt";
    write_add_commit(&mut repo, file_name, b"original content", b"commit original content");
    repo.write_file(file_name.to_vec(), b"modified content".to_vec());
    repo.restore(file_name).expect("restore failed");
    assert_eq!(repo.read_file(file_name).unwrap(), &b"original content".to_vec());
}

#[test]
fn test_git_revert() {
    let mut repo = Repository::new();
    let file_name = b"revert.txt";
    write_add_commit(&mut repo, file_name, "비빔밥".as_bytes(), "비빔밥 먹고싶다.".as_bytes());
    assert_eq!(repo.read_file(file_name).unwrap(), &"비빔밥".as_bytes().to_vec());
    let head_commit = write_add_commit(&mut repo, file_name, "국밥".as_bytes(), "비빔밥 질렸다.".as_bytes());
    assert_eq!(repo.read_file(file_name).unwrap(), &"국밥".as_bytes().to_vec());
    repo.revert(&head_commit, &sig()).expect("failed to revert");
    assert_eq!(repo.read_file(file_name).unwrap(), &"비빔밥".as_bytes().to_vec());
}
