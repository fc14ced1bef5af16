use git_playground::bytes::bytes_cmp;
use git_playground::diff::{diff, ChangeKind};
use git_playground::ops::parse_reset_mode;
use git_playground::object::id_of;
use git_playground::ops::{revert_message_bytes, summary};
use git_playground::{GitError, Head, Object, ResetMode, Repository, Signature};

fn sig() -> Signature {
    Signature { name: b"tester".to_vec(), time: 1_700_000_000 }
}

fn hex(id: &[u8]) -> String {
    id.iter().map(|b| format!("{:02x}", b)).collect()
}

fn message_of(repo: &Repository, id: &[u8]) -> Vec<u8> {
    match repo.objects.get(id) {
        Some(Object::Commit(c)) => c.message.clone(),
        _ => panic!("not a commit"),
    }
}

fn parents_of(repo: &Repository, id: &[u8]) -> Vec<Vec<u8>> {
    match repo.objects.get(id) {
        Some(Object::Commit(c)) => c.parents.clone(),
        _ => panic!("not a commit"),
    }
}

fn write_add_commit(repo: &mut Repository, path: &[u8], content: &[u8], msg: &[u8]) -> Vec<u8> {
    repo.write_file(path.to_vec(), content.to_vec());
    repo.add(path).expect("add");
    repo.commit(msg, &sig()).expect("commit")
}

fn staged_id(repo: &Repository, path: &[u8]) -> Option<Vec<u8>> {
    repo.index.entries.find(path).map(|i| repo.index.entries.entries[i].data.clone())
}

#[test]
fn blob_id_is_git_object_digest() {
    let id = id_of(&Object::Blob(b"x".to_vec())).expect("digest");
    assert_eq!(hex(&id), "c1b0730e0133447badcfd47fd144e254807b06e1");
    let empty = id_of(&Object::Blob(Vec::new())).expect("digest");
    assert_eq!(hex(&empty), "e69de29bb2d1d6434b8b29ae775ad8c2e48c5391");
}

#[test]
fn equal_contents_share_one_object() {
    let mut repo = Repository::new();
    repo.write_file(b"a.txt".to_vec(), b"same".to_vec());
    repo.write_file(b"b.txt".to_vec(), b"same".to_vec());
    repo.add(b"a.txt").unwrap();
    let n = repo.objects.ids.len();
    repo.add(b"b.txt").unwrap();
    assert_eq!(repo.objects.ids.len(), n);
    assert_eq!(staged_id(&repo, b"a.txt"), staged_id(&repo, b"b.txt"));
    repo.add(b"a.txt").unwrap();
    assert_eq!(repo.objects.ids.len(), n);
}

#[test]
fn tree_round_trip_keeps_index() {
    let mut repo = Repository::new();
    repo.write_file(b"z.txt".to_vec(), b"1".to_vec());
    repo.write_file(b"a/b.txt".to_vec(), b"2".to_vec());
    repo.add(b"z.txt").unwrap();
    repo.add(b"a/b.txt").unwrap();
    let before: Vec<(Vec<u8>, u32, Vec<u8>)> =
        repo.index.entries.entries.iter().map(|e| (e.path.clone(), e.mode, e.data.clone())).collect();
    let tree = repo.write_tree().unwrap();
    repo.read_tree(&tree).unwrap();
    let after: Vec<(Vec<u8>, u32, Vec<u8>)> =
        repo.index.entries.entries.iter().map(|e| (e.path.clone(), e.mode, e.data.clone())).collect();
    assert_eq!(before, after);
    assert_eq!(after[0].0, b"a/b.txt".to_vec());
    assert!(!repo.index.has_conflicts());
}

#[test]
fn read_tree_of_missing_object_is_not_found() {
    let mut repo = Repository::new();
    assert_eq!(repo.read_tree(&[1u8; 20]), Err(GitError::NotFound));
}

#[test]
fn add_missing_file_is_not_found() {
    let mut repo = Repository::new();
    assert_eq!(repo.add(b"nope.txt"), Err(GitError::NotFound));
}

#[test]
fn first_commit_has_no_parent_and_moves_branch() {
    let mut repo = Repository::new();
    let c1 = write_add_commit(&mut repo, b"a.txt", b"x", b"c1");
    assert!(parents_of(&repo, &c1).is_empty());
    assert_eq!(repo.head_commit(), Some(c1.clone()));
    let c2 = write_add_commit(&mut repo, b"a.txt", b"y", b"c2");
    assert_eq!(parents_of(&repo, &c2), vec![c1.clone()]);
    assert_eq!(repo.log(), vec![c2, c1]);
}

#[test]
fn log_of_unborn_branch_is_empty() {
    let repo = Repository::new();
    assert!(repo.log().is_empty());
}

#[test]
fn revert_restores_previous_content() {
    let mut repo = Repository::new();
    write_add_commit(&mut repo, b"a.txt", b"x", b"c1");
    let c2 = write_add_commit(&mut repo, b"a.txt", b"y", b"c2");
    let r = repo.revert(&c2, &sig()).expect("revert");
    assert_eq!(repo.read_file(b"a.txt").unwrap(), &b"x".to_vec());
    assert_eq!(message_of(&repo, &r), b"Revert \"c2\"".to_vec());
    assert_eq!(parents_of(&repo, &r), vec![c2]);
    assert_eq!(repo.head_commit(), Some(r));
}

#[test]
fn revert_of_root_commit_is_invalid() {
    let mut repo = Repository::new();
    let c1 = write_add_commit(&mut repo, b"a.txt", b"x", b"c1");
    assert_eq!(repo.revert(&c1, &sig()), Err(GitError::InvalidState));
}

#[test]
fn revert_of_unknown_commit_is_not_found() {
    let mut repo = Repository::new();
    write_add_commit(&mut repo, b"a.txt", b"x", b"c1");
    assert_eq!(repo.revert(&[7u8; 20], &sig()), Err(GitError::NotFound));
}

#[test]
fn revert_against_changed_index_conflicts() {
    let mut repo = Repository::new();
    write_add_commit(&mut repo, b"a.txt", b"x", b"c1");
    let c2 = write_add_commit(&mut repo, b"a.txt", b"y", b"c2");
    repo.write_file(b"a.txt".to_vec(), b"z".to_vec());
    repo.add(b"a.txt").unwrap();
    assert_eq!(repo.revert(&c2, &sig()), Err(GitError::Conflict));
    assert_eq!(repo.head_commit(), Some(c2));
}

#[test]
fn revert_message_uses_first_line() {
    assert_eq!(summary(b"title\nbody"), b"title".to_vec());
    assert_eq!(revert_message_bytes(b"c2"), b"Revert \"c2\"".to_vec());
}

#[test]
fn soft_reset_keeps_index_and_workdir() {
    let mut repo = Repository::new();
    let c1 = write_add_commit(&mut repo, b"f.txt", b"original content", b"one");
    write_add_commit(&mut repo, b"f.txt", b"modified content", b"two");
    let staged = staged_id(&repo, b"f.txt");
    repo.reset(&c1, ResetMode::Soft, None).unwrap();
    assert_eq!(repo.head_commit(), Some(c1));
    assert_eq!(staged_id(&repo, b"f.txt"), staged);
    assert_eq!(repo.read_file(b"f.txt").unwrap(), &b"modified content".to_vec());
}

#[test]
fn mixed_reset_resets_index_only() {
    let mut repo = Repository::new();
    let c1 = write_add_commit(&mut repo, b"f.txt", b"original content", b"one");
    let committed = staged_id(&repo, b"f.txt");
    repo.write_file(b"f.txt".to_vec(), b"modified content".to_vec());
    repo.add(b"f.txt").unwrap();
    repo.reset(&c1, ResetMode::Mixed, Some(b"f.txt")).unwrap();
    assert_eq!(staged_id(&repo, b"f.txt"), committed);
    assert_eq!(repo.read_file(b"f.txt").unwrap(), &b"modified content".to_vec());
}

#[test]
fn hard_reset_matches_target_tree() {
    let mut repo = Repository::new();
    let c1 = write_add_commit(&mut repo, b"f.txt", b"original content", b"one");
    write_add_commit(&mut repo, b"g.txt", b"later", b"two");
    repo.write_file(b"f.txt".to_vec(), b"modified content".to_vec());
    repo.reset(&c1, ResetMode::Hard, None).unwrap();
    assert_eq!(repo.read_file(b"f.txt").unwrap(), &b"original content".to_vec());
    assert!(repo.read_file(b"g.txt").is_none());
    assert!(staged_id(&repo, b"g.txt").is_none());
    assert_eq!(repo.head_commit(), Some(c1));
}

#[test]
fn reset_to_unknown_commit_is_not_found() {
    let mut repo = Repository::new();
    write_add_commit(&mut repo, b"f.txt", b"x", b"one");
    assert_eq!(repo.reset(&[9u8; 20], ResetMode::Hard, None), Err(GitError::NotFound));
}

#[test]
fn restore_discards_local_edit() {
    let mut repo = Repository::new();
    write_add_commit(&mut repo, b"r.txt", b"original content", b"one");
    repo.write_file(b"r.txt".to_vec(), b"modified content".to_vec());
    repo.restore(b"r.txt").unwrap();
    assert_eq!(repo.read_file(b"r.txt").unwrap(), &b"original content".to_vec());
}

#[test]
fn restore_without_head_is_not_found() {
    let mut repo = Repository::new();
    assert_eq!(repo.restore(b"r.txt"), Err(GitError::NotFound));
}

#[test]
fn merge_of_disjoint_changes_commits_two_parents() {
    let mut repo = Repository::new();
    let c = write_add_commit(&mut repo, b"base.txt", b"base", b"C");
    repo.create_branch(b"feature").unwrap();
    repo.checkout(b"feature").unwrap();
    let f = write_add_commit(&mut repo, b"f.txt", b"feature", b"feat");
    repo.checkout(b"main").unwrap();
    assert!(repo.read_file(b"f.txt").is_none());
    let m = write_add_commit(&mut repo, b"m.txt", b"main", b"on main");
    let merge = repo.merge(b"feature", &sig()).expect("merge");
    assert_eq!(message_of(&repo, &merge), b"Merge commit".to_vec());
    assert_eq!(parents_of(&repo, &merge), vec![m, f]);
    assert_eq!(repo.read_file(b"f.txt").unwrap(), &b"feature".to_vec());
    assert_eq!(repo.read_file(b"m.txt").unwrap(), &b"main".to_vec());
    assert!(!repo.index.has_conflicts());
    assert_eq!(repo.merge_base(&c, &c), Some(c.clone()));
}

#[test]
fn merge_of_clashing_changes_keeps_three_stages() {
    let mut repo = Repository::new();
    write_add_commit(&mut repo, b"c.txt", b"base", b"base");
    repo.create_branch(b"b").unwrap();
    repo.checkout(b"b").unwrap();
    write_add_commit(&mut repo, b"c.txt", b"branch", b"branch");
    repo.checkout(b"main").unwrap();
    let head = write_add_commit(&mut repo, b"c.txt", b"main", b"main");
    assert_eq!(repo.merge(b"b", &sig()), Err(GitError::Conflict));
    assert!(repo.index.has_conflicts());
    assert!(repo.index.base.find(b"c.txt").is_some());
    assert!(repo.index.ours.find(b"c.txt").is_some());
    assert!(repo.index.theirs.find(b"c.txt").is_some());
    assert!(repo.index.entries.find(b"c.txt").is_none());
    assert_eq!(repo.head_commit(), Some(head));
    assert_eq!(repo.read_file(b"c.txt").unwrap(), &b"main".to_vec());
    assert_eq!(repo.commit(b"try", &sig()), Err(GitError::Conflict));
}

#[test]
fn merge_of_unknown_branch_is_not_found() {
    let mut repo = Repository::new();
    write_add_commit(&mut repo, b"a.txt", b"x", b"c1");
    assert_eq!(repo.merge(b"nope", &sig()), Err(GitError::NotFound));
}

#[test]
fn scenario_revert_second_commit() {
    let mut repo = Repository::new();
    write_add_commit(&mut repo, b"a.txt", b"x", b"c1");
    let c2 = write_add_commit(&mut repo, b"a.txt", b"y", b"c2");
    let r = repo.revert(&c2, &sig()).unwrap();
    assert_eq!(repo.read_file(b"a.txt").unwrap(), &b"x".to_vec());
    assert_eq!(message_of(&repo, &r), b"Revert \"c2\"".to_vec());
}

#[test]
fn scenario_merge_feature_into_main() {
    let mut repo = Repository::new();
    let c = write_add_commit(&mut repo, b"c.txt", b"C", b"C");
    assert_eq!(repo.create_branch(b"main"), Err(GitError::AlreadyExists));
    repo.create_branch(b"feature").unwrap();
    repo.checkout(b"feature").unwrap();
    write_add_commit(&mut repo, b"f.txt", b"f", b"add f");
    repo.checkout(b"main").unwrap();
    assert_eq!(repo.head_commit(), Some(c));
    let m = repo.merge(b"feature", &sig()).unwrap();
    assert_eq!(repo.head_commit(), Some(m.clone()));
    assert_eq!(message_of(&repo, &m), b"Merge commit".to_vec());
    assert_eq!(parents_of(&repo, &m).len(), 2);
}

#[test]
fn scenario_merge_with_staged_clash_fails() {
    let mut repo = Repository::new();
    write_add_commit(&mut repo, b"conflict.txt", b"base", b"base");
    repo.create_branch(b"b").unwrap();
    repo.checkout(b"b").unwrap();
    write_add_commit(&mut repo, b"conflict.txt", b"branch", b"branch");
    repo.checkout(b"main").unwrap();
    repo.write_file(b"conflict.txt".to_vec(), b"main".to_vec());
    repo.add(b"conflict.txt").unwrap();
    assert_eq!(repo.merge(b"b", &sig()), Err(GitError::Conflict));
}

#[test]
fn deleting_current_branch_is_invalid() {
    let mut repo = Repository::new();
    write_add_commit(&mut repo, b"a.txt", b"x", b"c1");
    assert_eq!(repo.delete_branch(b"main"), Err(GitError::InvalidState));
    assert_eq!(repo.list_branches().len(), 1);
}

#[test]
fn deleting_unknown_branch_is_not_found() {
    let mut repo = Repository::new();
    write_add_commit(&mut repo, b"a.txt", b"x", b"c1");
    assert_eq!(repo.delete_branch(b"ghost"), Err(GitError::NotFound));
}

#[test]
fn branch_on_unborn_head_is_not_found() {
    let mut repo = Repository::new();
    assert_eq!(repo.create_branch(b"x"), Err(GitError::NotFound));
}

#[test]
fn checkout_of_unknown_revision_is_not_found() {
    let mut repo = Repository::new();
    write_add_commit(&mut repo, b"a.txt", b"x", b"c1");
    assert_eq!(repo.checkout(b"nowhere"), Err(GitError::NotFound));
}

#[test]
fn checkout_of_commit_detaches_head() {
    let mut repo = Repository::new();
    let c1 = write_add_commit(&mut repo, b"a.txt", b"x", b"c1");
    write_add_commit(&mut repo, b"a.txt", b"y", b"c2");
    repo.checkout(&c1).unwrap();
    assert!(matches!(&repo.head, Head::Detached(id) if *id == c1));
    assert_eq!(repo.read_file(b"a.txt").unwrap(), &b"x".to_vec());
    let c3 = write_add_commit(&mut repo, b"b.txt", b"z", b"c3");
    assert!(matches!(&repo.head, Head::Detached(id) if *id == c3));
}

#[test]
fn bytes_order_is_lexicographic() {
    assert_eq!(bytes_cmp(b"a", b"b"), -1);
    assert_eq!(bytes_cmp(b"ab", b"a"), 1);
    assert_eq!(bytes_cmp(b"", b""), 0);
    assert_eq!(bytes_cmp(b"a/b", b"a0"), -1);
}

#[test]
fn reset_mode_names_ignore_case() {
    assert_eq!(parse_reset_mode(b"soft"), ResetMode::Soft);
    assert_eq!(parse_reset_mode(b"HARD"), ResetMode::Hard);
    assert_eq!(parse_reset_mode(b"mixed"), ResetMode::Mixed);
    assert_eq!(parse_reset_mode(b"whatever"), ResetMode::Mixed);
    assert_eq!(parse_reset_mode(b"sof"), ResetMode::Mixed);
}

#[test]
fn resolve_names_head_branches_and_commits() {
    let mut repo = Repository::new();
    assert_eq!(repo.resolve(b"HEAD"), None);
    let c1 = write_add_commit(&mut repo, b"a.txt", b"x", b"c1");
    assert_eq!(repo.resolve(b"HEAD"), Some(c1.clone()));
    assert_eq!(repo.resolve(b"main"), Some(c1.clone()));
    assert_eq!(repo.resolve(&c1), Some(c1.clone()));
    assert_eq!(repo.resolve(b"nope"), None);
}

#[test]
fn diff_lists_each_changed_path_once() {
    let mut repo = Repository::new();
    repo.write_file(b"keep.txt".to_vec(), b"k".to_vec());
    repo.write_file(b"gone.txt".to_vec(), b"g".to_vec());
    repo.write_file(b"edit.txt".to_vec(), b"1".to_vec());
    repo.add_all().unwrap();
    let c1 = repo.commit(b"one", &sig()).unwrap();
    repo.delete_file(b"gone.txt");
    repo.index.unstage(b"gone.txt");
    repo.write_file(b"edit.txt".to_vec(), b"2".to_vec());
    repo.write_file(b"new.txt".to_vec(), b"n".to_vec());
    repo.add(b"edit.txt").unwrap();
    repo.add(b"new.txt").unwrap();
    let c2 = repo.commit(b"two", &sig()).unwrap();
    let a = repo.commit_tree(&c1).unwrap().copy();
    let b = repo.commit_tree(&c2).unwrap().copy();
    let changes = diff(&a, &b);
    let mut seen: Vec<(Vec<u8>, ChangeKind)> = changes.iter().map(|c| (c.path.clone(), c.kind())).collect();
    seen.sort_by(|x, y| x.0.cmp(&y.0));
    assert_eq!(
        seen,
        vec![
            (b"edit.txt".to_vec(), ChangeKind::Modified),
            (b"gone.txt".to_vec(), ChangeKind::Deleted),
            (b"new.txt".to_vec(), ChangeKind::Added),
        ]
    );
}

#[test]
fn merge_abort_drops_stages() {
    let mut repo = Repository::new();
    write_add_commit(&mut repo, b"c.txt", b"base", b"base");
    repo.create_branch(b"b").unwrap();
    repo.checkout(b"b").unwrap();
    write_add_commit(&mut repo, b"c.txt", b"branch", b"branch");
    repo.checkout(b"main").unwrap();
    write_add_commit(&mut repo, b"c.txt", b"main", b"main");
    assert_eq!(repo.merge(b"b", &sig()), Err(GitError::Conflict));
    repo.merge_abort().unwrap();
    assert!(!repo.index.has_conflicts());
    assert_eq!(repo.read_file(b"c.txt").unwrap(), &b"main".to_vec());
    assert!(staged_id(&repo, b"c.txt").is_some());
}

#[test]
fn add_all_of_empty_workdir_stages_nothing() {
    let mut repo = Repository::new();
    repo.add_all().unwrap();
    assert_eq!(repo.index.entries.entries.len(), 0);
}

#[test]
fn update_branch_compares_before_swapping() {
    let mut repo = Repository::new();
    let c1 = write_add_commit(&mut repo, b"a.txt", b"x", b"c1");
    let c2 = write_add_commit(&mut repo, b"a.txt", b"y", b"c2");
    repo.create_branch(b"side").unwrap();
    assert_eq!(repo.update_branch(b"side", &c1, &c1), Err(GitError::Conflict));
    assert_eq!(repo.update_branch(b"side", &c2, &c1), Ok(()));
    assert_eq!(repo.resolve(b"side"), Some(c1));
    assert_eq!(repo.update_branch(b"ghost", &c2, &c2), Err(GitError::NotFound));
}

#[test]
fn stage_conflict_replaces_stage_zero() {
    let mut repo = Repository::new();
    repo.write_file(b"p.txt".to_vec(), b"x".to_vec());
    repo.add(b"p.txt").unwrap();
    repo.index.stage_conflict(b"p.txt".to_vec(), 2, 33188, vec![1u8; 20]);
    assert!(repo.index.has_conflicts());
    assert!(repo.index.entries.find(b"p.txt").is_none());
    assert!(repo.index.ours.find(b"p.txt").is_some());
    repo.add(b"p.txt").unwrap();
    assert!(!repo.index.has_conflicts());
}

#[test]
fn rev_walk_yields_first_parents_lazily() {
    let mut repo = Repository::new();
    let c1 = write_add_commit(&mut repo, b"a.txt", b"x", b"c1");
    let c2 = write_add_commit(&mut repo, b"a.txt", b"y", b"c2");
    let mut walk = repo.rev_walk(&c2);
    assert_eq!(walk.next_commit(&repo), Some(c2));
    assert_eq!(walk.next_commit(&repo), Some(c1));
    assert_eq!(walk.next_commit(&repo), None);
}

#[test]
fn stored_objects_check_against_their_ids() {
    let mut repo = Repository::new();
    let c1 = write_add_commit(&mut repo, b"a.txt", b"x", b"c1");
    assert!(repo.objects.contains(&c1));
    assert_eq!(repo.objects.check(&c1), Ok(()));
    assert!(!repo.objects.contains(&[3u8; 20]));
    assert_eq!(repo.objects.check(&[3u8; 20]), Err(GitError::NotFound));
    let i = repo.objects.ids.iter().position(|id| *id == c1).unwrap();
    repo.objects.objects[i] = Object::Blob(b"tampered".to_vec());
    assert_eq!(repo.objects.check(&c1), Err(GitError::Corrupt));
}

#[test]
fn merge_refuses_to_overwrite_local_edit() {
    let mut repo = Repository::new();
    write_add_commit(&mut repo, b"shared.txt", b"base", b"base");
    repo.create_branch(b"feature").unwrap();
    repo.checkout(b"feature").unwrap();
    write_add_commit(&mut repo, b"shared.txt", b"feature", b"feature");
    repo.checkout(b"main").unwrap();
    let head = repo.head_commit();
    repo.write_file(b"shared.txt".to_vec(), b"local edit".to_vec());
    assert_eq!(repo.merge(b"feature", &sig()), Err(GitError::Conflict));
    assert_eq!(repo.read_file(b"shared.txt").unwrap(), &b"local edit".to_vec());
    assert_eq!(repo.head_commit(), head);
    assert!(!repo.index.has_conflicts());
}

#[test]
fn clean_merge_brings_worktree_to_merged_tree() {
    let mut repo = Repository::new();
    write_add_commit(&mut repo, b"a.txt", b"a", b"base");
    repo.create_branch(b"feature").unwrap();
    repo.checkout(b"feature").unwrap();
    write_add_commit(&mut repo, b"b.txt", b"b", b"add b");
    repo.checkout(b"main").unwrap();
    write_add_commit(&mut repo, b"c.txt", b"c", b"add c");
    repo.merge(b"feature", &sig()).unwrap();
    assert_eq!(repo.read_file(b"a.txt").unwrap(), &b"a".to_vec());
    assert_eq!(repo.read_file(b"b.txt").unwrap(), &b"b".to_vec());
    assert_eq!(repo.read_file(b"c.txt").unwrap(), &b"c".to_vec());
}

#[test]
fn revert_refuses_to_overwrite_local_edit() {
    let mut repo = Repository::new();
    write_add_commit(&mut repo, b"a.txt", b"x", b"c1");
    let c2 = write_add_commit(&mut repo, b"a.txt", b"y", b"c2");
    repo.write_file(b"a.txt".to_vec(), b"unsaved".to_vec());
    assert_eq!(repo.revert(&c2, &sig()), Err(GitError::Conflict));
    assert_eq!(repo.read_file(b"a.txt").unwrap(), &b"unsaved".to_vec());
}

#[test]
fn checkout_of_head_discards_local_changes() {
    let mut repo = Repository::new();
    let c1 = write_add_commit(&mut repo, b"a.txt", b"x", b"c1");
    repo.write_file(b"a.txt".to_vec(), b"edited".to_vec());
    repo.checkout(b"HEAD").unwrap();
    assert_eq!(repo.read_file(b"a.txt").unwrap(), &b"x".to_vec());
    assert!(matches!(&repo.head, Head::Branch(b) if b.as_slice() == b"main"));
    assert_eq!(repo.head_commit(), Some(c1));
}
