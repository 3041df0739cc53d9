use stacked_branches::stack::{
    create_branch, remove_branch, update_branch_description, update_branch_name,
    update_branch_pr_number, Commit, CreateSeriesRequest, Series, Stack, StackError,
};

fn commit(id: u64) -> Commit {
    Commit { id, change_id: None, data: None }
}

fn series(name: &str, ids: &[u64]) -> Series {
    Series {
        name: name.to_string(),
        description: None,
        pr_number: None,
        review_id: None,
        archived: false,
        local_commits: ids.iter().map(|&id| commit(id)).collect(),
    }
}

fn two_series_stack() -> Stack {
    Stack {
        id: 1,
        base: 100,
        branches: vec![series("one", &[1, 2]), series("two", &[3])],
    }
}

fn request(name: &str, target: Option<u64>, preceding: Option<&str>) -> CreateSeriesRequest {
    CreateSeriesRequest {
        name: name.to_string(),
        description: None,
        target_patch: target,
        preceding_head: preceding.map(|p| p.to_string()),
    }
}

fn no_refs() -> Vec<String> {
    Vec::new()
}

#[test]
fn remove_sole_series_fails_with_last_branch() {
    let mut stack = Stack { id: 1, base: 100, branches: vec![series("one", &[1, 2])] };
    let before = format!("{:?}", stack);
    let r = remove_branch(&mut stack, &"one".to_string());
    assert_eq!(r, Err(StackError::LastBranch));
    assert_eq!(format!("{:?}", stack), before);
}

#[test]
fn remove_unknown_series_fails_with_not_found() {
    let mut stack = two_series_stack();
    let r = remove_branch(&mut stack, &"three".to_string());
    assert_eq!(r, Err(StackError::NotFound));
}

#[test]
fn remove_reassigns_commits_to_preceding_series() {
    let mut stack = two_series_stack();
    let r = remove_branch(&mut stack, &"two".to_string());
    assert_eq!(r, Ok(()));
    assert_eq!(stack.branches.len(), 1);
    assert_eq!(stack.branches[0].name, "one");
    let ids: Vec<u64> = stack.branches[0].local_commits.iter().map(|c| c.id).collect();
    assert_eq!(ids, vec![1, 2, 3]);
}

#[test]
fn remove_bottom_series_slides_commits_under_new_bottom() {
    let mut stack = two_series_stack();
    let r = remove_branch(&mut stack, &"one".to_string());
    assert_eq!(r, Ok(()));
    assert_eq!(stack.branches.len(), 1);
    assert_eq!(stack.branches[0].name, "two");
    let ids: Vec<u64> = stack.branches[0].local_commits.iter().map(|c| c.id).collect();
    assert_eq!(ids, vec![1, 2, 3]);
}

#[test]
fn create_branch_without_target_binds_to_top() {
    let mut stack = two_series_stack();
    let r = create_branch(
        &mut stack,
        request("three", None, None),
        Some("three".to_string()),
        &no_refs(),
    );
    assert_eq!(r, Ok(()));
    assert_eq!(stack.branches.len(), 3);
    assert_eq!(stack.branches[2].name, "three");
    assert!(stack.branches[2].local_commits.is_empty());
    assert_eq!(stack.head_oid(), 3);
}

#[test]
fn create_branch_splits_owning_series_at_target() {
    let mut stack = two_series_stack();
    let r = create_branch(
        &mut stack,
        request("mid", Some(1), None),
        Some("mid".to_string()),
        &no_refs(),
    );
    assert_eq!(r, Ok(()));
    assert_eq!(stack.branches.len(), 3);
    assert_eq!(stack.branches[0].name, "mid");
    let mid_ids: Vec<u64> = stack.branches[0].local_commits.iter().map(|c| c.id).collect();
    assert_eq!(mid_ids, vec![1]);
    assert_eq!(stack.branches[1].name, "one");
    let one_ids: Vec<u64> = stack.branches[1].local_commits.iter().map(|c| c.id).collect();
    assert_eq!(one_ids, vec![2]);
}

#[test]
fn create_branch_with_preceding_head_inserts_above_it() {
    let mut stack = two_series_stack();
    // "one"'s head is commit 2; the new series points at the same commit and
    // asks to stand right above "one".
    let r = create_branch(
        &mut stack,
        request("after-one", Some(2), Some("one")),
        Some("after-one".to_string()),
        &no_refs(),
    );
    assert_eq!(r, Ok(()));
    assert_eq!(stack.branches.len(), 3);
    assert_eq!(stack.branches[0].name, "one");
    assert_eq!(stack.branches[1].name, "after-one");
    assert!(stack.branches[1].local_commits.is_empty());
    assert_eq!(stack.branches[2].name, "two");
}

#[test]
fn create_branch_without_preceding_head_becomes_first_for_that_commit() {
    let mut stack = two_series_stack();
    // The new series points at "one"'s head without a preceding name: it takes
    // over the commits up to the target and stands below "one".
    let r = create_branch(
        &mut stack,
        request("below-one", Some(2), None),
        Some("below-one".to_string()),
        &no_refs(),
    );
    assert_eq!(r, Ok(()));
    assert_eq!(stack.branches[0].name, "below-one");
    let ids: Vec<u64> = stack.branches[0].local_commits.iter().map(|c| c.id).collect();
    assert_eq!(ids, vec![1, 2]);
    assert!(stack.branches[1].local_commits.is_empty());
    assert_eq!(stack.branches[1].name, "one");
}

#[test]
fn create_branch_rejects_failed_normalization() {
    let mut stack = two_series_stack();
    let r = create_branch(&mut stack, request("bad name", None, None), None, &no_refs());
    assert_eq!(r, Err(StackError::InvalidName));
    assert_eq!(stack.branches.len(), 2);
}

#[test]
fn create_branch_rejects_existing_git_reference() {
    let mut stack = two_series_stack();
    let refs = vec!["taken".to_string()];
    let r = create_branch(
        &mut stack,
        request("taken", None, None),
        Some("taken".to_string()),
        &refs,
    );
    assert_eq!(r, Err(StackError::InvalidName));
}

#[test]
fn create_branch_rejects_existing_series_name() {
    let mut stack = two_series_stack();
    let r = create_branch(
        &mut stack,
        request("two", None, None),
        Some("two".to_string()),
        &no_refs(),
    );
    assert_eq!(r, Err(StackError::InvalidName));
}

#[test]
fn create_branch_rejects_unknown_target() {
    let mut stack = two_series_stack();
    let r = create_branch(
        &mut stack,
        request("three", Some(99), None),
        Some("three".to_string()),
        &no_refs(),
    );
    assert_eq!(r, Err(StackError::UnknownTarget));
    assert_eq!(stack.branches.len(), 2);
}

#[test]
fn successful_create_keeps_names_unique_and_target_in_stack() {
    let mut stack = two_series_stack();
    let r = create_branch(
        &mut stack,
        request("mid", Some(2), None),
        Some("mid".to_string()),
        &no_refs(),
    );
    assert_eq!(r, Ok(()));
    for i in 0..stack.branches.len() {
        for j in 0..stack.branches.len() {
            if i != j {
                assert_ne!(stack.branches[i].name, stack.branches[j].name);
            }
        }
    }
    let all_ids: Vec<u64> = stack
        .branches
        .iter()
        .flat_map(|s| s.local_commits.iter().map(|c| c.id))
        .collect();
    assert!(all_ids.contains(&2));
    assert_eq!(all_ids, vec![1, 2, 3]);
}

#[test]
fn rename_updates_name_and_resets_pr_number() {
    let mut stack = two_series_stack();
    stack.branches[0].pr_number = Some(7);
    let r = update_branch_name(
        &mut stack,
        &"one".to_string(),
        Some("uno".to_string()),
        &no_refs(),
    );
    assert_eq!(r, Ok(()));
    assert_eq!(stack.branches[0].name, "uno");
    assert_eq!(stack.branches[0].pr_number, None);
    assert_eq!(stack.branches[1].name, "two");
}

#[test]
fn rename_rejects_collision_with_sibling_series() {
    let mut stack = two_series_stack();
    let r = update_branch_name(
        &mut stack,
        &"one".to_string(),
        Some("two".to_string()),
        &no_refs(),
    );
    assert_eq!(r, Err(StackError::InvalidName));
    assert_eq!(stack.branches[0].name, "one");
}

#[test]
fn rename_unknown_series_fails_with_not_found() {
    let mut stack = two_series_stack();
    let r = update_branch_name(
        &mut stack,
        &"zero".to_string(),
        Some("uno".to_string()),
        &no_refs(),
    );
    assert_eq!(r, Err(StackError::NotFound));
}

#[test]
fn update_description_sets_and_clears() {
    let mut stack = two_series_stack();
    let r = update_branch_description(
        &mut stack,
        &"two".to_string(),
        Some("work in progress".to_string()),
    );
    assert_eq!(r, Ok(()));
    assert_eq!(stack.branches[1].description.as_deref(), Some("work in progress"));
    let r = update_branch_description(&mut stack, &"two".to_string(), None);
    assert_eq!(r, Ok(()));
    assert_eq!(stack.branches[1].description, None);
}

#[test]
fn update_pr_number_overwrites_existing_value() {
    let mut stack = two_series_stack();
    assert_eq!(update_branch_pr_number(&mut stack, &"one".to_string(), Some(4)), Ok(()));
    assert_eq!(stack.branches[0].pr_number, Some(4));
    assert_eq!(update_branch_pr_number(&mut stack, &"one".to_string(), Some(5)), Ok(()));
    assert_eq!(stack.branches[0].pr_number, Some(5));
    assert_eq!(
        update_branch_pr_number(&mut stack, &"gone".to_string(), Some(5)),
        Err(StackError::NotFound)
    );
}

#[test]
fn rename_rejects_failed_normalization_and_git_reference_collision() {
    let mut stack = two_series_stack();
    let r = update_branch_name(&mut stack, &"one".to_string(), None, &no_refs());
    assert_eq!(r, Err(StackError::InvalidName));
    let refs = vec!["uno".to_string()];
    let r = update_branch_name(&mut stack, &"one".to_string(), Some("uno".to_string()), &refs);
    assert_eq!(r, Err(StackError::InvalidName));
    assert_eq!(stack.branches[0].name, "one");
}

#[test]
fn preceding_head_at_another_commit_is_ignored() {
    let mut stack = two_series_stack();
    // "two" does not point at commit 1, so the preceding name is ignored and
    // the owning series is split as if none had been given.
    let r = create_branch(
        &mut stack,
        request("mid", Some(1), Some("two")),
        Some("mid".to_string()),
        &no_refs(),
    );
    assert_eq!(r, Ok(()));
    assert_eq!(stack.branches[0].name, "mid");
    let ids: Vec<u64> = stack.branches[0].local_commits.iter().map(|c| c.id).collect();
    assert_eq!(ids, vec![1]);
}

#[test]
fn head_oid_skips_empty_series() {
    let mut stack = two_series_stack();
    stack.branches.push(series("empty", &[]));
    assert_eq!(stack.head_oid(), 3);
    let all_empty = Stack {
        id: 2,
        base: 50,
        branches: vec![series("only", &[])],
    };
    assert_eq!(all_empty.head_oid(), 50);
}
