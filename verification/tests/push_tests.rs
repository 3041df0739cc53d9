use stacked_branches::integration::IntegrationChecker;
use stacked_branches::push::{branch_integrated, push_details, push_stack, PushRequest};
use stacked_branches::stack::{Commit, Series, Stack, StackError};

fn commit(id: u64) -> Commit {
    Commit { id, change_id: None, data: None }
}

fn series(name: &str, ids: &[u64]) -> Series {
    Series {
        name: name.to_string(),
        description: None,
        pr_number: None,
        review_id: None,
        archived: false,
        local_commits: ids.iter().map(|&id| commit(id)).collect(),
    }
}

fn three_series_stack() -> Stack {
    Stack {
        id: 1,
        base: 100,
        branches: vec![
            series("one", &[1]),
            series("two", &[2]),
            series("three", &[3]),
        ],
    }
}

fn plan(
    stack: &Stack,
    merge_base: u64,
    verdicts: Vec<u64>,
    with_force: bool,
    limit: Option<&str>,
) -> Vec<PushRequest> {
    let checker = IntegrationChecker::new(verdicts);
    push_stack(
        stack,
        merge_base,
        &checker,
        with_force,
        &limit.map(|l| l.to_string()),
        &"origin".to_string(),
    )
}

#[test]
fn pushes_every_series_in_stored_order() {
    let stack = three_series_stack();
    let requests = plan(&stack, 100, vec![], false, None);
    let heads: Vec<u64> = requests.iter().map(|r| r.head).collect();
    assert_eq!(heads, vec![1, 2, 3]);
    assert_eq!(requests[0].remote_refname, "refs/remotes/origin/one");
    assert_eq!(requests[2].remote_refname, "refs/remotes/origin/three");
    assert!(requests.iter().all(|r| !r.with_force));
}

#[test]
fn branch_limit_stops_after_pushing_it() {
    let stack = three_series_stack();
    let requests = plan(&stack, 100, vec![], false, Some("two"));
    let heads: Vec<u64> = requests.iter().map(|r| r.head).collect();
    assert_eq!(heads, vec![1, 2]);
}

#[test]
fn archived_series_are_skipped() {
    let mut stack = three_series_stack();
    stack.branches[1].archived = true;
    let requests = plan(&stack, 100, vec![], false, None);
    let heads: Vec<u64> = requests.iter().map(|r| r.head).collect();
    assert_eq!(heads, vec![1, 3]);
}

#[test]
fn series_at_the_merge_base_are_skipped() {
    let mut stack = three_series_stack();
    stack.branches[0].local_commits.clear();
    // "one" owns nothing, so its head is the merge-base: nothing to push.
    let requests = plan(&stack, 100, vec![], false, None);
    let heads: Vec<u64> = requests.iter().map(|r| r.head).collect();
    assert_eq!(heads, vec![2, 3]);
}

#[test]
fn integrated_series_are_skipped() {
    let stack = three_series_stack();
    let requests = plan(&stack, 100, vec![1], false, None);
    let heads: Vec<u64> = requests.iter().map(|r| r.head).collect();
    assert_eq!(heads, vec![2, 3]);
}

#[test]
fn force_flag_is_carried_into_every_request() {
    let stack = three_series_stack();
    let requests = plan(&stack, 100, vec![], true, None);
    assert!(requests.iter().all(|r| r.with_force));
}

#[test]
fn branch_integrated_trusts_archival_over_the_checker() {
    let mut stack = three_series_stack();
    stack.branches[0].archived = true;
    let checker = IntegrationChecker::new(vec![2]);
    assert!(branch_integrated(&checker, &stack, 0));
    assert!(branch_integrated(&checker, &stack, 1));
    assert!(!branch_integrated(&checker, &stack, 2));
}

#[test]
fn push_details_names_the_canonical_remote_reference() {
    let stack = three_series_stack();
    let details = push_details(&stack, &"two".to_string(), &"origin".to_string()).unwrap();
    assert_eq!(details.head, 2);
    assert_eq!(details.remote_refname, "refs/remotes/origin/two");
    let missing = push_details(&stack, &"four".to_string(), &"origin".to_string());
    assert_eq!(missing, Err(StackError::NotFound));
}

#[test]
fn empty_series_inherit_the_head_below_for_pushing() {
    let mut stack = three_series_stack();
    stack.branches[1].local_commits.clear();
    // "two" owns nothing: its head equals "one"'s head, which is not the
    // merge-base, so it is still pushed, at that inherited head.
    let requests = plan(&stack, 100, vec![], false, None);
    let heads: Vec<u64> = requests.iter().map(|r| r.head).collect();
    assert_eq!(heads, vec![1, 1, 3]);
}
