use stacked_branches::integration::IntegrationChecker;
use stacked_branches::reconcile::{stack_series, PatchSeries, RemoteSeries};
use stacked_branches::stack::{Commit, Series, Stack, StackError};

fn commit(id: u64) -> Commit {
    Commit { id, change_id: None, data: None }
}

fn commit_with_change(id: u64, change_id: u64) -> Commit {
    Commit { id, change_id: Some(change_id), data: None }
}

fn commit_with_data(id: u64, data: u64) -> Commit {
    Commit { id, change_id: None, data: Some(data) }
}

fn series_of(name: &str, commits: Vec<Commit>) -> Series {
    Series {
        name: name.to_string(),
        description: None,
        pr_number: None,
        review_id: None,
        archived: false,
        local_commits: commits,
    }
}

fn one_series_stack(commits: Vec<Commit>) -> Stack {
    Stack { id: 1, base: 100, branches: vec![series_of("main-series", commits)] }
}

fn remote(commits: Vec<Commit>) -> RemoteSeries {
    RemoteSeries { pushed: false, commits }
}

fn origin() -> String {
    "origin".to_string()
}

fn reconcile(
    stack: &Stack,
    remotes: Vec<RemoteSeries>,
    verdicts: Vec<u64>,
) -> (Vec<Result<PatchSeries, StackError>>, bool) {
    let checker = IntegrationChecker::new(verdicts);
    stack_series(stack, &remotes, &origin(), &checker)
}

#[test]
fn three_local_commits_without_remote_counterparts() {
    let stack = one_series_stack(vec![commit(1), commit(2), commit(3)]);
    let (results, requires_force) = reconcile(&stack, vec![remote(vec![])], vec![]);
    assert_eq!(results.len(), 1);
    let s = results[0].as_ref().unwrap();
    let ids: Vec<u64> = s.patches.iter().map(|p| p.id).collect();
    assert_eq!(ids, vec![1, 2, 3]);
    assert!(s.upstream_patches.is_empty());
    assert!(!requires_force);
    for p in &s.patches {
        assert!(!p.is_integrated);
        assert!(!p.is_local_and_remote);
        assert_eq!(p.remote_commit_id, None);
    }
    assert_eq!(s.upstream_reference, None);
}

#[test]
fn integration_is_monotonic_from_the_found_commit_down() {
    // The target's tip subsumes commit 2: the walk finds 3 not integrated,
    // then 2 integrated, and 1, being older, is integrated as well.
    let stack = one_series_stack(vec![commit(1), commit(2), commit(3)]);
    let (results, requires_force) = reconcile(&stack, vec![remote(vec![])], vec![2]);
    let s = results[0].as_ref().unwrap();
    let flags: Vec<bool> = s.patches.iter().map(|p| p.is_integrated).collect();
    assert_eq!(flags, vec![true, true, false]);
    assert!(!requires_force);
}

#[test]
fn amended_remote_counterpart_forces_push() {
    // Commit 2 was amended remotely into commit 12, which kept its change
    // identity: 12 is recorded as 2's counterpart and force is required.
    let stack = one_series_stack(vec![
        commit(1),
        commit_with_change(2, 42),
        commit(3),
    ]);
    let remotes = vec![remote(vec![commit_with_change(12, 42)])];
    let (results, requires_force) = reconcile(&stack, remotes, vec![]);
    let s = results[0].as_ref().unwrap();
    assert!(requires_force);
    assert_eq!(s.patches[1].remote_commit_id, Some(12));
    assert!(!s.patches[1].is_local_and_remote);
    // The amended remote commit is represented by its local counterpart and
    // does not reappear upstream.
    assert!(s.upstream_patches.is_empty());
}

#[test]
fn same_commit_on_both_sides_is_local_and_remote() {
    let stack = one_series_stack(vec![commit(1), commit(2)]);
    let remotes = vec![remote(vec![commit(2)])];
    let (results, requires_force) = reconcile(&stack, remotes, vec![]);
    let s = results[0].as_ref().unwrap();
    assert!(!requires_force);
    assert!(s.patches[1].is_local_and_remote);
    assert_eq!(s.patches[1].remote_commit_id, None);
    assert!(s.upstream_patches.is_empty());
}

#[test]
fn diff_equivalent_remote_commit_is_matched_as_fallback() {
    // No change identity, but the same reconstructable patch content.
    let stack = one_series_stack(vec![commit_with_data(2, 77)]);
    let remotes = vec![remote(vec![commit_with_data(22, 77)])];
    let (results, requires_force) = reconcile(&stack, remotes, vec![]);
    let s = results[0].as_ref().unwrap();
    assert!(requires_force);
    assert_eq!(s.patches[0].copied_from_remote_id, Some(22));
    assert_eq!(s.patches[0].remote_commit_id, Some(22));
}

#[test]
fn remote_only_commits_become_upstream_patches_and_force() {
    let stack = one_series_stack(vec![commit(1)]);
    let remotes = vec![remote(vec![commit(8), commit(9)])];
    let (results, requires_force) = reconcile(&stack, remotes, vec![9]);
    let s = results[0].as_ref().unwrap();
    assert!(requires_force);
    let ids: Vec<u64> = s.upstream_patches.iter().map(|p| p.id).collect();
    assert_eq!(ids, vec![8, 9]);
    assert!(s.upstream_patches.iter().all(|p| p.is_remote));
    assert!(!s.upstream_patches[0].is_integrated);
    assert!(s.upstream_patches[1].is_integrated);
}

#[test]
fn upstream_commit_claimed_by_lower_series_is_not_repeated() {
    // Commit 9 is remote-only for the bottom series; the top series' remote
    // set does not list it again, so it appears exactly once.
    let stack = Stack {
        id: 1,
        base: 100,
        branches: vec![
            series_of("one", vec![commit(1)]),
            series_of("two", vec![commit(2)]),
        ],
    };
    let remotes = vec![remote(vec![commit(9)]), remote(vec![commit(2)])];
    let (results, _) = reconcile(&stack, remotes, vec![]);
    // Newest series first in the output.
    let top = results[0].as_ref().unwrap();
    let bottom = results[1].as_ref().unwrap();
    assert_eq!(top.name, "two");
    assert_eq!(bottom.name, "one");
    let bottom_ids: Vec<u64> = bottom.upstream_patches.iter().map(|p| p.id).collect();
    assert_eq!(bottom_ids, vec![9]);
    assert!(top.upstream_patches.is_empty());
}

#[test]
fn local_counterpart_in_lower_series_claims_upstream_commit_for_the_stack() {
    // The bottom series already shows remote commit 12 as the counterpart of
    // its local commit 2; the top series' remote set lists 12 as well, but it
    // is claimed and does not become an upstream patch there.
    let stack = Stack {
        id: 1,
        base: 100,
        branches: vec![
            series_of("one", vec![commit_with_change(2, 42)]),
            series_of("two", vec![commit(3)]),
        ],
    };
    let remotes = vec![
        remote(vec![commit_with_change(12, 42)]),
        remote(vec![commit_with_change(12, 42)]),
    ];
    let (results, requires_force) = reconcile(&stack, remotes, vec![]);
    let top = results[0].as_ref().unwrap();
    assert!(top.upstream_patches.is_empty());
    assert!(requires_force);
}

#[test]
fn archived_series_upstream_claim_marks_commit_integrated_below() {
    // An archived lower series already claimed remote commit 9 as one of its
    // upstream patches; when the series above sees 9 in its own remote set,
    // the commit counts as integrated although the checker has no verdict.
    let mut archived = series_of("old", vec![]);
    archived.archived = true;
    let stack = Stack {
        id: 1,
        base: 100,
        branches: vec![archived, series_of("two", vec![commit(3)])],
    };
    let remotes = vec![remote(vec![commit(9)]), remote(vec![commit(9)])];
    let (results, _) = reconcile(&stack, remotes, vec![]);
    let top = results[0].as_ref().unwrap();
    let bottom = results[1].as_ref().unwrap();
    assert!(bottom.archived);
    assert_eq!(bottom.upstream_patches.len(), 1);
    assert!(!bottom.upstream_patches[0].is_integrated);
    assert_eq!(top.upstream_patches.len(), 1);
    assert!(top.upstream_patches[0].is_integrated);
}

#[test]
fn missing_remote_state_fails_that_series_alone() {
    let stack = Stack {
        id: 1,
        base: 100,
        branches: vec![
            series_of("one", vec![commit(1)]),
            series_of("two", vec![commit(2)]),
        ],
    };
    // Only the bottom series is covered by the snapshot.
    let (results, requires_force) = reconcile(&stack, vec![remote(vec![])], vec![]);
    assert_eq!(results.len(), 2);
    assert_eq!(results[0], Err(StackError::ReconciliationError));
    assert!(results[1].is_ok());
    assert!(!requires_force);
}

#[test]
fn reconciliation_is_idempotent_on_an_unchanged_snapshot() {
    let stack = one_series_stack(vec![
        commit(1),
        commit_with_change(2, 42),
        commit(3),
    ]);
    let make_remotes = || vec![remote(vec![commit_with_change(12, 42), commit(9)])];
    let first = reconcile(&stack, make_remotes(), vec![3]);
    let second = reconcile(&stack, make_remotes(), vec![3]);
    assert_eq!(first, second);
}

#[test]
fn adjacent_duplicate_ids_are_deduplicated() {
    let stack = one_series_stack(vec![commit(1), commit(1), commit(2)]);
    let (results, _) = reconcile(&stack, vec![remote(vec![])], vec![]);
    let s = results[0].as_ref().unwrap();
    let ids: Vec<u64> = s.patches.iter().map(|p| p.id).collect();
    assert_eq!(ids, vec![1, 2]);
}

#[test]
fn non_adjacent_duplicate_ids_never_reach_the_caller() {
    // The walk emits newest first, so of two commits sharing an id the newest
    // entry survives deduplication.
    let stack = one_series_stack(vec![commit(1), commit(2), commit(1)]);
    let (results, _) = reconcile(&stack, vec![remote(vec![])], vec![]);
    let s = results[0].as_ref().unwrap();
    let ids: Vec<u64> = s.patches.iter().map(|p| p.id).collect();
    assert_eq!(ids, vec![2, 1]);
}

#[test]
fn non_adjacent_duplicate_upstream_ids_never_reach_the_caller() {
    // Upstream patches are deduplicated oldest first: the oldest entry of a
    // repeated id survives.
    let stack = one_series_stack(vec![commit(1)]);
    let remotes = vec![remote(vec![commit(9), commit(8), commit(9)])];
    let (results, _) = reconcile(&stack, remotes, vec![]);
    let s = results[0].as_ref().unwrap();
    let ids: Vec<u64> = s.upstream_patches.iter().map(|p| p.id).collect();
    assert_eq!(ids, vec![9, 8]);
}

#[test]
fn pushed_series_reports_its_remote_reference() {
    let stack = one_series_stack(vec![commit(1)]);
    let remotes = vec![RemoteSeries { pushed: true, commits: vec![commit(1)] }];
    let (results, _) = reconcile(&stack, remotes, vec![]);
    let s = results[0].as_ref().unwrap();
    assert_eq!(
        s.upstream_reference.as_deref(),
        Some("refs/remotes/origin/main-series")
    );
}

#[test]
fn series_metadata_is_carried_over() {
    let mut stack = one_series_stack(vec![commit(1)]);
    stack.branches[0].description = Some("notes".to_string());
    stack.branches[0].pr_number = Some(11);
    stack.branches[0].review_id = Some("rev-1".to_string());
    let (results, _) = reconcile(&stack, vec![remote(vec![])], vec![]);
    let s = results[0].as_ref().unwrap();
    assert_eq!(s.name, "main-series");
    assert_eq!(s.description.as_deref(), Some("notes"));
    assert_eq!(s.pr_number, Some(11));
    assert_eq!(s.review_id.as_deref(), Some("rev-1"));
    assert!(!s.archived);
}
