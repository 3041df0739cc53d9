//! The guarantees reconciliation gives, proved once and for all: determinism
//! of the reconciled view, monotonicity of the integration flags along one
//! series, when the force flag must be set, that no duplicate entry reaches
//! the caller, and that no upstream commit is reported under two series.

use vstd::prelude::*;

use crate::reconcile::{
    claimed_by_patches, commit_forces, dedup_by_id, local_walk, mk_local_patch,
    mk_upstream_patch, spec_api_series, spec_remote_counterpart, spec_series_force,
    spec_series_walk, spec_stack_force, spec_stack_series, spec_upstream_patches, upstream_walk,
    walked_local_patches, Patch, PatchSeriesView, RemoteSeriesView,
};
use crate::stack::{
    commit_pos_from, find_name_from, owner_pos, owner_pos_from, spec_added_branches,
    spec_removed_branches, Commit, SeriesView, StackError, StackView,
};

verus! {

/// The local history a sequence of series owns, oldest first.
pub open spec fn commits_of(branches: Seq<SeriesView>) -> Seq<Commit>
    decreases branches.len(),
{
    if branches.len() == 0 {
        Seq::empty()
    } else {
        commits_of(branches.drop_last()) + branches.last().local_commits
    }
}

/// A stack's whole local history is the history its series own.
proof fn lemma_all_commits_is_commits_of(v: StackView)
    ensures
        v.all_commits() == commits_of(v.branches),
    decreases v.branches.len(),
{
    if v.branches.len() > 0 {
        lemma_all_commits_is_commits_of(StackView { branches: v.branches.drop_last(), ..v });
    }
}

/// The owned history of a concatenation is the concatenation of the owned
/// histories.
proof fn lemma_commits_of_concat(s1: Seq<SeriesView>, s2: Seq<SeriesView>)
    ensures
        commits_of(s1 + s2) == commits_of(s1) + commits_of(s2),
    decreases s2.len(),
{
    if s2.len() == 0 {
        assert(s1 + s2 =~= s1);
        assert(commits_of(s1) + commits_of(s2) =~= commits_of(s1));
    } else {
        lemma_commits_of_concat(s1, s2.drop_last());
        assert((s1 + s2).drop_last() =~= s1 + s2.drop_last());
        assert((s1 + s2).last() == s2.last());
        assert(commits_of(s1 + s2) =~= commits_of(s1) + commits_of(s2));
    }
}

/// The owned history of one series alone.
proof fn lemma_commits_of_singleton(s: SeriesView)
    ensures
        commits_of(seq![s]) == s.local_commits,
{
    let one = seq![s];
    assert(one.len() == 1);
    assert(one.drop_last() =~= Seq::<SeriesView>::empty());
    assert(commits_of(one.drop_last()) == commits_of(Seq::<SeriesView>::empty()));
    assert(commits_of(Seq::<SeriesView>::empty()) == Seq::<Commit>::empty());
    assert(one.last() == s);
    assert(commits_of(one) =~= s.local_commits);
}

/// Removing a series re-owns its commits but touches none of them: the
/// stack's local history is exactly what it was.
pub proof fn lemma_remove_branch_keeps_commits(v: StackView, idx: int)
    requires
        0 <= idx < v.branches.len(),
        v.branches.len() >= 2,
    ensures
        (StackView { branches: spec_removed_branches(v.branches, idx), ..v }).all_commits()
            == v.all_commits(),
{
    let b = v.branches;
    lemma_all_commits_is_commits_of(v);
    lemma_all_commits_is_commits_of(
        StackView { branches: spec_removed_branches(b, idx), ..v },
    );
    if idx > 0 {
        let merged = SeriesView {
            local_commits: b[idx - 1].local_commits + b[idx].local_commits,
            ..b[idx - 1]
        };
        let result = spec_removed_branches(b, idx);
        assert(result =~= b.take(idx - 1) + seq![merged] + b.skip(idx + 1)) by {
            b.update(idx - 1, merged).remove_ensures(idx);
        }
        assert(b =~= b.take(idx - 1) + seq![b[idx - 1]] + seq![b[idx]] + b.skip(idx + 1));
        lemma_commits_of_concat(b.take(idx - 1) + seq![b[idx - 1]] + seq![b[idx]], b.skip(idx + 1));
        lemma_commits_of_concat(b.take(idx - 1) + seq![b[idx - 1]], seq![b[idx]]);
        lemma_commits_of_concat(b.take(idx - 1), seq![b[idx - 1]]);
        lemma_commits_of_concat(b.take(idx - 1) + seq![merged], b.skip(idx + 1));
        lemma_commits_of_concat(b.take(idx - 1), seq![merged]);
        lemma_commits_of_singleton(b[idx - 1]);
        lemma_commits_of_singleton(b[idx]);
        lemma_commits_of_singleton(merged);
        assert(commits_of(result) =~= commits_of(b));
    } else {
        let merged = SeriesView {
            local_commits: b[0].local_commits + b[1].local_commits,
            ..b[1]
        };
        let result = spec_removed_branches(b, 0);
        assert(result =~= seq![merged] + b.skip(2)) by {
            b.remove_ensures(0);
        }
        assert(b =~= seq![b[0]] + seq![b[1]] + b.skip(2));
        lemma_commits_of_concat(seq![b[0]] + seq![b[1]], b.skip(2));
        lemma_commits_of_concat(seq![b[0]], seq![b[1]]);
        lemma_commits_of_concat(seq![merged], b.skip(2));
        lemma_commits_of_singleton(b[0]);
        lemma_commits_of_singleton(b[1]);
        lemma_commits_of_singleton(merged);
        assert(commits_of(result) =~= commits_of(b));
    }
}

/// Bounds and meaning of a successful owner scan.
proof fn lemma_owner_pos_some(branches: Seq<SeriesView>, id: u64, i: int)
    requires
        0 <= i,
        owner_pos_from(branches, id, i) is Some,
    ensures
        ({
            let pos = owner_pos_from(branches, id, i)->0;
            &&& i <= pos.0 < branches.len()
            &&& 0 <= pos.1 < branches[pos.0].local_commits.len()
        }),
    decreases branches.len() - i,
{
    let cs = branches[i].local_commits;
    if commit_pos_from(cs, id, 0) is Some {
        lemma_commit_pos_some(cs, id, 0);
    } else {
        lemma_owner_pos_some(branches, id, i + 1);
    }
}

/// Bounds of a successful commit scan.
proof fn lemma_commit_pos_some(cs: Seq<Commit>, id: u64, j: int)
    requires
        0 <= j,
        commit_pos_from(cs, id, j) is Some,
    ensures
        j <= commit_pos_from(cs, id, j)->0 < cs.len(),
    decreases cs.len() - j,
{
    if !(j < cs.len() && cs[j].id == id) {
        lemma_commit_pos_some(cs, id, j + 1);
    }
}

/// Bounds of a successful name scan.
proof fn lemma_find_name_some(branches: Seq<SeriesView>, n: Seq<char>, i: int)
    requires
        0 <= i,
        find_name_from(branches, n, i) is Some,
    ensures
        i <= find_name_from(branches, n, i)->0 < branches.len(),
    decreases branches.len() - i,
{
    if !(i < branches.len() && branches[i].name == n) {
        lemma_find_name_some(branches, n, i + 1);
    }
}

/// Adding a series only regroups commits: the stack's local history is
/// exactly what it was, whether the new series is empty or splits the one
/// owning its target.
#[verifier::rlimit(100)]
pub proof fn lemma_create_branch_keeps_commits(
    v: StackView,
    n: Seq<char>,
    d: Option<Seq<char>>,
    target: Option<u64>,
    preceding: Option<Seq<char>>,
)
    requires
        target is Some ==> owner_pos(v.branches, target->0) is Some,
    ensures
        (StackView { branches: spec_added_branches(v, n, d, target, preceding), ..v }).all_commits()
            == v.all_commits(),
{
    let b = v.branches;
    let result = spec_added_branches(v, n, d, target, preceding);
    lemma_all_commits_is_commits_of(v);
    lemma_all_commits_is_commits_of(StackView { branches: result, ..v });
    match target {
        None => {
            assert(b.push(crate::stack::new_series_view(n, d, Seq::empty())).drop_last() =~= b);
            assert(commits_of(result) =~= commits_of(b));
        },
        Some(cid) => {
            lemma_owner_pos_some(b, cid, 0);
            let pos = owner_pos(b, cid)->0;
            if preceding matches Some(pn) && crate::stack::find_name(b, pn) matches Some(idx)
                && v.head_of(idx) == cid {
                let idx = crate::stack::find_name(b, preceding->0)->0;
                lemma_find_name_some(b, preceding->0, 0);
                let fresh = crate::stack::new_series_view(n, d, Seq::empty());
                assert(result =~= b.take(idx + 1) + seq![fresh] + b.skip(idx + 1)) by {
                    b.insert_ensures(idx + 1, fresh);
                }
                assert(b =~= b.take(idx + 1) + b.skip(idx + 1));
                lemma_commits_of_concat(b.take(idx + 1) + seq![fresh], b.skip(idx + 1));
                lemma_commits_of_concat(b.take(idx + 1), seq![fresh]);
                lemma_commits_of_concat(b.take(idx + 1), b.skip(idx + 1));
                lemma_commits_of_singleton(fresh);
                assert(commits_of(result) =~= commits_of(b));
            } else {
                let owner = b[pos.0];
                let newer = crate::stack::new_series_view(n, d, owner.local_commits.take(pos.1 + 1));
                let upper = SeriesView { local_commits: owner.local_commits.skip(pos.1 + 1), ..owner };
                assert(result =~= b.take(pos.0) + seq![newer] + seq![upper] + b.skip(pos.0 + 1)) by {
                    b.update(pos.0, upper).insert_ensures(pos.0, newer);
                }
                assert(b =~= b.take(pos.0) + seq![owner] + b.skip(pos.0 + 1));
                lemma_commits_of_concat(b.take(pos.0) + seq![newer] + seq![upper], b.skip(pos.0 + 1));
                lemma_commits_of_concat(b.take(pos.0) + seq![newer], seq![upper]);
                lemma_commits_of_concat(b.take(pos.0), seq![newer]);
                lemma_commits_of_concat(b.take(pos.0) + seq![owner], b.skip(pos.0 + 1));
                lemma_commits_of_concat(b.take(pos.0), seq![owner]);
                lemma_commits_of_singleton(newer);
                lemma_commits_of_singleton(upper);
                lemma_commits_of_singleton(owner);
                assert(newer.local_commits + upper.local_commits =~= owner.local_commits);
                assert(commits_of(result) =~= commits_of(b));
            }
        },
    }
}

/// Reconciliation is idempotent: two runs of `stack_series` on an unchanged
/// stack, remote snapshot and verdict set yield identical outcome lists,
/// order and flags included, and the same force flag.
pub proof fn lemma_reconcile_idempotent(
    r1: (Seq<Result<PatchSeriesView, StackError>>, bool),
    r2: (Seq<Result<PatchSeriesView, StackError>>, bool),
    stack: StackView,
    remotes: Seq<RemoteSeriesView>,
    remote_name: Seq<char>,
    verdicts: Seq<u64>,
)
    requires
        r1 == spec_stack_series(stack, remotes, remote_name, verdicts),
        r2 == spec_stack_series(stack, remotes, remote_name, verdicts),
    ensures
        r1 == r2,
{
}

/// The integration flags never step from integrated back to not integrated
/// while walking newest to oldest.
pub open spec fn monotone_newest_first(ps: Seq<Patch>) -> bool {
    forall|k: int, m: int|
        0 <= k <= m < ps.len() ==> (ps[k].is_integrated ==> ps[m].is_integrated)
}

/// The local walk's integration flags are monotone: the latch only ever turns
/// on, so every patch older than an integrated one is integrated too.
proof fn lemma_local_walk_monotone(
    locals: Seq<Commit>,
    remotes: Seq<Commit>,
    verdicts: Seq<u64>,
    i: int,
    latch: bool,
)
    ensures
        monotone_newest_first(local_walk(locals, remotes, verdicts, i, latch)),
        latch ==> forall|k: int|
            0 <= k < local_walk(locals, remotes, verdicts, i, latch).len() ==> local_walk(
                locals,
                remotes,
                verdicts,
                i,
                latch,
            )[k].is_integrated,
    decreases i,
{
    if i <= 0 || i > locals.len() {
    } else {
        let c = locals[i - 1];
        let integrated = latch || verdicts.contains(c.id);
        lemma_local_walk_monotone(locals, remotes, verdicts, i - 1, integrated);
        let rest = local_walk(locals, remotes, verdicts, i - 1, integrated);
        let whole = local_walk(locals, remotes, verdicts, i, latch);
        assert(whole == seq![mk_local_patch(c, remotes, integrated)] + rest);
        assert forall|k: int, m: int|
            0 <= k <= m < whole.len() && whole[k].is_integrated implies whole[m].is_integrated by {
            if k == 0 {
                if m > 0 {
                    assert(whole[m] == rest[m - 1]);
                }
            } else {
                assert(whole[k] == rest[k - 1]);
                assert(whole[m] == rest[m - 1]);
            }
        }
    }
}

/// Deduplication keeps the monotone shape of the walk, and never turns a
/// non-integrated tail entry into an integrated one.
proof fn lemma_dedup_monotone(ps: Seq<Patch>)
    requires
        monotone_newest_first(ps),
    ensures
        monotone_newest_first(dedup_by_id(ps)),
        dedup_by_id(ps).len() > 0 ==> ps.len() > 0 && (dedup_by_id(
            ps,
        ).last().is_integrated ==> ps.last().is_integrated),
    decreases ps.len(),
{
    if ps.len() == 0 {
    } else {
        let t = ps.drop_last();
        assert(monotone_newest_first(t)) by {
            assert forall|k: int, m: int|
                0 <= k <= m < t.len() && t[k].is_integrated implies t[m].is_integrated by {
                assert(t[k] == ps[k]);
                assert(t[m] == ps[m]);
            }
        }
        lemma_dedup_monotone(t);
        let d = dedup_by_id(ps);
        if crate::reconcile::has_patch_id(t, ps.last().id) {
            assert(d == dedup_by_id(t));
            if d.len() > 0 {
                assert(d.last().is_integrated ==> t.last().is_integrated);
                assert(t.last() == ps[ps.len() - 2]);
            }
        } else {
            assert(d == dedup_by_id(t).push(ps.last()));
            let dt = dedup_by_id(t);
            assert forall|k: int, m: int|
                0 <= k <= m < d.len() && d[k].is_integrated implies d[m].is_integrated by {
                if m < dt.len() {
                    assert(d[k] == dt[k]);
                    assert(d[m] == dt[m]);
                } else {
                    assert(d[m] == ps.last());
                    if k < dt.len() {
                        assert(d[k] == dt[k]);
                        assert(dt[k].is_integrated ==> dt.last().is_integrated);
                        assert(dt.last().is_integrated ==> t.last().is_integrated);
                        assert(t.last() == ps[ps.len() - 2]);
                    }
                }
            }
        }
    }
}

/// Monotonic integration: in the reconciled series' local patches (oldest
/// first), once a patch is marked integrated, every older patch is marked
/// integrated too.
pub proof fn lemma_integration_monotonic(
    s: SeriesView,
    rem: RemoteSeriesView,
    remote_name: Seq<char>,
    verdicts: Seq<u64>,
    prior: Seq<Result<PatchSeriesView, StackError>>,
    i: int,
    j: int,
)
    requires
        0 <= i <= j < spec_api_series(s, rem, remote_name, verdicts, prior).patches.len(),
        spec_api_series(s, rem, remote_name, verdicts, prior).patches[j].is_integrated,
    ensures
        spec_api_series(s, rem, remote_name, verdicts, prior).patches[i].is_integrated,
{
    let walked = walked_local_patches(s.local_commits, rem.commits, verdicts);
    let patches = spec_api_series(s, rem, remote_name, verdicts, prior).patches;
    lemma_local_walk_monotone(
        s.local_commits,
        rem.commits,
        verdicts,
        s.local_commits.len() as int,
        false,
    );
    lemma_dedup_monotone(
        local_walk(s.local_commits, rem.commits, verdicts, s.local_commits.len() as int, false),
    );
    assert(patches == walked.reverse());
    assert(patches[j] == walked[walked.len() - 1 - j]);
    assert(patches[i] == walked[walked.len() - 1 - i]);
}

/// Every entry of the deduplicated sequence is an entry of the sequence it
/// came from.
proof fn lemma_dedup_elements(ps: Seq<Patch>, k: int)
    requires
        0 <= k < dedup_by_id(ps).len(),
    ensures
        exists|j: int| 0 <= j < ps.len() && dedup_by_id(ps)[k] == ps[j],
    decreases ps.len(),
{
    if ps.len() == 0 {
    } else {
        let t = ps.drop_last();
        let d = dedup_by_id(ps);
        if crate::reconcile::has_patch_id(t, ps.last().id) {
            lemma_dedup_elements(t, k);
            let j = choose|j: int| 0 <= j < t.len() && dedup_by_id(t)[k] == t[j];
            assert(d[k] == ps[j]);
        } else {
            let dt = dedup_by_id(t);
            if k < dt.len() {
                lemma_dedup_elements(t, k);
                let j = choose|j: int| 0 <= j < t.len() && dt[k] == t[j];
                assert(d[k] == ps[j]);
            } else {
                assert(d[k] == ps[ps.len() - 1]);
            }
        }
    }
}

/// After deduplication no two entries share an id.
proof fn lemma_dedup_distinct(ps: Seq<Patch>)
    ensures
        forall|a: int, b: int|
            0 <= a < b < dedup_by_id(ps).len() ==> dedup_by_id(ps)[a].id != dedup_by_id(
                ps,
            )[b].id,
    decreases ps.len(),
{
    if ps.len() == 0 {
    } else {
        let t = ps.drop_last();
        lemma_dedup_distinct(t);
        let d = dedup_by_id(ps);
        let dt = dedup_by_id(t);
        if crate::reconcile::has_patch_id(t, ps.last().id) {
        } else {
            assert forall|a: int, b: int| 0 <= a < b < d.len() implies d[a].id != d[b].id by {
                if b < dt.len() {
                    assert(d[a] == dt[a]);
                    assert(d[b] == dt[b]);
                } else {
                    assert(d[b] == ps.last());
                    assert(d[a] == dt[a]);
                    lemma_dedup_elements(t, a);
                    let j = choose|j: int| 0 <= j < t.len() && dt[a] == t[j];
                    assert(t[j].id != ps.last().id);
                }
            }
        }
    }
}

/// Defensive deduplication: no two local patches of a reconciled series share
/// a commit id, so a duplicate entry never reaches the caller.
pub proof fn lemma_local_patches_distinct(
    s: SeriesView,
    rem: RemoteSeriesView,
    remote_name: Seq<char>,
    verdicts: Seq<u64>,
    prior: Seq<Result<PatchSeriesView, StackError>>,
    a: int,
    b: int,
)
    requires
        a != b,
        0 <= a < spec_api_series(s, rem, remote_name, verdicts, prior).patches.len(),
        0 <= b < spec_api_series(s, rem, remote_name, verdicts, prior).patches.len(),
    ensures
        spec_api_series(s, rem, remote_name, verdicts, prior).patches[a].id != spec_api_series(
            s,
            rem,
            remote_name,
            verdicts,
            prior,
        ).patches[b].id,
{
    let walked = walked_local_patches(s.local_commits, rem.commits, verdicts);
    let patches = spec_api_series(s, rem, remote_name, verdicts, prior).patches;
    lemma_dedup_distinct(
        local_walk(s.local_commits, rem.commits, verdicts, s.local_commits.len() as int, false),
    );
    assert(patches == walked.reverse());
    assert(patches[a] == walked[walked.len() - 1 - a]);
    assert(patches[b] == walked[walked.len() - 1 - b]);
}

/// Defensive deduplication: no two upstream patches of a reconciled series
/// share a commit id, so a duplicate entry never reaches the caller.
pub proof fn lemma_upstream_patches_distinct(
    s: SeriesView,
    rem: RemoteSeriesView,
    remote_name: Seq<char>,
    verdicts: Seq<u64>,
    prior: Seq<Result<PatchSeriesView, StackError>>,
    a: int,
    b: int,
)
    requires
        a != b,
        0 <= a < spec_api_series(s, rem, remote_name, verdicts, prior).upstream_patches.len(),
        0 <= b < spec_api_series(s, rem, remote_name, verdicts, prior).upstream_patches.len(),
    ensures
        spec_api_series(s, rem, remote_name, verdicts, prior).upstream_patches[a].id
            != spec_api_series(s, rem, remote_name, verdicts, prior).upstream_patches[b].id,
{
    let walked = walked_local_patches(s.local_commits, rem.commits, verdicts);
    lemma_dedup_distinct(
        upstream_walk(rem.commits, walked, prior, verdicts, rem.commits.len() as int).reverse(),
    );
}

/// The length of the series walk is the number of series walked.
proof fn lemma_series_walk_len(
    branches: Seq<SeriesView>,
    remotes: Seq<RemoteSeriesView>,
    remote_name: Seq<char>,
    verdicts: Seq<u64>,
    i: int,
)
    requires
        0 <= i <= branches.len(),
    ensures
        spec_series_walk(branches, remotes, remote_name, verdicts, i).len() == i,
    decreases i,
{
    if i > 0 {
        lemma_series_walk_len(branches, remotes, remote_name, verdicts, i - 1);
    }
}

/// What the series walk holds at position `k`: the outcome of reconciling the
/// series at `k` against the outcomes before it.
proof fn lemma_series_walk_index(
    branches: Seq<SeriesView>,
    remotes: Seq<RemoteSeriesView>,
    remote_name: Seq<char>,
    verdicts: Seq<u64>,
    i: int,
    k: int,
)
    requires
        0 <= k < i <= branches.len(),
    ensures
        spec_series_walk(branches, remotes, remote_name, verdicts, i)[k] == (if k < remotes.len() {
            Ok::<PatchSeriesView, StackError>(
                spec_api_series(
                    branches[k],
                    remotes[k],
                    remote_name,
                    verdicts,
                    spec_series_walk(branches, remotes, remote_name, verdicts, k),
                ),
            )
        } else {
            Err(StackError::ReconciliationError)
        }),
    decreases i,
{
    lemma_series_walk_len(branches, remotes, remote_name, verdicts, i - 1);
    if k == i - 1 {
    } else {
        lemma_series_walk_index(branches, remotes, remote_name, verdicts, i - 1, k);
    }
}

/// A series' own force verdict forces the stack-wide flag.
proof fn lemma_force_lift(
    branches: Seq<SeriesView>,
    remotes: Seq<RemoteSeriesView>,
    remote_name: Seq<char>,
    verdicts: Seq<u64>,
    i: int,
    w: int,
)
    requires
        0 <= w < i <= branches.len(),
        w < remotes.len(),
        spec_series_force(
            branches[w],
            remotes[w],
            verdicts,
            spec_series_walk(branches, remotes, remote_name, verdicts, w),
        ),
    ensures
        spec_stack_force(branches, remotes, remote_name, verdicts, i),
    decreases i,
{
    if w < i - 1 {
        lemma_force_lift(branches, remotes, remote_name, verdicts, i - 1, w);
    }
}

/// The force flag is set whenever a successfully reconciled series has any
/// upstream-only patch: there is upstream content with no local counterpart,
/// so a rewriting push is implied.
pub proof fn lemma_force_on_upstream(
    stack: StackView,
    remotes: Seq<RemoteSeriesView>,
    remote_name: Seq<char>,
    verdicts: Seq<u64>,
    k: int,
)
    requires
        0 <= k < spec_stack_series(stack, remotes, remote_name, verdicts).0.len(),
        spec_stack_series(stack, remotes, remote_name, verdicts).0[k] is Ok,
        spec_stack_series(stack, remotes, remote_name, verdicts).0[k]->Ok_0.upstream_patches.len()
            > 0,
    ensures
        spec_stack_series(stack, remotes, remote_name, verdicts).1,
{
    let n = stack.branches.len() as int;
    lemma_series_walk_len(stack.branches, remotes, remote_name, verdicts, n);
    let walk = spec_series_walk(stack.branches, remotes, remote_name, verdicts, n);
    let w = n - 1 - k;
    assert(spec_stack_series(stack, remotes, remote_name, verdicts).0[k] == walk[w]);
    lemma_series_walk_index(stack.branches, remotes, remote_name, verdicts, n, w);
    lemma_force_lift(stack.branches, remotes, remote_name, verdicts, n, w);
}

/// What every entry of the local walk stems from: some local commit, whose
/// remote counterpart the entry records.
proof fn lemma_local_walk_origin(
    locals: Seq<Commit>,
    remotes: Seq<Commit>,
    verdicts: Seq<u64>,
    i: int,
    latch: bool,
    k: int,
)
    requires
        0 <= k < local_walk(locals, remotes, verdicts, i, latch).len(),
    ensures
        exists|j: int|
            0 <= j < locals.len() && local_walk(locals, remotes, verdicts, i, latch)[k].id
                == locals[j].id && local_walk(locals, remotes, verdicts, i, latch)[k]
                .remote_commit_id == spec_remote_counterpart(locals[j], remotes),
    decreases i,
{
    if i <= 0 || i > locals.len() {
    } else {
        let c = locals[i - 1];
        let integrated = latch || verdicts.contains(c.id);
        let whole = local_walk(locals, remotes, verdicts, i, latch);
        let rest = local_walk(locals, remotes, verdicts, i - 1, integrated);
        if k == 0 {
            assert(whole[0] == mk_local_patch(c, remotes, integrated));
            assert(whole[0].id == locals[i - 1].id && whole[0].remote_commit_id
                == spec_remote_counterpart(locals[i - 1], remotes));
        } else {
            lemma_local_walk_origin(locals, remotes, verdicts, i - 1, integrated, k - 1);
            assert(whole[k] == rest[k - 1]);
        }
    }
}

/// The force flag is set whenever a successfully reconciled series records,
/// for one of its local patches, a remote counterpart id that differs from
/// the patch's own id: history has diverged.
pub proof fn lemma_force_on_divergence(
    stack: StackView,
    remotes: Seq<RemoteSeriesView>,
    remote_name: Seq<char>,
    verdicts: Seq<u64>,
    k: int,
    m: int,
)
    requires
        0 <= k < spec_stack_series(stack, remotes, remote_name, verdicts).0.len(),
        spec_stack_series(stack, remotes, remote_name, verdicts).0[k] is Ok,
        0 <= m < spec_stack_series(stack, remotes, remote_name, verdicts).0[k]->Ok_0.patches.len(),
        spec_stack_series(stack, remotes, remote_name, verdicts).0[k]->Ok_0.patches[m]
            .remote_commit_id is Some,
        spec_stack_series(stack, remotes, remote_name, verdicts).0[k]->Ok_0.patches[m]
            .remote_commit_id->0 != spec_stack_series(stack, remotes, remote_name, verdicts)
            .0[k]->Ok_0.patches[m].id,
    ensures
        spec_stack_series(stack, remotes, remote_name, verdicts).1,
{
    let n = stack.branches.len() as int;
    lemma_series_walk_len(stack.branches, remotes, remote_name, verdicts, n);
    let walk = spec_series_walk(stack.branches, remotes, remote_name, verdicts, n);
    let w = n - 1 - k;
    assert(spec_stack_series(stack, remotes, remote_name, verdicts).0[k] == walk[w]);
    lemma_series_walk_index(stack.branches, remotes, remote_name, verdicts, n, w);
    let s = stack.branches[w];
    let rem = remotes[w];
    let patches = spec_api_series(
        s,
        rem,
        remote_name,
        verdicts,
        spec_series_walk(stack.branches, remotes, remote_name, verdicts, w),
    ).patches;
    let walked = walked_local_patches(s.local_commits, rem.commits, verdicts);
    assert(patches[m] == walked[walked.len() - 1 - m]);
    lemma_dedup_elements(
        local_walk(s.local_commits, rem.commits, verdicts, s.local_commits.len() as int, false),
        walked.len() - 1 - m,
    );
    let raw = local_walk(
        s.local_commits,
        rem.commits,
        verdicts,
        s.local_commits.len() as int,
        false,
    );
    let rk = choose|j: int| 0 <= j < raw.len() && walked[walked.len() - 1 - m] == raw[j];
    lemma_local_walk_origin(
        s.local_commits,
        rem.commits,
        verdicts,
        s.local_commits.len() as int,
        false,
        rk,
    );
    let j = choose|j: int|
        0 <= j < s.local_commits.len() && raw[rk].id == s.local_commits[j].id && raw[rk]
            .remote_commit_id == spec_remote_counterpart(s.local_commits[j], rem.commits);
    assert(commit_forces(s.local_commits[j], rem.commits));
    lemma_force_lift(stack.branches, remotes, remote_name, verdicts, n, w);
}

/// The length of the local walk is the number of commits walked.
proof fn lemma_local_walk_len(
    locals: Seq<Commit>,
    remotes: Seq<Commit>,
    verdicts: Seq<u64>,
    i: int,
    latch: bool,
)
    requires
        0 <= i <= locals.len(),
    ensures
        local_walk(locals, remotes, verdicts, i, latch).len() == i,
    decreases i,
{
    if i > 0 {
        let c = locals[i - 1];
        lemma_local_walk_len(locals, remotes, verdicts, i - 1, latch || verdicts.contains(c.id));
    }
}

/// What the local walk holds for the commit at `j`: the walk emits newest
/// first, so that commit's entry stands at the mirrored position.
proof fn lemma_local_walk_index(
    locals: Seq<Commit>,
    remotes: Seq<Commit>,
    verdicts: Seq<u64>,
    i: int,
    latch: bool,
    j: int,
)
    requires
        0 <= j < i <= locals.len(),
    ensures
        local_walk(locals, remotes, verdicts, i, latch)[i - 1 - j].id == locals[j].id,
        local_walk(locals, remotes, verdicts, i, latch)[i - 1 - j].remote_commit_id
            == spec_remote_counterpart(locals[j], remotes),
    decreases i,
{
    let c = locals[i - 1];
    let integrated = latch || verdicts.contains(c.id);
    lemma_local_walk_len(locals, remotes, verdicts, i - 1, integrated);
    if j < i - 1 {
        lemma_local_walk_index(locals, remotes, verdicts, i - 1, integrated, j);
    }
}

/// On a sequence whose entries carry pairwise-distinct ids, deduplication
/// drops nothing.
proof fn lemma_dedup_identity(ps: Seq<Patch>)
    requires
        forall|a: int, b: int| 0 <= a < b < ps.len() ==> ps[a].id != ps[b].id,
    ensures
        dedup_by_id(ps) == ps,
    decreases ps.len(),
{
    if ps.len() > 0 {
        let t = ps.drop_last();
        assert(forall|a: int, b: int| 0 <= a < b < t.len() ==> t[a].id != t[b].id);
        lemma_dedup_identity(t);
        assert(!crate::reconcile::has_patch_id(t, ps.last().id)) by {
            if crate::reconcile::has_patch_id(t, ps.last().id) {
                let j = choose|j: int| 0 <= j < t.len() && t[j].id == ps.last().id;
                assert(ps[j].id == ps[ps.len() - 1].id);
            }
        }
        assert(dedup_by_id(ps) =~= ps);
    }
}

/// On a series whose local commits carry pairwise-distinct ids, the series'
/// force verdict is exact: it holds if and only if some emitted local patch
/// records a counterpart id other than its own, or an upstream-only patch
/// exists. (With duplicate ids the verdict can exceed what the emitted
/// patches show, since deduplication may drop the diverged entry.)
pub proof fn lemma_series_force_exact(
    s: SeriesView,
    rem: RemoteSeriesView,
    remote_name: Seq<char>,
    verdicts: Seq<u64>,
    prior: Seq<Result<PatchSeriesView, StackError>>,
)
    requires
        forall|a: int, b: int|
            0 <= a < b < s.local_commits.len() ==> s.local_commits[a].id != s.local_commits[b].id,
    ensures
        spec_series_force(s, rem, verdicts, prior) <==> ((exists|m: int|
            0 <= m < spec_api_series(s, rem, remote_name, verdicts, prior).patches.len()
                && spec_api_series(s, rem, remote_name, verdicts, prior).patches[m]
                .remote_commit_id is Some && spec_api_series(
                s,
                rem,
                remote_name,
                verdicts,
                prior,
            ).patches[m].remote_commit_id->0 != spec_api_series(
                s,
                rem,
                remote_name,
                verdicts,
                prior,
            ).patches[m].id) || spec_api_series(
            s,
            rem,
            remote_name,
            verdicts,
            prior,
        ).upstream_patches.len() > 0),
{
    let locals = s.local_commits;
    let n = locals.len() as int;
    let raw = local_walk(locals, rem.commits, verdicts, n, false);
    let patches = spec_api_series(s, rem, remote_name, verdicts, prior).patches;
    lemma_local_walk_len(locals, rem.commits, verdicts, n, false);
    assert forall|a: int, b: int| 0 <= a < b < raw.len() implies raw[a].id != raw[b].id by {
        lemma_local_walk_index(locals, rem.commits, verdicts, n, false, n - 1 - a);
        lemma_local_walk_index(locals, rem.commits, verdicts, n, false, n - 1 - b);
    }
    lemma_dedup_identity(raw);
    assert(patches == raw.reverse());
    assert forall|m: int| 0 <= m < n implies patches[m].id == locals[m].id && patches[m]
        .remote_commit_id == spec_remote_counterpart(locals[m], rem.commits) by {
        lemma_local_walk_index(locals, rem.commits, verdicts, n, false, m);
        assert(patches[m] == raw[n - 1 - m]);
    }
    if crate::reconcile::spec_force_local(locals, rem.commits) {
        let j = choose|j: int| 0 <= j < n && commit_forces(locals[j], rem.commits);
        assert(patches[j].remote_commit_id is Some && patches[j].remote_commit_id->0
            != patches[j].id);
    }
    if exists|m: int|
        0 <= m < patches.len() && patches[m].remote_commit_id is Some && patches[m]
            .remote_commit_id->0 != patches[m].id {
        let m = choose|m: int|
            0 <= m < patches.len() && patches[m].remote_commit_id is Some && patches[m]
                .remote_commit_id->0 != patches[m].id;
        assert(commit_forces(locals[m], rem.commits));
    }
}

/// No two remote commits anywhere in the snapshot share an id: each series'
/// fetched counterpart set covers its own commits, and ids are content
/// hashes.
pub open spec fn distinct_remote_ids(remotes: Seq<RemoteSeriesView>) -> bool {
    forall|a: int, b: int, x: int, y: int|
        0 <= a < remotes.len() && 0 <= b < remotes.len() && 0 <= x < remotes[a].commits.len() && 0
            <= y < remotes[b].commits.len() && (a != b || x != y)
            ==> remotes[a].commits[x].id != remotes[b].commits[y].id
}

/// Every entry of the upstream walk carries the id of some remote commit of
/// the series.
proof fn lemma_upstream_walk_ids(
    remote_commits: Seq<Commit>,
    patches: Seq<Patch>,
    prior: Seq<Result<PatchSeriesView, StackError>>,
    verdicts: Seq<u64>,
    i: int,
    k: int,
)
    requires
        0 <= k < upstream_walk(remote_commits, patches, prior, verdicts, i).len(),
    ensures
        exists|j: int|
            0 <= j < remote_commits.len() && upstream_walk(
                remote_commits,
                patches,
                prior,
                verdicts,
                i,
            )[k].id == remote_commits[j].id,
    decreases i,
{
    if i <= 0 || i > remote_commits.len() {
    } else {
        let c = remote_commits[i - 1];
        let whole = upstream_walk(remote_commits, patches, prior, verdicts, i);
        let rest = upstream_walk(remote_commits, patches, prior, verdicts, i - 1);
        if claimed_by_patches(patches, c.id) || crate::reconcile::prior_claims(prior, c.id) {
            lemma_upstream_walk_ids(remote_commits, patches, prior, verdicts, i - 1, k);
        } else {
            if k == 0 {
                assert(whole[0] == mk_upstream_patch(c, prior, verdicts));
                assert(whole[0].id == remote_commits[i - 1].id);
            } else {
                lemma_upstream_walk_ids(remote_commits, patches, prior, verdicts, i - 1, k - 1);
                assert(whole[k] == rest[k - 1]);
            }
        }
    }
}

/// Every upstream patch of a reconciled series carries the id of some remote
/// commit of that series.
proof fn lemma_upstream_ids_of_series(
    s: SeriesView,
    rem: RemoteSeriesView,
    remote_name: Seq<char>,
    verdicts: Seq<u64>,
    prior: Seq<Result<PatchSeriesView, StackError>>,
    m: int,
)
    requires
        0 <= m < spec_api_series(s, rem, remote_name, verdicts, prior).upstream_patches.len(),
    ensures
        exists|j: int|
            0 <= j < rem.commits.len() && spec_api_series(
                s,
                rem,
                remote_name,
                verdicts,
                prior,
            ).upstream_patches[m].id == rem.commits[j].id,
{
    let walked = walked_local_patches(s.local_commits, rem.commits, verdicts);
    let raw = upstream_walk(rem.commits, walked, prior, verdicts, rem.commits.len() as int);
    let ups = spec_upstream_patches(rem.commits, walked, prior, verdicts);
    lemma_dedup_elements(raw.reverse(), m);
    let q = choose|q: int| 0 <= q < raw.reverse().len() && ups[m] == raw.reverse()[q];
    assert(raw.reverse()[q] == raw[raw.len() - 1 - q]);
    lemma_upstream_walk_ids(
        rem.commits,
        walked,
        prior,
        verdicts,
        rem.commits.len() as int,
        raw.len() - 1 - q,
    );
}

/// No commit id appears in more than one series' upstream patches in a single
/// reconciliation, provided no two remote commits of the snapshot share an
/// id. (When the same remote-only commit is fetched under two different
/// series, both series report it: the bookkeeping only rules out double
/// claims among local patches.)
pub proof fn lemma_upstream_disjoint(
    stack: StackView,
    remotes: Seq<RemoteSeriesView>,
    remote_name: Seq<char>,
    verdicts: Seq<u64>,
    k1: int,
    k2: int,
    m1: int,
    m2: int,
)
    requires
        distinct_remote_ids(remotes),
        k1 != k2,
        0 <= k1 < spec_stack_series(stack, remotes, remote_name, verdicts).0.len(),
        0 <= k2 < spec_stack_series(stack, remotes, remote_name, verdicts).0.len(),
        spec_stack_series(stack, remotes, remote_name, verdicts).0[k1] is Ok,
        spec_stack_series(stack, remotes, remote_name, verdicts).0[k2] is Ok,
        0 <= m1 < spec_stack_series(stack, remotes, remote_name, verdicts).0[k1]->Ok_0
            .upstream_patches.len(),
        0 <= m2 < spec_stack_series(stack, remotes, remote_name, verdicts).0[k2]->Ok_0
            .upstream_patches.len(),
    ensures
        spec_stack_series(stack, remotes, remote_name, verdicts).0[k1]->Ok_0.upstream_patches[m1].id
            != spec_stack_series(stack, remotes, remote_name, verdicts).0[k2]->Ok_0
            .upstream_patches[m2].id,
{
    let n = stack.branches.len() as int;
    lemma_series_walk_len(stack.branches, remotes, remote_name, verdicts, n);
    let walk = spec_series_walk(stack.branches, remotes, remote_name, verdicts, n);
    let w1 = n - 1 - k1;
    let w2 = n - 1 - k2;
    assert(spec_stack_series(stack, remotes, remote_name, verdicts).0[k1] == walk[w1]);
    assert(spec_stack_series(stack, remotes, remote_name, verdicts).0[k2] == walk[w2]);
    lemma_series_walk_index(stack.branches, remotes, remote_name, verdicts, n, w1);
    lemma_series_walk_index(stack.branches, remotes, remote_name, verdicts, n, w2);
    lemma_upstream_ids_of_series(
        stack.branches[w1],
        remotes[w1],
        remote_name,
        verdicts,
        spec_series_walk(stack.branches, remotes, remote_name, verdicts, w1),
        m1,
    );
    lemma_upstream_ids_of_series(
        stack.branches[w2],
        remotes[w2],
        remote_name,
        verdicts,
        spec_series_walk(stack.branches, remotes, remote_name, verdicts, w2),
        m2,
    );
}

} // verus!
