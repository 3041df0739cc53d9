//! Reconciliation of a stack's series against the remote's fetched state.
//!
//! For each series this builds the user-facing view: the local patches with
//! their integration flags and remote counterparts, the upstream-only
//! patches, and the stack-wide flag that a non-fast-forward push is required.
//! The remote commits were fetched by the caller; the integration verdicts
//! come from an [`crate::integration::IntegrationChecker`].

use vstd::prelude::*;

use crate::integration::IntegrationChecker;
use crate::stack::{Commit, Series, SeriesView, Stack, StackError, opt_str_view};
use vstd::string::StringExecFns;

verus! {

/// One entry of a reconciled series: a local patch or an upstream-only patch.
#[derive(Clone, Copy, Debug, PartialEq, Eq)]
pub struct Patch {
    /// Content id of the commit this entry stands for.
    pub id: u64,
    /// True when the commit's changes are already present upstream.
    pub is_integrated: bool,
    /// True for an upstream-only entry.
    pub is_remote: bool,
    /// True when the very same commit id is present on both sides.
    pub is_local_and_remote: bool,
    /// Id of the remote commit with diff-equivalent patch content, when one
    /// exists.
    pub copied_from_remote_id: Option<u64>,
    /// Id of the remote counterpart commit, when one was matched and the
    /// commit itself is not on the remote.
    pub remote_commit_id: Option<u64>,
}

/// The fetched remote state of one series.
#[derive(Debug, PartialEq, Eq)]
pub struct RemoteSeries {
    /// True when the series' head has been pushed to the remote.
    pub pushed: bool,
    /// The series' counterpart commits already on the remote, oldest first.
    pub commits: Vec<Commit>,
}

/// Ghost image of a [`RemoteSeries`].
#[verifier::ext_equal]
pub ghost struct RemoteSeriesView {
    pub pushed: bool,
    pub commits: Seq<Commit>,
}

impl View for RemoteSeries {
    type V = RemoteSeriesView;

    open spec fn view(&self) -> RemoteSeriesView {
        RemoteSeriesView { pushed: self.pushed, commits: self.commits@ }
    }
}

/// The reconciled, user-facing view of one series.
#[derive(Debug, PartialEq, Eq)]
pub struct PatchSeries {
    /// Name of the series.
    pub name: String,
    /// Description of the series.
    pub description: Option<String>,
    /// The canonical remote reference, present only when the series' head
    /// has actually been pushed.
    pub upstream_reference: Option<String>,
    /// The local patches, oldest first.
    pub patches: Vec<Patch>,
    /// The upstream-only patches, oldest first.
    pub upstream_patches: Vec<Patch>,
    /// Forge pull-request number.
    pub pr_number: Option<usize>,
    /// True once the series is fully merged upstream.
    pub archived: bool,
    /// Forge review identifier.
    pub review_id: Option<String>,
}

/// Ghost image of a [`PatchSeries`].
#[verifier::ext_equal]
pub ghost struct PatchSeriesView {
    pub name: Seq<char>,
    pub description: Option<Seq<char>>,
    pub upstream_reference: Option<Seq<char>>,
    pub patches: Seq<Patch>,
    pub upstream_patches: Seq<Patch>,
    pub pr_number: Option<usize>,
    pub archived: bool,
    pub review_id: Option<Seq<char>>,
}

impl View for PatchSeries {
    type V = PatchSeriesView;

    open spec fn view(&self) -> PatchSeriesView {
        PatchSeriesView {
            name: self.name@,
            description: opt_str_view(self.description),
            upstream_reference: opt_str_view(self.upstream_reference),
            patches: self.patches@,
            upstream_patches: self.upstream_patches@,
            pr_number: self.pr_number,
            archived: self.archived,
            review_id: opt_str_view(self.review_id),
        }
    }
}

/// Ghost image of one per-series reconciliation outcome.
pub open spec fn result_view(r: Result<PatchSeries, StackError>) -> Result<
    PatchSeriesView,
    StackError,
> {
    match r {
        Ok(p) => Ok(p@),
        Err(e) => Err(e),
    }
}

/// Ghost image of a list of per-series reconciliation outcomes.
pub open spec fn results_view(rs: Seq<Result<PatchSeries, StackError>>) -> Seq<
    Result<PatchSeriesView, StackError>,
> {
    rs.map_values(|r: Result<PatchSeries, StackError>| result_view(r))
}

/// The canonical remote reference name for a series.
pub open spec fn spec_remote_reference(remote: Seq<char>, name: Seq<char>) -> Seq<char> {
    "refs/remotes/"@ + remote + "/"@ + name
}

/// Builds the canonical remote reference name for a series.
pub fn remote_reference(remote: &String, name: &String) -> (r: String)
    ensures
        r@ == spec_remote_reference(remote@, name@),
{
    let mut r: String = "refs/remotes/".to_owned();
    r.append(remote.as_str());
    r.append("/");
    r.append(name.as_str());
    proof {
        assert(r@ =~= spec_remote_reference(remote@, name@));
    }
    r
}

/// True when some remote commit carries this very id.
pub open spec fn has_commit_id(cs: Seq<Commit>, id: u64) -> bool {
    exists|j: int| 0 <= j < cs.len() && cs[j].id == id
}

/// True exactly when some commit of `cs` has id `id`.
pub fn contains_id(cs: &Vec<Commit>, id: u64) -> (r: bool)
    ensures
        r == has_commit_id(cs@, id),
{
    let mut i: usize = 0;
    while i < cs.len()
        invariant
            0 <= i <= cs@.len(),
            forall|j: int| 0 <= j < i ==> cs@[j].id != id,
        decreases cs@.len() - i,
    {
        if cs[i].id == id {
            return true;
        }
        i = i + 1;
    }
    false
}

/// The first remote commit sharing the local commit's change identity,
/// scanning from `i` on.
pub open spec fn first_change_match_from(c: Commit, remotes: Seq<Commit>, i: int) -> Option<u64>
    decreases remotes.len() - i,
{
    if i < 0 || i >= remotes.len() {
        None
    } else if c.change_id is Some && remotes[i].change_id == c.change_id {
        Some(remotes[i].id)
    } else {
        first_change_match_from(c, remotes, i + 1)
    }
}

/// The first remote commit sharing the local commit's change identity.
pub open spec fn first_change_match(c: Commit, remotes: Seq<Commit>) -> Option<u64> {
    first_change_match_from(c, remotes, 0)
}

/// Finds the first remote commit sharing `c`'s change identity.
pub fn find_change_match(c: Commit, remotes: &Vec<Commit>) -> (r: Option<u64>)
    ensures
        r == first_change_match(c, remotes@),
{
    let mut i: usize = 0;
    while i < remotes.len()
        invariant
            0 <= i <= remotes@.len(),
            first_change_match(c, remotes@) == first_change_match_from(c, remotes@, i as int),
        decreases remotes@.len() - i,
    {
        if c.change_id.is_some() && remotes[i].change_id == c.change_id {
            return Some(remotes[i].id);
        }
        i = i + 1;
    }
    None
}

/// The last remote commit among the first `i` whose patch content equals the
/// local commit's.
pub open spec fn last_data_match_upto(c: Commit, remotes: Seq<Commit>, i: int) -> Option<u64>
    decreases i,
{
    if i <= 0 || i > remotes.len() {
        None
    } else if c.data is Some && remotes[i - 1].data == c.data {
        Some(remotes[i - 1].id)
    } else {
        last_data_match_upto(c, remotes, i - 1)
    }
}

/// The last remote commit whose patch content equals the local commit's.
pub open spec fn last_data_match(c: Commit, remotes: Seq<Commit>) -> Option<u64> {
    last_data_match_upto(c, remotes, remotes.len() as int)
}

/// Finds the last remote commit whose patch content equals `c`'s.
pub fn find_copied(c: Commit, remotes: &Vec<Commit>) -> (r: Option<u64>)
    ensures
        r == last_data_match(c, remotes@),
{
    let mut i: usize = remotes.len();
    while i > 0
        invariant
            0 <= i <= remotes@.len(),
            last_data_match(c, remotes@) == last_data_match_upto(c, remotes@, i as int),
        decreases i,
    {
        i = i - 1;
        if c.data.is_some() && remotes[i].data == c.data {
            return Some(remotes[i].id);
        }
    }
    None
}

/// The patches with every entry whose id occurred before dropped: only the
/// first entry of each id survives. Duplicates are not expected, but must
/// never reach the caller.
pub open spec fn dedup_by_id(ps: Seq<Patch>) -> Seq<Patch>
    decreases ps.len(),
{
    if ps.len() == 0 {
        Seq::empty()
    } else if has_patch_id(ps.drop_last(), ps.last().id) {
        dedup_by_id(ps.drop_last())
    } else {
        dedup_by_id(ps.drop_last()).push(ps.last())
    }
}

/// Drops every entry whose id already occurred, keeping the first.
pub fn dedup_patches(v: &Vec<Patch>) -> (r: Vec<Patch>)
    ensures
        r@ == dedup_by_id(v@),
{
    let mut r: Vec<Patch> = Vec::new();
    let mut i: usize = 0;
    while i < v.len()
        invariant
            0 <= i <= v@.len(),
            r@ == dedup_by_id(v@.take(i as int)),
        decreases v@.len() - i,
    {
        let mut duplicate = false;
        let mut j: usize = 0;
        while j < i
            invariant
                0 <= j <= i < v@.len(),
                duplicate == exists|k: int| 0 <= k < j && v@[k].id == v@[i as int].id,
            decreases i - j,
        {
            if v[j].id == v[i].id {
                duplicate = true;
            }
            j = j + 1;
        }
        proof {
            assert(v@.take(i + 1).drop_last() =~= v@.take(i as int));
            assert(v@.take(i + 1).last() == v@[i as int]);
            assert(duplicate == has_patch_id(v@.take(i as int), v@[i as int].id)) by {
                if duplicate {
                    let k = choose|k: int| 0 <= k < i && v@[k].id == v@[i as int].id;
                    assert(v@.take(i as int)[k].id == v@[i as int].id);
                }
                if has_patch_id(v@.take(i as int), v@[i as int].id) {
                    let k = choose|k: int|
                        0 <= k < i && v@.take(i as int)[k].id == v@[i as int].id;
                    assert(v@[k].id == v@[i as int].id);
                }
            }
        }
        if !duplicate {
            r.push(v[i]);
        }
        i = i + 1;
    }
    proof {
        assert(v@.take(v@.len() as int) =~= v@);
    }
    r
}

/// Reverses the order of the patches.
pub fn reverse_patches(v: &Vec<Patch>) -> (r: Vec<Patch>)
    ensures
        r@ == v@.reverse(),
{
    let mut r: Vec<Patch> = Vec::new();
    let mut i: usize = v.len();
    while i > 0
        invariant
            0 <= i <= v@.len(),
            r@.len() == v@.len() - i,
            forall|j: int| 0 <= j < r@.len() ==> r@[j] == v@[v@.len() - 1 - j],
        decreases i,
    {
        i = i - 1;
        r.push(v[i]);
    }
    proof {
        assert(r@ =~= v@.reverse());
    }
    r
}

/// True when the series' own reconciled local patches already represent the
/// commit, by id or by recorded counterpart id.
pub open spec fn claimed_by_patches(ps: Seq<Patch>, id: u64) -> bool {
    exists|k: int|
        0 <= k < ps.len() && (ps[k].id == id || ps[k].remote_commit_id == Some(id))
}

/// True exactly when `claimed_by_patches` holds of `ps@`.
pub fn patches_claim(ps: &Vec<Patch>, id: u64) -> (r: bool)
    ensures
        r == claimed_by_patches(ps@, id),
{
    let mut i: usize = 0;
    while i < ps.len()
        invariant
            0 <= i <= ps@.len(),
            forall|k: int|
                0 <= k < i ==> !(ps@[k].id == id || ps@[k].remote_commit_id == Some(id)),
        decreases ps@.len() - i,
    {
        if ps[i].id == id || ps[i].remote_commit_id == Some(id) {
            return true;
        }
        i = i + 1;
    }
    false
}

/// True when a series reconciled earlier in the walk, and not archived,
/// already claims the commit among its local patches.
pub open spec fn prior_claims(prior: Seq<Result<PatchSeriesView, StackError>>, id: u64) -> bool {
    exists|k: int|
        0 <= k < prior.len() && prior[k] is Ok && !prior[k]->Ok_0.archived
            && claimed_by_patches(prior[k]->Ok_0.patches, id)
}

/// True exactly when `prior_claims` holds of the prior outcomes.
pub fn priors_claim(prior: &Vec<Result<PatchSeries, StackError>>, id: u64) -> (r: bool)
    ensures
        r == prior_claims(results_view(prior@), id),
{
    let mut i: usize = 0;
    while i < prior.len()
        invariant
            0 <= i <= prior@.len(),
            forall|k: int|
                0 <= k < i ==> !(#[trigger] results_view(prior@)[k] is Ok
                    && !results_view(prior@)[k]->Ok_0.archived
                    && claimed_by_patches(results_view(prior@)[k]->Ok_0.patches, id)),
        decreases prior@.len() - i,
    {
        match &prior[i] {
            Ok(series) => {
                if !series.archived && patches_claim(&series.patches, id) {
                    proof {
                        assert(results_view(prior@)[i as int] == result_view(prior@[i as int]));
                        assert(prior_claims(results_view(prior@), id));
                    }
                    return true;
                }
            },
            Err(_) => {},
        }
        i = i + 1;
    }
    false
}

/// True when some entry of `ps` carries this very id.
pub open spec fn has_patch_id(ps: Seq<Patch>, id: u64) -> bool {
    exists|m: int| 0 <= m < ps.len() && ps[m].id == id
}

/// True when an archived series reconciled earlier in the walk already
/// claimed the commit as one of its upstream patches; integration then
/// propagates downward through the stack.
pub open spec fn prior_archived_integrated(
    prior: Seq<Result<PatchSeriesView, StackError>>,
    id: u64,
) -> bool {
    exists|k: int|
        0 <= k < prior.len() && prior[k] is Ok && prior[k]->Ok_0.archived && has_patch_id(
            prior[k]->Ok_0.upstream_patches,
            id,
        )
}

/// True exactly when `prior_archived_integrated` holds of the prior outcomes.
pub fn priors_archived_integrated(prior: &Vec<Result<PatchSeries, StackError>>, id: u64) -> (r:
    bool)
    ensures
        r == prior_archived_integrated(results_view(prior@), id),
{
    let mut i: usize = 0;
    while i < prior.len()
        invariant
            0 <= i <= prior@.len(),
            forall|k: int|
                0 <= k < i ==> !(#[trigger] results_view(prior@)[k] is Ok
                    && results_view(prior@)[k]->Ok_0.archived
                    && has_patch_id(results_view(prior@)[k]->Ok_0.upstream_patches, id)),
        decreases prior@.len() - i,
    {
        match &prior[i] {
            Ok(series) => {
                if series.archived {
                    let mut m: usize = 0;
                    while m < series.upstream_patches.len()
                        invariant
                            0 <= m <= series.upstream_patches@.len(),
                            forall|n: int|
                                0 <= n < m ==> series.upstream_patches@[n].id != id,
                        decreases series.upstream_patches@.len() - m,
                    {
                        if series.upstream_patches[m].id == id {
                            proof {
                                assert(results_view(prior@)[i as int] == result_view(
                                    prior@[i as int],
                                ));
                                assert(has_patch_id(series.upstream_patches@, id));
                                assert(prior_archived_integrated(results_view(prior@), id));
                            }
                            return true;
                        }
                        m = m + 1;
                    }
                }
            },
            Err(_) => {},
        }
        i = i + 1;
    }
    false
}

/// The remote counterpart of a local commit, in priority order: none when the
/// commit id itself is on the remote; else the first remote commit sharing
/// the change identity; else the last remote commit with equal patch content.
pub open spec fn spec_remote_counterpart(c: Commit, remotes: Seq<Commit>) -> Option<u64> {
    if has_commit_id(remotes, c.id) {
        None
    } else {
        match first_change_match(c, remotes) {
            Some(id) => Some(id),
            None => last_data_match(c, remotes),
        }
    }
}

/// The reconciled entry for one local commit.
pub open spec fn mk_local_patch(c: Commit, remotes: Seq<Commit>, integrated: bool) -> Patch {
    Patch {
        id: c.id,
        is_integrated: integrated,
        is_remote: false,
        is_local_and_remote: has_commit_id(remotes, c.id),
        copied_from_remote_id: last_data_match(c, remotes),
        remote_commit_id: spec_remote_counterpart(c, remotes),
    }
}

/// The walk of the first `i` local commits, newest to oldest, emitting newest
/// first. `latch` carries the monotonic integration flag: once a commit is
/// found integrated, every older commit of the walk is integrated too.
pub open spec fn local_walk(
    locals: Seq<Commit>,
    remotes: Seq<Commit>,
    verdicts: Seq<u64>,
    i: int,
    latch: bool,
) -> Seq<Patch>
    decreases i,
{
    if i <= 0 || i > locals.len() {
        Seq::empty()
    } else {
        let c = locals[i - 1];
        let integrated = latch || verdicts.contains(c.id);
        seq![mk_local_patch(c, remotes, integrated)] + local_walk(
            locals,
            remotes,
            verdicts,
            i - 1,
            integrated,
        )
    }
}

/// The series' local patches as emitted by the walk, deduplicated, still
/// newest first.
pub open spec fn walked_local_patches(
    locals: Seq<Commit>,
    remotes: Seq<Commit>,
    verdicts: Seq<u64>,
) -> Seq<Patch> {
    dedup_by_id(local_walk(locals, remotes, verdicts, locals.len() as int, false))
}

/// True when the local commit's matched counterpart id differs from its own
/// id: history has diverged and a plain fast-forward push is impossible.
pub open spec fn commit_forces(c: Commit, remotes: Seq<Commit>) -> bool {
    match spec_remote_counterpart(c, remotes) {
        Some(id) => id != c.id,
        None => false,
    }
}

/// True when any local commit of the series forces a non-fast-forward push.
pub open spec fn spec_force_local(locals: Seq<Commit>, remotes: Seq<Commit>) -> bool {
    exists|j: int| 0 <= j < locals.len() && commit_forces(locals[j], remotes)
}

/// The entry for one upstream-only commit. It counts as integrated when the
/// checker says so, or when an archived series reconciled earlier already
/// claimed it as integrated.
pub open spec fn mk_upstream_patch(
    c: Commit,
    prior: Seq<Result<PatchSeriesView, StackError>>,
    verdicts: Seq<u64>,
) -> Patch {
    Patch {
        id: c.id,
        is_integrated: prior_archived_integrated(prior, c.id) || verdicts.contains(c.id),
        is_remote: true,
        is_local_and_remote: false,
        copied_from_remote_id: None,
        remote_commit_id: None,
    }
}

/// The walk of the first `i` remote commits, newest to oldest, emitting
/// newest first. A commit already represented among this series' local
/// patches, or claimed by an earlier, non-archived series, is skipped.
pub open spec fn upstream_walk(
    remotes: Seq<Commit>,
    patches: Seq<Patch>,
    prior: Seq<Result<PatchSeriesView, StackError>>,
    verdicts: Seq<u64>,
    i: int,
) -> Seq<Patch>
    decreases i,
{
    if i <= 0 || i > remotes.len() {
        Seq::empty()
    } else {
        let c = remotes[i - 1];
        let rest = upstream_walk(remotes, patches, prior, verdicts, i - 1);
        if claimed_by_patches(patches, c.id) || prior_claims(prior, c.id) {
            rest
        } else {
            seq![mk_upstream_patch(c, prior, verdicts)] + rest
        }
    }
}

/// The series' upstream-only patches, oldest first, deduplicated.
pub open spec fn spec_upstream_patches(
    remotes: Seq<Commit>,
    patches: Seq<Patch>,
    prior: Seq<Result<PatchSeriesView, StackError>>,
    verdicts: Seq<u64>,
) -> Seq<Patch> {
    dedup_by_id(upstream_walk(remotes, patches, prior, verdicts, remotes.len() as int).reverse())
}

/// The reconciled view of one series: local patches oldest first, upstream
/// patches oldest first, and the series' metadata carried over.
pub open spec fn spec_api_series(
    s: SeriesView,
    rem: RemoteSeriesView,
    remote_name: Seq<char>,
    verdicts: Seq<u64>,
    prior: Seq<Result<PatchSeriesView, StackError>>,
) -> PatchSeriesView {
    let walked = walked_local_patches(s.local_commits, rem.commits, verdicts);
    PatchSeriesView {
        name: s.name,
        description: s.description,
        upstream_reference: if rem.pushed {
            Some(spec_remote_reference(remote_name, s.name))
        } else {
            None
        },
        patches: walked.reverse(),
        upstream_patches: spec_upstream_patches(rem.commits, walked, prior, verdicts),
        pr_number: s.pr_number,
        archived: s.archived,
        review_id: s.review_id,
    }
}

/// True when this series requires a non-fast-forward push: a local commit's
/// counterpart id differs from its own, or upstream-only content exists.
pub open spec fn spec_series_force(
    s: SeriesView,
    rem: RemoteSeriesView,
    verdicts: Seq<u64>,
    prior: Seq<Result<PatchSeriesView, StackError>>,
) -> bool {
    spec_force_local(s.local_commits, rem.commits) || spec_upstream_patches(
        rem.commits,
        walked_local_patches(s.local_commits, rem.commits, verdicts),
        prior,
        verdicts,
    ).len() > 0
}

/// Copies an optional string.
pub fn clone_opt_string(o: &Option<String>) -> (r: Option<String>)
    ensures
        r == *o,
{
    match o {
        Some(s) => Some(s.clone()),
        None => None,
    }
}

/// Builds the reconciled view of one series against its fetched remote state.
///
/// `parent_series` holds the outcomes of the series reconciled earlier in the
/// walk (bottom-most first); failed ones take no part in the bookkeeping. A
/// series whose remote state is missing from the snapshot cannot be
/// reconciled and fails with `ReconciliationError`, leaving its siblings
/// untouched. The second component of the result is the series' force flag.
pub fn stack_branch_to_api_branch(
    stack_branch: &Series,
    remote: Option<&RemoteSeries>,
    remote_name: &String,
    check_commit: &IntegrationChecker,
    parent_series: &Vec<Result<PatchSeries, StackError>>,
) -> (r: Result<(PatchSeries, bool), StackError>)
    ensures
        remote is None ==> r == Err::<(PatchSeries, bool), StackError>(
            StackError::ReconciliationError,
        ),
        remote matches Some(rem) ==> {
            &&& r is Ok
            &&& r->Ok_0.0@ == spec_api_series(
                stack_branch@,
                rem@,
                remote_name@,
                check_commit.integrated@,
                results_view(parent_series@),
            )
            &&& r->Ok_0.1 == spec_series_force(
                stack_branch@,
                rem@,
                check_commit.integrated@,
                results_view(parent_series@),
            )
        },
{
    let rem = match remote {
        Some(rem) => rem,
        None => {
            return Err(StackError::ReconciliationError);
        },
    };
    let ghost verdicts: Seq<u64> = check_commit.integrated@;
    let ghost prior: Seq<Result<PatchSeriesView, StackError>> = results_view(parent_series@);
    let locals = &stack_branch.local_commits;
    let remotes = &rem.commits;

    let upstream_reference = if rem.pushed {
        Some(remote_reference(remote_name, &stack_branch.name))
    } else {
        None
    };

    let mut requires_force = false;
    let mut patches: Vec<Patch> = Vec::new();
    let mut is_integrated = false;
    let mut k: usize = locals.len();
    while k > 0
        invariant
            0 <= k <= locals@.len(),
            local_walk(locals@, remotes@, verdicts, locals@.len() as int, false) == patches@
                + local_walk(locals@, remotes@, verdicts, k as int, is_integrated),
            requires_force == exists|j: int|
                k <= j < locals@.len() && commit_forces(locals@[j], remotes@),
        decreases k,
    {
        let ghost latch0 = is_integrated;
        let ghost patches0 = patches@;
        k = k - 1;
        let c = locals[k];
        if !is_integrated {
            is_integrated = check_commit.is_integrated(c.id);
        }
        let copied_from_remote_id = find_copied(c, remotes);
        let is_local_and_remote = contains_id(remotes, c.id);
        let remote_commit_id = if is_local_and_remote {
            None
        } else {
            match find_change_match(c, remotes) {
                Some(id) => Some(id),
                None => copied_from_remote_id,
            }
        };
        if let Some(counterpart) = remote_commit_id {
            if counterpart != c.id {
                requires_force = true;
            }
        }
        let p = Patch {
            id: c.id,
            is_integrated,
            is_remote: false,
            is_local_and_remote,
            copied_from_remote_id,
            remote_commit_id,
        };
        patches.push(p);
        proof {
            assert(p == mk_local_patch(locals@[k as int], remotes@, is_integrated));
            assert(local_walk(locals@, remotes@, verdicts, k as int + 1, latch0) == seq![p]
                + local_walk(locals@, remotes@, verdicts, k as int, is_integrated));
            assert(patches0 + (seq![p] + local_walk(
                locals@,
                remotes@,
                verdicts,
                k as int,
                is_integrated,
            )) =~= patches@ + local_walk(locals@, remotes@, verdicts, k as int, is_integrated));
            if requires_force {
                assert(exists|j: int|
                    k <= j < locals@.len() && commit_forces(locals@[j], remotes@));
            }
        }
    }
    proof {
        assert(patches@ + local_walk(locals@, remotes@, verdicts, 0, is_integrated) =~= patches@);
    }

    let patches_d = dedup_patches(&patches);

    let mut upstream_raw: Vec<Patch> = Vec::new();
    let mut k: usize = remotes.len();
    while k > 0
        invariant
            0 <= k <= remotes@.len(),
            upstream_walk(remotes@, patches_d@, prior, verdicts, remotes@.len() as int)
                == upstream_raw@ + upstream_walk(remotes@, patches_d@, prior, verdicts, k as int),
        decreases k,
    {
        let ghost raw0 = upstream_raw@;
        k = k - 1;
        let c = remotes[k];
        if !patches_claim(&patches_d, c.id) && !priors_claim(parent_series, c.id) {
            let integrated = if priors_archived_integrated(parent_series, c.id) {
                true
            } else {
                check_commit.is_integrated(c.id)
            };
            let p = Patch {
                id: c.id,
                is_integrated: integrated,
                is_remote: true,
                is_local_and_remote: false,
                copied_from_remote_id: None,
                remote_commit_id: None,
            };
            upstream_raw.push(p);
            proof {
                assert(p == mk_upstream_patch(remotes@[k as int], prior, verdicts));
                assert(raw0 + (seq![p] + upstream_walk(
                    remotes@,
                    patches_d@,
                    prior,
                    verdicts,
                    k as int,
                )) =~= upstream_raw@ + upstream_walk(
                    remotes@,
                    patches_d@,
                    prior,
                    verdicts,
                    k as int,
                ));
            }
        }
    }
    proof {
        assert(upstream_raw@ + upstream_walk(remotes@, patches_d@, prior, verdicts, 0)
            =~= upstream_raw@);
    }
    let upstream_rev = reverse_patches(&upstream_raw);
    let upstream_patches = dedup_patches(&upstream_rev);
    if upstream_patches.len() > 0 {
        requires_force = true;
    }

    let final_patches = reverse_patches(&patches_d);
    let series = PatchSeries {
        name: stack_branch.name.clone(),
        description: clone_opt_string(&stack_branch.description),
        upstream_reference,
        patches: final_patches,
        upstream_patches,
        pr_number: stack_branch.pr_number,
        archived: stack_branch.archived,
        review_id: clone_opt_string(&stack_branch.review_id),
    };
    proof {
        assert(series@ =~= spec_api_series(
            stack_branch@,
            rem@,
            remote_name@,
            verdicts,
            prior,
        ));
    }
    Ok((series, requires_force))
}

/// Ghost image of a list of fetched remote series states.
pub open spec fn remotes_view(rs: Seq<RemoteSeries>) -> Seq<RemoteSeriesView> {
    rs.map_values(|r: RemoteSeries| r@)
}

/// The per-series outcomes after reconciling the first `i` series in walk
/// order, bottom-most first: each entry is built against the outcomes before
/// it, and a series not covered by the remote snapshot fails alone.
pub open spec fn spec_series_walk(
    branches: Seq<SeriesView>,
    remotes: Seq<RemoteSeriesView>,
    remote_name: Seq<char>,
    verdicts: Seq<u64>,
    i: int,
) -> Seq<Result<PatchSeriesView, StackError>>
    decreases i,
{
    if i <= 0 || i > branches.len() {
        Seq::empty()
    } else {
        let prior = spec_series_walk(branches, remotes, remote_name, verdicts, i - 1);
        let entry: Result<PatchSeriesView, StackError> = if i - 1 < remotes.len() {
            Ok(spec_api_series(branches[i - 1], remotes[i - 1], remote_name, verdicts, prior))
        } else {
            Err(StackError::ReconciliationError)
        };
        prior.push(entry)
    }
}

/// True when any of the first `i` series, successfully reconciled, requires a
/// non-fast-forward push.
pub open spec fn spec_stack_force(
    branches: Seq<SeriesView>,
    remotes: Seq<RemoteSeriesView>,
    remote_name: Seq<char>,
    verdicts: Seq<u64>,
    i: int,
) -> bool
    decreases i,
{
    if i <= 0 || i > branches.len() {
        false
    } else {
        spec_stack_force(branches, remotes, remote_name, verdicts, i - 1) || (i - 1 < remotes.len()
            && spec_series_force(
            branches[i - 1],
            remotes[i - 1],
            verdicts,
            spec_series_walk(branches, remotes, remote_name, verdicts, i - 1),
        ))
    }
}

/// The reconciled outcomes of the whole stack, newest series first, and the
/// stack-wide force flag.
pub open spec fn spec_stack_series(
    stack: crate::stack::StackView,
    remotes: Seq<RemoteSeriesView>,
    remote_name: Seq<char>,
    verdicts: Seq<u64>,
) -> (Seq<Result<PatchSeriesView, StackError>>, bool) {
    (
        spec_series_walk(
            stack.branches,
            remotes,
            remote_name,
            verdicts,
            stack.branches.len() as int,
        ).reverse(),
        spec_stack_force(
            stack.branches,
            remotes,
            remote_name,
            verdicts,
            stack.branches.len() as int,
        ),
    )
}

/// Reconciles every series of the stack against the fetched remote snapshot.
///
/// The series are processed bottom-most first, so that commits claimed by
/// lower series inform higher ones; the returned list is reversed so the
/// newest series comes first. `remotes` is aligned with `stack.branches` by
/// index; a series the snapshot does not cover is reported as a per-series
/// error and excluded from the bookkeeping of later series. The second
/// component says whether any series requires a non-fast-forward push.
pub fn stack_series(
    stack: &Stack,
    remotes: &Vec<RemoteSeries>,
    remote_name: &String,
    check_commit: &IntegrationChecker,
) -> (r: (Vec<Result<PatchSeries, StackError>>, bool))
    ensures
        results_view(r.0@) == spec_stack_series(
            stack@,
            remotes_view(remotes@),
            remote_name@,
            check_commit.integrated@,
        ).0,
        r.1 == spec_stack_series(
            stack@,
            remotes_view(remotes@),
            remote_name@,
            check_commit.integrated@,
        ).1,
{
    let ghost bv: Seq<SeriesView> = stack@.branches;
    let ghost rv: Seq<RemoteSeriesView> = remotes_view(remotes@);
    let ghost verdicts: Seq<u64> = check_commit.integrated@;

    let mut requires_force = false;
    let mut api_series: Vec<Result<PatchSeries, StackError>> = Vec::new();
    let mut i: usize = 0;
    while i < stack.branches.len()
        invariant
            0 <= i <= stack.branches@.len(),
            results_view(api_series@) == spec_series_walk(
                bv,
                rv,
                remote_name@,
                verdicts,
                i as int,
            ),
            requires_force == spec_stack_force(bv, rv, remote_name@, verdicts, i as int),
        decreases stack.branches@.len() - i,
    {
        let ghost walk0 = results_view(api_series@);
        let remote_opt = if i < remotes.len() {
            Some(&remotes[i])
        } else {
            None
        };
        let result = stack_branch_to_api_branch(
            &stack.branches[i],
            remote_opt,
            remote_name,
            check_commit,
            &api_series,
        );
        match result {
            Ok((patch_series, force)) => {
                if force {
                    requires_force = true;
                }
                api_series.push(Ok(patch_series));
            },
            Err(e) => {
                api_series.push(Err(e));
            },
        }
        proof {
            assert(results_view(api_series@) =~= walk0.push(
                result_view(api_series@.last()),
            ));
            assert(results_view(api_series@) == spec_series_walk(
                bv,
                rv,
                remote_name@,
                verdicts,
                i + 1,
            ));
        }
        i = i + 1;
    }

    let mut reversed: Vec<Result<PatchSeries, StackError>> = Vec::new();
    let ghost walked = api_series@;
    while api_series.len() > 0
        invariant
            api_series@ == walked.take(api_series@.len() as int),
            reversed@.len() == walked.len() - api_series@.len(),
            forall|j: int|
                0 <= j < reversed@.len() ==> reversed@[j] == walked[walked.len() - 1 - j],
        decreases api_series@.len(),
    {
        proof {
            assert(walked.take(api_series@.len() as int).last() == walked[api_series@.len()
                - 1]);
            assert(walked.take(api_series@.len() as int).drop_last() =~= walked.take(
                api_series@.len() - 1,
            ));
        }
        match api_series.pop() {
            Some(entry) => {
                reversed.push(entry);
            },
            None => {},
        }
    }
    proof {
        assert(results_view(reversed@) =~= results_view(walked).reverse());
    }
    (reversed, requires_force)
}

} // verus!
