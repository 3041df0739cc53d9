//! Push planning: which series of a stack to push, in order, and where to.
//!
//! The caller fetches the target's remote first (so freshly merged series are
//! not pushed again), computes the merge-base between the stack's head and
//! the target tip, and builds one [`IntegrationChecker`] for the whole
//! operation. This module then decides, series by series in stored order,
//! whether a push is due; the caller's transport performs the pushes in the
//! order of the returned plan. Re-running after a partial failure re-evaluates
//! every series, so the operation is safe to retry.

use vstd::prelude::*;

use crate::integration::IntegrationChecker;
use crate::reconcile::{remote_reference, spec_remote_reference};
use crate::stack::{opt_str_view, Stack, StackError, StackView};

verus! {

/// What a series' push needs: its local head and the canonical remote
/// reference to push it to.
#[derive(Debug, PartialEq, Eq)]
pub struct PushDetails {
    /// The series' head commit id.
    pub head: u64,
    /// The canonical remote reference name for the series.
    pub remote_refname: String,
}

/// One planned push.
#[derive(Debug, PartialEq, Eq)]
pub struct PushRequest {
    /// The series' head commit id to push.
    pub head: u64,
    /// The canonical remote reference name to push to.
    pub remote_refname: String,
    /// Whether the caller asked for a non-fast-forward push.
    pub with_force: bool,
}

/// Ghost image of a [`PushRequest`].
#[verifier::ext_equal]
pub ghost struct PushRequestView {
    pub head: u64,
    pub remote_refname: Seq<char>,
    pub with_force: bool,
}

impl View for PushRequest {
    type V = PushRequestView;

    open spec fn view(&self) -> PushRequestView {
        PushRequestView {
            head: self.head,
            remote_refname: self.remote_refname@,
            with_force: self.with_force,
        }
    }
}

/// Ghost image of a push plan.
pub open spec fn requests_view(rs: Seq<PushRequest>) -> Seq<PushRequestView> {
    rs.map_values(|r: PushRequest| r@)
}

/// True when the series at `i` is fully integrated: archived series count as
/// integrated without consulting the checker; otherwise the checker's verdict
/// on the series' head decides.
pub open spec fn spec_branch_integrated(v: StackView, i: int, verdicts: Seq<u64>) -> bool {
    v.branches[i].archived || verdicts.contains(v.head_of(i))
}

/// Whether the series at `index` is already fully integrated upstream.
pub fn branch_integrated(check_commit: &IntegrationChecker, stack: &Stack, index: usize) -> (r:
    bool)
    requires
        index < stack@.branches.len(),
    ensures
        r == spec_branch_integrated(stack@, index as int, check_commit.integrated@),
{
    proof {
        assert(stack@.branches[index as int] == stack.branches@[index as int]@);
    }
    if stack.branches[index].archived {
        return true;
    }
    let head = stack.head_of_branch(index);
    check_commit.is_integrated(head)
}

/// Computes the local head and the canonical remote reference name of the
/// series named `name`, for the push transport. A pure query.
pub fn push_details(stack: &Stack, name: &String, remote_name: &String) -> (r: Result<
    PushDetails,
    StackError,
>)
    ensures
        match r {
            Ok(details) => {
                let found = crate::stack::find_name(stack@.branches, name@);
                &&& found is Some
                &&& details.head == stack@.head_of(found->0)
                &&& details.remote_refname@ == spec_remote_reference(remote_name@, name@)
            },
            Err(e) => e == StackError::NotFound && crate::stack::find_name(
                stack@.branches,
                name@,
            ) is None,
        },
{
    let idx = match stack.find_series(name) {
        Some(i) => i,
        None => {
            return Err(StackError::NotFound);
        },
    };
    let head = stack.head_of_branch(idx);
    let remote_refname = remote_reference(remote_name, name);
    Ok(PushDetails { head, remote_refname })
}

/// The pushes a `push_stack` call performs, walking the series from `i` on in
/// stored order: archived series, series whose head is the merge-base, and
/// fully integrated series are skipped; the walk stops after the series named
/// by `limit` is pushed (inclusive), and skipping that series does not stop
/// the walk.
pub open spec fn spec_push_plan(
    v: StackView,
    merge_base: u64,
    verdicts: Seq<u64>,
    with_force: bool,
    remote_name: Seq<char>,
    limit: Option<Seq<char>>,
    i: int,
) -> Seq<PushRequestView>
    decreases v.branches.len() - i,
{
    if i < 0 || i >= v.branches.len() {
        Seq::empty()
    } else {
        let b = v.branches[i];
        let rest = spec_push_plan(v, merge_base, verdicts, with_force, remote_name, limit, i + 1);
        if b.archived || v.head_of(i) == merge_base || spec_branch_integrated(v, i, verdicts) {
            rest
        } else {
            let item = PushRequestView {
                head: v.head_of(i),
                remote_refname: spec_remote_reference(remote_name, b.name),
                with_force,
            };
            if limit matches Some(l) && l == b.name {
                seq![item]
            } else {
                seq![item] + rest
            }
        }
    }
}

/// Plans the pushes for all series of the stack, in stored order.
///
/// The caller must have fetched the target's remote before computing the
/// integration verdicts and the merge-base, so that series merged upstream in
/// the meantime are skipped rather than pushed. When `branch_limit` names a
/// series, the plan ends with that series' push (inclusive), leaving later
/// series unpushed. The caller's transport performs the pushes in plan order
/// and may stop at the first failure: earlier pushes stay intact and the
/// whole operation can be retried.
pub fn push_stack(
    stack: &Stack,
    merge_base: u64,
    check_commit: &IntegrationChecker,
    with_force: bool,
    branch_limit: &Option<String>,
    remote_name: &String,
) -> (r: Vec<PushRequest>)
    ensures
        requests_view(r@) == spec_push_plan(
            stack@,
            merge_base,
            check_commit.integrated@,
            with_force,
            remote_name@,
            opt_str_view(*branch_limit),
            0,
        ),
{
    let ghost full = spec_push_plan(
        stack@,
        merge_base,
        check_commit.integrated@,
        with_force,
        remote_name@,
        opt_str_view(*branch_limit),
        0,
    );
    let mut plan: Vec<PushRequest> = Vec::new();
    let mut stopped = false;
    let mut i: usize = 0;
    while i < stack.branches.len() && !stopped
        invariant
            0 <= i <= stack.branches@.len(),
            full == requests_view(plan@) + (if stopped {
                Seq::<PushRequestView>::empty()
            } else {
                spec_push_plan(
                    stack@,
                    merge_base,
                    check_commit.integrated@,
                    with_force,
                    remote_name@,
                    opt_str_view(*branch_limit),
                    i as int,
                )
            }),
        decreases stack.branches@.len() - i,
    {
        let ghost plan0 = plan@;
        proof {
            assert(stack@.branches[i as int] == stack.branches@[i as int]@);
        }
        let head = stack.head_of_branch(i);
        let skip = stack.branches[i].archived || head == merge_base || branch_integrated(
            check_commit,
            stack,
            i,
        );
        if !skip {
            let remote_refname = remote_reference(remote_name, &stack.branches[i].name);
            plan.push(PushRequest { head, remote_refname, with_force });
            proof {
                assert(requests_view(plan@) =~= requests_view(plan0).push(plan@.last()@));
            }
            if let Some(limit) = branch_limit {
                if stack.branches[i].name == *limit {
                    stopped = true;
                }
            }
            proof {
                if !stopped {
                    assert(requests_view(plan0) + (seq![plan@.last()@] + spec_push_plan(
                        stack@,
                        merge_base,
                        check_commit.integrated@,
                        with_force,
                        remote_name@,
                        opt_str_view(*branch_limit),
                        i + 1,
                    )) =~= requests_view(plan@) + spec_push_plan(
                        stack@,
                        merge_base,
                        check_commit.integrated@,
                        with_force,
                        remote_name@,
                        opt_str_view(*branch_limit),
                        i + 1,
                    ));
                } else {
                    assert(requests_view(plan0) + seq![plan@.last()@] =~= requests_view(plan@)
                        + Seq::<PushRequestView>::empty());
                }
            }
        }
        i = i + 1;
    }
    proof {
        assert(requests_view(plan@) + Seq::<PushRequestView>::empty() =~= requests_view(plan@));
    }
    plan
}

} // verus!
