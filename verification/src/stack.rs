//! The stack: an ordered group of patch series sharing one linear local
//! commit history, with its structural invariants and mutation operations.
//!
//! Commits, change identities and reference names reach this module as plain
//! values: a commit id and a change identity are abstract tokens (the
//! content hash and the durable per-change identifier, both reduced to
//! integers by the caller), and a series name arrives already normalized by
//! the external reference-name normalizer, as that normalizer's verdict.

use vstd::prelude::*;

verus! {

/// A commit of the stack's linear history, reduced to what reconciliation
/// reads of it.
#[derive(Clone, Copy, Debug, PartialEq, Eq)]
pub struct Commit {
    /// Content id (the hash), an abstract token.
    pub id: u64,
    /// Durable change identity, stable across amend and rebase; two commits
    /// sharing it are the same logical patch.
    pub change_id: Option<u64>,
    /// Fingerprint of the reconstructable patch content, when one could be
    /// derived; two commits sharing it carry diff-equivalent changes.
    pub data: Option<u64>,
}

/// A named series: a pointer into the stack's commit sequence together with
/// the commits it owns.
#[derive(Debug, PartialEq, Eq)]
pub struct Series {
    /// Normalized reference name, unique within the stack.
    pub name: String,
    /// Free-form description.
    pub description: Option<String>,
    /// Forge pull-request number, when one was assigned.
    pub pr_number: Option<usize>,
    /// Forge review identifier, when one was assigned.
    pub review_id: Option<String>,
    /// True once the series' commits are fully merged upstream.
    pub archived: bool,
    /// The commits this series owns, oldest first. May be empty, in which
    /// case the series points at the head of the series below it.
    pub local_commits: Vec<Commit>,
}

/// Ghost image of a [`Series`].
#[verifier::ext_equal]
pub ghost struct SeriesView {
    pub name: Seq<char>,
    pub description: Option<Seq<char>>,
    pub pr_number: Option<usize>,
    pub review_id: Option<Seq<char>>,
    pub archived: bool,
    pub local_commits: Seq<Commit>,
}

/// Ghost image of an `Option<String>`.
pub open spec fn opt_str_view(o: Option<String>) -> Option<Seq<char>> {
    match o {
        Some(s) => Some(s@),
        None => None,
    }
}

impl View for Series {
    type V = SeriesView;

    open spec fn view(&self) -> SeriesView {
        SeriesView {
            name: self.name@,
            description: opt_str_view(self.description),
            pr_number: self.pr_number,
            review_id: opt_str_view(self.review_id),
            archived: self.archived,
            local_commits: self.local_commits@,
        }
    }
}

/// An ordered group of series layered on one linear local commit history.
///
/// The series stand bottom-most (oldest) first; the concatenation of their
/// `local_commits` is the stack's whole local history above its base.
#[derive(Debug, PartialEq, Eq)]
pub struct Stack {
    /// Stable identifier of the stack.
    pub id: u64,
    /// The merge-base commit the stack sits on; not owned by any series.
    pub base: u64,
    /// The series, bottom-most first. Never empty.
    pub branches: Vec<Series>,
}

/// Ghost image of a [`Stack`].
#[verifier::ext_equal]
pub ghost struct StackView {
    pub id: u64,
    pub base: u64,
    pub branches: Seq<SeriesView>,
}

impl View for Stack {
    type V = StackView;

    open spec fn view(&self) -> StackView {
        StackView {
            id: self.id,
            base: self.base,
            branches: self.branches@.map_values(|s: Series| s@),
        }
    }
}

impl StackView {
    /// The stack's whole local history above the base, oldest first.
    pub open spec fn all_commits(self) -> Seq<Commit>
        decreases self.branches.len(),
    {
        if self.branches.len() == 0 {
            Seq::empty()
        } else {
            StackView { branches: self.branches.drop_last(), ..self }.all_commits()
                + self.branches.last().local_commits
        }
    }

    /// Head commit id of the series at `i`: the last commit it owns, or,
    /// when it owns none, the head of the nearest series below it, bottoming
    /// out at the stack's base.
    pub open spec fn head_of(self, i: int) -> u64
        decreases i + 1,
    {
        if i < 0 || i >= self.branches.len() {
            self.base
        } else if self.branches[i].local_commits.len() > 0 {
            self.branches[i].local_commits.last().id
        } else {
            self.head_of(i - 1)
        }
    }

    /// Top-of-stack commit id.
    pub open spec fn head(self) -> u64 {
        self.head_of(self.branches.len() - 1)
    }

    /// Structural invariant: at least one series, and no two series share a
    /// name.
    pub open spec fn wf(self) -> bool {
        &&& self.branches.len() >= 1
        &&& forall|i: int, j: int|
            0 <= i < j < self.branches.len() ==> self.branches[i].name != self.branches[j].name
    }
}

/// Ghost image of a list of reference names.
pub open spec fn strs_view(ss: Seq<String>) -> Seq<Seq<char>> {
    ss.map_values(|s: String| s@)
}

/// True when `n` collides neither with an existing Git reference nor with a
/// series name of the stack.
pub open spec fn name_free(v: StackView, refs: Seq<Seq<char>>, n: Seq<char>) -> bool {
    &&& forall|i: int| 0 <= i < refs.len() ==> refs[i] != n
    &&& forall|i: int| 0 <= i < v.branches.len() ==> v.branches[i].name != n
}

/// Index of the first series with this name, scanning from `i` on.
pub open spec fn find_name_from(branches: Seq<SeriesView>, n: Seq<char>, i: int) -> Option<int>
    decreases branches.len() - i,
{
    if i < 0 || i >= branches.len() {
        None
    } else if branches[i].name == n {
        Some(i)
    } else {
        find_name_from(branches, n, i + 1)
    }
}

/// Index of the first series with this name.
pub open spec fn find_name(branches: Seq<SeriesView>, n: Seq<char>) -> Option<int> {
    find_name_from(branches, n, 0)
}

/// Position of the first commit with this id, scanning from `j` on.
pub open spec fn commit_pos_from(cs: Seq<Commit>, id: u64, j: int) -> Option<int>
    decreases cs.len() - j,
{
    if j < 0 || j >= cs.len() {
        None
    } else if cs[j].id == id {
        Some(j)
    } else {
        commit_pos_from(cs, id, j + 1)
    }
}

/// Position of the first commit with this id.
pub open spec fn commit_pos(cs: Seq<Commit>, id: u64) -> Option<int> {
    commit_pos_from(cs, id, 0)
}

/// The first series owning a commit with this id, together with the commit's
/// position in it, scanning from `i` on.
pub open spec fn owner_pos_from(branches: Seq<SeriesView>, id: u64, i: int) -> Option<(int, int)>
    decreases branches.len() - i,
{
    if i < 0 || i >= branches.len() {
        None
    } else {
        match commit_pos(branches[i].local_commits, id) {
            Some(p) => Some((i, p)),
            None => owner_pos_from(branches, id, i + 1),
        }
    }
}

/// The first series owning a commit with this id, with the commit's position.
pub open spec fn owner_pos(branches: Seq<SeriesView>, id: u64) -> Option<(int, int)> {
    owner_pos_from(branches, id, 0)
}

/// True when some series of the stack owns a commit with this id.
pub open spec fn stack_contains_commit(branches: Seq<SeriesView>, id: u64) -> bool {
    exists|i: int, j: int|
        0 <= i < branches.len() && 0 <= j < branches[i].local_commits.len()
            && branches[i].local_commits[j].id == id
}

/// The scan of one series finds no commit with the id exactly when the series
/// owns none from `j` on.
proof fn lemma_commit_pos_none(cs: Seq<Commit>, id: u64, j: int)
    requires
        0 <= j <= cs.len(),
    ensures
        commit_pos_from(cs, id, j) is None <==> forall|k: int|
            j <= k < cs.len() ==> cs[k].id != id,
    decreases cs.len() - j,
{
    if j < cs.len() {
        lemma_commit_pos_none(cs, id, j + 1);
    }
}

/// The scan of the stack finds no owner exactly when no series from `i` on
/// owns a commit with the id.
proof fn lemma_owner_pos_none(branches: Seq<SeriesView>, id: u64, i: int)
    requires
        0 <= i <= branches.len(),
    ensures
        owner_pos_from(branches, id, i) is None <==> forall|b: int, k: int|
            i <= b < branches.len() && 0 <= k < branches[b].local_commits.len()
                ==> branches[b].local_commits[k].id != id,
    decreases branches.len() - i,
{
    if i < branches.len() {
        lemma_commit_pos_none(branches[i].local_commits, id, 0);
        lemma_owner_pos_none(branches, id, i + 1);
    }
}

impl Stack {
    /// Index of the series named `name`, when one exists.
    pub fn find_series(&self, name: &String) -> (r: Option<usize>)
        ensures
            match r {
                Some(i) => {
                    &&& 0 <= i < self@.branches.len()
                    &&& find_name(self@.branches, name@) == Some(i as int)
                    &&& self@.branches[i as int].name == name@
                    &&& forall|j: int| 0 <= j < i ==> self@.branches[j].name != name@
                },
                None => {
                    &&& find_name(self@.branches, name@) is None
                    &&& forall|j: int|
                        0 <= j < self@.branches.len() ==> self@.branches[j].name != name@
                },
            },
    {
        let mut i: usize = 0;
        while i < self.branches.len()
            invariant
                0 <= i <= self.branches@.len(),
                find_name(self@.branches, name@) == find_name_from(self@.branches, name@, i as int),
                forall|j: int| 0 <= j < i ==> self@.branches[j].name != name@,
            decreases self.branches@.len() - i,
        {
            proof {
                assert(self@.branches[i as int] == self.branches@[i as int]@);
            }
            if self.branches[i].name == *name {
                return Some(i);
            }
            i = i + 1;
        }
        None
    }

    /// Head commit id of the series at `index`.
    pub fn head_of_branch(&self, index: usize) -> (r: u64)
        requires
            index < self@.branches.len(),
        ensures
            r == self@.head_of(index as int),
    {
        let mut i: usize = index;
        loop
            invariant
                0 <= i <= index < self.branches@.len(),
                self@.head_of(index as int) == self@.head_of(i as int),
            decreases i,
        {
            proof {
                assert(self@.branches[i as int] == self.branches@[i as int]@);
            }
            if self.branches[i].local_commits.len() > 0 {
                return self.branches[i].local_commits[self.branches[i].local_commits.len()
                    - 1].id;
            }
            if i == 0 {
                proof {
                    assert(self@.head_of(-1) == self.base);
                    assert(self@.head_of(0) == self.base);
                }
                return self.base;
            }
            i = i - 1;
        }
    }

    /// Top-of-stack commit id.
    pub fn head_oid(&self) -> (r: u64)
        ensures
            r == self@.head(),
    {
        if self.branches.len() == 0 {
            self.base
        } else {
            self.head_of_branch(self.branches.len() - 1)
        }
    }

    /// The first series owning a commit with this id, with the commit's
    /// position in that series.
    pub fn find_commit(&self, id: u64) -> (r: Option<(usize, usize)>)
        ensures
            match r {
                Some(pos) => {
                    &&& owner_pos(self@.branches, id) == Some((pos.0 as int, pos.1 as int))
                    &&& pos.0 < self@.branches.len()
                    &&& pos.1 < self@.branches[pos.0 as int].local_commits.len()
                    &&& self@.branches[pos.0 as int].local_commits[pos.1 as int].id == id
                },
                None => owner_pos(self@.branches, id) is None,
            },
    {
        let mut i: usize = 0;
        while i < self.branches.len()
            invariant
                0 <= i <= self.branches@.len(),
                owner_pos(self@.branches, id) == owner_pos_from(self@.branches, id, i as int),
            decreases self.branches@.len() - i,
        {
            let cs = &self.branches[i].local_commits;
            let mut j: usize = 0;
            while j < cs.len()
                invariant
                    0 <= j <= cs@.len(),
                    commit_pos(cs@, id) == commit_pos_from(cs@, id, j as int),
                decreases cs@.len() - j,
            {
                if cs[j].id == id {
                    proof {
                        assert(self@.branches[i as int] == self.branches@[i as int]@);
                    }
                    return Some((i, j));
                }
                j = j + 1;
            }
            i = i + 1;
        }
        None
    }
}

/// True exactly when some reference name of `refs` equals `n`.
pub fn refs_contain(refs: &Vec<String>, n: &String) -> (r: bool)
    ensures
        r == exists|i: int| 0 <= i < refs@.len() && strs_view(refs@)[i] == n@,
{
    let mut i: usize = 0;
    while i < refs.len()
        invariant
            0 <= i <= refs@.len(),
            forall|j: int| 0 <= j < i ==> strs_view(refs@)[j] != n@,
        decreases refs@.len() - i,
    {
        if refs[i] == *n {
            proof {
                assert(strs_view(refs@)[i as int] == refs@[i as int]@);
            }
            return true;
        }
        i = i + 1;
    }
    false
}

/// Everything a stack mutation or query can fail with.
#[derive(Clone, Copy, Debug, PartialEq, Eq)]
pub enum StackError {
    /// The name failed normalization or collides with an existing reference
    /// or series name.
    InvalidName,
    /// No series of the given name exists in the stack.
    NotFound,
    /// The sole remaining series of a stack cannot be removed.
    LastBranch,
    /// The requested target commit is not part of the stack.
    UnknownTarget,
    /// A series could not be reconciled against the remote snapshot.
    ReconciliationError,
}

/// Request to create a new series in a stack.
#[derive(Debug, PartialEq, Eq)]
pub struct CreateSeriesRequest {
    /// Name of the new series, as the user wrote it; the external normalizer
    /// turns it into the name the stack will carry.
    pub name: String,
    /// Description of the new series.
    pub description: Option<String>,
    /// The commit to anchor the new series at. When absent, the new series
    /// binds to the top of the stack.
    pub target_patch: Option<u64>,
    /// Name of the series that is to precede the new one, disambiguating the
    /// order when several series point at the same commit.
    pub preceding_head: Option<String>,
}

/// A fresh, unarchived series without forge metadata.
pub open spec fn new_series_view(n: Seq<char>, d: Option<Seq<char>>, cs: Seq<Commit>) -> SeriesView {
    SeriesView {
        name: n,
        description: d,
        pr_number: None,
        review_id: None,
        archived: false,
        local_commits: cs,
    }
}

/// The stack's series after a successful `create_branch`: anchored at the top
/// when no target is given; inserted above the named preceding series when
/// that series points at the target; otherwise splitting the series that owns
/// the target, the new series taking the commits up to and including it.
pub open spec fn spec_added_branches(
    v: StackView,
    n: Seq<char>,
    d: Option<Seq<char>>,
    target: Option<u64>,
    preceding: Option<Seq<char>>,
) -> Seq<SeriesView> {
    match target {
        None => v.branches.push(new_series_view(n, d, Seq::empty())),
        Some(cid) => {
            let pos = owner_pos(v.branches, cid)->0;
            if preceding matches Some(pn) && find_name(v.branches, pn) matches Some(idx)
                && v.head_of(idx) == cid {
                let idx = find_name(v.branches, preceding->0)->0;
                v.branches.insert(idx + 1, new_series_view(n, d, Seq::empty()))
            } else {
                let owner = v.branches[pos.0];
                let newer = new_series_view(n, d, owner.local_commits.take(pos.1 + 1));
                let upper = SeriesView { local_commits: owner.local_commits.skip(pos.1 + 1), ..owner };
                v.branches.update(pos.0, upper).insert(pos.0, newer)
            }
        },
    }
}

/// Adds a new series to the stack.
///
/// The name reaches this function twice: raw in the request, and as the
/// external normalizer's verdict in `normalized_name` (`None` when
/// normalization failed). The name must collide neither with an existing Git
/// reference (`existing_refs`, supplied by the repository) nor with a series
/// of the stack. When the request names a target commit, that commit must be
/// part of the stack; the series owning it is split so the new series owns
/// the commits up to and including the target, unless a valid preceding
/// series disambiguates the order among series pointing at the same commit.
/// Without a target the new series binds to the top of the stack.
pub fn create_branch(
    stack: &mut Stack,
    req: CreateSeriesRequest,
    normalized_name: Option<String>,
    existing_refs: &Vec<String>,
) -> (r: Result<(), StackError>)
    requires
        old(stack)@.wf(),
    ensures
        ({
            let valid = normalized_name is Some && name_free(
                old(stack)@,
                strs_view(existing_refs@),
                normalized_name->0@,
            );
            let resolved = req.target_patch is None || stack_contains_commit(
                old(stack)@.branches,
                req.target_patch->0,
            );
            match r {
                Ok(()) => valid && resolved && final(stack)@ == (StackView {
                    branches: spec_added_branches(
                        old(stack)@,
                        normalized_name->0@,
                        opt_str_view(req.description),
                        req.target_patch,
                        opt_str_view(req.preceding_head),
                    ),
                    ..old(stack)@
                }),
                Err(e) => *final(stack) == *old(stack) && (!valid || !resolved) && e == (
                if !valid {
                    StackError::InvalidName
                } else {
                    StackError::UnknownTarget
                }),
            }
        }),
        r is Ok ==> final(stack)@.wf(),
        r is Ok && req.target_patch is Some ==> stack_contains_commit(
            final(stack)@.branches,
            req.target_patch->0,
        ),
{
    let n = match normalized_name {
        Some(n) => n,
        None => {
            return Err(StackError::InvalidName);
        },
    };
    if refs_contain(existing_refs, &n) {
        return Err(StackError::InvalidName);
    }
    if let Some(taken) = stack.find_series(&n) {
        proof {
            assert(old(stack)@.branches[taken as int].name == n@);
        }
        return Err(StackError::InvalidName);
    }
    let ghost v0 = stack@;
    let ghost nv = n@;
    match req.target_patch {
        None => {
            let fresh = Series {
                name: n,
                description: req.description,
                pr_number: None,
                review_id: None,
                archived: false,
                local_commits: Vec::new(),
            };
            stack.branches.push(fresh);
            proof {
                assert(stack@.branches =~= v0.branches.push(
                    new_series_view(nv, opt_str_view(req.description), Seq::empty()),
                ));
            }
            Ok(())
        },
        Some(cid) => {
            let (bi, cp) = match stack.find_commit(cid) {
                Some(pos) => pos,
                None => {
                    proof {
                        lemma_owner_pos_none(old(stack)@.branches, cid, 0);
                    }
                    return Err(StackError::UnknownTarget);
                },
            };
            let preceding_idx = preceding_insertion(stack, &req.preceding_head, cid);
            match preceding_idx {
                Some(idx) => {
                    let total = stack.branches.len();
                    proof {
                        assert(idx < total);
                    }
                    let fresh = Series {
                        name: n,
                        description: req.description,
                        pr_number: None,
                        review_id: None,
                        archived: false,
                        local_commits: Vec::new(),
                    };
                    stack.branches.insert(idx + 1, fresh);
                    proof {
                        let inserted = new_series_view(
                            nv,
                            opt_str_view(req.description),
                            Seq::empty(),
                        );
                        v0.branches.insert_ensures(idx + 1, inserted);
                        assert(stack@.branches =~= v0.branches.insert(idx + 1, inserted));
                        assert(stack@.branches == spec_added_branches(
                            v0,
                            nv,
                            opt_str_view(req.description),
                            req.target_patch,
                            opt_str_view(req.preceding_head),
                        ));
                        lemma_distinct_after_insert(v0.branches, inserted, idx + 1);
                        assert(stack_contains_commit(stack@.branches, cid)) by {
                            if bi < idx + 1 {
                                assert(stack@.branches[bi as int].local_commits[cp as int].id
                                    == cid);
                            } else {
                                assert(v0.branches.insert(idx + 1, inserted)[(bi as int) + 1]
                                    == v0.branches[bi as int]);
                                assert(stack@.branches[bi + 1].local_commits[cp as int].id
                                    == cid);
                            }
                        }
                    }
                    Ok(())
                },
                None => {
                    let owner_commits = &stack.branches[bi].local_commits;
                    let owner_len = owner_commits.len();
                    proof {
                        assert(cp < owner_len);
                    }
                    let mut newer_commits: Vec<Commit> = Vec::new();
                    let mut j: usize = 0;
                    while j < cp + 1
                        invariant
                            0 <= j <= cp + 1,
                            newer_commits@ == owner_commits@.take(j as int),
                        decreases cp + 1 - j,
                    {
                        newer_commits.push(owner_commits[j]);
                        proof {
                            assert(newer_commits@ =~= owner_commits@.take(j + 1));
                        }
                        j = j + 1;
                    }
                    let mut upper_commits: Vec<Commit> = Vec::new();
                    let mut j: usize = cp + 1;
                    while j < owner_commits.len()
                        invariant
                            cp + 1 <= j <= owner_commits@.len(),
                            upper_commits@ == owner_commits@.subrange(cp + 1, j as int),
                        decreases owner_commits@.len() - j,
                    {
                        upper_commits.push(owner_commits[j]);
                        proof {
                            assert(upper_commits@ =~= owner_commits@.subrange(cp + 1, j + 1));
                        }
                        j = j + 1;
                    }
                    let owner = &mut stack.branches[bi];
                    owner.local_commits = upper_commits;
                    let fresh = Series {
                        name: n,
                        description: req.description,
                        pr_number: None,
                        review_id: None,
                        archived: false,
                        local_commits: newer_commits,
                    };
                    stack.branches.insert(bi, fresh);
                    proof {
                        let owner0 = v0.branches[bi as int];
                        let newer = new_series_view(
                            nv,
                            opt_str_view(req.description),
                            owner0.local_commits.take(cp + 1),
                        );
                        let upper = SeriesView {
                            local_commits: owner0.local_commits.skip(cp + 1),
                            ..owner0
                        };
                        v0.branches.update(bi as int, upper).insert_ensures(bi as int, newer);
                        assert(stack@.branches =~= v0.branches.update(bi as int, upper).insert(
                            bi as int,
                            newer,
                        ));
                        assert(stack@.branches == spec_added_branches(
                            v0,
                            nv,
                            opt_str_view(req.description),
                            req.target_patch,
                            opt_str_view(req.preceding_head),
                        ));
                        assert(forall|k: int|
                            0 <= k < v0.branches.len() ==> v0.branches.update(bi as int, upper)[k]
                                .name == v0.branches[k].name);
                        lemma_distinct_after_insert(
                            v0.branches.update(bi as int, upper),
                            newer,
                            bi as int,
                        );
                        assert(stack_contains_commit(stack@.branches, cid)) by {
                            assert(newer.local_commits[cp as int] == v0.branches[bi as int]
                                .local_commits[cp as int]);
                            assert(stack@.branches[bi as int].local_commits[cp as int].id == cid);
                        }
                    }
                    Ok(())
                },
            }
        },
    }
}

/// Distinctness of series names survives inserting a series with a fresh
/// name.
proof fn lemma_distinct_after_insert(branches: Seq<SeriesView>, fresh: SeriesView, at: int)
    requires
        forall|i: int, j: int|
            0 <= i < j < branches.len() ==> branches[i].name != branches[j].name,
        forall|k: int| 0 <= k < branches.len() ==> branches[k].name != fresh.name,
        0 <= at <= branches.len(),
    ensures
        forall|i: int, j: int|
            0 <= i < j < branches.insert(at, fresh).len() ==> branches.insert(at, fresh)[i].name
                != branches.insert(at, fresh)[j].name,
{
    let grown = branches.insert(at, fresh);
    branches.insert_ensures(at, fresh);
    assert forall|i: int, j: int| 0 <= i < j < grown.len() implies grown[i].name
        != grown[j].name by {
        if i > at {
            assert(grown[(i - 1) + 1] == branches[i - 1]);
        }
        if j > at {
            assert(grown[(j - 1) + 1] == branches[j - 1]);
        }
    }
}

/// The stack's series after a successful `remove_branch` of the series at
/// `idx`: the commits the removed series owned are re-owned by the nearest
/// preceding series (the one below it), or, when the bottom-most series is
/// removed, slide under the new bottom-most one; the commits themselves are
/// untouched.
pub open spec fn spec_removed_branches(branches: Seq<SeriesView>, idx: int) -> Seq<SeriesView>
    recommends
        0 <= idx < branches.len(),
        branches.len() >= 2,
{
    if idx > 0 {
        let merged = SeriesView {
            local_commits: branches[idx - 1].local_commits + branches[idx].local_commits,
            ..branches[idx - 1]
        };
        branches.update(idx - 1, merged).remove(idx)
    } else {
        let merged = SeriesView {
            local_commits: branches[0].local_commits + branches[1].local_commits,
            ..branches[1]
        };
        branches.remove(0).update(0, merged)
    }
}

/// Removes a series grouping from the stack. The commits it owned are not
/// touched: they are re-owned as `spec_removed_branches` says. The very last
/// series cannot be removed: a stack always keeps at least one.
pub fn remove_branch(stack: &mut Stack, branch_name: &String) -> (r: Result<(), StackError>)
    requires
        old(stack)@.wf(),
    ensures
        ({
            let found = find_name(old(stack)@.branches, branch_name@);
            match r {
                Ok(()) => found is Some && old(stack)@.branches.len() >= 2 && final(stack)@ == (
                StackView {
                    branches: spec_removed_branches(old(stack)@.branches, found->0),
                    ..old(stack)@
                }),
                Err(e) => *final(stack) == *old(stack) && ((e == StackError::NotFound
                    && found is None) || (e == StackError::LastBranch && found is Some && old(
                    stack,
                )@.branches.len() == 1)),
            }
        }),
        r is Ok ==> final(stack)@.wf(),
{
    let idx = match stack.find_series(branch_name) {
        Some(i) => i,
        None => {
            return Err(StackError::NotFound);
        },
    };
    if stack.branches.len() == 1 {
        return Err(StackError::LastBranch);
    }
    let ghost b0 = stack@.branches;
    let removed = stack.branches.remove(idx);
    proof {
        assert(stack@.branches =~= b0.remove(idx as int));
        b0.remove_ensures(idx as int);
    }
    if idx > 0 {
        let mut cs = removed.local_commits;
        let prev = &mut stack.branches[idx - 1];
        prev.local_commits.append(&mut cs);
    } else {
        let mut cs = removed.local_commits;
        let next = &mut stack.branches[0];
        cs.append(&mut next.local_commits);
        next.local_commits = cs;
    }
    proof {
        let merged = spec_removed_branches(b0, idx as int);
        if idx > 0 {
            b0.update(idx - 1, merged[idx - 1]).remove_ensures(idx as int);
        }
        assert(stack@.branches =~= merged);
        assert forall|i: int, j: int|
            0 <= i < j < stack@.branches.len() implies stack@.branches[i].name
            != stack@.branches[j].name by {
            assert(b0.remove(idx as int)[i] == (if i < idx { b0[i] } else { b0[i + 1] }));
            assert(b0.remove(idx as int)[j] == (if j < idx { b0[j] } else { b0[j + 1] }));
            assert(stack@.branches[i].name == b0.remove(idx as int)[i].name);
            assert(stack@.branches[j].name == b0.remove(idx as int)[j].name);
        }
    }
    Ok(())
}

/// Renames a series. The same invariants as `create_branch` apply to the new
/// name, and the forge pull-request number is reset, since it belonged to the
/// old reference.
pub fn update_branch_name(
    stack: &mut Stack,
    branch_name: &String,
    normalized_new: Option<String>,
    existing_refs: &Vec<String>,
) -> (r: Result<(), StackError>)
    requires
        old(stack)@.wf(),
    ensures
        ({
            let found = find_name(old(stack)@.branches, branch_name@);
            let free = normalized_new is Some && name_free(
                old(stack)@,
                strs_view(existing_refs@),
                normalized_new->0@,
            );
            match r {
                Ok(()) => normalized_new is Some && found is Some && free && final(stack)@ == (
                StackView {
                    branches: old(stack)@.branches.update(
                        found->0,
                        SeriesView {
                            name: normalized_new->0@,
                            pr_number: None,
                            ..old(stack)@.branches[found->0]
                        },
                    ),
                    ..old(stack)@
                }),
                Err(e) => *final(stack) == *old(stack) && ((e == StackError::InvalidName
                    && normalized_new is None) || (e == StackError::NotFound
                    && normalized_new is Some && found is None) || (e == StackError::InvalidName
                    && normalized_new is Some && found is Some && !free)),
            }
        }),
        r is Ok ==> final(stack)@.wf(),
{
    let n = match normalized_new {
        Some(n) => n,
        None => {
            return Err(StackError::InvalidName);
        },
    };
    let idx = match stack.find_series(branch_name) {
        Some(i) => i,
        None => {
            return Err(StackError::NotFound);
        },
    };
    if refs_contain(existing_refs, &n) {
        return Err(StackError::InvalidName);
    }
    if let Some(taken) = stack.find_series(&n) {
        proof {
            assert(old(stack)@.branches[taken as int].name == n@);
        }
        return Err(StackError::InvalidName);
    }
    let ghost b0 = stack@.branches;
    let ghost nv = n@;
    let series = &mut stack.branches[idx];
    series.name = n;
    series.pr_number = None;
    proof {
        assert(stack@.branches =~= b0.update(
            idx as int,
            SeriesView { name: nv, pr_number: None, ..b0[idx as int] },
        ));
        assert forall|i: int, j: int|
            0 <= i < j < stack@.branches.len() implies stack@.branches[i].name
            != stack@.branches[j].name by {
            assert(b0[i].name == old(stack)@.branches[i].name);
            assert(b0[j].name == old(stack)@.branches[j].name);
        }
    }
    Ok(())
}

/// Updates the description of a series; `None` removes it.
pub fn update_branch_description(
    stack: &mut Stack,
    branch_name: &String,
    description: Option<String>,
) -> (r: Result<(), StackError>)
    requires
        old(stack)@.wf(),
    ensures
        ({
            let found = find_name(old(stack)@.branches, branch_name@);
            match r {
                Ok(()) => found is Some && final(stack)@ == (StackView {
                    branches: old(stack)@.branches.update(
                        found->0,
                        SeriesView {
                            description: opt_str_view(description),
                            ..old(stack)@.branches[found->0]
                        },
                    ),
                    ..old(stack)@
                }),
                Err(e) => *final(stack) == *old(stack) && e == StackError::NotFound
                    && found is None,
            }
        }),
        r is Ok ==> final(stack)@.wf(),
{
    let idx = match stack.find_series(branch_name) {
        Some(i) => i,
        None => {
            return Err(StackError::NotFound);
        },
    };
    let ghost b0 = stack@.branches;
    let series = &mut stack.branches[idx];
    series.description = description;
    proof {
        assert(stack@.branches =~= b0.update(
            idx as int,
            SeriesView { description: opt_str_view(description), ..b0[idx as int] },
        ));
        assert forall|i: int, j: int|
            0 <= i < j < stack@.branches.len() implies stack@.branches[i].name
            != stack@.branches[j].name by {
            assert(b0[i].name == old(stack)@.branches[i].name);
            assert(b0[j].name == old(stack)@.branches[j].name);
        }
    }
    Ok(())
}

/// Sets the forge pull-request number of a series; the existing value is
/// overwritten, `None` removes it.
pub fn update_branch_pr_number(
    stack: &mut Stack,
    branch_name: &String,
    pr_number: Option<usize>,
) -> (r: Result<(), StackError>)
    requires
        old(stack)@.wf(),
    ensures
        ({
            let found = find_name(old(stack)@.branches, branch_name@);
            match r {
                Ok(()) => found is Some && final(stack)@ == (StackView {
                    branches: old(stack)@.branches.update(
                        found->0,
                        SeriesView { pr_number, ..old(stack)@.branches[found->0] },
                    ),
                    ..old(stack)@
                }),
                Err(e) => *final(stack) == *old(stack) && e == StackError::NotFound
                    && found is None,
            }
        }),
        r is Ok ==> final(stack)@.wf(),
{
    let idx = match stack.find_series(branch_name) {
        Some(i) => i,
        None => {
            return Err(StackError::NotFound);
        },
    };
    let ghost b0 = stack@.branches;
    let series = &mut stack.branches[idx];
    series.pr_number = pr_number;
    proof {
        assert(stack@.branches =~= b0.update(
            idx as int,
            SeriesView { pr_number, ..b0[idx as int] },
        ));
        assert forall|i: int, j: int|
            0 <= i < j < stack@.branches.len() implies stack@.branches[i].name
            != stack@.branches[j].name by {
            assert(b0[i].name == old(stack)@.branches[i].name);
            assert(b0[j].name == old(stack)@.branches[j].name);
        }
    }
    Ok(())
}

/// Where the new series goes when a preceding series disambiguates the order
/// among series pointing at the same commit: immediately above the named
/// series, provided that series exists and indeed points at the target.
fn preceding_insertion(stack: &Stack, preceding: &Option<String>, cid: u64) -> (r: Option<usize>)
    ensures
        match r {
            Some(idx) => 0 <= idx < stack@.branches.len() && (opt_str_view(*preceding) matches Some(
                pn,
            ) && find_name(stack@.branches, pn) == Some(idx as int) && stack@.head_of(idx as int)
                == cid),
            None => !(opt_str_view(*preceding) matches Some(pn) && find_name(
                stack@.branches,
                pn,
            ) matches Some(idx) && stack@.head_of(idx) == cid),
        },
{
    match preceding {
        Some(pname) => match stack.find_series(pname) {
            Some(idx) => {
                if stack.head_of_branch(idx) == cid {
                    Some(idx)
                } else {
                    None
                }
            },
            None => None,
        },
        None => None,
    }
}

} // verus!
