//! The diffbase store: the persistent model of how local branches relate to
//! one another. Every known branch has an entry holding its parent (its
//! "diffbase"), the branches based on it, and an associated hosted merge or
//! pull request. Parent and children links are kept mutually consistent by
//! every mutation, and no branch may declare the repository's trunk branch as
//! its parent.

use vstd::prelude::*;
use vstd::string::StrSliceExecFns;
use vstd::string::StringExecFns;
use crate::error::Error;
use crate::error::ErrorKind;
use crate::github;
use crate::gitlab;
use crate::text::split_char;
use crate::text::split_seq;
use crate::text::starts_with;
use crate::text::str_contains_char;
use crate::text::str_eq;
use crate::text::str_starts_with;
use crate::text::join_seq;
use crate::text::join_str;

verus! {

/// A reference to a hosted merge or pull request, tagged by provider.
#[derive(Debug)]
pub enum MergeRequest {
    GitHub(github::PullRequestId),
    GitLab(gitlab::PullRequestId),
}

impl Clone for MergeRequest {
    fn clone(&self) -> (r: MergeRequest)
        ensures
            r == *self,
    {
        match self {
            MergeRequest::GitHub(pr) => MergeRequest::GitHub(pr.clone()),
            MergeRequest::GitLab(mr) => MergeRequest::GitLab(mr.clone()),
        }
    }
}

/// One record of the persisted snapshot: a branch, its parent if any, and the
/// merge or pull request tracked for it.
#[derive(Debug)]
pub struct DiffbaseJson {
    pub branch: String,
    pub diffbase: Option<String>,
    pub github_pr: Option<MergeRequest>,
}

/// The stored relations of one branch.
#[derive(Debug)]
struct Entry {
    branch: String,
    parent: Option<String>,
    children: Vec<String>,
    merge_request: Option<MergeRequest>,
}

/// The diffbase tree: a mapping from branch name to its entry, keyed by the
/// branch names and holding the name of the repository's trunk branch.
#[derive(Debug)]
pub struct Diffbase {
    main_branch: String,
    entries: Vec<Entry>,
}

impl Diffbase {
    /// The trunk branch this store was opened against.
    pub closed spec fn trunk(self) -> Seq<char> {
        self.main_branch@
    }

    /// How many branches the store knows.
    pub closed spec fn size(self) -> nat {
        self.entries@.len()
    }

    /// Whether the store knows branch `b`.
    pub closed spec fn spec_has(self, b: Seq<char>) -> bool {
        exists|i: int| 0 <= i < self.entries@.len() && (#[trigger] self.entries@[i]).branch@ == b
    }

    /// The index of branch `b`'s entry.
    spec fn idx(self, b: Seq<char>) -> int {
        choose|i: int| 0 <= i < self.entries@.len() && (#[trigger] self.entries@[i]).branch@ == b
    }

    /// The recorded parent of `b`: `None` when `b` is unknown or a root.
    pub closed spec fn spec_parent(self, b: Seq<char>) -> Option<Seq<char>> {
        if self.spec_has(b) {
            self.entries@[self.idx(b)].parent.deep_view()
        } else {
            None
        }
    }

    /// The recorded children of `b`, in insertion order; empty when `b` is
    /// unknown.
    pub closed spec fn spec_children(self, b: Seq<char>) -> Seq<Seq<char>> {
        if self.spec_has(b) {
            self.entries@[self.idx(b)].children.deep_view()
        } else {
            Seq::empty()
        }
    }

    /// The merge or pull request tracked for `b`, if any.
    pub closed spec fn spec_mr(self, b: Seq<char>) -> Option<MergeRequest> {
        if self.spec_has(b) {
            self.entries@[self.idx(b)].merge_request
        } else {
            None
        }
    }

    /// Entry `i` names a parent that exists, is not the trunk, and lists this
    /// branch among its children.
    spec fn parent_ok(self, i: int) -> bool {
        let es = self.entries@;
        es[i].parent is Some ==> {
            let p = es[i].parent->0@;
            &&& p != self.trunk()
            &&& self.spec_has(p)
            &&& self.spec_children(p).contains(es[i].branch@)
        }
    }

    /// Every child that entry `i` lists exists and points back at entry `i`
    /// as its parent, and no child is listed twice.
    spec fn children_ok(self, i: int) -> bool {
        let es = self.entries@;
        &&& forall|k: int| 0 <= k < es[i].children@.len() ==> {
            let c = (#[trigger] es[i].children@[k])@;
            &&& self.spec_has(c)
            &&& self.spec_parent(c) == Some(es[i].branch@)
        }
        &&& forall|k1: int, k2: int|
            0 <= k1 < es[i].children@.len() && 0 <= k2 < es[i].children@.len() && k1 != k2
                ==> (#[trigger] es[i].children@[k1])@ != (#[trigger] es[i].children@[k2])@
    }

    /// No two entries share a key.
    spec fn keys_distinct(self) -> bool {
        let es = self.entries@;
        forall|i: int, j: int|
            0 <= i < es.len() && 0 <= j < es.len() && i != j ==> (#[trigger] es[i]).branch@ != (
            #[trigger] es[j]).branch@
    }

    /// The store's invariant: unique keys and mutually consistent
    /// parent/children links that never name the trunk as a parent.
    pub closed spec fn wf(self) -> bool {
        let es = self.entries@;
        &&& self.keys_distinct()
        &&& forall|i: int| 0 <= i < es.len() ==> #[trigger] self.parent_ok(i)
        &&& forall|i: int| 0 <= i < es.len() ==> #[trigger] self.children_ok(i)
    }

    /// Records `diffbase` as the parent of `branch`: detaches `branch` from
    /// any previous parent's children, attaches it to `diffbase`'s, creates
    /// missing entries for either side, and refuses the trunk as a parent.
    pub fn set_diffbase_quiet(&mut self, branch: &str, diffbase: &str) -> (r: Result<
        (),
        Error,
    >)
        requires
            old(self).wf(),
        ensures
            final(self).wf(),
            match r {
                Result::Err(e) => {
                    &&& e.kind == ErrorKind::BranchCantBeDiffbase
                    &&& e.description@ == diffbase@ + " cannot be a diffbase."@
                    &&& diffbase@ == old(self).trunk()
                    &&& *final(self) == *old(self)
                },
                Result::Ok(u) => {
                    &&& diffbase@ != old(self).trunk()
                    &&& set_diffbase_post(*old(self), *final(self), branch@, diffbase@)
                },
            },
    {
        if str_eq(diffbase, self.main_branch.as_str()) {
            return Err(Error::branch_cant_be_diffbase(diffbase));
        }
        let branch_is_diffbase = str_eq(branch, diffbase);
        let n = self.entries.len();
        let mut out: Vec<Entry> = Vec::new();
        let mut saw_branch = false;
        let mut saw_diffbase = false;
        let mut i: usize = 0;
        while i < n
            invariant
                i <= n,
                n == self.entries@.len(),
                out@.len() == i,
                forall|k: int|
                    0 <= k < i ==> (#[trigger] out@[k]).branch@ == self.entries@[k].branch@,
                forall|k: int|
                    0 <= k < i ==> (#[trigger] out@[k]).parent.deep_view() == (
                    if self.entries@[k].branch@ == branch@ {
                        Some(diffbase@)
                    } else {
                        self.entries@[k].parent.deep_view()
                    }),
                forall|k: int|
                    0 <= k < i ==> (#[trigger] out@[k]).children.deep_view() == (
                    if self.entries@[k].branch@ == diffbase@ {
                        remove_name(
                            self.entries@[k].children.deep_view(),
                            branch@,
                        ).push(branch@)
                    } else {
                        remove_name(self.entries@[k].children.deep_view(), branch@)
                    }),
                forall|k: int|
                    0 <= k < i ==> (#[trigger] out@[k]).merge_request
                        == self.entries@[k].merge_request,
                saw_branch <==> exists|k: int|
                    0 <= k < i && (#[trigger] self.entries@[k]).branch@ == branch@,
                saw_diffbase <==> exists|k: int|
                    0 <= k < i && (#[trigger] self.entries@[k]).branch@ == diffbase@,
            decreases n - i,
        {
            let e = &self.entries[i];
            let is_branch = str_eq(e.branch.as_str(), branch);
            let is_diffbase = str_eq(e.branch.as_str(), diffbase);
            let new_parent = if is_branch {
                Some(diffbase.to_owned())
            } else {
                clone_opt_string(&e.parent)
            };
            let mut new_children = remove_first_str(&e.children, branch);
            if is_diffbase {
                new_children.push(branch.to_owned());
            }
            let ne = Entry {
                branch: e.branch.clone(),
                parent: new_parent,
                children: new_children,
                merge_request: clone_opt_mr(&e.merge_request),
            };
            out.push(ne);
            saw_branch = saw_branch || is_branch;
            saw_diffbase = saw_diffbase || is_diffbase;
            i = i + 1;
        }
        let ghost mapped = out@;
        if !saw_branch {
            let mut ch: Vec<String> = Vec::new();
            if branch_is_diffbase {
                ch.push(branch.to_owned());
            }
            proof {
                if branch@ == diffbase@ {
                    assert(ch.deep_view() =~= seq![branch@]);
                } else {
                    assert(ch.deep_view() =~= Seq::<Seq<char>>::empty());
                }
            }
            let ne = Entry {
                branch: branch.to_owned(),
                parent: Some(diffbase.to_owned()),
                children: ch,
                merge_request: None,
            };
            proof {
                assert(ne.parent.deep_view() == Some(diffbase@));
            }
            out.push(ne);
        }
        if !saw_diffbase && !branch_is_diffbase {
            let mut ch: Vec<String> = Vec::new();
            ch.push(branch.to_owned());
            proof {
                assert(ch.deep_view() =~= seq![branch@]);
            }
            out.push(
                Entry {
                    branch: diffbase.to_owned(),
                    parent: None,
                    children: ch,
                    merge_request: None,
                },
            );
        }
        let ghost pre = *old(self);
        self.entries = out;
        proof {
            assert(forall|k: int|
                0 <= k < self.entries@.len() && k >= pre.entries@.len()
                    ==> !pre.spec_has((#[trigger] self.entries@[k]).branch@));
            if saw_branch {
                let k = choose|k: int|
                    0 <= k < pre.entries@.len() && (#[trigger] pre.entries@[k]).branch@
                        == branch@;
                assert(self.entries@[k].branch@ == branch@);
            } else {
                assert(self.entries@[mapped.len() as int].branch@ == branch@);
            }
            assert(self.spec_has(branch@));
            if saw_diffbase {
                let k = choose|k: int|
                    0 <= k < pre.entries@.len() && (#[trigger] pre.entries@[k]).branch@
                        == diffbase@;
                assert(self.entries@[k].branch@ == diffbase@);
                assert(self.spec_has(diffbase@));
            } else if branch@ == diffbase@ {
                assert(self.spec_has(diffbase@));
            } else {
                let at = if saw_branch {
                    mapped.len() as int
                } else {
                    mapped.len() as int + 1
                };
                assert(self.entries@[at].branch@ == diffbase@);
                assert(self.spec_has(diffbase@));
            }
            lemma_set_diffbase_rebuild(pre, *self, branch@, diffbase@);
        }
        Ok(())
    }

    /// Records `diffbase` as the parent of `branch`. Printing the notice is
    /// the caller's concern; the store semantics are those of
    /// [`Diffbase::set_diffbase_quiet`].
    pub fn set_diffbase(&mut self, branch: &str, diffbase: &str) -> (r: Result<(), Error>)
        requires
            old(self).wf(),
        ensures
            final(self).wf(),
            match r {
                Result::Err(e) => {
                    &&& e.kind == ErrorKind::BranchCantBeDiffbase
                    &&& e.description@ == diffbase@ + " cannot be a diffbase."@
                    &&& diffbase@ == old(self).trunk()
                    &&& *final(self) == *old(self)
                },
                Result::Ok(u) => {
                    &&& diffbase@ != old(self).trunk()
                    &&& set_diffbase_post(*old(self), *final(self), branch@, diffbase@)
                },
            },
    {
        self.set_diffbase_quiet(branch, diffbase)
    }

    /// Tracks `mr` as the merge or pull request of `branch`, creating the
    /// entry when the branch is new to the store.
    pub fn set_merge_request(&mut self, branch: &str, mr: MergeRequest)
        requires
            old(self).wf(),
        ensures
            final(self).wf(),
            final(self).trunk() == old(self).trunk(),
            forall|b: Seq<char>|
                final(self).spec_has(b) <==> old(self).spec_has(b) || b == branch@,
            final(self).spec_mr(branch@) == Some(mr),
            forall|b: Seq<char>|
                b != branch@ ==> final(self).spec_mr(b) == old(self).spec_mr(b),
            forall|b: Seq<char>| final(self).spec_parent(b) == old(self).spec_parent(b),
            forall|b: Seq<char>|
                final(self).spec_children(b) == old(self).spec_children(b),
    {
        let ghost pre = *self;
        match self.find_entry(branch) {
            Some(i) => {
                proof {
                    pre.lemma_idx_unique(i as int);
                }
                self.entries[i].merge_request = Some(mr);
                proof {
                    lemma_mr_update(pre, *self, branch@, i as int);
                }
            },
            None => {
                self.entries.push(
                    Entry {
                        branch: branch.to_owned(),
                        parent: None,
                        children: Vec::new(),
                        merge_request: Some(mr),
                    },
                );
                proof {
                    lemma_mr_append(pre, *self, branch@);
                }
            },
        }
    }

    /// Tracks a GitHub pull request for `branch`.
    pub fn set_github_pr(&mut self, branch: &str, pr: github::PullRequestId)
        requires
            old(self).wf(),
        ensures
            final(self).wf(),
            final(self).trunk() == old(self).trunk(),
            forall|b: Seq<char>|
                final(self).spec_has(b) <==> old(self).spec_has(b) || b == branch@,
            final(self).spec_mr(branch@) == Some(MergeRequest::GitHub(pr)),
            forall|b: Seq<char>|
                b != branch@ ==> final(self).spec_mr(b) == old(self).spec_mr(b),
            forall|b: Seq<char>| final(self).spec_parent(b) == old(self).spec_parent(b),
            forall|b: Seq<char>|
                final(self).spec_children(b) == old(self).spec_children(b),
    {
        self.set_merge_request(branch, MergeRequest::GitHub(pr));
    }

    /// The root within `fuel` parent steps: the walk from `b` upward, `None`
    /// when `b` is unknown or the fuel runs out before a parentless branch.
    pub closed spec fn chain_root(self, b: Seq<char>, fuel: nat) -> Option<Seq<char>>
        decreases fuel,
    {
        if !self.spec_has(b) {
            None
        } else {
            match self.spec_parent(b) {
                None => Some(b),
                Some(p) => if fuel == 0 {
                    None
                } else {
                    self.chain_root(p, (fuel - 1) as nat)
                },
            }
        }
    }

    /// Every parent chain reaches a root: the walk succeeds from every known
    /// branch within as many steps as the store has entries.
    pub open spec fn acyclic(self) -> bool {
        forall|b: Seq<char>|
            self.spec_has(b) ==> #[trigger] self.chain_root(b, self.size()) is Some
    }

    /// Whether the parent walk from `b` passes through `target` within
    /// `fuel` steps; `b` itself counts.
    pub open spec fn on_chain(self, b: Seq<char>, target: Seq<char>, fuel: nat) -> bool
        decreases fuel,
    {
        if !self.spec_has(b) {
            false
        } else if b == target {
            true
        } else {
            match self.spec_parent(b) {
                None => false,
                Some(p) => fuel > 0 && self.on_chain(p, target, (fuel - 1) as nat),
            }
        }
    }

    /// How many parent steps the walk from `b` takes before it stops, within
    /// `fuel`.
    spec fn chain_steps(self, b: Seq<char>, fuel: nat) -> nat
        decreases fuel,
    {
        if !self.spec_has(b) {
            0
        } else {
            match self.spec_parent(b) {
                None => 0,
                Some(p) => if fuel == 0 {
                    0
                } else {
                    1 + self.chain_steps(p, (fuel - 1) as nat)
                },
            }
        }
    }

    /// The ancestor of `branch` that has no diffbase — possibly `branch`
    /// itself. `Ok(None)` when `branch` is unknown; a `CorruptState` failure
    /// when the walk runs in a cycle instead of reaching a root.
    pub fn get_root(&self, branch: &str) -> (r: Result<Option<String>, Error>)
        requires
            self.wf(),
        ensures
            match r {
                Result::Ok(root) => match root {
                    Some(name) => self.spec_has(branch@) && self.chain_root(
                        branch@,
                        self.size(),
                    ) == Some(name@),
                    None => !self.spec_has(branch@),
                },
                Result::Err(e) => {
                    &&& e.kind == ErrorKind::CorruptState
                    &&& self.spec_has(branch@)
                    &&& self.chain_root(branch@, self.size()) is None
                },
            },
    {
        let n = self.entries.len();
        let mut cur = match self.find_entry(branch) {
            None => {
                return Ok(None);
            },
            Some(i) => {
                proof {
                    self.lemma_idx_unique(i as int);
                }
                self.entries[i].branch.clone()
            },
        };
        let mut steps: usize = 0;
        while steps <= n
            invariant
                self.wf(),
                steps <= n + 1,
                n == self.entries@.len(),
                self.spec_has(branch@),
                self.spec_has(cur@),
                self.chain_root(branch@, self.size()) == self.chain_root(
                    cur@,
                    (self.size() - steps) as nat,
                ),
                steps <= self.size(),
            decreases n - steps,
        {
            match self.get_parent(cur.as_str()) {
                None => {
                    return Ok(Some(cur));
                },
                Some(p) => {
                    proof {
                        let ci = self.idx(cur@);
                        assert(self.parent_ok(ci));
                        assert(self.spec_has(p@));
                    }
                    if steps == n {
                        return Err(
                            Error::corrupt_state(
                                String::from_str(
                                    "cycle detected among the stored diffbase entries.",
                                ),
                            ),
                        );
                    }
                    cur = p;
                    steps = steps + 1;
                },
            }
        }
        proof {
            assert(false);
        }
        Err(Error::corrupt_state(String::new()))
    }

    /// Renames the branch `current` to `new`: moves its entry and rewrites
    /// every parent pointer and children-list element that referenced
    /// `current`. Atomic: on a refused rename nothing is applied. Refused
    /// when `current` is unknown, when `new` is already a different known
    /// branch, or when `new` is the trunk's name (children of `current` would
    /// otherwise declare the trunk as their diffbase).
    pub fn rename(&mut self, current: &str, new: &str) -> (r: Result<(), Error>)
        requires
            old(self).wf(),
        ensures
            final(self).wf(),
            match r {
                Result::Err(e) => {
                    &&& e.kind == ErrorKind::GeneralError
                    &&& *final(self) == *old(self)
                    &&& (!old(self).spec_has(current@) || (new@ != current@ && old(
                        self,
                    ).spec_has(new@)) || new@ == old(self).trunk())
                },
                Result::Ok(u) => {
                    &&& old(self).spec_has(current@)
                    &&& (new@ == current@ || !old(self).spec_has(new@))
                    &&& new@ != old(self).trunk()
                    &&& rename_post(*old(self), *final(self), current@, new@)
                },
            },
    {
        if self.find_entry(current).is_none() {
            let d = String::from_str(current).concat(" is not a known branch.");
            return Err(Error::general(d));
        }
        if !str_eq(new, current) && self.find_entry(new).is_some() {
            let d = String::from_str(new).concat(" is already a known branch.");
            return Err(Error::general(d));
        }
        if str_eq(new, self.main_branch.as_str()) {
            let d = String::from_str(new).concat(" is the trunk branch.");
            return Err(Error::general(d));
        }
        let n = self.entries.len();
        let mut out: Vec<Entry> = Vec::new();
        let mut i: usize = 0;
        while i < n
            invariant
                i <= n,
                n == self.entries@.len(),
                out@.len() == i,
                forall|k: int|
                    0 <= k < i ==> (#[trigger] out@[k]).branch@ == subst_name(
                        self.entries@[k].branch@,
                        current@,
                        new@,
                    ),
                forall|k: int|
                    0 <= k < i ==> (#[trigger] out@[k]).parent.deep_view() == subst_opt(
                        self.entries@[k].parent.deep_view(),
                        current@,
                        new@,
                    ),
                forall|k: int|
                    0 <= k < i ==> (#[trigger] out@[k]).children.deep_view()
                        == self.entries@[k].children.deep_view().map_values(
                        |c: Seq<char>| subst_name(c, current@, new@),
                    ),
                forall|k: int|
                    0 <= k < i ==> (#[trigger] out@[k]).merge_request
                        == self.entries@[k].merge_request,
            decreases n - i,
        {
            let e = &self.entries[i];
            let nb = if str_eq(e.branch.as_str(), current) {
                new.to_owned()
            } else {
                e.branch.clone()
            };
            let np: Option<String> = match &e.parent {
                Some(p) => if str_eq(p.as_str(), current) {
                    Some(new.to_owned())
                } else {
                    Some(p.clone())
                },
                None => None,
            };
            let mut nc: Vec<String> = Vec::new();
            let m = e.children.len();
            let mut k: usize = 0;
            while k < m
                invariant
                    k <= m,
                    m == e.children@.len(),
                    nc.deep_view() =~= e.children.deep_view().take(k as int).map_values(
                        |c: Seq<char>| subst_name(c, current@, new@),
                    ),
                decreases m - k,
            {
                let ghost c0 = nc.deep_view();
                let c = &e.children[k];
                if str_eq(c.as_str(), current) {
                    nc.push(new.to_owned());
                } else {
                    nc.push(c.clone());
                }
                proof {
                    assert(nc.deep_view() =~= c0.push(
                        subst_name(e.children@[k as int]@, current@, new@),
                    ));
                    assert(nc.deep_view() =~= e.children.deep_view().take(
                        k + 1,
                    ).map_values(|c: Seq<char>| subst_name(c, current@, new@)));
                }
                k = k + 1;
            }
            proof {
                assert(e.children.deep_view().take(m as int) =~= e.children.deep_view());
            }
            let ne = Entry {
                branch: nb,
                parent: np,
                children: nc,
                merge_request: clone_opt_mr(&e.merge_request),
            };
            out.push(ne);
            i = i + 1;
        }
        let ghost pre = *old(self);
        self.entries = out;
        proof {
            lemma_rename_rebuild(pre, *self, current@, new@);
        }
        Ok(())
    }

    /// The flat snapshot of the store: one record per branch, carrying its
    /// parent and its tracked merge request. This is exactly what the caller
    /// persists; writing the file is its concern.
    pub fn to_records(&self) -> (r: Vec<DiffbaseJson>)
        requires
            self.wf(),
        ensures
            r@.len() == self.size(),
            forall|i: int|
                0 <= i < r@.len() ==> {
                    let b = (#[trigger] r@[i]).branch@;
                    &&& self.spec_has(b)
                    &&& r@[i].diffbase.deep_view() == self.spec_parent(b)
                    &&& r@[i].github_pr == self.spec_mr(b)
                },
            forall|i: int, j: int|
                0 <= i < r@.len() && 0 <= j < r@.len() && i != j ==> (
                #[trigger] r@[i]).branch@ != (#[trigger] r@[j]).branch@,
            forall|b: Seq<char>|
                self.spec_has(b) ==> exists|i: int|
                    0 <= i < r@.len() && (#[trigger] r@[i]).branch@ == b,
    {
        let n = self.entries.len();
        let mut out: Vec<DiffbaseJson> = Vec::new();
        let mut i: usize = 0;
        while i < n
            invariant
                self.wf(),
                i <= n,
                n == self.entries@.len(),
                out@.len() == i,
                forall|k: int|
                    0 <= k < i ==> (#[trigger] out@[k]).branch@ == self.entries@[k].branch@,
                forall|k: int|
                    0 <= k < i ==> (#[trigger] out@[k]).diffbase.deep_view()
                        == self.entries@[k].parent.deep_view(),
                forall|k: int|
                    0 <= k < i ==> (#[trigger] out@[k]).github_pr
                        == self.entries@[k].merge_request,
            decreases n - i,
        {
            let e = &self.entries[i];
            out.push(
                DiffbaseJson {
                    branch: e.branch.clone(),
                    diffbase: clone_opt_string(&e.parent),
                    github_pr: clone_opt_mr(&e.merge_request),
                },
            );
            i = i + 1;
        }
        proof {
            assert forall|k: int| 0 <= k < out@.len() implies {
                let b = (#[trigger] out@[k]).branch@;
                &&& self.spec_has(b)
                &&& out@[k].diffbase.deep_view() == self.spec_parent(b)
                &&& out@[k].github_pr == self.spec_mr(b)
            } by {
                self.lemma_idx_unique(k);
            }
            assert forall|b: Seq<char>| self.spec_has(b) implies exists|i: int|
                0 <= i < out@.len() && (#[trigger] out@[i]).branch@ == b by {
                let k = choose|k: int|
                    0 <= k < self.entries@.len() && (#[trigger] self.entries@[k]).branch@
                        == b;
                assert(out@[k].branch@ == b);
            }
        }
        out
    }

    /// Builds the store for one invocation: seeds an empty entry for every
    /// local branch, then merges the persisted records in, keeping parent
    /// links and merge-request associations only for branches that still
    /// exist. Records for vanished branches, unknown parents and trunk
    /// parents are dropped, never an error.
    pub fn new(
        main_branch: String,
        local_branches: &Vec<String>,
        records: &Vec<DiffbaseJson>,
    ) -> (d: Diffbase)
        requires
            forall|i: int, j: int|
                0 <= i < local_branches@.len() && 0 <= j < local_branches@.len() && i != j
                    ==> (#[trigger] local_branches@[i])@ != (#[trigger] local_branches@[j])@,
            forall|i: int, j: int|
                0 <= i < records@.len() && 0 <= j < records@.len() && i != j ==> (
                #[trigger] records@[i]).branch@ != (#[trigger] records@[j]).branch@,
        ensures
            d.wf(),
            d.trunk() == main_branch@,
            forall|b: Seq<char>|
                d.spec_has(b) <==> local_branches.deep_view().contains(b),
            forall|i: int|
                0 <= i < records@.len() && local_branches.deep_view().contains(
                    (#[trigger] records@[i]).branch@,
                ) ==> {
                    &&& d.spec_mr(records@[i].branch@) == records@[i].github_pr
                    &&& d.spec_parent(records@[i].branch@) == loaded_parent(
                        records@[i],
                        local_branches.deep_view(),
                        main_branch@,
                    )
                },
            forall|b: Seq<char>|
                local_branches.deep_view().contains(b) && !has_record(records@, b) ==> d.spec_parent(
                    b,
                ) is None && d.spec_mr(b) is None,
    {
        let ghost main0 = main_branch@;
        let ghost locals = local_branches.deep_view();
        let mut d = Diffbase { main_branch, entries: Vec::new() };
        let n = local_branches.len();
        let mut i: usize = 0;
        while i < n
            invariant
                i <= n,
                n == local_branches@.len(),
                d.main_branch@ == main0,
                d.entries@.len() == i,
                forall|k: int|
                    0 <= k < i ==> (#[trigger] d.entries@[k]).branch@
                        == local_branches@[k]@,
                forall|k: int|
                    0 <= k < i ==> (#[trigger] d.entries@[k]).parent is None,
                forall|k: int|
                    0 <= k < i ==> (#[trigger] d.entries@[k]).children@.len() == 0,
                forall|k: int|
                    0 <= k < i ==> (#[trigger] d.entries@[k]).merge_request is None,
                forall|k1: int, k2: int|
                    0 <= k1 < local_branches@.len() && 0 <= k2 < local_branches@.len()
                        && k1 != k2 ==> (#[trigger] local_branches@[k1])@ != (
                    #[trigger] local_branches@[k2])@,
            decreases n - i,
        {
            d.entries.push(
                Entry {
                    branch: local_branches[i].clone(),
                    parent: None,
                    children: Vec::new(),
                    merge_request: None,
                },
            );
            i = i + 1;
        }
        proof {
            assert(d.wf()) by {
                assert(d.keys_distinct());
                assert(forall|k: int|
                    0 <= k < d.entries@.len() ==> #[trigger] d.parent_ok(k));
                assert(forall|k: int|
                    0 <= k < d.entries@.len() ==> #[trigger] d.children_ok(k));
            }
            assert forall|b: Seq<char>| d.spec_has(b) <==> locals.contains(b) by {
                if d.spec_has(b) {
                    let k = choose|k: int|
                        0 <= k < d.entries@.len() && (#[trigger] d.entries@[k]).branch@
                            == b;
                    assert(locals[k] == b);
                }
                if locals.contains(b) {
                    let k = choose|k: int| 0 <= k < locals.len() && locals[k] == b;
                    assert(d.entries@[k].branch@ == b);
                }
            }
            assert forall|b: Seq<char>|
                locals.contains(b) implies d.spec_parent(b) is None && d.spec_mr(
                b,
            ) is None by {
                let k = choose|k: int|
                    0 <= k < d.entries@.len() && (#[trigger] d.entries@[k]).branch@ == b;
                d.lemma_idx_unique(k);
            }
        }
        let m = records.len();
        let mut j: usize = 0;
        while j < m
            invariant
                j <= m,
                m == records@.len(),
                d.wf(),
                d.trunk() == main0,
                forall|b: Seq<char>| d.spec_has(b) <==> locals.contains(b),
                forall|i2: int, j2: int|
                    0 <= i2 < records@.len() && 0 <= j2 < records@.len() && i2 != j2 ==> (
                    #[trigger] records@[i2]).branch@ != (#[trigger] records@[j2]).branch@,
                forall|i2: int|
                    0 <= i2 < j && locals.contains((#[trigger] records@[i2]).branch@)
                        ==> {
                        &&& d.spec_mr(records@[i2].branch@) == records@[i2].github_pr
                        &&& d.spec_parent(records@[i2].branch@) == loaded_parent(
                            records@[i2],
                            locals,
                            main0,
                        )
                    },
                forall|b: Seq<char>|
                    locals.contains(b) && !has_record(records@.take(j as int), b)
                        ==> d.spec_parent(b) is None && d.spec_mr(b) is None,
            decreases m - j,
        {
            let rec = &records[j];
            let known = match d.find_entry(rec.branch.as_str()) {
                Some(u) => true,
                None => false,
            };
            if known {
                match &rec.github_pr {
                    Some(mr) => {
                        d.set_merge_request(rec.branch.as_str(), mr.clone());
                    },
                    None => {},
                }
                match &rec.diffbase {
                    Some(p) => {
                        let parent_known = match d.find_entry(p.as_str()) {
                            Some(u) => true,
                            None => false,
                        };
                        if parent_known {
                            match d.set_diffbase_quiet(rec.branch.as_str(), p.as_str()) {
                                Ok(u) => {},
                                Err(e) => {},
                            }
                        }
                    },
                    None => {},
                }
            }
            proof {
                assert(records@.take(j + 1).take(j as int) =~= records@.take(j as int));
                assert forall|b: Seq<char>|
                    locals.contains(b) && !has_record(records@.take(j + 1), b)
                        implies d.spec_parent(b) is None && d.spec_mr(b) is None by {
                    assert(!has_record(records@.take(j as int), b)) by {
                        if has_record(records@.take(j as int), b) {
                            let k = choose|k: int|
                                0 <= k < j && (#[trigger] records@.take(j as int)[k]).branch@
                                    == b;
                            assert(records@.take(j + 1)[k].branch@ == b);
                        }
                    }
                    assert(b != records@[j as int].branch@) by {
                        if b == records@[j as int].branch@ {
                            assert(records@.take(j + 1)[j as int].branch@ == b);
                        }
                    }
                }
            }
            j = j + 1;
        }
        proof {
            assert(records@.take(m as int) =~= records@);
        }
        d
    }

    /// The position of `branch`'s entry, if the store knows it.
    fn find_entry(&self, branch: &str) -> (r: Option<usize>)
        ensures
            match r {
                Some(i) => i < self.entries@.len() && self.entries@[i as int].branch@
                    == branch@,
                None => !self.spec_has(branch@),
            },
    {
        let n = self.entries.len();
        let mut i: usize = 0;
        while i < n
            invariant
                i <= n,
                n == self.entries@.len(),
                forall|j: int| 0 <= j < i ==> (#[trigger] self.entries@[j]).branch@ != branch@,
            decreases n - i,
        {
            if str_eq(self.entries[i].branch.as_str(), branch) {
                return Some(i);
            }
            i = i + 1;
        }
        None
    }

    /// Under the invariant, an entry whose key matches is the entry the spec
    /// layer speaks of.
    proof fn lemma_idx_unique(self, i: int)
        requires
            self.keys_distinct(),
            0 <= i < self.entries@.len(),
        ensures
            self.spec_has(self.entries@[i].branch@),
            self.idx(self.entries@[i].branch@) == i,
    {
        let b = self.entries@[i].branch@;
        assert(self.spec_has(b));
        let j = self.idx(b);
        assert(0 <= j < self.entries@.len() && self.entries@[j].branch@ == b);
        if i != j {
            assert(self.entries@[i].branch@ != self.entries@[j].branch@);
        }
    }

    /// The name of the parent branch; `None` when `branch` is unknown or has
    /// no recorded parent.
    pub fn get_parent(&self, branch: &str) -> (r: Option<String>)
        requires
            self.wf(),
        ensures
            r.deep_view() == self.spec_parent(branch@),
    {
        match self.find_entry(branch) {
            None => None,
            Some(i) => {
                proof {
                    self.lemma_idx_unique(i as int);
                }
                match &self.entries[i].parent {
                    Some(p) => Some(p.clone()),
                    None => None,
                }
            },
        }
    }

    /// All children of `branch`; `None`, distinct from empty, when `branch`
    /// is not in the diffbase list.
    pub fn get_children(&self, branch: &str) -> (r: Option<Vec<String>>)
        requires
            self.wf(),
        ensures
            match r {
                Some(v) => self.spec_has(branch@) && v.deep_view() == self.spec_children(
                    branch@,
                ),
                None => !self.spec_has(branch@),
            },
    {
        match self.find_entry(branch) {
            None => None,
            Some(i) => {
                proof {
                    self.lemma_idx_unique(i as int);
                }
                let mut out: Vec<String> = Vec::new();
                let e = &self.entries[i];
                let n = e.children.len();
                let mut k: usize = 0;
                while k < n
                    invariant
                        k <= n,
                        n == e.children@.len(),
                        out.deep_view() =~= e.children.deep_view().take(k as int),
                    decreases n - k,
                {
                    let ghost o0 = out.deep_view();
                    out.push(e.children[k].clone());
                    proof {
                        assert(out.deep_view() =~= o0.push(e.children@[k as int]@));
                        assert(out.deep_view() =~= e.children.deep_view().take(k + 1));
                    }
                    k = k + 1;
                }
                proof {
                    assert(e.children.deep_view().take(n as int) =~= e.children.deep_view());
                }
                Some(out)
            },
        }
    }

    /// The GitHub pull request tracked for `branch`, if one is.
    pub fn get_github_pr(&self, branch: &str) -> (r: Option<github::PullRequestId>)
        requires
            self.wf(),
        ensures
            r == match self.spec_mr(branch@) {
                Some(MergeRequest::GitHub(pr)) => Some(pr),
                _ => None::<github::PullRequestId>,
            },
    {
        match self.get_merge_request(branch) {
            Some(MergeRequest::GitHub(pr)) => Some(pr),
            _ => None,
        }
    }

    /// The merge or pull request tracked for `branch`, if one is.
    pub fn get_merge_request(&self, branch: &str) -> (r: Option<MergeRequest>)
        requires
            self.wf(),
        ensures
            r == self.spec_mr(branch@),
    {
        match self.find_entry(branch) {
            None => None,
            Some(i) => {
                proof {
                    self.lemma_idx_unique(i as int);
                }
                match &self.entries[i].merge_request {
                    Some(mr) => Some(mr.clone()),
                    None => None,
                }
            },
        }
    }
}

/// A sequence of names with no repeats.
pub open spec fn distinct_names(s: Seq<Seq<char>>) -> bool {
    forall|k1: int, k2: int|
        0 <= k1 < s.len() && 0 <= k2 < s.len() && k1 != k2 ==> s[k1] != s[k2]
}

/// `s` with the first occurrence of `x` removed.
pub open spec fn remove_name(s: Seq<Seq<char>>, x: Seq<char>) -> Seq<Seq<char>>
    decreases s.len(),
{
    if s.len() == 0 {
        s
    } else if s[0] == x {
        s.skip(1)
    } else {
        seq![s[0]] + remove_name(s.skip(1), x)
    }
}

/// Removing an absent name changes nothing.
pub proof fn lemma_remove_name_absent(s: Seq<Seq<char>>, x: Seq<char>)
    requires
        !s.contains(x),
    ensures
        remove_name(s, x) == s,
    decreases s.len(),
{
    if s.len() > 0 {
        assert(s[0] != x);
        assert(s.skip(1).contains(x) ==> s.contains(x));
        lemma_remove_name_absent(s.skip(1), x);
        assert(seq![s[0]] + s.skip(1) =~= s);
    }
}

/// Removal keeps every other name, in both directions.
pub proof fn lemma_remove_name_contains(s: Seq<Seq<char>>, x: Seq<char>, y: Seq<char>)
    requires
        y != x,
    ensures
        remove_name(s, x).contains(y) <==> s.contains(y),
    decreases s.len(),
{
    if s.len() > 0 {
        if s[0] == x {
            assert(s.skip(1).contains(y) ==> s.contains(y));
            assert(s.contains(y) ==> s.skip(1).contains(y)) by {
                if s.contains(y) {
                    let i = choose|i: int| 0 <= i < s.len() && s[i] == y;
                    assert(i > 0);
                    assert(s.skip(1)[i - 1] == y);
                }
            }
        } else {
            lemma_remove_name_contains(s.skip(1), x, y);
            let r = seq![s[0]] + remove_name(s.skip(1), x);
            if s.contains(y) {
                let i = choose|i: int| 0 <= i < s.len() && s[i] == y;
                if i == 0 {
                    assert(r[0] == y);
                } else {
                    assert(s.skip(1)[i - 1] == y);
                    let j = choose|j: int|
                        0 <= j < remove_name(s.skip(1), x).len() && remove_name(s.skip(1), x)[j]
                            == y;
                    assert(r[j + 1] == y);
                }
            }
            if r.contains(y) {
                let i = choose|i: int| 0 <= i < r.len() && r[i] == y;
                if i == 0 {
                    assert(s[0] == y);
                } else {
                    assert(remove_name(s.skip(1), x)[i - 1] == y);
                    assert(s.skip(1).contains(y));
                    let j = choose|j: int| 0 <= j < s.skip(1).len() && s.skip(1)[j] == y;
                    assert(s[j + 1] == y);
                }
            }
        }
    }
}

/// Removing from a repeat-free list leaves it repeat-free and without `x`.
pub proof fn lemma_remove_name_distinct(s: Seq<Seq<char>>, x: Seq<char>)
    requires
        distinct_names(s),
    ensures
        distinct_names(remove_name(s, x)),
        !remove_name(s, x).contains(x),
    decreases s.len(),
{
    if s.len() > 0 {
        assert(distinct_names(s.skip(1))) by {
            assert(forall|k: int|
                0 <= k < s.skip(1).len() ==> s.skip(1)[k] == s[k + 1]);
        }
        if s[0] == x {
            if s.skip(1).contains(x) {
                let i = choose|i: int| 0 <= i < s.skip(1).len() && s.skip(1)[i] == x;
                assert(s[i + 1] == s[0]);
            }
        } else {
            lemma_remove_name_distinct(s.skip(1), x);
            let r = seq![s[0]] + remove_name(s.skip(1), x);
            assert forall|k1: int, k2: int|
                0 <= k1 < r.len() && 0 <= k2 < r.len() && k1 != k2 implies r[k1] != r[k2] by {
                if k1 != 0 && k2 != 0 {
                    assert(r[k1] == remove_name(s.skip(1), x)[k1 - 1]);
                    assert(r[k2] == remove_name(s.skip(1), x)[k2 - 1]);
                } else {
                    let k = if k1 == 0 {
                        k2
                    } else {
                        k1
                    };
                    assert(r[k] == remove_name(s.skip(1), x)[k - 1]);
                    lemma_remove_name_contains(s.skip(1), x, s[0]);
                    if r[k] == s[0] {
                        assert(remove_name(s.skip(1), x).contains(s[0]));
                        assert(s.skip(1).contains(s[0]));
                        let j = choose|j: int|
                            0 <= j < s.skip(1).len() && s.skip(1)[j] == s[0];
                        assert(s[j + 1] == s[0]);
                    }
                }
            }
            if r.contains(x) {
                let i = choose|i: int| 0 <= i < r.len() && r[i] == x;
                assert(i > 0);
                assert(remove_name(s.skip(1), x)[i - 1] == x);
                assert(remove_name(s.skip(1), x).contains(x));
            }
        }
    }
}

/// How removal interacts with appending one name at the end.
pub proof fn lemma_remove_name_push(s: Seq<Seq<char>>, x: Seq<char>, e: Seq<char>)
    ensures
        remove_name(s.push(e), x) == if s.contains(x) {
            remove_name(s, x).push(e)
        } else if e == x {
            s
        } else {
            s.push(e)
        },
    decreases s.len(),
{
    if s.len() == 0 {
        if e == x {
            assert(s.push(e)[0] == x);
            assert(remove_name(s.push(e), x) =~= s);
        } else {
            assert(remove_name(s.push(e), x) =~= seq![e] + remove_name(
                s.push(e).skip(1),
                x,
            ));
            assert(s.push(e).skip(1) =~= Seq::<Seq<char>>::empty());
            assert(remove_name(s.push(e), x) =~= s.push(e));
        }
    } else {
        assert(s.push(e)[0] == s[0]);
        assert(s.push(e).skip(1) =~= s.skip(1).push(e));
        if s[0] == x {
            assert(s.contains(x));
            assert(remove_name(s.push(e), x) =~= s.push(e).skip(1));
            assert(remove_name(s, x).push(e) =~= s.skip(1).push(e));
        } else {
            lemma_remove_name_push(s.skip(1), x, e);
            if s.skip(1).contains(x) {
                assert(s.contains(x)) by {
                    let i = choose|i: int|
                        0 <= i < s.skip(1).len() && s.skip(1)[i] == x;
                    assert(s[i + 1] == x);
                }
                assert(remove_name(s.push(e), x) =~= remove_name(s, x).push(e));
            } else {
                if s.contains(x) {
                    let i = choose|i: int| 0 <= i < s.len() && s[i] == x;
                    assert(i > 0);
                    assert(s.skip(1)[i - 1] == x);
                }
                if e == x {
                    assert(remove_name(s.push(e), x) =~= s);
                } else {
                    assert(remove_name(s.push(e), x) =~= s.push(e));
                }
            }
        }
    }
}

/// Removes the first occurrence of `x` from a list of names.
fn remove_first_str(v: &Vec<String>, x: &str) -> (r: Vec<String>)
    ensures
        r.deep_view() == remove_name(v.deep_view(), x@),
{
    let mut out: Vec<String> = Vec::new();
    let mut removed = false;
    let mut i: usize = 0;
    proof {
        assert(v.deep_view().take(0) =~= Seq::<Seq<char>>::empty());
    }
    while i < v.len()
        invariant
            i <= v@.len(),
            removed == v.deep_view().take(i as int).contains(x@),
            out.deep_view() == remove_name(v.deep_view().take(i as int), x@),
        decreases v@.len() - i,
    {
        let ghost pref = v.deep_view().take(i as int);
        proof {
            assert(v.deep_view().take(i + 1) =~= pref.push(v@[i as int]@));
            lemma_remove_name_push(pref, x@, v@[i as int]@);
            if v.deep_view().take(i + 1).contains(x@) {
                let k = choose|k: int|
                    0 <= k < i + 1 && #[trigger] v.deep_view().take(i + 1)[k] == x@;
                if k < i {
                    assert(pref[k] == x@);
                }
            }
            if pref.contains(x@) {
                let k = choose|k: int| 0 <= k < i && pref[k] == x@;
                assert(v.deep_view().take(i + 1)[k] == x@);
            } else {
                lemma_remove_name_absent(pref, x@);
            }
            if v@[i as int]@ == x@ {
                assert(v.deep_view().take(i + 1)[i as int] == x@);
            }
        }
        let keep = removed || !str_eq(v[i].as_str(), x);
        if keep {
            let ghost o0 = out.deep_view();
            out.push(v[i].clone());
            proof {
                assert(out.deep_view() =~= o0.push(v@[i as int]@));
            }
        } else {
            removed = true;
        }
        proof {
            if v@[i as int]@ == x@ && !pref.contains(x@) {
                assert(remove_name(v.deep_view().take(i + 1), x@) =~= pref);
            }
        }
        i = i + 1;
    }
    proof {
        assert(v.deep_view().take(v@.len() as int) =~= v.deep_view());
    }
    out
}

/// Clones an optional branch name.
fn clone_opt_string(o: &Option<String>) -> (r: Option<String>)
    ensures
        r == *o,
{
    match o {
        Some(s) => Some(s.clone()),
        None => None,
    }
}

/// Clones an optional merge-request reference.
fn clone_opt_mr(o: &Option<MergeRequest>) -> (r: Option<MergeRequest>)
    ensures
        r == *o,
{
    match o {
        Some(mr) => Some(mr.clone()),
        None => None,
    }
}

/// How a successful `set_diffbase` changes the store: `branch` now hangs off
/// `parent`, `branch` left its previous parent's children, every other
/// relation is untouched, and entries exist for both sides.
pub open spec fn set_diffbase_post(
    pre: Diffbase,
    post: Diffbase,
    branch: Seq<char>,
    parent: Seq<char>,
) -> bool {
    &&& post.trunk() == pre.trunk()
    &&& (forall|b: Seq<char>|
        post.spec_has(b) <==> pre.spec_has(b) || b == branch || b == parent)
    &&& post.spec_parent(branch) == Some(parent)
    &&& (forall|b: Seq<char>| b != branch ==> post.spec_parent(b) == pre.spec_parent(b))
    &&& post.spec_children(parent) == remove_name(pre.spec_children(parent), branch).push(
        branch,
    )
    &&& (forall|b: Seq<char>|
        b != parent ==> post.spec_children(b) == remove_name(
            pre.spec_children(b),
            branch,
        ))
    &&& (forall|b: Seq<char>| post.spec_mr(b) == pre.spec_mr(b))
}

/// The value an `--opt=value` token carries: the piece between the first and
/// the second equals sign.
pub open spec fn eq_value(a: Seq<char>) -> Seq<char> {
    split_seq(a, '=')[1]
}

/// Argument scanning never runs off the end: an option token without an
/// equals sign is always followed by its value.
pub open spec fn args_scan_wf(name: Option<Seq<char>>, args: Seq<Seq<char>>) -> bool
    decreases args.len(),
{
    if args.len() == 0 {
        true
    } else if name is Some && starts_with(args[0], name->0) {
        if args[0].contains('=') {
            args_scan_wf(name, args.skip(1))
        } else {
            args.len() >= 2 && args_scan_wf(name, args.skip(2))
        }
    } else {
        args_scan_wf(name, args.skip(1))
    }
}

/// What argument scanning yields: the value following the named option (its
/// last occurrence wins, in `--opt value` or `--opt=value` form), the other
/// flag-like tokens, and the positional arguments, each in order.
pub open spec fn args_scan(name: Option<Seq<char>>, args: Seq<Seq<char>>) -> (
    Option<Seq<char>>,
    Seq<Seq<char>>,
    Seq<Seq<char>>,
)
    decreases args.len(),
{
    if args.len() == 0 {
        (None, Seq::empty(), Seq::empty())
    } else if name is Some && starts_with(args[0], name->0) {
        if args[0].contains('=') {
            let rest = args_scan(name, args.skip(1));
            let v = if rest.0 is Some {
                rest.0
            } else {
                Some(eq_value(args[0]))
            };
            (v, rest.1, rest.2)
        } else if args.len() >= 2 {
            let rest = args_scan(name, args.skip(2));
            let v = if rest.0 is Some {
                rest.0
            } else {
                Some(args[1])
            };
            (v, rest.1, rest.2)
        } else {
            (None, Seq::empty(), Seq::empty())
        }
    } else if args[0].len() > 0 && args[0][0] == '-' {
        let rest = args_scan(name, args.skip(1));
        (rest.0, seq![args[0]] + rest.1, rest.2)
    } else {
        let rest = args_scan(name, args.skip(1));
        (rest.0, rest.1, seq![args[0]] + rest.2)
    }
}

/// A string containing `c` splits into at least two segments at `c`.
proof fn lemma_split_two(s: Seq<char>, c: char)
    requires
        s.contains(c),
    ensures
        split_seq(s, c).len() >= 2,
    decreases s.len(),
{
    crate::text::lemma_split_seq_len(s.skip(1), c);
    if s[0] != c {
        let i = choose|i: int| 0 <= i < s.len() && s[i] == c;
        assert(s.skip(1)[i - 1] == c);
        assert(s.skip(1).contains(c));
        lemma_split_two(s.skip(1), c);
    }
}

/// Separates the value of the named option from the other flag-like tokens
/// and the positional arguments, scanning from position `i`.
fn extract_from(name: Option<&str>, args: &Vec<String>, i: usize) -> (r: (
    Option<String>,
    Vec<String>,
    Vec<String>,
))
    requires
        i <= args@.len(),
        args_scan_wf(name.deep_view(), args.deep_view().skip(i as int)),
    ensures
        ({
            let spec = args_scan(name.deep_view(), args.deep_view().skip(i as int));
            &&& r.0.deep_view() == spec.0
            &&& r.1.deep_view() == spec.1
            &&& r.2.deep_view() == spec.2
        }),
    decreases args@.len() - i,
{
    let ghost tail = args.deep_view().skip(i as int);
    if i == args.len() {
        proof {
            assert(tail =~= Seq::<Seq<char>>::empty());
        }
        return (None, Vec::new(), Vec::new());
    }
    let a = &args[i];
    proof {
        assert(tail[0] == a@);
        assert(tail.skip(1) =~= args.deep_view().skip(i + 1));
    }
    let named = match name {
        Some(nm) => str_starts_with(a.as_str(), nm),
        None => false,
    };
    if named {
        if str_contains_char(a.as_str(), '=') {
            let parts = split_char(a.as_str(), '=');
            proof {
                lemma_split_two(a@, '=');
            }
            let v = parts[1].clone();
            let (rv, ign, pos) = extract_from(name, args, i + 1);
            let value = match rv {
                Some(w) => Some(w),
                None => Some(v),
            };
            (value, ign, pos)
        } else {
            proof {
                assert(tail.len() >= 2);
                assert(tail.skip(2) =~= args.deep_view().skip(i + 2));
                assert(tail[1] == args.deep_view()[i + 1]);
            }
            let v = args[i + 1].clone();
            let (rv, ign, pos) = extract_from(name, args, i + 2);
            let value = match rv {
                Some(w) => Some(w),
                None => Some(v),
            };
            (value, ign, pos)
        }
    } else {
        let dash = a.as_str().unicode_len() > 0 && a.as_str().get_char(0) == '-';
        let (rv, mut ign, mut pos) = extract_from(name, args, i + 1);
        if dash {
            let ghost g0 = ign.deep_view();
            ign.insert(0, a.clone());
            proof {
                assert(ign.deep_view() =~= seq![a@] + g0);
            }
        } else {
            let ghost p0 = pos.deep_view();
            pos.insert(0, a.clone());
            proof {
                assert(pos.deep_view() =~= seq![a@] + p0);
            }
        }
        (rv, ign, pos)
    }
}

/// Separates (a) the value following the named option — both `--opt value`
/// and `--opt=value` forms — (b) the other flag-like tokens, and (c) the
/// positional arguments, preserving relative order within each bucket.
pub fn extract_option(name: Option<&str>, args: &Vec<String>) -> (r: (
    Option<String>,
    Vec<String>,
    Vec<String>,
))
    requires
        args_scan_wf(name.deep_view(), args.deep_view()),
    ensures
        ({
            let spec = args_scan(name.deep_view(), args.deep_view());
            &&& r.0.deep_view() == spec.0
            &&& r.1.deep_view() == spec.1
            &&& r.2.deep_view() == spec.2
        }),
{
    proof {
        assert(args.deep_view().skip(0) =~= args.deep_view());
    }
    extract_from(name, args, 0)
}

/// Scanning with no option name asks nothing of the arguments.
proof fn lemma_scan_wf_unnamed(args: Seq<Seq<char>>)
    ensures
        args_scan_wf(None, args),
    decreases args.len(),
{
    if args.len() > 0 {
        lemma_scan_wf_unnamed(args.skip(1));
    }
}

/// Reads one boolean flag, given by its short and long spelling, out of the
/// arguments: `Some(set)` when every dash token is that flag, `None` when an
/// unrecognized option appears. Non-dash tokens are ignored.
pub open spec fn flag_scan(args: Seq<Seq<char>>, short: Seq<char>, long: Seq<char>) -> Option<
    bool,
>
    decreases args.len(),
{
    if args.len() == 0 {
        Some(false)
    } else {
        let rest = flag_scan(args.skip(1), short, long);
        if args[0] == short || args[0] == long {
            match rest {
                Some(b) => Some(true),
                None => None,
            }
        } else if args[0].len() > 0 && args[0][0] == '-' {
            None
        } else {
            rest
        }
    }
}

/// Scans the arguments from position `start` for one boolean flag.
fn scan_flag(args: &Vec<String>, start: usize, short: &str, long: &str) -> (r: Option<
    bool,
>)
    requires
        start <= args@.len(),
    ensures
        r == flag_scan(args.deep_view().skip(start as int), short@, long@),
    decreases args@.len() - start,
{
    let ghost tail = args.deep_view().skip(start as int);
    if start == args.len() {
        proof {
            assert(tail =~= Seq::<Seq<char>>::empty());
        }
        return Some(false);
    }
    proof {
        assert(tail[0] == args.deep_view()[start as int]);
        assert(tail.skip(1) =~= args.deep_view().skip(start as int + 1));
    }
    let a = &args[start];
    let rest = scan_flag(args, start + 1, short, long);
    if str_eq(a.as_str(), short) || str_eq(a.as_str(), long) {
        match rest {
            Some(b) => Some(true),
            None => None,
        }
    } else if a.as_str().unicode_len() > 0 && a.as_str().get_char(0) == '-' {
        None
    } else {
        rest
    }
}

/// What the intercepted checkout should do once the store is updated.
#[derive(Debug)]
pub enum CheckoutAction {
    /// Check the named branch out directly.
    Plain(String),
    /// Hand the literal command line to git unchanged.
    Delegate,
}

/// Intercepts `g merge <branch>`: for exactly one positional argument and no
/// options, best-effort records `<branch>` as the current branch's diffbase —
/// a refused trunk parent is swallowed — before the caller delegates the
/// literal merge to git.
pub fn handle_merge(args: &Vec<String>, current_branch: &str, diffbase: &mut Diffbase) -> (r:
    Result<(), Error>)
    requires
        old(diffbase).wf(),
        args@.len() >= 1,
    ensures
        final(diffbase).wf(),
        r is Ok,
        ({
            let scan = args_scan(None, args.deep_view().skip(1));
            if scan.1.len() == 0 && scan.2.len() == 1 && scan.2[0] != old(
                diffbase,
            ).trunk() {
                set_diffbase_post(
                    *old(diffbase),
                    *final(diffbase),
                    current_branch@,
                    scan.2[0],
                )
            } else {
                *final(diffbase) == *old(diffbase)
            }
        }),
{
    proof {
        lemma_scan_wf_unnamed(args.deep_view().skip(1));
    }
    let (v, ignored_options, positional_args) = extract_from(None, args, 1);
    if ignored_options.len() == 0 && positional_args.len() == 1 {
        match diffbase.set_diffbase(current_branch, positional_args[0].as_str()) {
            Ok(u) => {},
            Err(e) => {
                if !matches!(e.kind, ErrorKind::BranchCantBeDiffbase) {
                    return Err(e);
                }
            },
        }
    }
    Ok(())
}

/// Intercepts `g checkout [-b <new>] ...`: when `-b` names a new branch, its
/// diffbase becomes the branch checked out now (best-effort; a trunk current
/// branch is swallowed). A single positional argument with no other options
/// is checked out directly; anything else is delegated verbatim.
pub fn handle_checkout(
    args: &Vec<String>,
    current_branch: &str,
    diffbase: &mut Diffbase,
) -> (r: Result<CheckoutAction, Error>)
    requires
        old(diffbase).wf(),
        args@.len() >= 1,
        args_scan_wf(Some("-b"@), args.deep_view().skip(1)),
    ensures
        final(diffbase).wf(),
        ({
            let scan = args_scan(Some("-b"@), args.deep_view().skip(1));
            &&& match scan.0 {
                Some(nb) => if current_branch@ != old(diffbase).trunk() {
                    set_diffbase_post(*old(diffbase), *final(diffbase), nb, current_branch@)
                } else {
                    *final(diffbase) == *old(diffbase)
                },
                None => *final(diffbase) == *old(diffbase),
            }
            &&& match r {
                Result::Ok(CheckoutAction::Plain(b)) => scan.1.len() == 0 && scan.2.len()
                    == 1 && b@ == scan.2[0],
                Result::Ok(CheckoutAction::Delegate) => !(scan.1.len() == 0 && scan.2.len()
                    == 1),
                Result::Err(e) => false,
            }
        }),
{
    let (new_branch_name, ignored, positional) = extract_from(Some("-b"), args, 1);
    match new_branch_name {
        Some(nb) => {
            match diffbase.set_diffbase(nb.as_str(), current_branch) {
                Ok(u) => {},
                Err(e) => {
                    if !matches!(e.kind, ErrorKind::BranchCantBeDiffbase) {
                        return Err(e);
                    }
                },
            }
        },
        None => {},
    }
    if ignored.len() == 0 && positional.len() == 1 {
        let target = positional[0].clone();
        Ok(CheckoutAction::Plain(target))
    } else {
        Ok(CheckoutAction::Delegate)
    }
}

/// Intercepts `g branch -m <new>`: records the rename of the current branch
/// in the store, returning the new name for the caller's notice, before the
/// caller delegates the literal command.
pub fn handle_branch(
    args: &Vec<String>,
    current_branch: &str,
    diffbase: &mut Diffbase,
) -> (r: Result<Option<String>, Error>)
    requires
        old(diffbase).wf(),
        args@.len() >= 1,
        args_scan_wf(Some("-m"@), args.deep_view().skip(1)),
    ensures
        final(diffbase).wf(),
        ({
            let scan = args_scan(Some("-m"@), args.deep_view().skip(1));
            match scan.0 {
                None => r == Result::<Option<String>, Error>::Ok(None)
                    && *final(diffbase) == *old(diffbase),
                Some(nb) => {
                    if old(diffbase).spec_has(current_branch@) && (nb == current_branch@
                        || !old(diffbase).spec_has(nb)) && nb != old(diffbase).trunk() {
                        &&& r is Ok
                        &&& r->Ok_0 is Some
                        &&& (r->Ok_0->0)@ == nb
                        &&& rename_post(*old(diffbase), *final(diffbase), current_branch@, nb)
                    } else {
                        &&& r is Err
                        &&& (r->Err_0).kind == ErrorKind::GeneralError
                        &&& *final(diffbase) == *old(diffbase)
                    }
                },
            }
        }),
{
    let (new_branch_name, ignored, positional) = extract_from(Some("-m"), args, 1);
    match new_branch_name {
        Some(nb) => {
            match diffbase.rename(current_branch, nb.as_str()) {
                Ok(u) => Ok(Some(nb)),
                Err(e) => Err(e),
            }
        },
        None => Ok(None),
    }
}

/// Intercepts `g up [--root]`: names the branch to check out — the current
/// branch's parent, or with `--root` the root of its tree. A branch without
/// a diffbase is a reported error, as is an unrecognized option.
pub fn handle_up(args: &Vec<String>, current_branch: &str, diffbase: &Diffbase) -> (r:
    Result<String, Error>)
    requires
        diffbase.wf(),
        diffbase.spec_has(current_branch@),
        args@.len() >= 1,
    ensures
        match flag_scan(args.deep_view().skip(1), "-r"@, "--root"@) {
            None => r is Err && (r->Err_0).kind == ErrorKind::GeneralError && (
            r->Err_0).description@ == "unrecognized option. Usage: g up [--root]"@,
            Some(root) => if root {
                match diffbase.chain_root(current_branch@, diffbase.size()) {
                    Some(rt) => r is Ok && (r->Ok_0)@ == rt,
                    None => r is Err && (r->Err_0).kind == ErrorKind::CorruptState,
                }
            } else {
                match diffbase.spec_parent(current_branch@) {
                    Some(p) => r is Ok && (r->Ok_0)@ == p,
                    None => r is Err && (r->Err_0).kind == ErrorKind::GeneralError && (
                    r->Err_0).description@ == current_branch@ + " has no diffbase."@,
                }
            },
        },
{
    let root_flag = match scan_flag(args, 1, "-r", "--root") {
        Some(b) => b,
        None => {
            return Err(
                Error::general(
                    String::from_str("unrecognized option. Usage: g up [--root]"),
                ),
            );
        },
    };
    if root_flag {
        match tree_root(diffbase, current_branch) {
            Ok(rt) => Ok(rt),
            Err(e) => Err(e),
        }
    } else {
        match diffbase.get_parent(current_branch) {
            Some(parent) => Ok(parent),
            None => {
                let d = String::from_str(current_branch).concat(" has no diffbase.");
                Err(Error::general(d))
            },
        }
    }
}

/// The root of the current branch's tree, for a branch the store knows.
fn tree_root(diffbase: &Diffbase, current_branch: &str) -> (r: Result<String, Error>)
    requires
        diffbase.wf(),
        diffbase.spec_has(current_branch@),
    ensures
        match diffbase.chain_root(current_branch@, diffbase.size()) {
            Some(rt) => r is Ok && (r->Ok_0)@ == rt,
            None => r is Err && (r->Err_0).kind == ErrorKind::CorruptState,
        },
{
    match diffbase.get_root(current_branch) {
        Ok(Some(rt)) => Ok(rt),
        Ok(None) => {
            proof {
                assert(false);
            }
            Ok(String::new())
        },
        Err(e) => Err(e),
    }
}

/// Intercepts `g down`: names the unique branch that has the current branch
/// as its diffbase; zero or several such branches are reported errors that
/// name the contenders.
pub fn handle_down(current_branch: &str, diffbase: &Diffbase) -> (r: Result<String, Error>)
    requires
        diffbase.wf(),
        diffbase.spec_has(current_branch@),
    ensures
        ({
            let ch = diffbase.spec_children(current_branch@);
            if ch.len() == 1 {
                r is Ok && (r->Ok_0)@ == ch[0]
            } else if ch.len() == 0 {
                r is Err && (r->Err_0).kind == ErrorKind::GeneralError && (
                r->Err_0).description@ == current_branch@
                    + " has no branches that have it as diffbase."@
            } else {
                r is Err && (r->Err_0).kind == ErrorKind::GeneralError && (
                r->Err_0).description@ == current_branch@
                    + " has no unique branch that has it as diffbase. Contenders are "@
                    + join_seq(ch, ", "@) + "."@
            }
        }),
{
    let children = match diffbase.get_children(current_branch) {
        Some(c) => c,
        None => {
            proof {
                assert(false);
            }
            Vec::new()
        },
    };
    if children.len() == 1 {
        let target = children[0].clone();
        proof {
            assert(target@ == diffbase.spec_children(current_branch@)[0]);
        }
        Ok(target)
    } else if children.len() == 0 {
        let d = String::from_str(current_branch).concat(
            " has no branches that have it as diffbase.",
        );
        Err(Error::general(d))
    } else {
        let listed = join_str(&children, ", ");
        let d = String::from_str(current_branch).concat(
            " has no unique branch that has it as diffbase. Contenders are ",
        ).concat(listed.as_str()).concat(".");
        proof {
            assert(d@ =~= current_branch@
                + " has no unique branch that has it as diffbase. Contenders are "@
                + join_seq(diffbase.spec_children(current_branch@), ", "@) + "."@);
        }
        Err(Error::general(d))
    }
}

/// One step of the plan `g pullc` executes: fetch once, then walk the tree
/// from the root, pulling, merging each parent into each child, and
/// optionally pushing.
#[derive(Debug)]
pub enum PullcStep {
    /// Run `git fetch`.
    Fetch,
    /// Check the named branch out.
    Checkout(String),
    /// Run `git pull` on the branch checked out now.
    Pull,
    /// Run `git push` on the branch checked out now.
    Push,
    /// Merge the named branch into the branch checked out now.
    Merge(String),
}

/// The mathematical image of one plan step.
pub enum PullcStepSpec {
    Fetch,
    Checkout(Seq<char>),
    Pull,
    Push,
    Merge(Seq<char>),
}

impl View for PullcStep {
    type V = PullcStepSpec;

    open spec fn view(&self) -> PullcStepSpec {
        match self {
            PullcStep::Fetch => PullcStepSpec::Fetch,
            PullcStep::Checkout(b) => PullcStepSpec::Checkout(b@),
            PullcStep::Pull => PullcStepSpec::Pull,
            PullcStep::Push => PullcStepSpec::Push,
            PullcStep::Merge(b) => PullcStepSpec::Merge(b@),
        }
    }
}

impl DeepView for PullcStep {
    type V = PullcStepSpec;

    open spec fn deep_view(&self) -> PullcStepSpec {
        self.view()
    }
}

/// The steps taken on one child: check it out, pull it when it has an
/// upstream, merge its parent in, and push when asked and possible.
pub open spec fn child_steps(
    c: Seq<char>,
    parent: Seq<char>,
    ups: Seq<Seq<char>>,
    do_push: bool,
) -> Seq<PullcStepSpec> {
    seq![PullcStepSpec::Checkout(c)] + (if ups.contains(c) {
        seq![PullcStepSpec::Pull]
    } else {
        Seq::empty()
    }) + seq![PullcStepSpec::Merge(parent)] + (if do_push && ups.contains(c) {
        seq![PullcStepSpec::Push]
    } else {
        Seq::empty()
    })
}

/// The steps taken on the root before the walk: fetch, check it out, and
/// sync it with its upstream.
pub open spec fn root_steps(
    root: Seq<char>,
    ups: Seq<Seq<char>>,
    do_push: bool,
) -> Seq<PullcStepSpec> {
    seq![PullcStepSpec::Fetch, PullcStepSpec::Checkout(root)] + (if ups.contains(root) {
        seq![PullcStepSpec::Pull]
    } else {
        Seq::empty()
    }) + (if do_push && ups.contains(root) {
        seq![PullcStepSpec::Push]
    } else {
        Seq::empty()
    })
}

/// The depth-first walk below `parent`, starting at its `k`-th child: the
/// steps for each child followed by its own subtree. `None` when the fuel
/// runs out, which a tree of `fuel` branches never causes.
pub open spec fn walk_from(
    d: Diffbase,
    parent: Seq<char>,
    k: int,
    ups: Seq<Seq<char>>,
    do_push: bool,
    fuel: nat,
) -> Option<Seq<PullcStepSpec>>
    decreases fuel, d.spec_children(parent).len() - k,
{
    let kids = d.spec_children(parent);
    if k < 0 || k >= kids.len() {
        Some(Seq::empty())
    } else {
        let c = kids[k];
        let sub = if fuel == 0 {
            None
        } else {
            walk_from(d, c, 0, ups, do_push, (fuel - 1) as nat)
        };
        let rest = walk_from(d, parent, k + 1, ups, do_push, fuel);
        if sub is None || rest is None {
            None
        } else {
            Some(child_steps(c, parent, ups, do_push) + sub->0 + rest->0)
        }
    }
}

/// The branch left checked out after the steps run: the last checkout named.
pub open spec fn last_checkout(steps: Seq<PullcStepSpec>) -> Option<Seq<char>>
    decreases steps.len(),
{
    if steps.len() == 0 {
        None
    } else {
        match steps.last() {
            PullcStepSpec::Checkout(b) => Some(b),
            _ => last_checkout(steps.drop_last()),
        }
    }
}

/// The whole plan of `g pullc`: sync the root of the current branch's tree,
/// walk its subtree depth-first, and finally return to the branch the
/// invocation started on. `None` when the stored tree holds a cycle.
pub open spec fn pullc_plan(
    d: Diffbase,
    start: Seq<char>,
    ups: Seq<Seq<char>>,
    do_push: bool,
) -> Option<Seq<PullcStepSpec>> {
    match d.chain_root(start, d.size()) {
        None => None,
        Some(root) => match walk_from(d, root, 0, ups, do_push, d.size()) {
            None => None,
            Some(body) => {
                let all = root_steps(root, ups, do_push) + body;
                if last_checkout(all) == Some(start) {
                    Some(all)
                } else {
                    Some(all.push(PullcStepSpec::Checkout(start)))
                }
            },
        },
    }
}

/// A successful walk ends on a known branch that has no parent.
proof fn lemma_chain_root_props(d: Diffbase, b: Seq<char>, fuel: nat)
    requires
        d.chain_root(b, fuel) is Some,
    ensures
        d.spec_has(d.chain_root(b, fuel)->0),
        d.spec_parent(d.chain_root(b, fuel)->0) is None,
    decreases fuel,
{
    if d.spec_parent(b) is Some && fuel > 0 {
        lemma_chain_root_props(d, d.spec_parent(b)->0, (fuel - 1) as nat);
    }
}

/// A run of steps that names a checkout somewhere leaves one checked out.
proof fn lemma_last_checkout_some(steps: Seq<PullcStepSpec>, i: int)
    requires
        0 <= i < steps.len(),
        steps[i] is Checkout,
    ensures
        last_checkout(steps) is Some,
    decreases steps.len(),
{
    if !(steps.last() is Checkout) {
        assert(i < steps.len() - 1);
        lemma_last_checkout_some(steps.drop_last(), i);
    }
}

/// A walk that ends within some fuel ends the same way with more fuel, takes
/// no more steps than the fuel allowed, and already ends within exactly its
/// number of steps.
proof fn lemma_chain_mono(d: Diffbase, b: Seq<char>, f1: nat, f2: nat)
    requires
        d.chain_root(b, f1) is Some,
        f1 <= f2,
    ensures
        d.chain_root(b, f2) == d.chain_root(b, f1),
        d.chain_steps(b, f2) == d.chain_steps(b, f1),
        d.chain_steps(b, f1) <= f1,
        d.chain_root(b, d.chain_steps(b, f1)) == d.chain_root(b, f1),
    decreases f1,
{
    if d.spec_has(b) && d.spec_parent(b) is Some {
        lemma_chain_mono(d, d.spec_parent(b)->0, (f1 - 1) as nat, (f2 - 1) as nat);
    }
}

/// A node on a finished walk finishes its own walk, in no more steps.
proof fn lemma_on_chain_steps(d: Diffbase, x: Seq<char>, y: Seq<char>, f: nat)
    requires
        d.chain_root(x, f) is Some,
        d.on_chain(x, y, f),
    ensures
        d.chain_root(y, f) is Some,
        d.chain_steps(x, f) >= d.chain_steps(y, f),
    decreases f,
{
    if x != y {
        let p = d.spec_parent(x)->0;
        lemma_on_chain_steps(d, p, y, (f - 1) as nat);
        lemma_chain_mono(d, y, (f - 1) as nat, f);
    }
}

/// No branch with a parent sits on its own parent's walk.
proof fn lemma_not_own_ancestor(d: Diffbase, b: Seq<char>, f: nat)
    requires
        d.chain_root(b, f) is Some,
        d.spec_has(b),
        d.spec_parent(b) is Some,
    ensures
        !d.on_chain(d.spec_parent(b)->0, b, (f - 1) as nat),
{
    let p = d.spec_parent(b)->0;
    if d.on_chain(p, b, (f - 1) as nat) {
        assert(f > 0);
        lemma_on_chain_steps(d, p, b, (f - 1) as nat);
        lemma_chain_mono(d, b, (f - 1) as nat, f);
        assert(d.chain_steps(b, f) == 1 + d.chain_steps(p, (f - 1) as nat));
        assert(false);
    }
}

/// A finite set of known branch names is no larger than the store.
proof fn lemma_known_card(d: Diffbase, s: Set<Seq<char>>)
    requires
        s.finite(),
        forall|x: Seq<char>| s.contains(x) ==> d.spec_has(x),
    ensures
        s.len() <= d.size(),
{
    broadcast use vstd::seq_lib::seq_to_set_is_finite;

    let names = d.entries@.map_values(|e: Entry| e.branch@);
    assert forall|x: Seq<char>| s.contains(x) implies names.to_set().contains(x) by {
        let i = choose|i: int|
            0 <= i < d.entries@.len() && (#[trigger] d.entries@[i]).branch@ == x;
        assert(names[i] == x);
        assert(names.contains(x));
    }
    assert(s.subset_of(names.to_set()));
    names.lemma_cardinality_of_set();
    vstd::set_lib::lemma_len_subset(s, names.to_set());
}

/// A finished walk, kept apart from any set of known branches it avoids,
/// takes fewer steps than the store has entries beyond that set.
proof fn lemma_chain_bounded(d: Diffbase, b: Seq<char>, f: nat, banned: Set<Seq<char>>)
    requires
        d.chain_root(b, f) is Some,
        banned.finite(),
        forall|x: Seq<char>| banned.contains(x) ==> d.spec_has(x) && !d.on_chain(b, x, f),
    ensures
        d.chain_steps(b, f) + banned.len() < d.size(),
    decreases f,
{
    assert(d.spec_has(b));
    assert(d.on_chain(b, b, f));
    assert(!banned.contains(b));
    match d.spec_parent(b) {
        None => {
            let s = banned.insert(b);
            assert(forall|x: Seq<char>| s.contains(x) ==> d.spec_has(x));
            lemma_known_card(d, s);
        },
        Some(p) => {
            assert(f > 0);
            let banned2 = banned.insert(b);
            assert forall|x: Seq<char>| banned2.contains(x) implies d.spec_has(x)
                && !d.on_chain(p, x, (f - 1) as nat) by {
                if x == b {
                    lemma_not_own_ancestor(d, b, f);
                } else {
                    assert(!d.on_chain(b, x, f));
                }
            }
            lemma_chain_bounded(d, p, (f - 1) as nat, banned2);
        },
    }
}

/// A walk untouched by a `set_diffbase` — one that never passes through the
/// re-parented branch — ends exactly as it did before.
proof fn lemma_chain_transfer(
    pre: Diffbase,
    post: Diffbase,
    branch: Seq<char>,
    parent: Seq<char>,
    x: Seq<char>,
    f: nat,
)
    requires
        set_diffbase_post(pre, post, branch, parent),
        pre.chain_root(x, f) is Some,
        !pre.on_chain(x, branch, f),
    ensures
        post.chain_root(x, f) == pre.chain_root(x, f),
    decreases f,
{
    assert(pre.spec_has(x));
    assert(x != branch);
    assert(post.spec_has(x));
    assert(post.spec_parent(x) == pre.spec_parent(x));
    match pre.spec_parent(x) {
        None => {},
        Some(p) => {
            lemma_chain_transfer(pre, post, branch, parent, p, (f - 1) as nat);
        },
    }
}

/// After a `set_diffbase`, the walk from any branch ends, within a generous
/// fuel, once the new parent's own walk ends.
proof fn lemma_post_chain(
    pre: Diffbase,
    post: Diffbase,
    branch: Seq<char>,
    parent: Seq<char>,
    b: Seq<char>,
    f: nat,
    big: nat,
)
    requires
        set_diffbase_post(pre, post, branch, parent),
        pre.chain_root(b, f) is Some,
        post.chain_root(parent, big) is Some,
    ensures
        post.chain_root(b, (f + big + 1) as nat) is Some,
    decreases f,
{
    assert(pre.spec_has(b));
    assert(post.spec_has(b));
    if b == branch {
        assert(post.spec_parent(b) == Some(parent));
        lemma_chain_mono(post, parent, big, (f + big) as nat);
    } else {
        assert(post.spec_parent(b) == pre.spec_parent(b));
        match pre.spec_parent(b) {
            None => {},
            Some(p) => {
                lemma_post_chain(pre, post, branch, parent, p, (f - 1) as nat, big);
            },
        }
    }
}

/// Law: `set_diffbase(branch, parent)` keeps every root walk successful,
/// provided `branch` does not already sit on `parent`'s own walk — the
/// discipline every stacked-branch workflow follows. (Re-parenting a branch
/// onto one of its own descendants creates a cycle, which `get_root` then
/// reports as a corrupt state instead of hanging.)
pub proof fn lemma_set_diffbase_preserves_acyclic(
    pre: Diffbase,
    post: Diffbase,
    branch: Seq<char>,
    parent: Seq<char>,
)
    requires
        pre.wf(),
        post.wf(),
        pre.acyclic(),
        set_diffbase_post(pre, post, branch, parent),
        branch != parent,
        pre.spec_has(parent) ==> !pre.on_chain(parent, branch, pre.size()),
    ensures
        post.acyclic(),
{
    // The new parent's own walk in the rebuilt store.
    let big = pre.size();
    assert(post.chain_root(parent, big) is Some) by {
        if pre.spec_has(parent) {
            assert(pre.chain_root(parent, pre.size()) is Some);
            lemma_chain_transfer(pre, post, branch, parent, parent, pre.size());
            lemma_chain_mono(post, parent, pre.size(), big);
        } else {
            assert(post.spec_has(parent));
            assert(post.spec_parent(parent) == pre.spec_parent(parent));
            assert(post.spec_parent(parent) is None);
        }
    }
    assert forall|b: Seq<char>| post.spec_has(b) implies #[trigger] post.chain_root(
        b,
        post.size(),
    ) is Some by {
        let loose = (pre.size() + big + 1) as nat;
        assert(post.chain_root(b, loose) is Some) by {
            if pre.spec_has(b) {
                assert(pre.chain_root(b, pre.size()) is Some);
                lemma_post_chain(pre, post, branch, parent, b, pre.size(), big);
            } else if b == branch {
                assert(post.spec_parent(b) == Some(parent));
                lemma_chain_mono(post, parent, big, (loose - 1) as nat);
            } else {
                assert(b == parent);
                lemma_chain_mono(post, parent, big, loose);
            }
        }
        lemma_chain_bounded(post, b, loose, Set::empty());
        lemma_chain_mono(post, b, loose, loose);
        assert(post.chain_root(b, post.chain_steps(b, loose)) is Some);
        lemma_chain_mono(post, b, post.chain_steps(b, loose), post.size());
    }
}

/// A store's size is the number of branches it knows.
proof fn lemma_size_is_card(d: Diffbase)
    requires
        d.wf(),
    ensures
        Set::new(|x: Seq<char>| d.spec_has(x)).finite(),
        Set::new(|x: Seq<char>| d.spec_has(x)).len() == d.size(),
{
    broadcast use vstd::seq_lib::seq_to_set_is_finite;

    let names = d.entries@.map_values(|e: Entry| e.branch@);
    assert(names.no_duplicates());
    names.unique_seq_to_set();
    assert forall|x: Seq<char>|
        Set::new(|x: Seq<char>| d.spec_has(x)).contains(x)
            == names.to_set().contains(x) by {
        if d.spec_has(x) {
            let i = choose|i: int|
                0 <= i < d.entries@.len() && (#[trigger] d.entries@[i]).branch@ == x;
            assert(names[i] == x);
            assert(names.contains(x));
        }
        if names.to_set().contains(x) {
            let i = choose|i: int| 0 <= i < names.len() && names[i] == x;
            assert(d.entries@[i].branch@ == x);
        }
    }
    assert(Set::new(|x: Seq<char>| d.spec_has(x)) =~= names.to_set());
}

/// Two stores that know the same branches with the same parents walk every
/// chain alike.
proof fn lemma_chain_agree(a: Diffbase, b: Diffbase, x: Seq<char>, f: nat)
    requires
        forall|y: Seq<char>| a.spec_has(y) <==> b.spec_has(y),
        forall|y: Seq<char>| #[trigger] a.spec_parent(y) == b.spec_parent(y),
    ensures
        a.chain_root(x, f) == b.chain_root(x, f),
    decreases f,
{
    if a.spec_has(x) && a.spec_parent(x) is Some && f > 0 {
        lemma_chain_agree(a, b, a.spec_parent(x)->0, (f - 1) as nat);
    }
}

/// Law: rebuilding a store from its snapshot keeps the parent chains
/// acyclic — the rebuilt store walks every chain exactly as the saved one
/// did. The hypotheses are what `lemma_snapshot_round_trip` concludes.
pub proof fn lemma_round_trip_preserves_acyclic(d: Diffbase, d2: Diffbase)
    requires
        d.wf(),
        d2.wf(),
        d.acyclic(),
        forall|b: Seq<char>| d2.spec_has(b) <==> d.spec_has(b),
        forall|b: Seq<char>| #[trigger] d2.spec_parent(b) == d.spec_parent(b),
    ensures
        d2.acyclic(),
{
    lemma_size_is_card(d);
    lemma_size_is_card(d2);
    assert(Set::new(|x: Seq<char>| d.spec_has(x)) =~= Set::new(
        |x: Seq<char>| d2.spec_has(x),
    ));
    assert(d.size() == d2.size());
    assert forall|b: Seq<char>| d2.spec_has(b) implies #[trigger] d2.chain_root(
        b,
        d2.size(),
    ) is Some by {
        assert(d.chain_root(b, d.size()) is Some);
        lemma_chain_agree(d, d2, b, d.size());
    }
}

/// Law: in a store whose parent chains are acyclic — and only cycle-free
/// sequences of `set_diffbase` calls produce such stores — the root walk
/// succeeds from every known branch and ends on a known branch that has no
/// parent. `get_root` then returns exactly that branch.
pub proof fn lemma_get_root_reaches_root(d: Diffbase, b: Seq<char>)
    requires
        d.wf(),
        d.acyclic(),
        d.spec_has(b),
    ensures
        d.chain_root(b, d.size()) is Some,
        d.spec_has(d.chain_root(b, d.size())->0),
        d.spec_parent(d.chain_root(b, d.size())->0) is None,
{
    lemma_chain_root_props(d, b, d.size());
}

/// Law: renaming `from` to a fresh name `to` leaves no reference to `from`
/// in any branch's parent or children, while the moved entry keeps its own
/// parent, children and merge request up to the renaming.
pub proof fn lemma_rename_removes_old_name(
    pre: Diffbase,
    post: Diffbase,
    from: Seq<char>,
    to: Seq<char>,
)
    requires
        pre.wf(),
        rename_post(pre, post, from, to),
        to != from,
    ensures
        !post.spec_has(from),
        forall|b: Seq<char>|
            post.spec_has(b) ==> #[trigger] post.spec_parent(b) != Some(from),
        forall|b: Seq<char>|
            post.spec_has(b) ==> !(#[trigger] post.spec_children(b)).contains(from),
        post.spec_has(to),
        post.spec_parent(to) == subst_opt(pre.spec_parent(from), from, to),
        post.spec_children(to) == pre.spec_children(from).map_values(
            |c: Seq<char>| subst_name(c, from, to),
        ),
        post.spec_mr(to) == pre.spec_mr(from),
{
    assert forall|b: Seq<char>| post.spec_has(b) implies #[trigger] post.spec_parent(b)
        != Some(from) by {
        let src = if b == to {
            from
        } else {
            b
        };
        assert(post.spec_parent(b) == subst_opt(pre.spec_parent(src), from, to));
    }
    assert forall|b: Seq<char>| post.spec_has(b) implies !(
    #[trigger] post.spec_children(b)).contains(from) by {
        let src = if b == to {
            from
        } else {
            b
        };
        let mapped = pre.spec_children(src).map_values(
            |c: Seq<char>| subst_name(c, from, to),
        );
        assert(post.spec_children(b) == mapped);
        if mapped.contains(from) {
            let i = choose|i: int| 0 <= i < mapped.len() && mapped[i] == from;
            assert(subst_name(pre.spec_children(src)[i], from, to) == from);
        }
    }
}

/// Law: writing the snapshot and rebuilding a store from it — over the same
/// local branch set and the same trunk — reproduces every branch, every
/// parent link and every merge-request association. The hypotheses are
/// exactly what `to_records` and `new` promise.
pub proof fn lemma_snapshot_round_trip(
    d: Diffbase,
    records: Seq<DiffbaseJson>,
    locals: Seq<Seq<char>>,
    d2: Diffbase,
)
    requires
        d.wf(),
        records.len() == d.size(),
        forall|i: int|
            0 <= i < records.len() ==> {
                let b = (#[trigger] records[i]).branch@;
                &&& d.spec_has(b)
                &&& records[i].diffbase.deep_view() == d.spec_parent(b)
                &&& records[i].github_pr == d.spec_mr(b)
            },
        forall|b: Seq<char>|
            d.spec_has(b) ==> exists|i: int|
                0 <= i < records.len() && (#[trigger] records[i]).branch@ == b,
        forall|b: Seq<char>| locals.contains(b) <==> d.spec_has(b),
        d2.wf(),
        d2.trunk() == d.trunk(),
        forall|b: Seq<char>| d2.spec_has(b) <==> locals.contains(b),
        forall|i: int|
            0 <= i < records.len() && locals.contains((#[trigger] records[i]).branch@)
                ==> {
                &&& d2.spec_mr(records[i].branch@) == records[i].github_pr
                &&& d2.spec_parent(records[i].branch@) == loaded_parent(
                    records[i],
                    locals,
                    d.trunk(),
                )
            },
        forall|b: Seq<char>|
            locals.contains(b) && !has_record(records, b) ==> d2.spec_parent(b) is None
                && d2.spec_mr(b) is None,
    ensures
        forall|b: Seq<char>| d2.spec_has(b) <==> d.spec_has(b),
        forall|b: Seq<char>| #[trigger] d2.spec_parent(b) == d.spec_parent(b),
        forall|b: Seq<char>| #[trigger] d2.spec_mr(b) == d.spec_mr(b),
{
    assert forall|b: Seq<char>| #[trigger]
        d2.spec_parent(b) == d.spec_parent(b) && #[trigger] d2.spec_mr(b) == d.spec_mr(
        b,
    ) by {
        if d.spec_has(b) {
            let i = choose|i: int|
                0 <= i < records.len() && (#[trigger] records[i]).branch@ == b;
            assert(locals.contains(b));
            assert(d2.spec_mr(b) == records[i].github_pr);
            assert(d2.spec_parent(b) == loaded_parent(records[i], locals, d.trunk()));
            match records[i].diffbase {
                Some(p) => {
                    assert(records[i].diffbase.deep_view() == Some(p@));
                    assert(d.spec_parent(b) == Some(p@));
                    let bi = d.idx(b);
                    assert(d.parent_ok(bi));
                    assert(d.spec_has(p@) && p@ != d.trunk());
                    assert(locals.contains(p@));
                    assert(loaded_parent(records[i], locals, d.trunk()) == Some(p@));
                },
                None => {
                    assert(records[i].diffbase.deep_view() == None::<Seq<char>>);
                    assert(d.spec_parent(b) is None);
                    assert(loaded_parent(records[i], locals, d.trunk()) is None);
                },
            }
        } else {
            assert(!locals.contains(b));
            assert(!d2.spec_has(b));
        }
    }
}

/// Every child's walk to the root is one step longer than its parent's.
proof fn lemma_child_steps(d: Diffbase, parent: Seq<char>, c: Seq<char>)
    requires
        d.wf(),
        d.acyclic(),
        d.spec_has(c),
        d.spec_parent(c) == Some(parent),
    ensures
        d.spec_has(parent),
        d.chain_root(parent, d.size()) is Some,
        d.chain_steps(c, d.size()) == 1 + d.chain_steps(parent, d.size()),
{
    let ci = d.idx(c);
    assert(d.parent_ok(ci));
    assert(d.spec_has(parent));
    assert(d.chain_root(parent, d.size()) is Some);
    assert(d.chain_root(c, d.size()) is Some);
    assert(d.size() > 0);
    lemma_chain_bounded(d, parent, d.size(), Set::empty());
    lemma_chain_mono(d, parent, d.size(), d.size());
    lemma_chain_mono(d, parent, d.chain_steps(parent, d.size()), (d.size() - 1) as nat);
    lemma_chain_mono(d, parent, (d.size() - 1) as nat, d.size());
}

/// In an acyclic store, the depth-first walk below `parent` never runs out
/// of fuel, as long as the fuel covers the levels that remain below
/// `parent`'s depth.
proof fn lemma_walk_succeeds(
    d: Diffbase,
    parent: Seq<char>,
    k: int,
    ups: Seq<Seq<char>>,
    do_push: bool,
    fuel: nat,
)
    requires
        d.wf(),
        d.acyclic(),
        d.spec_has(parent),
        fuel + d.chain_steps(parent, d.size()) >= d.size(),
    ensures
        walk_from(d, parent, k, ups, do_push, fuel) is Some,
    decreases fuel, d.spec_children(parent).len() - k,
{
    let kids = d.spec_children(parent);
    if 0 <= k < kids.len() {
        let c = kids[k];
        let pi = d.idx(parent);
        assert(d.children_ok(pi));
        assert(d.entries@[pi].children@[k]@ == kids[k]);
        assert(d.spec_has(c) && d.spec_parent(c) == Some(parent));
        lemma_child_steps(d, parent, c);
        lemma_chain_bounded(d, c, d.size(), Set::empty());
        assert(fuel > 0);
        lemma_walk_succeeds(d, c, 0, ups, do_push, (fuel - 1) as nat);
        lemma_walk_succeeds(d, parent, k + 1, ups, do_push, fuel);
    }
}

/// Law: on an acyclic store, the whole-tree sync always has a plan — the
/// root walk succeeds and the depth-first descent never runs out of fuel.
pub proof fn lemma_pullc_plan_exists(
    d: Diffbase,
    start: Seq<char>,
    ups: Seq<Seq<char>>,
    do_push: bool,
)
    requires
        d.wf(),
        d.acyclic(),
        d.spec_has(start),
    ensures
        pullc_plan(d, start, ups, do_push) is Some,
{
    assert(d.chain_root(start, d.size()) is Some);
    let root = d.chain_root(start, d.size())->0;
    lemma_chain_root_props(d, start, d.size());
    assert(d.chain_steps(root, d.size()) == 0);
    lemma_walk_succeeds(d, root, 0, ups, do_push, d.size());
}

/// Whether `s` is among the names in `v`.
fn vec_contains_str(v: &Vec<String>, s: &str) -> (r: bool)
    ensures
        r == v.deep_view().contains(s@),
{
    let n = v.len();
    let mut i: usize = 0;
    while i < n
        invariant
            i <= n,
            n == v@.len(),
            forall|j: int| 0 <= j < i ==> v.deep_view()[j] != s@,
        decreases n - i,
    {
        if str_eq(v[i].as_str(), s) {
            proof {
                assert(v.deep_view()[i as int] == s@);
            }
            return true;
        }
        i = i + 1;
    }
    proof {
        if v.deep_view().contains(s@) {
            let j = choose|j: int|
                0 <= j < v.deep_view().len() && v.deep_view()[j] == s@;
            assert(v.deep_view()[j] != s@);
        }
    }
    false
}

/// Extends `out` with the walk below `parent` from its `k`-th child on.
fn walk_subtree(
    d: &Diffbase,
    parent: &str,
    k: usize,
    ups: &Vec<String>,
    do_push: bool,
    fuel: usize,
    out: &mut Vec<PullcStep>,
) -> (r: Result<(), Error>)
    requires
        d.wf(),
        d.spec_has(parent@),
        k <= d.spec_children(parent@).len(),
    ensures
        match r {
            Result::Ok(u) => walk_from(
                *d,
                parent@,
                k as int,
                ups.deep_view(),
                do_push,
                fuel as nat,
            ) is Some && final(out).deep_view() == old(out).deep_view() + walk_from(
                *d,
                parent@,
                k as int,
                ups.deep_view(),
                do_push,
                fuel as nat,
            )->0,
            Result::Err(e) => e.kind == ErrorKind::CorruptState && walk_from(
                *d,
                parent@,
                k as int,
                ups.deep_view(),
                do_push,
                fuel as nat,
            ) is None,
        },
    decreases fuel, d.spec_children(parent@).len() - k,
{
    let ghost kids = d.spec_children(parent@);
    let children = match d.get_children(parent) {
        Some(c) => c,
        None => {
            proof {
                assert(false);
            }
            Vec::new()
        },
    };
    if k >= children.len() {
        proof {
            assert(final(out).deep_view() =~= old(out).deep_view() + Seq::<
                PullcStepSpec,
            >::empty());
        }
        return Ok(());
    }
    let c = children[k].clone();
    proof {
        assert(c@ == kids[k as int]);
        let pi = d.idx(parent@);
        assert(d.children_ok(pi));
        assert(d.entries@[pi].children@[k as int]@ == kids[k as int]);
        assert(d.spec_has(c@) && d.spec_parent(c@) == Some(parent@));
    }
    let ghost before = out.deep_view();
    out.push(PullcStep::Checkout(c.clone()));
    if vec_contains_str(ups, c.as_str()) {
        out.push(PullcStep::Pull);
    }
    out.push(PullcStep::Merge(parent.to_owned()));
    if do_push && vec_contains_str(ups, c.as_str()) {
        out.push(PullcStep::Push);
    }
    proof {
        assert(out.deep_view() =~= before + child_steps(
            c@,
            parent@,
            ups.deep_view(),
            do_push,
        ));
    }
    if fuel == 0 {
        return Err(
            Error::corrupt_state(
                String::from_str("cycle detected among the stored diffbase entries."),
            ),
        );
    }
    let ghost after_child_steps = out.deep_view();
    match walk_subtree(d, c.as_str(), 0, ups, do_push, fuel - 1, out) {
        Ok(u) => {},
        Err(e) => {
            return Err(e);
        },
    }
    let ghost after_subtree = out.deep_view();
    let r = walk_subtree(d, parent, k + 1, ups, do_push, fuel, out);
    match r {
        Ok(u) => {
            proof {
                assert(out.deep_view() =~= before + (child_steps(
                    c@,
                    parent@,
                    ups.deep_view(),
                    do_push,
                ) + walk_from(*d, c@, 0, ups.deep_view(), do_push, (fuel - 1) as nat)->0
                    + walk_from(
                    *d,
                    parent@,
                    k + 1,
                    ups.deep_view(),
                    do_push,
                    fuel as nat,
                )->0));
            }
            Ok(())
        },
        Err(e) => Err(e),
    }
}

/// The branch the steps so far leave checked out.
fn plan_last_checkout(out: &Vec<PullcStep>) -> (r: Option<String>)
    ensures
        match r {
            Some(b) => last_checkout(out.deep_view()) == Some(b@),
            None => last_checkout(out.deep_view()) is None,
        },
{
    let mut j = out.len();
    proof {
        assert(out.deep_view().take(out@.len() as int) =~= out.deep_view());
    }
    while j > 0
        invariant
            j <= out@.len(),
            last_checkout(out.deep_view()) == last_checkout(
                out.deep_view().take(j as int),
            ),
        decreases j,
    {
        proof {
            assert(out.deep_view().take(j as int).last() == out.deep_view()[j - 1]);
            assert(out.deep_view().take(j as int).drop_last() =~= out.deep_view().take(
                j - 1,
            ));
        }
        match &out[j - 1] {
            PullcStep::Checkout(b) => {
                return Some(b.clone());
            },
            _ => {},
        }
        j = j - 1;
    }
    proof {
        assert(out.deep_view().take(0) =~= Seq::<PullcStepSpec>::empty());
    }
    None
}

/// Intercepts `g pullc [--push]`: computes the plan that syncs the whole
/// tree of the current branch — fetch once, sync the root, then depth-first
/// pull/merge/push every descendant, and return to the starting branch. The
/// caller executes the steps in order.
pub fn handle_pullc(
    args: &Vec<String>,
    current_branch: &str,
    diffbase: &Diffbase,
    upstream_branches: &Vec<String>,
) -> (r: Result<Vec<PullcStep>, Error>)
    requires
        diffbase.wf(),
        diffbase.spec_has(current_branch@),
        args@.len() >= 1,
    ensures
        match flag_scan(args.deep_view().skip(1), "-p"@, "--push"@) {
            None => r is Err && (r->Err_0).kind == ErrorKind::GeneralError && (
            r->Err_0).description@ == "unrecognized option. Usage: g pullc [--push]"@,
            Some(do_push) => match pullc_plan(
                *diffbase,
                current_branch@,
                upstream_branches.deep_view(),
                do_push,
            ) {
                Some(plan) => r is Ok && (r->Ok_0).deep_view() == plan,
                None => r is Err && (r->Err_0).kind == ErrorKind::CorruptState,
            },
        },
{
    let do_push = match scan_flag(args, 1, "-p", "--push") {
        Some(b) => b,
        None => {
            return Err(
                Error::general(
                    String::from_str("unrecognized option. Usage: g pullc [--push]"),
                ),
            );
        },
    };
    let root = match tree_root(diffbase, current_branch) {
        Ok(rt) => rt,
        Err(e) => {
            return Err(e);
        },
    };
    proof {
        lemma_chain_root_props(
            *diffbase,
            current_branch@,
            diffbase.size(),
        );
    }
    let mut out: Vec<PullcStep> = Vec::new();
    out.push(PullcStep::Fetch);
    out.push(PullcStep::Checkout(root.clone()));
    if vec_contains_str(upstream_branches, root.as_str()) {
        out.push(PullcStep::Pull);
    }
    if do_push && vec_contains_str(upstream_branches, root.as_str()) {
        out.push(PullcStep::Push);
    }
    proof {
        assert(out.deep_view() =~= root_steps(
            root@,
            upstream_branches.deep_view(),
            do_push,
        ));
    }
    let ghost pre_walk = out.deep_view();
    let fuel = diffbase.entries.len();
    match walk_subtree(diffbase, root.as_str(), 0, upstream_branches, do_push, fuel, &mut out)
    {
        Ok(u) => {},
        Err(e) => {
            return Err(e);
        },
    }
    let ghost all = out.deep_view();
    proof {
        assert(out.deep_view()[1] is Checkout);
        lemma_last_checkout_some(out.deep_view(), 1);
    }
    let back = match plan_last_checkout(&out) {
        Some(b) => b,
        None => {
            proof {
                assert(false);
            }
            String::new()
        },
    };
    if !str_eq(back.as_str(), current_branch) {
        out.push(PullcStep::Checkout(current_branch.to_owned()));
        proof {
            assert(out.deep_view() =~= all.push(PullcStepSpec::Checkout(current_branch@)));
        }
    }
    Ok(out)
}

/// Whether some record names branch `b`.
pub open spec fn has_record(records: Seq<DiffbaseJson>, b: Seq<char>) -> bool {
    exists|i: int| 0 <= i < records.len() && (#[trigger] records[i]).branch@ == b
}

/// The parent a record contributes at load time: kept only when the named
/// parent is still a local branch and is not the trunk.
pub open spec fn loaded_parent(
    rec: DiffbaseJson,
    locals: Seq<Seq<char>>,
    main: Seq<char>,
) -> Option<Seq<char>> {
    match rec.diffbase {
        Some(p) => if locals.contains(p@) && p@ != main {
            Some(p@)
        } else {
            None
        },
        None => None,
    }
}

/// `x` with `from` replaced by `to`.
pub open spec fn subst_name(x: Seq<char>, from: Seq<char>, to: Seq<char>) -> Seq<char> {
    if x == from {
        to
    } else {
        x
    }
}

/// An optional name with `from` replaced by `to`.
pub open spec fn subst_opt(
    x: Option<Seq<char>>,
    from: Seq<char>,
    to: Seq<char>,
) -> Option<Seq<char>> {
    match x {
        Some(v) => Some(subst_name(v, from, to)),
        None => None,
    }
}

/// How a successful `rename` changes the store: the entry moved from `from`
/// to `to`, and every name in every relation substituted accordingly.
pub open spec fn rename_post(
    pre: Diffbase,
    post: Diffbase,
    from: Seq<char>,
    to: Seq<char>,
) -> bool {
    &&& post.trunk() == pre.trunk()
    &&& (forall|b: Seq<char>|
        post.spec_has(b) <==> (pre.spec_has(b) && b != from) || b == to)
    &&& (forall|b: Seq<char>|
        post.spec_has(b) ==> {
            let src = if b == to {
                from
            } else {
                b
            };
            &&& post.spec_parent(b) == subst_opt(pre.spec_parent(src), from, to)
            &&& post.spec_children(b) == pre.spec_children(src).map_values(
                |c: Seq<char>| subst_name(c, from, to),
            )
            &&& post.spec_mr(b) == pre.spec_mr(src)
        })
}

/// A substituted entry list — `from` renamed to a fresh, non-trunk `to` in
/// every key, parent pointer and children list — satisfies the invariant and
/// the rename relation.
proof fn lemma_rename_rebuild(pre: Diffbase, post: Diffbase, from: Seq<char>, to: Seq<char>)
    requires
        pre.wf(),
        pre.spec_has(from),
        to == from || !pre.spec_has(to),
        to != pre.trunk(),
        post.main_branch == pre.main_branch,
        post.entries@.len() == pre.entries@.len(),
        forall|k: int|
            0 <= k < pre.entries@.len() ==> (#[trigger] post.entries@[k]).branch@
                == subst_name(pre.entries@[k].branch@, from, to),
        forall|k: int|
            0 <= k < pre.entries@.len() ==> (#[trigger] post.entries@[k]).parent.deep_view()
                == subst_opt(pre.entries@[k].parent.deep_view(), from, to),
        forall|k: int|
            0 <= k < pre.entries@.len() ==> (
            #[trigger] post.entries@[k]).children.deep_view()
                == pre.entries@[k].children.deep_view().map_values(
                |c: Seq<char>| subst_name(c, from, to),
            ),
        forall|k: int|
            0 <= k < pre.entries@.len() ==> (#[trigger] post.entries@[k]).merge_request
                == pre.entries@[k].merge_request,
    ensures
        post.wf(),
        rename_post(pre, post, from, to),
{
    let pes = pre.entries@;
    let es = post.entries@;
    let n = pes.len() as int;

    // Substitution is injective on the old keys.
    assert forall|k1: int, k2: int|
        0 <= k1 < n && 0 <= k2 < n && k1 != k2 implies (#[trigger] es[k1]).branch@ != (
    #[trigger] es[k2]).branch@ by {
        assert(pes[k1].branch@ != pes[k2].branch@);
        if es[k1].branch@ == es[k2].branch@ {
            if pes[k1].branch@ == from {
                assert(es[k2].branch@ == to);
                assert(pes[k2].branch@ == to);
                assert(pre.spec_has(to));
                assert(to != from);
            } else if pes[k2].branch@ == from {
                assert(es[k1].branch@ == to);
                assert(pes[k1].branch@ == to);
                assert(pre.spec_has(to));
                assert(to != from);
            }
        }
    }
    assert(post.keys_distinct());

    // The known set: `from` replaced by `to`.
    assert forall|b: Seq<char>|
        post.spec_has(b) <==> (pre.spec_has(b) && b != from) || b == to by {
        if post.spec_has(b) {
            let k = choose|k: int| 0 <= k < es.len() && (#[trigger] es[k]).branch@ == b;
            assert(es[k].branch@ == subst_name(pes[k].branch@, from, to));
            if pes[k].branch@ == from {
                assert(b == to);
            } else {
                assert(pre.spec_has(b));
                if b == from {
                    assert(pes[k].branch@ == from);
                }
            }
        }
        if pre.spec_has(b) && b != from {
            let k = choose|k: int| 0 <= k < pes.len() && (#[trigger] pes[k]).branch@ == b;
            assert(es[k].branch@ == b || (pes[k].branch@ == from && es[k].branch@ == to));
            assert(post.spec_has(b) || b == from);
        }
        if b == to {
            let k = pre.idx(from);
            assert(0 <= k < n && pes[k].branch@ == from);
            assert(es[k].branch@ == to);
        }
    }

    // Position correspondence through the substitution.
    assert forall|b: Seq<char>| post.spec_has(b) implies {
        let src = if b == to {
            from
        } else {
            b
        };
        &&& pre.spec_has(src)
        &&& post.idx(b) == pre.idx(src)
        &&& 0 <= post.idx(b) < n
        &&& es[post.idx(b)].branch@ == b
        &&& pes[post.idx(b)].branch@ == src
    } by {
        let src = if b == to {
            from
        } else {
            b
        };
        assert(pre.spec_has(src));
        let k = pre.idx(src);
        assert(0 <= k < n && pes[k].branch@ == src);
        assert(es[k].branch@ == subst_name(src, from, to));
        if b == to {
            assert(es[k].branch@ == to);
        } else {
            assert(src != from);
            assert(es[k].branch@ == b);
        }
        post.lemma_idx_unique(k);
    }

    // The accessor relations of the rename.
    assert forall|b: Seq<char>| post.spec_has(b) implies {
        let src = if b == to {
            from
        } else {
            b
        };
        &&& post.spec_parent(b) == subst_opt(pre.spec_parent(src), from, to)
        &&& post.spec_children(b) == pre.spec_children(src).map_values(
            |c: Seq<char>| subst_name(c, from, to),
        )
        &&& post.spec_mr(b) == pre.spec_mr(src)
    } by {
        let src = if b == to {
            from
        } else {
            b
        };
        let k = post.idx(b);
        assert(0 <= k < n && pes[k].branch@ == src && es[k].branch@ == b);
        assert(pre.idx(src) == k);
    }

    assert(rename_post(pre, post, from, to));

    // Parent links stay mutually consistent.
    assert forall|i: int| 0 <= i < es.len() implies #[trigger] post.parent_ok(i) by {
        if es[i].parent is Some {
            let b = es[i].branch@;
            let p = es[i].parent->0@;
            assert(pes[i].parent is Some);
            let p0 = pes[i].parent->0@;
            assert(p == subst_name(p0, from, to));
            assert(pre.parent_ok(i));
            assert(p0 != pre.trunk() && pre.spec_has(p0) && pre.spec_children(
                p0,
            ).contains(pes[i].branch@));
            assert(p != post.trunk());
            let p_new = subst_name(p0, from, to);
            assert(post.spec_has(p_new)) by {
                if p0 == from {
                } else {
                    assert(pre.spec_has(p_new) && p_new != from || p_new == to);
                }
            }
            post.lemma_idx_unique(i);
            let src_p = if p_new == to {
                from
            } else {
                p_new
            };
            assert(src_p == p0) by {
                if p_new == to {
                    if p0 != from {
                        assert(pre.spec_has(p0) && p0 == to);
                        assert(to == from || !pre.spec_has(to));
                    }
                }
            }
            let pch = pre.spec_children(p0);
            let j = choose|j: int| 0 <= j < pch.len() && pch[j] == pes[i].branch@;
            assert(post.spec_children(p_new) == pch.map_values(
                |c: Seq<char>| subst_name(c, from, to),
            ));
            assert(post.spec_children(p_new)[j] == subst_name(pes[i].branch@, from, to));
            assert(post.spec_children(p_new)[j] == b);
            assert(post.spec_children(p_new).contains(b));
        }
    }

    // Children lists stay mutually consistent and repeat-free.
    assert forall|i: int| 0 <= i < es.len() implies #[trigger] post.children_ok(i) by {
        let b = es[i].branch@;
        post.lemma_idx_unique(i);
        pre.lemma_idx_unique(i);
        let src = pes[i].branch@;
        let lv = es[i].children.deep_view();
        let pch = pes[i].children.deep_view();
        assert(lv == pch.map_values(|c: Seq<char>| subst_name(c, from, to)));
        assert(pre.children_ok(i));
        assert(pch == pre.spec_children(src));
        assert(forall|m: int|
            0 <= m < pes[i].children@.len() ==> (#[trigger] pes[i].children@[m])@
                == pch[m]);
        assert(forall|m: int|
            0 <= m < es[i].children@.len() ==> (#[trigger] es[i].children@[m])@ == lv[m]);
        assert forall|m: int| 0 <= m < lv.len() implies {
            &&& post.spec_has(lv[m])
            &&& post.spec_parent(lv[m]) == Some(b)
        } by {
            let c0 = pch[m];
            assert(pre.spec_has(c0) && pre.spec_parent(c0) == Some(src));
            let c = subst_name(c0, from, to);
            assert(lv[m] == c);
            assert(post.spec_has(c)) by {
                if c0 == from {
                } else {
                    assert(pre.spec_has(c) && c != from || c == to);
                }
            }
            let src_c = if c == to {
                from
            } else {
                c
            };
            assert(src_c == c0) by {
                if c == to && c0 != from {
                    assert(pre.spec_has(c0) && c0 == to);
                    assert(to == from || !pre.spec_has(to));
                }
            }
            assert(post.spec_parent(c) == subst_opt(pre.spec_parent(c0), from, to));
            assert(post.spec_parent(c) == Some(subst_name(src, from, to)));
            assert(subst_name(src, from, to) == b);
        }
        assert forall|m1: int, m2: int|
            0 <= m1 < lv.len() && 0 <= m2 < lv.len() && m1 != m2 implies lv[m1]
            != lv[m2] by {
            let c1 = pch[m1];
            let c2 = pch[m2];
            assert(c1 != c2);
            assert(pre.spec_has(c1) && pre.spec_has(c2));
            if subst_name(c1, from, to) == subst_name(c2, from, to) {
                if c1 == from {
                    assert(c2 == to && pre.spec_has(to));
                    assert(to == from);
                } else if c2 == from {
                    assert(c1 == to && pre.spec_has(to));
                    assert(to == from);
                }
            }
        }
    }
}

/// Replacing one entry's merge request leaves the tree untouched.
proof fn lemma_mr_update(pre: Diffbase, post: Diffbase, b: Seq<char>, i: int)
    requires
        pre.wf(),
        0 <= i < pre.entries@.len(),
        pre.entries@[i].branch@ == b,
        post.main_branch == pre.main_branch,
        post.entries@.len() == pre.entries@.len(),
        forall|k: int|
            0 <= k < pre.entries@.len() && k != i ==> #[trigger] post.entries@[k]
                == pre.entries@[k],
        post.entries@[i].branch == pre.entries@[i].branch,
        post.entries@[i].parent == pre.entries@[i].parent,
        post.entries@[i].children == pre.entries@[i].children,
    ensures
        post.wf(),
        post.trunk() == pre.trunk(),
        forall|c: Seq<char>| post.spec_has(c) <==> pre.spec_has(c),
        post.spec_mr(b) == post.entries@[i].merge_request,
        forall|c: Seq<char>| c != b ==> post.spec_mr(c) == pre.spec_mr(c),
        forall|c: Seq<char>| post.spec_parent(c) == pre.spec_parent(c),
        forall|c: Seq<char>| post.spec_children(c) == pre.spec_children(c),
{
    let pes = pre.entries@;
    let es = post.entries@;
    assert(forall|k: int|
        0 <= k < es.len() ==> (#[trigger] es[k]).branch@ == pes[k].branch@);
    assert forall|c: Seq<char>| post.spec_has(c) <==> pre.spec_has(c) by {
        if post.spec_has(c) {
            let k = choose|k: int| 0 <= k < es.len() && (#[trigger] es[k]).branch@ == c;
            assert(pes[k].branch@ == c);
        }
        if pre.spec_has(c) {
            let k = choose|k: int| 0 <= k < pes.len() && (#[trigger] pes[k]).branch@ == c;
            assert(es[k].branch@ == c);
        }
    }
    assert(post.keys_distinct());
    assert forall|c: Seq<char>| post.spec_has(c) implies post.idx(c) == pre.idx(c) && 0
        <= post.idx(c) < es.len() && es[post.idx(c)].branch@ == c by {
        let k = post.idx(c);
        assert(0 <= k < es.len() && es[k].branch@ == c);
        assert(pes[k].branch@ == c);
        pre.lemma_idx_unique(k);
    }
    assert forall|c: Seq<char>| true implies #[trigger] post.spec_parent(c)
        == pre.spec_parent(c) && post.spec_children(c) == pre.spec_children(c) by {
        if post.spec_has(c) {
            let k = post.idx(c);
            if k != i {
                assert(es[k] == pes[k]);
            }
        }
    }
    assert forall|c: Seq<char>| c != b implies #[trigger] post.spec_mr(c) == pre.spec_mr(
        c,
    ) by {
        if post.spec_has(c) {
            let k = post.idx(c);
            if k == i {
                pre.lemma_idx_unique(i);
            }
            assert(k != i);
            assert(es[k] == pes[k]);
        }
    }
    assert(post.spec_mr(b) == post.entries@[i].merge_request) by {
        pre.lemma_idx_unique(i);
        post.lemma_idx_unique(i);
    }
    assert forall|k: int| 0 <= k < es.len() implies #[trigger] post.parent_ok(k) by {
        assert(pre.parent_ok(k));
        assert(es[k].parent == pes[k].parent);
        assert(es[k].branch@ == pes[k].branch@);
    }
    assert forall|k: int| 0 <= k < es.len() implies #[trigger] post.children_ok(k) by {
        assert(pre.children_ok(k));
        assert(es[k].children == pes[k].children);
        assert(forall|m: int|
            0 <= m < es[k].children@.len() ==> (#[trigger] es[k].children@[m])
                == pes[k].children@[m]);
    }
}

/// Appending a fresh root entry with no children leaves the tree untouched.
proof fn lemma_mr_append(pre: Diffbase, post: Diffbase, b: Seq<char>)
    requires
        pre.wf(),
        !pre.spec_has(b),
        post.main_branch == pre.main_branch,
        post.entries@.len() == pre.entries@.len() + 1,
        forall|k: int|
            0 <= k < pre.entries@.len() ==> #[trigger] post.entries@[k] == pre.entries@[k],
        post.entries@.last().branch@ == b,
        post.entries@.last().parent is None,
        post.entries@.last().children@.len() == 0,
    ensures
        post.wf(),
        post.trunk() == pre.trunk(),
        forall|c: Seq<char>| post.spec_has(c) <==> pre.spec_has(c) || c == b,
        post.spec_mr(b) == post.entries@.last().merge_request,
        forall|c: Seq<char>| c != b ==> post.spec_mr(c) == pre.spec_mr(c),
        forall|c: Seq<char>| post.spec_parent(c) == pre.spec_parent(c),
        forall|c: Seq<char>| post.spec_children(c) == pre.spec_children(c),
{
    let pes = pre.entries@;
    let es = post.entries@;
    let n = pes.len() as int;
    assert forall|c: Seq<char>| post.spec_has(c) <==> pre.spec_has(c) || c == b by {
        if post.spec_has(c) {
            let k = choose|k: int| 0 <= k < es.len() && (#[trigger] es[k]).branch@ == c;
            if k < n {
                assert(pes[k].branch@ == c);
            }
        }
        if pre.spec_has(c) {
            let k = choose|k: int| 0 <= k < pes.len() && (#[trigger] pes[k]).branch@ == c;
            assert(es[k].branch@ == c);
        }
        if c == b {
            assert(es[n].branch@ == c);
        }
    }
    assert forall|k1: int, k2: int|
        0 <= k1 < es.len() && 0 <= k2 < es.len() && k1 != k2 implies (
    #[trigger] es[k1]).branch@ != (#[trigger] es[k2]).branch@ by {
        if k1 < n && k2 < n {
            assert(pes[k1].branch@ != pes[k2].branch@);
        } else if k1 < n {
            if es[k1].branch@ == b {
                assert(pre.spec_has(b));
            }
        } else {
            if es[k2].branch@ == b {
                assert(pre.spec_has(b));
            }
        }
    }
    assert(post.keys_distinct());
    assert forall|c: Seq<char>| pre.spec_has(c) implies post.idx(c) == pre.idx(c) && 0
        <= post.idx(c) < n && es[post.idx(c)].branch@ == c by {
        let k = pre.idx(c);
        assert(0 <= k < n && pes[k].branch@ == c);
        assert(es[k].branch@ == c);
        post.lemma_idx_unique(k);
    }
    assert(post.idx(b) == n) by {
        post.lemma_idx_unique(n);
    }
    assert forall|c: Seq<char>| true implies #[trigger] post.spec_parent(c)
        == pre.spec_parent(c) && post.spec_children(c) == pre.spec_children(c) by {
        if pre.spec_has(c) {
            let k = pre.idx(c);
            assert(es[k] == pes[k]);
        } else if post.spec_has(c) {
            assert(c == b);
            assert(post.spec_parent(c) == es[n].parent.deep_view());
            assert(post.spec_children(c) =~= es[n].children.deep_view());
            assert(es[n].children.deep_view() =~= Seq::<Seq<char>>::empty());
        }
    }
    assert forall|c: Seq<char>| c != b implies #[trigger] post.spec_mr(c) == pre.spec_mr(
        c,
    ) by {
        if pre.spec_has(c) {
            let k = pre.idx(c);
            assert(es[k] == pes[k]);
        }
    }
    assert forall|k: int| 0 <= k < es.len() implies #[trigger] post.parent_ok(k) by {
        if k < n {
            assert(pre.parent_ok(k));
            assert(es[k] == pes[k]);
        } else {
            assert(es[k].parent is None);
        }
    }
    assert forall|k: int| 0 <= k < es.len() implies #[trigger] post.children_ok(k) by {
        if k < n {
            assert(pre.children_ok(k));
            assert(es[k] == pes[k]);
            assert(forall|m: int|
                0 <= m < es[k].children@.len() ==> (#[trigger] es[k].children@[m])
                    == pes[k].children@[m]);
        }
    }
}

/// A rebuilt entry list — every old entry re-parented and re-childed by the
/// uniform rule, plus fresh entries for a missing `branch` or `parent` —
/// satisfies the invariant and the `set_diffbase` relation.
proof fn lemma_set_diffbase_rebuild(
    pre: Diffbase,
    post: Diffbase,
    branch: Seq<char>,
    diffbase: Seq<char>,
)
    requires
        pre.wf(),
        diffbase != pre.trunk(),
        post.main_branch == pre.main_branch,
        post.entries@.len() >= pre.entries@.len(),
        forall|k: int|
            0 <= k < pre.entries@.len() ==> (#[trigger] post.entries@[k]).branch@
                == pre.entries@[k].branch@,
        forall|k: int|
            0 <= k < pre.entries@.len() ==> (#[trigger] post.entries@[k]).parent.deep_view()
                == (if pre.entries@[k].branch@ == branch {
                Some(diffbase)
            } else {
                pre.entries@[k].parent.deep_view()
            }),
        forall|k: int|
            0 <= k < pre.entries@.len() ==> (
            #[trigger] post.entries@[k]).children.deep_view() == (
            if pre.entries@[k].branch@ == diffbase {
                remove_name(pre.entries@[k].children.deep_view(), branch).push(branch)
            } else {
                remove_name(pre.entries@[k].children.deep_view(), branch)
            }),
        forall|k: int|
            0 <= k < pre.entries@.len() ==> (#[trigger] post.entries@[k]).merge_request
                == pre.entries@[k].merge_request,
        forall|k: int|
            pre.entries@.len() <= k < post.entries@.len() ==> {
                let e = #[trigger] post.entries@[k];
                &&& (e.branch@ == branch || e.branch@ == diffbase)
                &&& !pre.spec_has(e.branch@)
                &&& e.merge_request is None
                &&& (e.branch@ == branch ==> e.parent.deep_view() == Some(diffbase)
                    && e.children.deep_view() == (if branch == diffbase {
                    seq![branch]
                } else {
                    Seq::<Seq<char>>::empty()
                }))
                &&& (e.branch@ != branch ==> e.parent is None && e.children.deep_view()
                    == seq![branch])
            },
        forall|k1: int, k2: int|
            pre.entries@.len() <= k1 < post.entries@.len() && pre.entries@.len() <= k2
                < post.entries@.len() && k1 != k2 ==> (#[trigger] post.entries@[k1]).branch@
                != (#[trigger] post.entries@[k2]).branch@,
        post.spec_has(branch),
        post.spec_has(diffbase),
    ensures
        post.wf(),
        set_diffbase_post(pre, post, branch, diffbase),
{
    let pes = pre.entries@;
    let es = post.entries@;
    let n = pes.len() as int;

    assert(post.trunk() == pre.trunk());

    // The rebuilt keys are still distinct.
    assert forall|i: int, j: int|
        0 <= i < es.len() && 0 <= j < es.len() && i != j implies (#[trigger] es[i]).branch@
        != (#[trigger] es[j]).branch@ by {
        if i < n && j < n {
            assert(pes[i].branch@ != pes[j].branch@);
        } else if i < n && j >= n {
            if es[i].branch@ == es[j].branch@ {
                assert(pre.spec_has(es[j].branch@));
            }
        } else if i >= n && j < n {
            if es[i].branch@ == es[j].branch@ {
                assert(pre.spec_has(es[i].branch@));
            }
        }
    }
    assert(post.keys_distinct());

    // Known branches: the old ones plus the two just referenced.
    assert forall|b: Seq<char>| #[trigger]
        post.spec_has(b) implies pre.spec_has(b) || b == branch || b == diffbase by {
        let k = choose|k: int| 0 <= k < es.len() && (#[trigger] es[k]).branch@ == b;
        if k < n {
            assert(pes[k].branch@ == b);
        }
    }
    assert forall|b: Seq<char>| pre.spec_has(b) implies post.spec_has(b) by {
        let k = choose|k: int| 0 <= k < pes.len() && (#[trigger] pes[k]).branch@ == b;
        assert(es[k].branch@ == b);
    }

    // An old key keeps its position in both views.
    assert forall|b: Seq<char>| post.spec_has(b) && pre.spec_has(b) implies {
        &&& 0 <= post.idx(b) < n
        &&& post.idx(b) == pre.idx(b)
        &&& es[post.idx(b)].branch@ == b
        &&& pes[pre.idx(b)].branch@ == b
    } by {
        let k = choose|k: int| 0 <= k < pes.len() && (#[trigger] pes[k]).branch@ == b;
        pre.lemma_idx_unique(k);
        assert(es[k].branch@ == b);
        post.lemma_idx_unique(k);
    }
    // A fresh key sits past the old entries.
    assert forall|b: Seq<char>| post.spec_has(b) && !pre.spec_has(b) implies {
        &&& n <= post.idx(b) < es.len()
        &&& es[post.idx(b)].branch@ == b
    } by {
        let k = choose|k: int| 0 <= k < es.len() && (#[trigger] es[k]).branch@ == b;
        post.lemma_idx_unique(k);
        if k < n {
            assert(pes[k].branch@ == b);
        }
    }

    // The new parent pointer of `branch`.
    assert(post.spec_parent(branch) == Some(diffbase)) by {
        let k = post.idx(branch);
        if k < n {
            assert(pes[k].branch@ == branch);
        }
    }

    // Every other parent pointer is untouched.
    assert forall|b: Seq<char>| b != branch implies #[trigger] post.spec_parent(b)
        == pre.spec_parent(b) by {
        if post.spec_has(b) {
            let k = post.idx(b);
            if k < n {
                assert(es[k].parent.deep_view() == pes[k].parent.deep_view());
            } else {
                assert(es[k].parent is None);
            }
        }
    }

    // The children of `parent` gained `branch` at the end.
    assert(post.spec_children(diffbase) == remove_name(
        pre.spec_children(diffbase),
        branch,
    ).push(branch)) by {
        let k = post.idx(diffbase);
        if k < n {
            assert(pes[k].branch@ == diffbase);
        } else {
            assert(!pre.spec_has(diffbase));
            assert(pre.spec_children(diffbase) == Seq::<Seq<char>>::empty());
            assert(remove_name(Seq::<Seq<char>>::empty(), branch).push(branch)
                =~= seq![branch]);
        }
    }

    // Every other children list merely lost `branch`.
    assert forall|b: Seq<char>| b != diffbase implies #[trigger] post.spec_children(b)
        == remove_name(pre.spec_children(b), branch) by {
        if post.spec_has(b) {
            let k = post.idx(b);
            if k >= n {
                assert(es[k].branch@ == branch && branch != diffbase);
                assert(es[k].children.deep_view() == Seq::<Seq<char>>::empty());
                assert(!pre.spec_has(b));
            }
        } else {
            assert(!pre.spec_has(b));
        }
    }

    // Merge-request associations are untouched.
    assert forall|b: Seq<char>| true implies #[trigger] post.spec_mr(b) == pre.spec_mr(
        b,
    ) by {
        if post.spec_has(b) {
            let k = post.idx(b);
            if k >= n {
                assert(es[k].merge_request is None);
                assert(!pre.spec_has(b));
            }
        }
    }

    assert(set_diffbase_post(pre, post, branch, diffbase));

    // The mutual-consistency invariant holds of the rebuilt store.
    assert forall|i: int| 0 <= i < es.len() implies #[trigger] post.parent_ok(i) by {
        if es[i].parent is Some {
            let b = es[i].branch@;
            let p = es[i].parent->0@;
            post.lemma_idx_unique(i);
            if b == branch {
                assert(es[i].parent.deep_view() == Some(diffbase));
                assert(p == diffbase);
                let ch = post.spec_children(diffbase);
                assert(ch[ch.len() - 1] == branch);
                assert(ch.contains(branch));
            } else {
                assert(i < n);
                assert(es[i].parent.deep_view() == pes[i].parent.deep_view());
                assert(pes[i].parent is Some && pes[i].parent->0@ == p);
                assert(pre.parent_ok(i));
                assert(pre.spec_children(p).contains(b));
                let pch = pre.spec_children(p);
                let j = choose|j: int| 0 <= j < pch.len() && pch[j] == b;
                lemma_remove_name_contains(pch, branch, b);
                assert(remove_name(pch, branch).contains(b));
                let m = choose|m: int|
                    0 <= m < remove_name(pch, branch).len() && remove_name(pch, branch)[m]
                        == b;
                if p == diffbase {
                    assert(post.spec_children(p)[m] == b);
                    assert(post.spec_children(p).contains(b));
                } else {
                    assert(post.spec_children(p).contains(b));
                }
            }
        }
    }

    assert forall|i: int| 0 <= i < es.len() implies #[trigger] post.children_ok(i) by {
        let b = es[i].branch@;
        post.lemma_idx_unique(i);
        let lv = es[i].children.deep_view();
        assert(lv == post.spec_children(b));
        assert(forall|k: int|
            0 <= k < es[i].children@.len() ==> (#[trigger] es[i].children@[k])@ == lv[k]);
        let pch = pre.spec_children(b);
        assert(distinct_names(pch)) by {
            if pre.spec_has(b) {
                let pi = pre.idx(b);
                assert(pre.children_ok(pi));
                assert(pch == pre.entries@[pi].children.deep_view());
                assert(forall|k: int|
                    0 <= k < pre.entries@[pi].children@.len() ==> (
                    #[trigger] pre.entries@[pi].children@[k])@ == pch[k]);
            }
        }
        lemma_remove_name_distinct(pch, branch);
        // Each listed child exists and points back here.
        assert forall|k: int| 0 <= k < lv.len() implies {
            &&& post.spec_has(lv[k])
            &&& post.spec_parent(lv[k]) == Some(b)
        } by {
            let c = lv[k];
            if b == diffbase && k == lv.len() - 1 {
                assert(c == branch);
            } else {
                assert(remove_name(pch, branch)[k] == c);
                assert(remove_name(pch, branch).contains(c));
                assert(c != branch);
                lemma_remove_name_contains(pch, branch, c);
                assert(pch.contains(c));
                assert(pre.spec_has(b));
                let pi = pre.idx(b);
                assert(pre.children_ok(pi));
                let j = choose|j: int| 0 <= j < pch.len() && pch[j] == c;
                assert((pre.entries@[pi].children@[j])@ == c);
                assert(pre.spec_has(c) && pre.spec_parent(c) == Some(b));
            }
        }
        // No child is listed twice.
        assert forall|k1: int, k2: int|
            0 <= k1 < lv.len() && 0 <= k2 < lv.len() && k1 != k2 implies lv[k1]
            != lv[k2] by {
            if b == diffbase {
                if k1 < lv.len() - 1 && k2 < lv.len() - 1 {
                    assert(remove_name(pch, branch)[k1] == lv[k1]);
                    assert(remove_name(pch, branch)[k2] == lv[k2]);
                } else {
                    let k = if k1 == lv.len() - 1 {
                        k2
                    } else {
                        k1
                    };
                    assert(lv[lv.len() - 1] == branch);
                    assert(remove_name(pch, branch)[k] == lv[k]);
                    if lv[k] == branch {
                        assert(remove_name(pch, branch).contains(branch));
                    }
                }
            } else {
                assert(remove_name(pch, branch)[k1] == lv[k1]);
                assert(remove_name(pch, branch)[k2] == lv[k2]);
            }
        }
    }
}

} // verus!
