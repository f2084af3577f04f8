//! Recognises a branch whose commits were rewritten onto a base branch, in the
//! manner of `git cherry`: a commit counts as applied when a commit on the base
//! carries an identical patch, though rebasing gave it a new id.
//!
//! Reading commits is work on the repository; the caller walks the base
//! branch and hands the patch id of each of its commits to a `RewriteCheck`,
//! which tells which patches of the branch it has not seen yet and when it has
//! seen them all.

use vstd::prelude::*;

verus! {

/// Whether two byte strings are equal.
pub fn bytes_eq(a: &[u8], b: &[u8]) -> (same: bool)
    ensures
        same == (a@ == b@),
{
    if a.len() != b.len() {
        return false;
    }
    let mut i: usize = 0;
    while i < a.len()
        invariant
            a.len() == b.len(),
            i <= a.len(),
            forall|j: int| 0 <= j < i ==> a@[j] == b@[j],
        decreases a.len() - i,
    {
        if a[i] != b[i] {
            return false;
        }
        i = i + 1;
    }
    assert(a@ =~= b@);
    true
}

/// Whether a commit whose patch id is `commit` (none for a merge commit) has
/// the patch id `patch`.
pub open spec fn carries(commit: Option<Vec<u8>>, patch: Seq<u8>) -> bool {
    match commit {
        Some(p) => p@ == patch,
        None => false,
    }
}

/// Whether some commit of `commits`, given by their patch ids, has this patch
/// id.
pub open spec fn has_patch(commits: Seq<Option<Vec<u8>>>, patch: Seq<u8>) -> bool {
    exists|i: int| 0 <= i < commits.len() && carries(#[trigger] commits[i], patch)
}

/// Whether `list` holds `bytes`.
pub open spec fn holds(list: Seq<Vec<u8>>, bytes: Seq<u8>) -> bool {
    exists|k: int| 0 <= k < list.len() && (#[trigger] list[k])@ == bytes
}

/// The patches of a branch that no base commit has shown yet.
pub struct RewriteCheck {
    missing: Vec<Vec<u8>>,
}

impl RewriteCheck {
    /// Whether the base has not shown `patch`, a patch of the branch, yet.
    pub closed spec fn is_missing(&self, patch: Seq<u8>) -> bool {
        holds(self.missing@, patch)
    }

    /// The check for a branch whose own commits have the patch ids
    /// `branch_commits` (none for a merge commit): every patch is missing.
    pub fn new(branch_commits: &Vec<Option<Vec<u8>>>) -> (check: RewriteCheck)
        ensures
            forall|patch: Seq<u8>| #[trigger] check.is_missing(patch) == has_patch(branch_commits@, patch),
    {
        let mut missing: Vec<Vec<u8>> = Vec::new();
        let mut i: usize = 0;
        while i < branch_commits.len()
            invariant
                i <= branch_commits.len(),
                forall|patch: Seq<u8>|
                    #[trigger] holds(missing@, patch) == has_patch(branch_commits@.take(i as int), patch),
            decreases branch_commits.len() - i,
        {
            let ghost before = missing@;
            match &branch_commits[i] {
                Some(patch) => {
                    missing.push(patch.clone());
                },
                None => {},
            }
            proof {
                let prefix = branch_commits@.take(i + 1);
                assert forall|patch: Seq<u8>|
                    #[trigger] holds(missing@, patch) == has_patch(prefix, patch) by {
                    if has_patch(prefix, patch) {
                        let k = choose|k: int|
                            0 <= k < prefix.len() && carries(#[trigger] prefix[k], patch);
                        if k < i {
                            assert(branch_commits@.take(i as int)[k] == prefix[k]);
                            assert(has_patch(branch_commits@.take(i as int), patch));
                            assert(holds(before, patch));
                            let m = choose|m: int| 0 <= m < before.len() && (#[trigger] before[m])@ == patch;
                            assert(missing@[m] == before[m]);
                        } else {
                            assert(missing@[missing@.len() - 1]@ == patch);
                        }
                    }
                    if holds(missing@, patch) {
                        let k = choose|k: int| 0 <= k < missing@.len() && (#[trigger] missing@[k])@ == patch;
                        if k < before.len() {
                            assert(missing@[k] == before[k]);
                            assert(holds(before, patch));
                            assert(has_patch(branch_commits@.take(i as int), patch));
                            let j = choose|j: int|
                                0 <= j < i && carries(#[trigger] branch_commits@.take(i as int)[j], patch);
                            assert(prefix[j] == branch_commits@.take(i as int)[j]);
                        } else {
                            assert(prefix[i as int] == branch_commits@[i as int]);
                        }
                    }
                }
            }
            i = i + 1;
        }
        proof {
            assert(branch_commits@.take(i as int) =~= branch_commits@);
        }
        RewriteCheck { missing }
    }

    /// Records that the base carries `patch`.
    pub fn observe(&mut self, patch: &[u8])
        ensures
            forall|other: Seq<u8>|
                #[trigger] final(self).is_missing(other) == (old(self).is_missing(other) && other
                    != patch@),
    {
        let ghost old_missing = self.missing@;
        let mut kept: Vec<Vec<u8>> = Vec::new();
        let mut i: usize = 0;
        assert(old_missing.take(0) =~= Seq::<Vec<u8>>::empty());
        while i < self.missing.len()
            invariant
                i <= self.missing.len(),
                self.missing@ == old_missing,
                forall|other: Seq<u8>|
                    #[trigger] holds(kept@, other) == (holds(old_missing.take(i as int), other) && other
                        != patch@),
            decreases self.missing.len() - i,
        {
            let ghost before = kept@;
            if !bytes_eq(self.missing[i].as_slice(), patch) {
                kept.push(self.missing[i].clone());
            }
            proof {
                let next = old_missing.take(i + 1);
                let prev = old_missing.take(i as int);
                assert forall|other: Seq<u8>|
                    #[trigger] holds(kept@, other) == (holds(next, other) && other != patch@) by {
                    if holds(kept@, other) {
                        let k = choose|k: int| 0 <= k < kept@.len() && (#[trigger] kept@[k])@ == other;
                        if k < before.len() {
                            assert(kept@[k] == before[k]);
                            assert(holds(before, other));
                            let m = choose|m: int| 0 <= m < prev.len() && (#[trigger] prev[m])@ == other;
                            assert(next[m] == prev[m]);
                        } else {
                            assert(next[i as int]@ == other);
                        }
                    }
                    if holds(next, other) && other != patch@ {
                        let k = choose|k: int| 0 <= k < next.len() && (#[trigger] next[k])@ == other;
                        if k < i {
                            assert(prev[k] == next[k]);
                            assert(holds(prev, other));
                            assert(holds(before, other) == (holds(prev, other) && other != patch@));
                            let m = choose|m: int| 0 <= m < before.len() && (#[trigger] before[m])@ == other;
                            assert(kept@[m] == before[m]);
                        } else {
                            assert(kept@[kept@.len() - 1]@ == other);
                        }
                    }
                }
            }
            i = i + 1;
        }
        proof {
            assert(old_missing.take(i as int) =~= old_missing);
        }
        self.missing = kept;
    }

    /// Whether every patch of the branch was seen on the base.
    pub fn is_done(&self) -> (done: bool)
        ensures
            done == forall|patch: Seq<u8>| !#[trigger] self.is_missing(patch),
    {
        proof {
            if self.missing@.len() > 0 {
                assert(self.is_missing(self.missing@[0]@));
            }
        }
        self.missing.len() == 0
    }
}


/// The patches of the branch that a walk which saw the base patches `seen`
/// has not seen.
pub open spec fn unseen(branch: Seq<Option<Vec<u8>>>, seen: Seq<Vec<u8>>, patch: Seq<u8>) -> bool {
    has_patch(branch, patch) && !holds(seen, patch)
}

/// A check that started from the branch's patches and observed the base
/// patches `seen` misses exactly the unseen ones; observing one more extends
/// the walk.
pub proof fn law_observe_extends_walk(
    before: RewriteCheck,
    after: RewriteCheck,
    branch: Seq<Option<Vec<u8>>>,
    seen: Seq<Vec<u8>>,
    patch: Vec<u8>,
)
    requires
        forall|p: Seq<u8>| #[trigger] before.is_missing(p) == unseen(branch, seen, p),
        forall|p: Seq<u8>| #[trigger] after.is_missing(p) == (before.is_missing(p) && p != patch@),
    ensures
        forall|p: Seq<u8>| #[trigger] after.is_missing(p) == unseen(branch, seen.push(patch), p),
{
    assert forall|p: Seq<u8>| #[trigger] after.is_missing(p) == unseen(branch, seen.push(patch), p) by {
        if holds(seen, p) {
            let k = choose|k: int| 0 <= k < seen.len() && (#[trigger] seen[k])@ == p;
            assert(seen.push(patch)[k] == seen[k]);
        }
        if holds(seen.push(patch), p) && p != patch@ {
            let k = choose|k: int| 0 <= k < seen.push(patch).len() && (#[trigger] seen.push(patch)[k])@ == p;
            assert(seen.push(patch)[k] == seen[k]);
        }
        assert(seen.push(patch)[seen.len() as int] == patch);
    }
}

/// The rule of `git cherry`: the walk finds the branch rewritten onto the base
/// exactly when every patch of the branch was seen on the base.
pub proof fn law_done_iff_every_patch_seen(
    check: RewriteCheck,
    branch: Seq<Option<Vec<u8>>>,
    seen: Seq<Vec<u8>>,
)
    requires
        forall|p: Seq<u8>| #[trigger] check.is_missing(p) == unseen(branch, seen, p),
    ensures
        (forall|p: Seq<u8>| !#[trigger] check.is_missing(p)) == (forall|p: Seq<u8>|
            #[trigger] has_patch(branch, p) ==> holds(seen, p)),
{
    if forall|p: Seq<u8>| !#[trigger] check.is_missing(p) {
        assert forall|p: Seq<u8>| #[trigger] has_patch(branch, p) implies holds(seen, p) by {
            assert(!check.is_missing(p));
        }
    }
}

} // verus!
