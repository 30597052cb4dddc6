//! The per-reference commit log: dense sequence numbers from zero, a
//! count row that names the visible tip, and reads the web layer uses.

use crate::keys::{commit_key, commit_prefix, nul_free, spec_commit_key, spec_commit_prefix};
use crate::records::{
    decode_commit, enc_commit, encode_commit, sdec_commit, Commit, CommitV,
};
use crate::store::{family_view, Family, Store, StoreError};
use crate::wire::{u64_be, u64_be_val, u64_from_be};
use vstd::prelude::*;

verus! {

/// The sequence count persisted for `(repo, ref_name)`: zero when no row
/// exists, the decoded big-endian value when the row is well formed, and
/// nothing when the row is malformed.
pub open spec fn spec_ref_count(ccm: Map<Seq<u8>, Seq<u8>>, repo: u64, ref_name: Seq<u8>) -> Option<
    u64,
> {
    let key = spec_commit_prefix(repo, ref_name);
    if ccm.contains_key(key) {
        if ccm[key].len() == 8 {
            Some(u64_be_val(ccm[key]))
        } else {
            None
        }
    } else {
        Some(0)
    }
}

/// The commit stored at `(repo, ref_name, seq)`, decoded; nothing when the
/// row is absent or malformed.
pub open spec fn spec_commit_at(
    cm: Map<Seq<u8>, Seq<u8>>,
    repo: u64,
    ref_name: Seq<u8>,
    seq_no: u64,
) -> Option<CommitV> {
    let key = spec_commit_key(repo, ref_name, seq_no);
    if cm.contains_key(key) {
        match sdec_commit(cm[key], 0) {
            Some((c, p)) => if p == cm[key].len() {
                Some(c)
            } else {
                None
            },
            None => None,
        }
    } else {
        None
    }
}

/// One reference's commit log of one repository.
pub struct CommitTree {
    pub repo: u64,
    pub ref_name: Vec<u8>,
}

impl CommitTree {
    pub open spec fn wf(self) -> bool {
        nul_free(self.ref_name@)
    }

    /// The commit-family key prefix of this reference.
    pub open spec fn spec_prefix(self) -> Seq<u8> {
        spec_commit_prefix(self.repo, self.ref_name@)
    }

    pub fn new(repo: u64, reference: &Vec<u8>) -> (r: Option<CommitTree>)
        ensures
            match r {
                Some(t) => t.wf() && t.repo == repo && t.ref_name@ == reference@,
                None => !nul_free(reference@),
            },
    {
        if crate::keys::check_nul_free(reference) {
            Some(CommitTree { repo, ref_name: reference.clone() })
        } else {
            None
        }
    }

    /// How many commits are indexed: the count row, or zero without one.
    pub fn len(&self, store: &Store) -> (r: Result<u64, StoreError>)
        requires
            self.wf(),
        ensures
            match r {
                Ok(c) => spec_ref_count(family_view(*store, Family::CommitCount), self.repo, self.ref_name@)
                    == Some(c),
                Err(StoreError::Corrupt) => spec_ref_count(
                    family_view(*store, Family::CommitCount),
                    self.repo,
                    self.ref_name@,
                ) is None,
                Err(_) => true,
            },
    {
        let key = commit_prefix(self.repo, &self.ref_name);
        match store.get(Family::CommitCount, &key) {
            Ok(None) => Ok(0),
            Ok(Some(v)) => {
                if v.len() != 8 {
                    return Err(StoreError::Corrupt);
                }
                Ok(u64_from_be(v.as_slice()))
            },
            Err(_) => Err(StoreError::Backend),
        }
    }

    /// Write the count row.
    pub fn update_counter(&self, store: &mut Store, count: u64) -> (r: Result<(), StoreError>)
        requires
            self.wf(),
        ensures
            r is Ok ==> family_view(*final(store), Family::CommitCount) == family_view(
                *old(store),
                Family::CommitCount,
            ).insert(self.spec_prefix(), u64_be(count)),
            r is Ok ==> forall|g: Family|
                g != Family::CommitCount ==> family_view(*final(store), g) == family_view(
                    *old(store),
                    g,
                ),
    {
        let key = commit_prefix(self.repo, &self.ref_name);
        let value = crate::wire::u64_to_be(count);
        store.put(Family::CommitCount, &key, &value)
    }

    /// Write the commit row at `seq_no`.
    pub fn insert(&self, store: &mut Store, seq_no: u64, commit: &Commit) -> (r: Result<
        (),
        StoreError,
    >)
        requires
            self.wf(),
        ensures
            r is Ok ==> family_view(*final(store), Family::Commit) == family_view(
                *old(store),
                Family::Commit,
            ).insert(spec_commit_key(self.repo, self.ref_name@, seq_no), enc_commit(commit@)),
            r is Ok ==> forall|g: Family|
                g != Family::Commit ==> family_view(*final(store), g) == family_view(
                    *old(store),
                    g,
                ),
    {
        let key = commit_key(self.repo, &self.ref_name, seq_no);
        let value = encode_commit(commit);
        store.put(Family::Commit, &key, &value)
    }

    /// Read the commit row at `seq_no`.
    pub fn fetch_one(&self, store: &Store, seq_no: u64) -> (r: Result<Option<Commit>, StoreError>)
        requires
            self.wf(),
        ensures
            match r {
                Ok(Some(c)) => spec_commit_at(
                    family_view(*store, Family::Commit),
                    self.repo,
                    self.ref_name@,
                    seq_no,
                ) == Some(c@),
                Ok(None) => !family_view(*store, Family::Commit).contains_key(
                    spec_commit_key(self.repo, self.ref_name@, seq_no),
                ),
                Err(StoreError::Corrupt) => family_view(*store, Family::Commit).contains_key(
                    spec_commit_key(self.repo, self.ref_name@, seq_no),
                ) && spec_commit_at(
                    family_view(*store, Family::Commit),
                    self.repo,
                    self.ref_name@,
                    seq_no,
                ) is None,
                Err(_) => true,
            },
    {
        let key = commit_key(self.repo, &self.ref_name, seq_no);
        match store.get(Family::Commit, &key) {
            Ok(None) => Ok(None),
            Ok(Some(v)) => match decode_commit(&v) {
                Some(c) => Ok(Some(c)),
                None => Err(StoreError::Corrupt),
            },
            Err(_) => Err(StoreError::Backend),
        }
    }

    /// The latest indexed commit: the row at `count - 1`, or nothing when
    /// the count is zero.
    pub fn fetch_latest_one(&self, store: &Store) -> (r: Result<Option<Commit>, StoreError>)
        requires
            self.wf(),
        ensures
            match r {
                Ok(Some(c)) => {
                    &&& spec_ref_count(
                        family_view(*store, Family::CommitCount),
                        self.repo,
                        self.ref_name@,
                    ) matches Some(n) && n > 0 && spec_commit_at(
                        family_view(*store, Family::Commit),
                        self.repo,
                        self.ref_name@,
                        (n - 1) as u64,
                    ) == Some(c@)
                },
                Ok(None) => spec_ref_count(
                    family_view(*store, Family::CommitCount),
                    self.repo,
                    self.ref_name@,
                ) == Some(0u64),
                Err(_) => true,
            },
    {
        let n = match self.len(store) {
            Ok(n) => n,
            Err(e) => return Err(e),
        };
        if n == 0 {
            return Ok(None);
        }
        match self.fetch_one(store, n - 1) {
            Ok(Some(c)) => Ok(Some(c)),
            // The count names a tip that has no row: a reader racing the
            // indexer would retry; here it is a corrupt state.
            Ok(None) => Err(StoreError::Corrupt),
            Err(e) => Err(e),
        }
    }

    /// The newest `amount` commits, newest first, skipping `offset` from
    /// the tip; rows that are missing inside the window are skipped.
    pub fn fetch_latest(&self, store: &Store, amount: u64, offset: u64) -> (r: Result<
        Vec<Commit>,
        StoreError,
    >)
        requires
            self.wf(),
        ensures
            match r {
                Ok(cs) => ({
                    let ccm = family_view(*store, Family::CommitCount);
                    let cm = family_view(*store, Family::Commit);
                    &&& spec_ref_count(ccm, self.repo, self.ref_name@) matches Some(n) && ({
                        let hi = if n >= offset {
                            (n - offset) as u64
                        } else {
                            0u64
                        };
                        let lo = if hi >= amount {
                            (hi - amount) as u64
                        } else {
                            0u64
                        };
                        views_of_commits(cs@) == spec_window(
                            cm,
                            self.repo,
                            self.ref_name@,
                            lo as int,
                            hi as int,
                        )
                    })
                    &&& cs@.len() <= amount
                }),
                Err(_) => true,
            },
    {
        let n = match self.len(store) {
            Ok(n) => n,
            Err(e) => return Err(e),
        };
        let hi = n.saturating_sub(offset);
        let lo = hi.saturating_sub(amount);
        let ghost cm = family_view(*store, Family::Commit);
        let mut out: Vec<Commit> = Vec::new();
        let mut i: u64 = hi;
        proof {
            assert(views_of_commits(out@) =~= spec_window(
                cm,
                self.repo,
                self.ref_name@,
                hi as int,
                hi as int,
            ));
        }
        while i > lo
            invariant
                self.wf(),
                cm == family_view(*store, Family::Commit),
                lo <= i <= hi,
                hi - lo <= amount,
                out@.len() <= hi - i,
                views_of_commits(out@) == spec_window(
                    cm,
                    self.repo,
                    self.ref_name@,
                    i as int,
                    hi as int,
                ),
            decreases i,
        {
            i = i - 1;
            proof {
                lemma_window_peel_bottom(cm, self.repo, self.ref_name@, i as int, hi as int);
            }
            let ghost out0 = out@;
            match self.fetch_one(store, i) {
                Ok(Some(c)) => {
                    let ghost cv = c@;
                    out.push(c);
                    proof {
                        assert(views_of_commits(out@) =~= views_of_commits(out0).push(cv));
                    }
                },
                Ok(None) => {
                    proof {
                        assert(spec_commit_at(cm, self.repo, self.ref_name@, i) is None);
                    }
                },
                Err(e) => return Err(e),
            }
        }
        Ok(out)
    }

    /// Drop every commit row and the count row of this reference.
    pub fn drop_commits(&self, store: &mut Store) -> (r: Result<(), StoreError>)
        requires
            self.wf(),
        ensures
            r is Ok ==> forall|k: Seq<u8>|
                family_view(*final(store), Family::Commit).contains_key(k) <==> (family_view(
                    *old(store),
                    Family::Commit,
                ).contains_key(k) && !crate::wire::has_prefix(k, self.spec_prefix())),
            r is Ok ==> forall|k: Seq<u8>|
                family_view(*final(store), Family::Commit).contains_key(k) ==> family_view(
                    *final(store),
                    Family::Commit,
                )[k] == family_view(*old(store), Family::Commit)[k],
            r is Ok ==> family_view(*final(store), Family::CommitCount) == family_view(
                *old(store),
                Family::CommitCount,
            ).remove(self.spec_prefix()),
            r is Ok ==> forall|g: Family|
                g != Family::Commit && g != Family::CommitCount ==> family_view(*final(store), g)
                    == family_view(*old(store), g),
    {
        let prefix = commit_prefix(self.repo, &self.ref_name);
        match store.remove_prefix(Family::Commit, &prefix) {
            Ok(()) => {},
            Err(e) => return Err(e),
        }
        let ghost mid = *store;
        match store.remove(Family::CommitCount, &prefix) {
            Ok(()) => {
                proof {
                    assert(family_view(*store, Family::Commit) == family_view(
                        mid,
                        Family::Commit,
                    ));
                    assert(prefix@ == self.spec_prefix());
                    assert forall|k: Seq<u8>|
                        family_view(*store, Family::Commit).contains_key(k) <==> (family_view(
                            *old(store),
                            Family::Commit,
                        ).contains_key(k) && !crate::wire::has_prefix(
                            k,
                            self.spec_prefix(),
                        )) by {
                        assert(family_view(mid, Family::Commit).contains_key(k) <==> (family_view(
                            *old(store),
                            Family::Commit,
                        ).contains_key(k) && !crate::wire::has_prefix(k, prefix@)));
                    }
                    assert forall|k: Seq<u8>|
                        family_view(*store, Family::Commit).contains_key(k) implies family_view(
                        *store,
                        Family::Commit,
                    )[k] == family_view(*old(store), Family::Commit)[k] by {
                        assert(family_view(mid, Family::Commit).contains_key(k) ==> family_view(
                            mid,
                            Family::Commit,
                        )[k] == family_view(*old(store), Family::Commit)[k]);
                    }
                }
                Ok(())
            },
            Err(_) => Err(StoreError::Backend),
        }
    }
}

/// The views of a commit list.
pub open spec fn views_of_commits(l: Seq<Commit>) -> Seq<CommitV> {
    Seq::new(l.len(), |i: int| l[i]@)
}

/// The decodable rows of the window `[lo, hi)`, newest first.
pub open spec fn spec_window(
    cm: Map<Seq<u8>, Seq<u8>>,
    repo: u64,
    rn: Seq<u8>,
    lo: int,
    hi: int,
) -> Seq<CommitV>
    decreases hi - lo,
{
    if hi <= lo || hi < 1 {
        Seq::empty()
    } else {
        match spec_commit_at(cm, repo, rn, (hi - 1) as u64) {
            Some(c) => seq![c] + spec_window(cm, repo, rn, lo, hi - 1),
            None => spec_window(cm, repo, rn, lo, hi - 1),
        }
    }
}

/// The window grows at its old end as `lo` steps down.
proof fn lemma_window_peel_bottom(cm: Map<Seq<u8>, Seq<u8>>, repo: u64, rn: Seq<u8>, lo: int, hi: int)
    requires
        0 <= lo < hi,
    ensures
        spec_window(cm, repo, rn, lo, hi) == (match spec_commit_at(cm, repo, rn, lo as u64) {
            Some(c) => spec_window(cm, repo, rn, lo + 1, hi).push(c),
            None => spec_window(cm, repo, rn, lo + 1, hi),
        }),
    decreases hi - lo,
{
    if lo + 1 == hi {
        assert((hi - 1) as u64 == lo as u64);
        assert(spec_window(cm, repo, rn, lo + 1, hi) == Seq::<CommitV>::empty());
        assert(spec_window(cm, repo, rn, lo, hi - 1) == Seq::<CommitV>::empty());
        match spec_commit_at(cm, repo, rn, lo as u64) {
            Some(c) => {
                assert(spec_window(cm, repo, rn, lo, hi) == seq![c] + spec_window(
                    cm,
                    repo,
                    rn,
                    lo,
                    hi - 1,
                ));
                assert(seq![c] + Seq::<CommitV>::empty() =~= Seq::<CommitV>::empty().push(c));
            },
            None => {
                assert(spec_window(cm, repo, rn, lo, hi) == spec_window(cm, repo, rn, lo, hi - 1));
            },
        }
    } else {
        lemma_window_peel_bottom(cm, repo, rn, lo, hi - 1);
        let w_lo = spec_window(cm, repo, rn, lo, hi - 1);
        let w_lo1 = spec_window(cm, repo, rn, lo + 1, hi - 1);
        match spec_commit_at(cm, repo, rn, (hi - 1) as u64) {
            Some(c2) => {
                assert(spec_window(cm, repo, rn, lo, hi) == seq![c2] + w_lo);
                assert(spec_window(cm, repo, rn, lo + 1, hi) == seq![c2] + w_lo1);
                match spec_commit_at(cm, repo, rn, lo as u64) {
                    Some(c) => {
                        assert(w_lo == w_lo1.push(c));
                        assert(seq![c2] + w_lo1.push(c) =~= (seq![c2] + w_lo1).push(c));
                    },
                    None => {
                        assert(w_lo == w_lo1);
                    },
                }
            },
            None => {
                assert(spec_window(cm, repo, rn, lo, hi) == w_lo);
                assert(spec_window(cm, repo, rn, lo + 1, hi) == w_lo1);
            },
        }
    }
}

} // verus!
