//! The indexing cycle over plain values.
//!
//! A host process walks the Git repositories on disk and hands the walk
//! results in as values: per reference the forward-chronological revision
//! list, per repository its metadata and annotated tags. Everything that
//! decides and writes — tip comparison, the append sweep, the force
//! reindex, tag diffing, record upserts and deletions — stands here and
//! is verified against the store model.

use crate::commit_tree::{spec_commit_at, spec_ref_count, CommitTree};
use crate::keys::{nul_free, spec_commit_key, spec_commit_prefix};
use crate::records::{
    enc_commit, fits, Author, AuthorV, Commit, CommitV, Heads, Repository, Tag,
};
use crate::store::{family_view, Family, Store, StoreError};
use crate::tree_index::{
    entry_views, index_tree, spec_entries_valid, spec_shape_digest, sub_views, TreeEntry,
    TreeEntryV,
};
use crate::wire::{has_prefix, u64_be};
use vstd::prelude::*;

verus! {

// ---------------------------------------------------------------------------
// Input records.
// ---------------------------------------------------------------------------
/// A commit's tree, either already content-addressed (the store knew the
/// Git tree object id) or as a fresh breadth-first walk.
pub enum TreeData {
    Known(u64),
    Walk { oid: Vec<u8>, entries: Vec<TreeEntry> },
}

/// One revision of a reference's history, oldest first in the lists the
/// host hands in.
pub struct RevRecord {
    pub summary: Vec<u8>,
    pub message: Vec<u8>,
    pub author: Author,
    pub committer: Author,
    pub hash: Vec<u8>,
    pub tree: TreeData,
}

#[verifier::ext_equal]
pub ghost enum TreeDataV {
    Known(u64),
    Walk { oid: Seq<u8>, entries: Seq<TreeEntryV> },
}

#[verifier::ext_equal]
pub ghost struct RevRecordV {
    pub summary: Seq<u8>,
    pub message: Seq<u8>,
    pub author: AuthorV,
    pub committer: AuthorV,
    pub hash: Seq<u8>,
    pub tree: TreeDataV,
}

impl View for TreeData {
    type V = TreeDataV;

    open spec fn view(&self) -> TreeDataV {
        match self {
            TreeData::Known(d) => TreeDataV::Known(*d),
            TreeData::Walk { oid, entries } => TreeDataV::Walk {
                oid: oid@,
                entries: entry_views(entries@),
            },
        }
    }
}

impl View for RevRecord {
    type V = RevRecordV;

    open spec fn view(&self) -> RevRecordV {
        RevRecordV {
            summary: self.summary@,
            message: self.message@,
            author: self.author@,
            committer: self.committer@,
            hash: self.hash@,
            tree: self.tree@,
        }
    }
}

pub open spec fn rev_views(l: Seq<RevRecord>) -> Seq<RevRecordV> {
    Seq::new(l.len(), |i: int| l[i]@)
}

/// The content address a revision's commit record carries.
pub open spec fn spec_rev_digest(t: TreeDataV) -> u64 {
    match t {
        TreeDataV::Known(d) => d,
        TreeDataV::Walk { oid, entries } => spec_shape_digest(entries),
    }
}

/// The commit record a revision materialises into.
pub open spec fn spec_commit_of_rev(r: RevRecordV) -> CommitV {
    CommitV {
        summary: r.summary,
        message: r.message,
        author: r.author,
        committer: r.committer,
        hash: r.hash,
        tree: spec_rev_digest(r.tree),
    }
}

pub open spec fn spec_author_fits(a: AuthorV) -> bool {
    fits(a.name) && fits(a.email)
}

pub open spec fn spec_rev_valid(r: RevRecordV) -> bool {
    &&& r.hash.len() == 20
    &&& fits(r.summary)
    &&& fits(r.message)
    &&& spec_author_fits(r.author)
    &&& spec_author_fits(r.committer)
    &&& (r.tree matches TreeDataV::Walk { oid, entries } ==> spec_entries_valid(entries))
}

pub open spec fn spec_revs_valid(rs: Seq<RevRecordV>) -> bool {
    forall|i: int| 0 <= i < rs.len() ==> spec_rev_valid(#[trigger] rs[i])
}

/// Copy an author.
pub fn dup_author(a: &Author) -> (r: Author)
    ensures
        r@ == a@,
{
    Author { name: a.name.clone(), email: a.email.clone(), time: a.time }
}

/// The first position whose revision hash equals `h`.
pub fn find_hash(revs: &Vec<RevRecord>, h: &Vec<u8>) -> (r: Option<usize>)
    ensures
        match r {
            Some(p) => p < revs@.len() && rev_views(revs@)[p as int].hash == h@ && forall|i: int|
                0 <= i < p ==> (#[trigger] rev_views(revs@)[i]).hash != h@,
            None => forall|i: int|
                0 <= i < revs@.len() ==> (#[trigger] rev_views(revs@)[i]).hash != h@,
        },
{
    let ghost rvs = rev_views(revs@);
    let mut i: usize = 0;
    while i < revs.len()
        invariant
            rvs == rev_views(revs@),
            rvs.len() == revs@.len(),
            i <= revs@.len(),
            forall|a: int| 0 <= a < i ==> (#[trigger] rvs[a]).hash != h@,
        decreases revs@.len() - i,
    {
        if crate::store::bytes_equal(&revs[i].hash, h) {
            return Some(i);
        }
        i = i + 1;
    }
    None
}

// ---------------------------------------------------------------------------
// The per-reference state machine.
// ---------------------------------------------------------------------------
/// Where a reference stands against the index.
pub enum RefState {
    /// Not yet compared.
    Unknown,
    /// The indexed tip is the live tip.
    UpToDate,
    /// The live history extends the indexed tip.
    Behind,
    /// The indexed tip is not in the live history: a rewrite.
    Diverged,
}

/// What one look at the reference revealed.
pub enum RefEvent {
    /// No revisions at all.
    EmptyHistory,
    /// The indexed tip equals the live tip.
    TipMatches,
    /// New revisions beyond the indexed tip were appended.
    Appended,
    /// The indexed tip was not found in the walk.
    PrevTipMissing,
    /// A forced reindex ran to completion.
    Reindexed,
}

impl RefState {
    /// One transition of the per-reference state machine: empty history
    /// and successful appends settle the reference, a missing previous
    /// tip diverges it, and a forced reindex settles a diverged one.
    pub fn step(self, e: &RefEvent) -> (r: Option<RefState>)
        ensures
            r == match (self, e) {
                (RefState::Unknown, RefEvent::EmptyHistory) => Some(RefState::UpToDate),
                (RefState::Unknown, RefEvent::TipMatches) => Some(RefState::UpToDate),
                (RefState::Unknown, RefEvent::Appended) => Some(RefState::UpToDate),
                (RefState::Unknown, RefEvent::PrevTipMissing) => Some(RefState::Diverged),
                (RefState::Behind, RefEvent::Appended) => Some(RefState::UpToDate),
                (RefState::Behind, RefEvent::PrevTipMissing) => Some(RefState::Diverged),
                (RefState::Diverged, RefEvent::Reindexed) => Some(RefState::UpToDate),
                _ => None,
            },
    {
        match (self, e) {
            (RefState::Unknown, RefEvent::EmptyHistory) => Some(RefState::UpToDate),
            (RefState::Unknown, RefEvent::TipMatches) => Some(RefState::UpToDate),
            (RefState::Unknown, RefEvent::Appended) => Some(RefState::UpToDate),
            (RefState::Unknown, RefEvent::PrevTipMissing) => Some(RefState::Diverged),
            (RefState::Behind, RefEvent::Appended) => Some(RefState::UpToDate),
            (RefState::Behind, RefEvent::PrevTipMissing) => Some(RefState::Diverged),
            (RefState::Diverged, RefEvent::Reindexed) => Some(RefState::UpToDate),
            _ => None,
        }
    }
}

// ---------------------------------------------------------------------------
// The single-reference update routine.
// ---------------------------------------------------------------------------
/// What the routine did.
pub enum RefUpdate {
    /// The indexed tip already was the live tip (or both were empty):
    /// nothing was written.
    UpToDate,
    /// The previously indexed tip was found at position `matched` of the
    /// walk; everything after it was appended, and `count` is the new
    /// sequence count.
    Appended { matched: u64, count: u64 },
    /// The previously indexed tip was not in the walk (or the history
    /// emptied): the reference's rows were dropped and the whole walk
    /// ingested afresh; `count` is the new sequence count.
    Reindexed { count: u64 },
}

/// The commit key at an integer sequence position.
pub open spec fn spec_key_at(repo: u64, rn: Seq<u8>, j: int) -> Seq<u8> {
    spec_commit_key(repo, rn, j as u64)
}

/// Dense, decodable commit rows: the count row names `n`, rows exist at
/// exactly the sequence numbers below `n`, and each decodes.
pub open spec fn ref_wf(
    cm: Map<Seq<u8>, Seq<u8>>,
    ccm: Map<Seq<u8>, Seq<u8>>,
    repo: u64,
    rn: Seq<u8>,
) -> bool {
    match spec_ref_count(ccm, repo, rn) {
        Some(n) => {
            &&& forall|i: u64| i < n ==> spec_commit_at(cm, repo, rn, i) is Some
            &&& forall|k: Seq<u8>|
                #![trigger cm.contains_key(k)]
                cm.contains_key(k) && has_prefix(k, spec_commit_prefix(repo, rn)) ==> exists|
                    i: u64,
                |
                    i < n && k == spec_commit_key(repo, rn, i)
        },
        None => false,
    }
}

/// The tips already match: the walk is non-empty, its last revision is
/// the commit the count row points at, or both sides are empty.
pub open spec fn spec_tips_match(
    cm: Map<Seq<u8>, Seq<u8>>,
    ccm: Map<Seq<u8>, Seq<u8>>,
    repo: u64,
    rn: Seq<u8>,
    rs: Seq<RevRecordV>,
) -> bool {
    match spec_ref_count(ccm, repo, rn) {
        Some(n) => if n == 0 {
            rs.len() == 0
        } else {
            rs.len() > 0 && (spec_commit_at(cm, repo, rn, (n - 1) as u64) matches Some(c)
                && c.hash == rs.last().hash)
        },
        None => false,
    }
}

/// Update one reference of one repository from its walk.
///
/// The walk `revs` is the full reverse-chronological enumeration from the
/// live tip, reversed to oldest-first. When the indexed tip equals the
/// live tip nothing is written; when the indexed tip occurs in the walk
/// the revisions after it are appended at the old count; and when it does
/// not, the reference's rows are dropped and the walk is ingested from
/// sequence zero — one forced reindex, as the state machine prescribes.
#[verifier::rlimit(100)]
#[verifier::spinoff_prover]
pub fn update_ref(
    store: &mut Store,
    repo: u64,
    ref_name: &Vec<u8>,
    revs: &Vec<RevRecord>,
    subs: &Vec<(Vec<u8>, Vec<u8>)>,
) -> (r: Result<RefUpdate, StoreError>)
    requires
        nul_free(ref_name@),
        spec_revs_valid(rev_views(revs@)),
        revs@.len() < 0xffff_ffff_ffff_ffff,
    ensures
        r matches Ok(outcome) ==> ({
            let rvs = rev_views(revs@);
            let pfx = spec_commit_prefix(repo, ref_name@);
            let cm0 = family_view(*old(store), Family::Commit);
            let ccm0 = family_view(*old(store), Family::CommitCount);
            let cm1 = family_view(*final(store), Family::Commit);
            let ccm1 = family_view(*final(store), Family::CommitCount);
            &&& family_view(*final(store), Family::Repository) == family_view(
                *old(store),
                Family::Repository,
            )
            &&& family_view(*final(store), Family::Tag) == family_view(*old(store), Family::Tag)
            &&& family_view(*final(store), Family::Reference) == family_view(
                *old(store),
                Family::Reference,
            )
            &&& family_view(*final(store), Family::Default) == family_view(
                *old(store),
                Family::Default,
            )
            // other references' rows and counts are untouched
            &&& forall|k: Seq<u8>|
                #![trigger cm1.contains_key(k)]
                !has_prefix(k, pfx) ==> (cm1.contains_key(k) == cm0.contains_key(k) && (
                cm0.contains_key(k) ==> cm1[k] == cm0[k]))
            &&& forall|k: Seq<u8>|
                #![trigger ccm1.contains_key(k)]
                k != pfx ==> (ccm1.contains_key(k) == ccm0.contains_key(k) && (ccm0.contains_key(
                    k,
                ) ==> ccm1[k] == ccm0[k]))
            // the no-op case: nothing at all changed
            &&& (outcome is UpToDate ==> *final(store) == *old(store) && spec_tips_match(
                cm0,
                ccm0,
                repo,
                ref_name@,
                rvs,
            ))
            &&& (spec_tips_match(cm0, ccm0, repo, ref_name@, rvs) ==> outcome is UpToDate)
            // the append case
            &&& (outcome matches RefUpdate::Appended { matched, count } ==> ({
                let n0 = spec_ref_count(ccm0, repo, ref_name@)->Some_0;
                let emitted = rvs.len() - matched - 1;
                &&& spec_ref_count(ccm0, repo, ref_name@) is Some
                &&& n0 > 0
                &&& matched < rvs.len()
                &&& count == n0 + emitted
                &&& emitted > 0
                &&& (spec_commit_at(cm0, repo, ref_name@, (n0 - 1) as u64) matches Some(c0)
                    && c0.hash == rvs[matched as int].hash)
                &&& spec_ref_count(ccm1, repo, ref_name@) == Some(count)
                // rows below the old count are byte-identical
                &&& forall|i: u64|
                    i < n0 ==> (cm1.contains_key(#[trigger] spec_commit_key(repo, ref_name@, i))
                        == cm0.contains_key(spec_commit_key(repo, ref_name@, i)) && (
                    cm0.contains_key(spec_commit_key(repo, ref_name@, i)) ==> cm1[spec_commit_key(
                        repo,
                        ref_name@,
                        i,
                    )] == cm0[spec_commit_key(repo, ref_name@, i)]))
                // the appended rows hold the materialised commits
                &&& forall|j: int|
                    0 <= j < emitted ==> cm1.contains_key(
                        #[trigger] spec_commit_key(repo, ref_name@, (n0 + j) as u64),
                    ) && cm1[spec_commit_key(repo, ref_name@, (n0 + j) as u64)] == enc_commit(
                        spec_commit_of_rev(rvs[matched + 1 + j]),
                    )
                // and nothing else under the prefix appeared
                &&& forall|k: Seq<u8>|
                    #![trigger cm1.contains_key(k)]
                    has_prefix(k, pfx) ==> (cm1.contains_key(k) <==> (cm0.contains_key(k) || (
                    exists|j: int|
                        0 <= j < emitted && k == #[trigger] spec_key_at(
                            repo,
                            ref_name@,
                            n0 + j,
                        ))))
            }))
            // the forced-reindex case
            &&& (outcome matches RefUpdate::Reindexed { count } ==> ({
                &&& count == rvs.len()
                &&& spec_ref_count(ccm1, repo, ref_name@) == Some(count)
                &&& forall|j: int|
                    0 <= j < rvs.len() ==> cm1.contains_key(
                        #[trigger] spec_key_at(repo, ref_name@, j),
                    ) && cm1[spec_key_at(repo, ref_name@, j)] == enc_commit(
                        spec_commit_of_rev(rvs[j]),
                    )
                &&& forall|k: Seq<u8>|
                    #![trigger cm1.contains_key(k)]
                    has_prefix(k, pfx) ==> (cm1.contains_key(k) <==> exists|j: int|
                        0 <= j < rvs.len() && k == #[trigger] spec_key_at(repo, ref_name@, j))
                &&& ref_wf(cm1, ccm1, repo, ref_name@)
            }))
            // a well-formed reference stays well formed
            &&& ((ref_wf(cm0, ccm0, repo, ref_name@) || outcome matches RefUpdate::Reindexed {
                ..
            }) ==> ref_wf(cm1, ccm1, repo, ref_name@))
            // after any successful non-empty update the visible tip is the
            // live tip
            &&& (rvs.len() > 0 ==> (spec_ref_count(ccm1, repo, ref_name@) matches Some(n1) && n1
                > 0 && (spec_commit_at(cm1, repo, ref_name@, (n1 - 1) as u64) matches Some(c)
                && c.hash == rvs.last().hash)))
        }),
{
    let ghost rvs = rev_views(revs@);
    let ghost pfx = spec_commit_prefix(repo, ref_name@);
    let ct = match CommitTree::new(repo, ref_name) {
        Some(t) => t,
        None => {
            proof {
                assert(false);
            }
            return Err(StoreError::Corrupt);
        },
    };
    let n0 = match ct.len(store) {
        Ok(n) => n,
        Err(e) => return Err(e),
    };
    let tip = match ct.fetch_latest_one(store) {
        Ok(t) => t,
        Err(e) => return Err(e),
    };
    // Tip comparison: nothing to do when the walk ends where the index
    // ends.
    match &tip {
        Some(c) => {
            if revs.len() > 0 {
                let last = revs.len() - 1;
                if crate::store::bytes_equal(&c.hash, &revs[last].hash) {
                    proof {
                        assert(rvs.last().hash == c.hash@);
                        assert(spec_tips_match(
                            family_view(*store, Family::Commit),
                            family_view(*store, Family::CommitCount),
                            repo,
                            ref_name@,
                            rvs,
                        ));
                    }
                    return Ok(RefUpdate::UpToDate);
                }
            }
        },
        None => {
            if revs.len() == 0 {
                proof {
                    assert(spec_tips_match(
                        family_view(*store, Family::Commit),
                        family_view(*store, Family::CommitCount),
                        repo,
                        ref_name@,
                        rvs,
                    ));
                }
                return Ok(RefUpdate::UpToDate);
            }
        },
    }
    // Sweep: find the indexed tip in the walk; when it is absent from
    // the walk (or nothing was indexed yet), drop the reference's rows
    // and ingest from zero.
    let mut force: bool = false;
    let mut start: usize = 0;
    match &tip {
        Some(c) => match find_hash(revs, &c.hash) {
            Some(p) => {
                start = p + 1;
            },
            None => {
                force = true;
            },
        },
        None => {
            force = true;
        },
    }
    proof {
        // falling through the tip comparison means the tips do not match
        match tip {
            Some(ref c) => {
                if rvs.len() > 0 {
                    assert(c.hash@ != rvs.last().hash);
                }
                assert(!spec_tips_match(
                    family_view(*store, Family::Commit),
                    family_view(*store, Family::CommitCount),
                    repo,
                    ref_name@,
                    rvs,
                ));
            },
            None => {
                assert(rvs.len() > 0);
                assert(!spec_tips_match(
                    family_view(*store, Family::Commit),
                    family_view(*store, Family::CommitCount),
                    repo,
                    ref_name@,
                    rvs,
                ));
            },
        }
    }
    if force {
        match ct.drop_commits(store) {
            Ok(()) => {},
            Err(e) => return Err(e),
        }
    }
    let ghost s_mid = *store;
    let ghost cm_mid = family_view(s_mid, Family::Commit);
    let ghost ccm_mid = family_view(s_mid, Family::CommitCount);
    proof {
        if force {
            crate::wire::lemma_u64_be_val(n0);
            assert(spec_ref_count(ccm_mid, repo, ref_name@) == Some(0u64));
            assert forall|k: Seq<u8>| #[trigger] cm_mid.contains_key(k) implies !has_prefix(
                k,
                pfx,
            ) by {}
        }
    }
    let base: u64 = if force {
        0
    } else {
        n0
    };
    let emitted: u64 = (revs.len() - start) as u64;
    if base > 0xffff_ffff_ffff_ffffu64 - emitted {
        return Err(StoreError::Corrupt);
    }
    let mut j: usize = start;
    let mut idx: u64 = base;
    while j < revs.len()
        invariant
            rvs == rev_views(revs@),
            rvs.len() == revs@.len(),
            pfx == spec_commit_prefix(repo, ref_name@),
            spec_revs_valid(rvs),
            ct.wf(),
            ct.repo == repo,
            ct.ref_name@ == ref_name@,
            start <= j <= revs@.len(),
            base + (revs@.len() - start) < 0x1_0000_0000_0000_0000,
            idx == base + (j - start),
            cm_mid == family_view(s_mid, Family::Commit),
            ccm_mid == family_view(s_mid, Family::CommitCount),
            family_view(*store, Family::Repository) == family_view(s_mid, Family::Repository),
            family_view(*store, Family::Tag) == family_view(s_mid, Family::Tag),
            family_view(*store, Family::Reference) == family_view(s_mid, Family::Reference),
            family_view(*store, Family::Default) == family_view(s_mid, Family::Default),
            (j == start ==> family_view(*store, Family::CommitCount) == ccm_mid),
            (j > start ==> family_view(*store, Family::CommitCount) == ccm_mid.insert(
                pfx,
                u64_be(idx),
            )),
            forall|jj: int|
                start <= jj < j ==> family_view(*store, Family::Commit).contains_key(
                    #[trigger] spec_key_at(repo, ref_name@, base + (jj - start)),
                ) && family_view(*store, Family::Commit)[spec_key_at(
                    repo,
                    ref_name@,
                    base + (jj - start),
                )] == enc_commit(spec_commit_of_rev(rvs[jj])),
            forall|k: Seq<u8>|
                #![trigger family_view(*store, Family::Commit).contains_key(k)]
                family_view(*store, Family::Commit).contains_key(k) <==> (cm_mid.contains_key(k)
                    || (exists|jj: int|
                    start <= jj < j && k == #[trigger] spec_key_at(
                        repo,
                        ref_name@,
                        base + (jj - start),
                    ))),
            forall|k: Seq<u8>|
                #![trigger cm_mid.contains_key(k)]
                cm_mid.contains_key(k) && !(exists|jj: int|
                    start <= jj < j && k == #[trigger] spec_key_at(
                        repo,
                        ref_name@,
                        base + (jj - start),
                    )) ==> family_view(*store, Family::Commit)[k] == cm_mid[k],
        decreases revs@.len() - j,
    {
        let ghost s_pre = *store;
        let digest: u64 = match &revs[j].tree {
            TreeData::Known(d) => *d,
            TreeData::Walk { oid, entries } => {
                match index_tree(store, oid, entries, subs) {
                    Ok(d) => d,
                    Err(e) => return Err(e),
                }
            },
        };
        proof {
            assert(digest == spec_rev_digest(rvs[j as int].tree));
            assert(family_view(*store, Family::Commit) == family_view(s_pre, Family::Commit));
            assert(family_view(*store, Family::CommitCount) == family_view(
                s_pre,
                Family::CommitCount,
            ));
        }
        let c = Commit {
            summary: revs[j].summary.clone(),
            message: revs[j].message.clone(),
            author: dup_author(&revs[j].author),
            committer: dup_author(&revs[j].committer),
            hash: revs[j].hash.clone(),
            tree: digest,
        };
        proof {
            assert(c@ =~= spec_commit_of_rev(rvs[j as int]));
        }
        let ghost cm_pre = family_view(*store, Family::Commit);
        match ct.insert(store, idx, &c) {
            Ok(()) => {},
            Err(e) => return Err(e),
        }
        match ct.update_counter(store, idx + 1) {
            Ok(()) => {},
            Err(e) => return Err(e),
        }
        proof {
            let key_new = spec_commit_key(repo, ref_name@, idx);
            let cm_new = family_view(*store, Family::Commit);
            assert(cm_new == cm_pre.insert(key_new, enc_commit(spec_commit_of_rev(
                rvs[j as int],
            ))));
            assert(key_new == spec_key_at(repo, ref_name@, base + (j - start)));
            // the new key differs from every earlier row key
            assert forall|jj: int|
                start <= jj < j implies #[trigger] spec_key_at(
                repo,
                ref_name@,
                base + (jj - start),
            ) != key_new by {
                if spec_key_at(repo, ref_name@, base + (jj - start)) == key_new {
                    crate::keys::lemma_commit_key_injective(
                        repo,
                        ref_name@,
                        (base + (jj - start)) as u64,
                        repo,
                        ref_name@,
                        idx,
                    );
                }
            }
            // rows written so far, including the new one
            assert forall|jj: int|
                start <= jj < j + 1 implies cm_new.contains_key(
                #[trigger] spec_key_at(repo, ref_name@, base + (jj - start)),
            ) && cm_new[spec_key_at(repo, ref_name@, base + (jj - start))] == enc_commit(
                spec_commit_of_rev(rvs[jj]),
            ) by {
                if jj < j {
                    assert(cm_pre.contains_key(spec_key_at(repo, ref_name@, base + (jj - start))));
                    assert(spec_key_at(repo, ref_name@, base + (jj - start)) != key_new);
                }
            }
            // membership
            assert forall|k: Seq<u8>|
                #[trigger] cm_new.contains_key(k) <==> (cm_mid.contains_key(k) || (exists|jj: int|
                    start <= jj < j + 1 && k == #[trigger] spec_key_at(
                        repo,
                        ref_name@,
                        base + (jj - start),
                    ))) by {
                if k == key_new {
                    assert(key_new == spec_key_at(repo, ref_name@, base + (j - start)));
                    assert(cm_new.contains_key(k));
                } else {
                    assert(cm_new.contains_key(k) == cm_pre.contains_key(k));
                }
            }
            // old values stay
            assert forall|k: Seq<u8>|
                #[trigger] cm_mid.contains_key(k) && !(exists|jj: int|
                    start <= jj < j + 1 && k == #[trigger] spec_key_at(
                        repo,
                        ref_name@,
                        base + (jj - start),
                    )) implies cm_new[k] == cm_mid[k] by {
                assert(k != key_new);
            }
        }
        j = j + 1;
        idx = idx + 1;
    }
    proof {
        assert(idx == base + emitted);
        let cm1 = family_view(*store, Family::Commit);
        let ccm1 = family_view(*store, Family::CommitCount);
        // keys outside this reference's prefix are untouched by the loop
        assert forall|k: Seq<u8>|
            #![trigger cm1.contains_key(k)]
            !has_prefix(k, pfx) implies (cm1.contains_key(k) == cm_mid.contains_key(k) && (
        cm_mid.contains_key(k) ==> cm1[k] == cm_mid[k])) by {
            if exists|jj: int|
                start <= jj < revs@.len() && k == #[trigger] spec_key_at(
                    repo,
                    ref_name@,
                    base + (jj - start),
                ) {
                let jj = choose|jj: int|
                    start <= jj < revs@.len() && k == #[trigger] spec_key_at(
                        repo,
                        ref_name@,
                        base + (jj - start),
                    );
                crate::keys::lemma_commit_key_prefix(
                    repo,
                    ref_name@,
                    (base + (jj - start)) as u64,
                    repo,
                    ref_name@,
                );
                assert(false);
            }
        }
    }
    if force {
        proof {
            assert(start == 0 && base == 0);
            let cm1 = family_view(*store, Family::Commit);
            assert forall|jj: int| 0 <= jj < emitted implies cm1.contains_key(
                #[trigger] spec_key_at(repo, ref_name@, jj),
            ) && cm1[spec_key_at(repo, ref_name@, jj)] == enc_commit(
                spec_commit_of_rev(rvs[jj]),
            ) by {
                assert(base + (jj - start) == jj);
                assert(cm1.contains_key(spec_key_at(repo, ref_name@, base + (jj - start))));
            }
            assert forall|k: Seq<u8>|
                #![trigger cm1.contains_key(k)]
                cm1.contains_key(k) <==> (cm_mid.contains_key(k) || (exists|jj: int|
                    0 <= jj < emitted && k == #[trigger] spec_key_at(repo, ref_name@, jj))) by {
                if exists|jj: int|
                    start <= jj < revs@.len() && k == #[trigger] spec_key_at(
                        repo,
                        ref_name@,
                        base + (jj - start),
                    ) {
                    let jj = choose|jj: int|
                        start <= jj < revs@.len() && k == #[trigger] spec_key_at(
                            repo,
                            ref_name@,
                            base + (jj - start),
                        );
                    assert(0 <= jj < emitted && k == spec_key_at(repo, ref_name@, jj));
                }
                if exists|jj: int|
                    0 <= jj < emitted && k == #[trigger] spec_key_at(repo, ref_name@, jj) {
                    let jj = choose|jj: int|
                        0 <= jj < emitted && k == #[trigger] spec_key_at(repo, ref_name@, jj);
                    assert(start <= jj < revs@.len() && k == spec_key_at(
                        repo,
                        ref_name@,
                        base + (jj - start),
                    ));
                }
            }
            lemma_after_ingest_wf(
                family_view(*store, Family::Commit),
                family_view(*store, Family::CommitCount),
                cm_mid,
                ccm_mid,
                repo,
                ref_name@,
                rvs,
                emitted as int,
            );
            if rvs.len() > 0 {
                crate::wire::lemma_u64_be_val(emitted);
                assert(family_view(*store, Family::Commit).contains_key(
                    spec_key_at(repo, ref_name@, emitted as int - 1),
                ));
                assert(spec_key_at(repo, ref_name@, emitted as int - 1) == spec_commit_key(
                    repo,
                    ref_name@,
                    (emitted - 1) as u64,
                ));
                lemma_tip_content(
                    family_view(*store, Family::Commit),
                    family_view(*store, Family::CommitCount),
                    repo,
                    ref_name@,
                    rvs,
                );
            }
        }
        Ok(RefUpdate::Reindexed { count: idx })
    } else {
        let matched = start - 1;
        proof {
            assert(start >= 1);
            assert(emitted > 0) by {
                if start == revs@.len() {
                    // the matched tip would have been the last revision:
                    // caught by the tip comparison
                    assert(rvs[start - 1].hash == rvs.last().hash);
                    assert(false);
                }
            }
            crate::wire::lemma_u64_be_val(idx);
            assert(spec_ref_count(family_view(*store, Family::CommitCount), repo, ref_name@)
                == Some(idx));
            assert(base == n0);
            let cm1 = family_view(*store, Family::Commit);
            // rows below the old count keep their presence and bytes
            assert forall|i: u64|
                #![trigger spec_commit_key(repo, ref_name@, i)]
                i < n0 implies (cm1.contains_key(spec_commit_key(repo, ref_name@, i))
                == cm_mid.contains_key(spec_commit_key(repo, ref_name@, i)) && (
            cm_mid.contains_key(spec_commit_key(repo, ref_name@, i)) ==> cm1[spec_commit_key(
                repo,
                ref_name@,
                i,
            )] == cm_mid[spec_commit_key(repo, ref_name@, i)])) by {
                if exists|jj: int|
                    start <= jj < revs@.len() && spec_commit_key(repo, ref_name@, i)
                        == #[trigger] spec_key_at(repo, ref_name@, base + (jj - start)) {
                    let jj = choose|jj: int|
                        start <= jj < revs@.len() && spec_commit_key(repo, ref_name@, i)
                            == #[trigger] spec_key_at(repo, ref_name@, base + (jj - start));
                    crate::keys::lemma_commit_key_injective(
                        repo,
                        ref_name@,
                        i,
                        repo,
                        ref_name@,
                        (base + (jj - start)) as u64,
                    );
                    assert(false);
                }
            }
            // membership over the prefix in the ensures' indexing
            assert forall|k: Seq<u8>|
                #![trigger cm1.contains_key(k)]
                has_prefix(k, pfx) implies (cm1.contains_key(k) <==> (cm_mid.contains_key(k) || (
            exists|j: int|
                0 <= j < emitted && k == #[trigger] spec_key_at(repo, ref_name@, n0 + j)))) by {
                if exists|jj: int|
                    start <= jj < revs@.len() && k == #[trigger] spec_key_at(
                        repo,
                        ref_name@,
                        base + (jj - start),
                    ) {
                    let jj = choose|jj: int|
                        start <= jj < revs@.len() && k == #[trigger] spec_key_at(
                            repo,
                            ref_name@,
                            base + (jj - start),
                        );
                    assert(0 <= jj - start < emitted && k == spec_key_at(
                        repo,
                        ref_name@,
                        n0 + (jj - start),
                    ));
                }
                if exists|j: int|
                    0 <= j < emitted && k == #[trigger] spec_key_at(repo, ref_name@, n0 + j) {
                    let j2 = choose|j: int|
                        0 <= j < emitted && k == #[trigger] spec_key_at(repo, ref_name@, n0 + j);
                    assert(start <= start + j2 < revs@.len() && k == spec_key_at(
                        repo,
                        ref_name@,
                        base + ((start + j2) - start),
                    ));
                }
            }
            if ref_wf(cm_mid, ccm_mid, repo, ref_name@) {
                lemma_after_append_wf(
                    family_view(*store, Family::Commit),
                    family_view(*store, Family::CommitCount),
                    cm_mid,
                    ccm_mid,
                    repo,
                    ref_name@,
                    rvs,
                    n0,
                    start as int,
                    emitted as int,
                );
            }
            assert(family_view(*store, Family::Commit).contains_key(
                spec_key_at(repo, ref_name@, base + (revs@.len() - 1 - start)),
            ));
            assert(spec_key_at(repo, ref_name@, base + (revs@.len() - 1 - start))
                == spec_commit_key(repo, ref_name@, (idx - 1) as u64));
            lemma_tip_content(
                family_view(*store, Family::Commit),
                family_view(*store, Family::CommitCount),
                repo,
                ref_name@,
                rvs,
            );
            // the appended-rows clause over the emitted window
            assert forall|jx: int| 0 <= jx < emitted implies family_view(
                *store,
                Family::Commit,
            ).contains_key(#[trigger] spec_commit_key(repo, ref_name@, (n0 + jx) as u64))
                && family_view(*store, Family::Commit)[spec_commit_key(
                repo,
                ref_name@,
                (n0 + jx) as u64,
            )] == enc_commit(spec_commit_of_rev(rvs[start + jx])) by {
                assert(spec_key_at(repo, ref_name@, base + ((start + jx) - start))
                    == spec_commit_key(repo, ref_name@, (n0 + jx) as u64));
            }
        }
        Ok(RefUpdate::Appended { matched: matched as u64, count: idx })
    }
}

/// After ingesting the whole walk from zero over a reference whose rows
/// were dropped, the reference is dense and decodable.
proof fn lemma_after_ingest_wf(
    cm1: Map<Seq<u8>, Seq<u8>>,
    ccm1: Map<Seq<u8>, Seq<u8>>,
    cm_mid: Map<Seq<u8>, Seq<u8>>,
    ccm_mid: Map<Seq<u8>, Seq<u8>>,
    repo: u64,
    rn: Seq<u8>,
    rvs: Seq<RevRecordV>,
    emitted: int,
)
    requires
        nul_free(rn),
        spec_revs_valid(rvs),
        emitted == rvs.len(),
        rvs.len() < 0x1_0000_0000_0000_0000,
        forall|k: Seq<u8>|
            #![trigger cm_mid.contains_key(k)]
            cm_mid.contains_key(k) ==> !has_prefix(k, spec_commit_prefix(repo, rn)),
        spec_ref_count(ccm_mid, repo, rn) == Some(0u64),
        (emitted == 0 ==> ccm1 == ccm_mid),
        (emitted > 0 ==> ccm1 == ccm_mid.insert(
            spec_commit_prefix(repo, rn),
            u64_be(emitted as u64),
        )),
        forall|jj: int|
            0 <= jj < emitted ==> cm1.contains_key(#[trigger] spec_key_at(repo, rn, jj))
                && cm1[spec_key_at(repo, rn, jj)] == enc_commit(spec_commit_of_rev(rvs[jj])),
        forall|k: Seq<u8>|
            #![trigger cm1.contains_key(k)]
            cm1.contains_key(k) <==> (cm_mid.contains_key(k) || (exists|jj: int|
                0 <= jj < emitted && k == #[trigger] spec_key_at(repo, rn, jj))),
    ensures
        spec_ref_count(ccm1, repo, rn) == Some(emitted as u64),
        ref_wf(cm1, ccm1, repo, rn),
        forall|k: Seq<u8>|
            #![trigger cm1.contains_key(k)]
            has_prefix(k, spec_commit_prefix(repo, rn)) ==> (cm1.contains_key(k) <==> exists|
                j: int,
            | 0 <= j < rvs.len() && k == #[trigger] spec_key_at(repo, rn, j)),
{
    crate::wire::lemma_u64_be_val(emitted as u64);
    if emitted == 0 {
        assert(spec_ref_count(ccm1, repo, rn) == Some(0u64));
    } else {
        assert(ccm1.contains_key(spec_commit_prefix(repo, rn)));
        assert(ccm1[spec_commit_prefix(repo, rn)] == u64_be(emitted as u64));
        assert(spec_ref_count(ccm1, repo, rn) == Some(emitted as u64));
    }
    assert forall|i: u64| i < emitted as u64 implies spec_commit_at(cm1, repo, rn, i) is Some by {
        let c = spec_commit_of_rev(rvs[i as int]);
        assert(spec_rev_valid(rvs[i as int]));
        crate::records::lemma_commit_round_trip(c);
        assert(spec_key_at(repo, rn, i as int) == spec_commit_key(repo, rn, i));
        assert(cm1[spec_commit_key(repo, rn, i)] == enc_commit(c));
    }
    assert forall|k: Seq<u8>|
        #[trigger] cm1.contains_key(k) && has_prefix(k, spec_commit_prefix(repo, rn)) implies
        exists|i: u64| i < emitted as u64 && k == #[trigger] spec_commit_key(repo, rn, i) by {
        if cm_mid.contains_key(k) {
            assert(!has_prefix(k, spec_commit_prefix(repo, rn)));
        } else {
            let jj = choose|jj: int|
                0 <= jj < emitted && k == #[trigger] spec_key_at(repo, rn, jj);
            assert((jj as u64) < (emitted as u64) && k == spec_commit_key(repo, rn, jj as u64));
        }
    }
    assert forall|k: Seq<u8>|
        #[trigger] cm1.contains_key(k) && has_prefix(k, spec_commit_prefix(repo, rn)) implies (
    exists|j: int| 0 <= j < rvs.len() && k == #[trigger] spec_key_at(repo, rn, j)) by {
        if cm_mid.contains_key(k) {
            assert(!has_prefix(k, spec_commit_prefix(repo, rn)));
        }
    }
    assert forall|k: Seq<u8>|
        !cm1.contains_key(k) && #[trigger] has_prefix(k, spec_commit_prefix(repo, rn)) implies !(
    exists|j: int| 0 <= j < rvs.len() && k == #[trigger] spec_key_at(repo, rn, j)) by {
        if exists|j: int| 0 <= j < rvs.len() && k == #[trigger] spec_key_at(repo, rn, j) {
            let j = choose|j: int| 0 <= j < rvs.len() && k == #[trigger] spec_key_at(repo, rn, j);
            assert(cm1.contains_key(k));
        }
    }
}

/// After appending the revisions beyond the matched tip over a reference
/// that was dense before, the reference is dense and decodable.
proof fn lemma_after_append_wf(
    cm1: Map<Seq<u8>, Seq<u8>>,
    ccm1: Map<Seq<u8>, Seq<u8>>,
    cm_mid: Map<Seq<u8>, Seq<u8>>,
    ccm_mid: Map<Seq<u8>, Seq<u8>>,
    repo: u64,
    rn: Seq<u8>,
    rvs: Seq<RevRecordV>,
    n0: u64,
    start: int,
    emitted: int,
)
    requires
        nul_free(rn),
        spec_revs_valid(rvs),
        0 < start <= rvs.len(),
        emitted == rvs.len() - start,
        emitted > 0,
        n0 + emitted < 0x1_0000_0000_0000_0000,
        spec_ref_count(ccm_mid, repo, rn) == Some(n0),
        ccm1 == ccm_mid.insert(spec_commit_prefix(repo, rn), u64_be((n0 + emitted) as u64)),
        forall|jj: int|
            start <= jj < rvs.len() ==> cm1.contains_key(
                #[trigger] spec_key_at(repo, rn, n0 + (jj - start)),
            ) && cm1[spec_key_at(repo, rn, n0 + (jj - start))] == enc_commit(
                spec_commit_of_rev(rvs[jj]),
            ),
        forall|k: Seq<u8>|
            #![trigger cm1.contains_key(k)]
            cm1.contains_key(k) <==> (cm_mid.contains_key(k) || (exists|jj: int|
                start <= jj < rvs.len() && k == #[trigger] spec_key_at(
                    repo,
                    rn,
                    n0 + (jj - start),
                ))),
        forall|k: Seq<u8>|
            #![trigger cm_mid.contains_key(k)]
            cm_mid.contains_key(k) && !(exists|jj: int|
                start <= jj < rvs.len() && k == #[trigger] spec_key_at(
                    repo,
                    rn,
                    n0 + (jj - start),
                )) ==> cm1[k] == cm_mid[k],
        ref_wf(cm_mid, ccm_mid, repo, rn),
    ensures
        spec_ref_count(ccm1, repo, rn) == Some((n0 + emitted) as u64),
        ref_wf(cm1, ccm1, repo, rn),
{
    crate::wire::lemma_u64_be_val((n0 + emitted) as u64);
    let n1 = (n0 + emitted) as u64;
    assert(spec_ref_count(ccm1, repo, rn) == Some(n1));
    // old row keys are not new row keys
    assert forall|i: u64|
        #![trigger spec_commit_key(repo, rn, i)]
        i < n0 implies !(exists|jj: int|
        start <= jj < rvs.len() && spec_commit_key(repo, rn, i) == #[trigger] spec_key_at(
            repo,
            rn,
            n0 + (jj - start),
        )) by {
        if exists|jj: int|
            start <= jj < rvs.len() && spec_commit_key(repo, rn, i) == #[trigger] spec_key_at(
                repo,
                rn,
                n0 + (jj - start),
            ) {
            let jj = choose|jj: int|
                start <= jj < rvs.len() && spec_commit_key(repo, rn, i) == #[trigger] spec_key_at(
                    repo,
                    rn,
                    n0 + (jj - start),
                );
            crate::keys::lemma_commit_key_injective(
                repo,
                rn,
                i,
                repo,
                rn,
                (n0 + (jj - start)) as u64,
            );
        }
    }
    assert forall|i: u64| i < n1 implies spec_commit_at(cm1, repo, rn, i) is Some by {
        if i < n0 {
            assert(spec_commit_at(cm_mid, repo, rn, i) is Some);
            assert(cm_mid.contains_key(spec_commit_key(repo, rn, i)));
            assert(cm1[spec_commit_key(repo, rn, i)] == cm_mid[spec_commit_key(repo, rn, i)]);
            assert(cm1.contains_key(spec_commit_key(repo, rn, i)));
        } else {
            let jj = start + (i - n0);
            let c = spec_commit_of_rev(rvs[jj]);
            assert(spec_rev_valid(rvs[jj]));
            crate::records::lemma_commit_round_trip(c);
            assert(spec_key_at(repo, rn, n0 + (jj - start)) == spec_commit_key(repo, rn, i));
            assert(cm1[spec_commit_key(repo, rn, i)] == enc_commit(c));
        }
    }
    assert forall|k: Seq<u8>|
        #[trigger] cm1.contains_key(k) && has_prefix(k, spec_commit_prefix(repo, rn)) implies
        exists|i: u64| i < n1 && k == #[trigger] spec_commit_key(repo, rn, i) by {
        if cm_mid.contains_key(k) {
            let i = choose|i: u64| i < n0 && k == #[trigger] spec_commit_key(repo, rn, i);
            assert(i < n1 && k == spec_commit_key(repo, rn, i));
        } else {
            let jj = choose|jj: int|
                start <= jj < rvs.len() && k == #[trigger] spec_key_at(repo, rn, n0 + (jj - start));
            assert(((n0 + (jj - start)) as u64) < n1 && k == spec_commit_key(
                repo,
                rn,
                (n0 + (jj - start)) as u64,
            ));
        }
    }
}

/// The last row of a dense reference holds the walk's last revision.
proof fn lemma_tip_content(
    cm1: Map<Seq<u8>, Seq<u8>>,
    ccm1: Map<Seq<u8>, Seq<u8>>,
    repo: u64,
    rn: Seq<u8>,
    rvs: Seq<RevRecordV>,
)
    requires
        spec_revs_valid(rvs),
        rvs.len() > 0,
        spec_ref_count(ccm1, repo, rn) matches Some(n1) && n1 > 0 && cm1.contains_key(
            spec_commit_key(repo, rn, (n1 - 1) as u64),
        ) && cm1[spec_commit_key(repo, rn, (n1 - 1) as u64)] == enc_commit(
            spec_commit_of_rev(rvs.last()),
        ),
    ensures
        spec_ref_count(ccm1, repo, rn) matches Some(n1) && n1 > 0 && (spec_commit_at(
            cm1,
            repo,
            rn,
            (n1 - 1) as u64,
        ) matches Some(c) && c.hash == rvs.last().hash),
{
    let c = spec_commit_of_rev(rvs.last());
    assert(spec_rev_valid(rvs.last()));
    crate::records::lemma_commit_round_trip(c);
}

/// After any successful non-empty update, the tips match: a second run
/// of the routine over the same walk writes nothing.
pub proof fn lemma_update_idempotent(
    cm1: Map<Seq<u8>, Seq<u8>>,
    ccm1: Map<Seq<u8>, Seq<u8>>,
    repo: u64,
    rn: Seq<u8>,
    rvs: Seq<RevRecordV>,
)
    requires
        rvs.len() > 0,
        spec_ref_count(ccm1, repo, rn) matches Some(n1) && n1 > 0 && (spec_commit_at(
            cm1,
            repo,
            rn,
            (n1 - 1) as u64,
        ) matches Some(c) && c.hash == rvs.last().hash),
    ensures
        spec_tips_match(cm1, ccm1, repo, rn, rvs),
{
}

// ---------------------------------------------------------------------------
// Metadata refresh helpers.
// ---------------------------------------------------------------------------
/// An empty description file means no description.
/// The text git seeds a fresh repository's description file with; a
/// description that still starts with it counts as absent.
pub open spec fn spec_description_placeholder() -> Seq<u8> {
    "Unnamed repository"@.map(|i: int, c: char| c as u8)
}

/// Whether a description denotes absence: empty, or still the canned
/// placeholder.
pub open spec fn spec_description_absent(d: Seq<u8>) -> bool {
    d.len() == 0 || crate::wire::has_prefix(d, spec_description_placeholder())
}

/// The description as stored: absent when empty or still the canned
/// placeholder, the bytes themselves otherwise.
pub open spec fn spec_normalize_description(d: Option<Seq<u8>>) -> Option<Seq<u8>> {
    match d {
        Some(v) => if spec_description_absent(v) {
            None
        } else {
            Some(v)
        },
        None => None,
    }
}

fn description_placeholder_bytes() -> (r: Vec<u8>)
    ensures
        r@ == spec_description_placeholder(),
{
    let mut v: Vec<u8> = Vec::new();
    v.push(85u8);
    v.push(110u8);
    v.push(110u8);
    v.push(97u8);
    v.push(109u8);
    v.push(101u8);
    v.push(100u8);
    v.push(32u8);
    v.push(114u8);
    v.push(101u8);
    v.push(112u8);
    v.push(111u8);
    v.push(115u8);
    v.push(105u8);
    v.push(116u8);
    v.push(111u8);
    v.push(114u8);
    v.push(121u8);
    proof {
        reveal_strlit("Unnamed repository");
        assert(v@ =~= spec_description_placeholder());
    }
    v
}

/// An empty description, or one still carrying the canned placeholder,
/// means no description.
pub fn normalize_description(d: Vec<u8>) -> (r: Option<Vec<u8>>)
    ensures
        match r {
            Some(v) => v@ == d@ && !spec_description_absent(d@),
            None => spec_description_absent(d@),
        },
{
    if d.len() == 0 {
        return None;
    }
    let placeholder = description_placeholder_bytes();
    if crate::wire::starts_with(&d, &placeholder) {
        None
    } else {
        Some(d)
    }
}

/// The latest committer time of a list, epoch when the list is empty:
/// later entries win ties, as a fold with `max` does.
pub open spec fn spec_max_time(l: Seq<(i64, i32)>) -> (i64, i32)
    decreases l.len(),
{
    if l.len() == 0 {
        (0i64, 0i32)
    } else {
        let m = spec_max_time(l.drop_last());
        if l.last().0 >= m.0 {
            l.last()
        } else {
            m
        }
    }
}

pub fn max_commit_time(times: &Vec<(i64, i32)>) -> (r: (i64, i32))
    ensures
        r == spec_max_time(times@),
        forall|i: int| 0 <= i < times@.len() ==> (#[trigger] times@[i]).0 <= r.0,
{
    let mut best: (i64, i32) = (0i64, 0i32);
    let mut i: usize = 0;
    proof {
        assert(times@.take(0) =~= Seq::<(i64, i32)>::empty());
    }
    while i < times.len()
        invariant
            i <= times@.len(),
            best == spec_max_time(times@.take(i as int)),
            forall|a: int| 0 <= a < i ==> (#[trigger] times@[a]).0 <= best.0,
        decreases times@.len() - i,
    {
        proof {
            assert(times@.take(i + 1).drop_last() =~= times@.take(i as int));
            assert(times@.take(i + 1).last() == times@[i as int]);
        }
        if times[i].0 >= best.0 {
            best = times[i];
        }
        i = i + 1;
    }
    proof {
        assert(times@.take(times@.len() as int) =~= times@);
    }
    best
}

// ---------------------------------------------------------------------------
// Tag synchronisation.
// ---------------------------------------------------------------------------
/// One annotated tag as the host peeled it: its full reference name, its
/// tagger if the tag object carried one, and its target tree if it peels
/// to one.
pub struct TagData {
    pub name: Vec<u8>,
    pub tagger: Option<Author>,
    pub tree: Option<TreeData>,
}

pub open spec fn spec_tag_names(l: Seq<TagData>) -> Seq<Seq<u8>> {
    Seq::new(l.len(), |i: int| l[i].name@)
}

/// Reconcile the indexed tag set with the live one: names indexed but
/// gone from the repository are deleted, names present but not indexed
/// are inserted (indexing their target trees), and names present on both
/// sides are left as they stand. Afterwards a tag row exists exactly for
/// the live names.
pub fn sync_tags(store: &mut Store, repo: u64, tags: &Vec<TagData>) -> (r: Result<(), StoreError>)
    requires
        spec_tags_walkable(tags@),
    ensures
        r is Ok ==> forall|n: Seq<u8>|
            #![trigger family_view(*final(store), Family::Tag).contains_key(crate::keys::spec_tag_key(repo, n))]
            family_view(*final(store), Family::Tag).contains_key(crate::keys::spec_tag_key(repo, n))
                <==> (exists|i: int|
                0 <= i < tags@.len() && (#[trigger] spec_tag_names(tags@)[i]) == n),
        r is Ok ==> forall|k: Seq<u8>|
            !crate::wire::has_prefix(k, u64_be(repo)) ==> (family_view(
                *final(store),
                Family::Tag,
            ).contains_key(k) == family_view(*old(store), Family::Tag).contains_key(k) && (
            family_view(*old(store), Family::Tag).contains_key(k) ==> family_view(
                *final(store),
                Family::Tag,
            )[k] == family_view(*old(store), Family::Tag)[k])),
        r is Ok ==> forall|g: Family|
            g != Family::Tag && g != Family::Tree && g != Family::TreeItem && g
                != Family::SortedTree ==> family_view(*final(store), g) == family_view(
                *old(store),
                g,
            ),
{
    let tt = crate::tag_tree::TagTree::new(repo);
    let indexed = match tt.list(store) {
        Ok(v) => v,
        Err(e) => return Err(e),
    };
    let ghost names = spec_tag_names(tags@);
    // delete the stale names
    let mut i: usize = 0;
    while i < indexed.len()
        invariant
            tt.repo == repo,
            names == spec_tag_names(tags@),
            names.len() == tags@.len(),
            i <= indexed@.len(),
            forall|ii: int|
                0 <= ii < tags@.len() ==> ((#[trigger] tags@[ii]).tree matches Some(t) ==> (
                t@ matches TreeDataV::Walk { oid, entries } ==> spec_entries_valid(entries))),
            forall|k: Seq<u8>|
                !crate::wire::has_prefix(k, u64_be(repo)) ==> (family_view(
                    *store,
                    Family::Tag,
                ).contains_key(k) == family_view(*old(store), Family::Tag).contains_key(k) && (
                family_view(*old(store), Family::Tag).contains_key(k) ==> family_view(
                    *store,
                    Family::Tag,
                )[k] == family_view(*old(store), Family::Tag)[k])),
            forall|g: Family|
                g != Family::Tag ==> family_view(*store, g) == family_view(*old(store), g),
            // under the prefix: only live names were possibly removed so far
            forall|n: Seq<u8>|
                #![trigger family_view(*store, Family::Tag).contains_key(crate::keys::spec_tag_key(repo, n))]
                family_view(*store, Family::Tag).contains_key(
                    crate::keys::spec_tag_key(repo, n),
                ) ==> family_view(*old(store), Family::Tag).contains_key(
                    crate::keys::spec_tag_key(repo, n),
                ) && family_view(*store, Family::Tag)[crate::keys::spec_tag_key(repo, n)]
                == family_view(*old(store), Family::Tag)[crate::keys::spec_tag_key(repo, n)],
            // names checked so far are present only if live
            forall|a: int|
                0 <= a < i ==> (family_view(*store, Family::Tag).contains_key(
                    crate::keys::spec_tag_key(repo, (#[trigger] indexed@[a])@),
                ) ==> names.contains(indexed@[a]@)),
        decreases indexed@.len() - i,
    {
        let mut live: bool = false;
        let mut j: usize = 0;
        while j < tags.len()
            invariant
                names == spec_tag_names(tags@),
                names.len() == tags@.len(),
                i < indexed@.len(),
                j <= tags@.len(),
                live ==> names.contains(indexed@[i as int]@),
                !live ==> forall|b: int| 0 <= b < j ==> names[b] != indexed@[i as int]@,
            decreases tags@.len() - j,
        {
            if crate::store::bytes_equal(&tags[j].name, &indexed[i]) {
                live = true;
                proof {
                    assert(names[j as int] == indexed@[i as int]@);
                }
            }
            j = j + 1;
        }
        if !live {
            match tt.remove(store, &indexed[i]) {
                Ok(()) => {},
                Err(e) => return Err(e),
            }
        }
        proof {
            crate::keys::lemma_tag_key_repo_prefix(repo, indexed@[i as int]@, repo);
        }
        i = i + 1;
    }
    // insert the missing names (indexing their trees)
    let ghost s_del = *store;
    let mut j: usize = 0;
    while j < tags.len()
        invariant
            tt.repo == repo,
            names == spec_tag_names(tags@),
            names.len() == tags@.len(),
            j <= tags@.len(),
            forall|ii: int|
                0 <= ii < tags@.len() ==> ((#[trigger] tags@[ii]).tree matches Some(t) ==> (
                t@ matches TreeDataV::Walk { oid, entries } ==> spec_entries_valid(entries))),
            forall|k: Seq<u8>|
                !crate::wire::has_prefix(k, u64_be(repo)) ==> (family_view(
                    *store,
                    Family::Tag,
                ).contains_key(k) == family_view(s_del, Family::Tag).contains_key(k) && (
                family_view(s_del, Family::Tag).contains_key(k) ==> family_view(
                    *store,
                    Family::Tag,
                )[k] == family_view(s_del, Family::Tag)[k])),
            forall|g: Family|
                g != Family::Tag && g != Family::Tree && g != Family::TreeItem && g
                    != Family::SortedTree ==> family_view(*store, g) == family_view(s_del, g),
            forall|n: Seq<u8>|
                #![trigger family_view(*store, Family::Tag).contains_key(crate::keys::spec_tag_key(repo, n))]
                family_view(*store, Family::Tag).contains_key(crate::keys::spec_tag_key(repo, n))
                    <==> (family_view(s_del, Family::Tag).contains_key(
                    crate::keys::spec_tag_key(repo, n),
                ) || (exists|b: int| 0 <= b < j && #[trigger] names[b] == n)),
        decreases tags@.len() - j,
    {
        let already = match store.get(Family::Tag, &crate::keys::tag_key(repo, &tags[j].name)) {
            Ok(v) => v.is_some(),
            Err(_) => return Err(StoreError::Backend),
        };
        if !already {
            let tree_id: Option<u64> = match &tags[j].tree {
                None => None,
                Some(TreeData::Known(d)) => Some(*d),
                Some(TreeData::Walk { oid, entries }) => {
                    let empty_subs: Vec<(Vec<u8>, Vec<u8>)> = Vec::new();
                    match index_tree(store, oid, entries, &empty_subs) {
                        Ok(d) => Some(d),
                        Err(e) => return Err(e),
                    }
                },
            };
            let tag = Tag {
                tagger: match &tags[j].tagger {
                    Some(a) => Some(dup_author(a)),
                    None => None,
                },
                tree: tree_id,
            };
            match tt.insert(store, &tags[j].name, &tag) {
                Ok(()) => {},
                Err(e) => return Err(e),
            }
        }
        proof {
            crate::keys::lemma_tag_key_repo_prefix(repo, tags@[j as int].name@, repo);
        }
        proof {
            assert forall|n: Seq<u8>|
                family_view(*store, Family::Tag).contains_key(
                    #[trigger] crate::keys::spec_tag_key(repo, n),
                ) <==> (family_view(s_del, Family::Tag).contains_key(
                crate::keys::spec_tag_key(repo, n),
            ) || (exists|b: int| 0 <= b < j + 1 && #[trigger] names[b] == n)) by {
                if n == names[j as int] {
                    assert(crate::keys::spec_tag_key(repo, n) == crate::keys::spec_tag_key(
                        repo,
                        tags@[j as int].name@,
                    ));
                } else {
                    if crate::keys::spec_tag_key(repo, n) == crate::keys::spec_tag_key(
                        repo,
                        tags@[j as int].name@,
                    ) {
                        crate::keys::lemma_tag_key_injective(
                            repo,
                            n,
                            repo,
                            tags@[j as int].name@,
                        );
                    }
                }
            }
        }
        j = j + 1;
    }
    proof {
        assert forall|n: Seq<u8>|
            family_view(*store, Family::Tag).contains_key(
                #[trigger] crate::keys::spec_tag_key(repo, n),
            ) <==> (exists|i2: int|
            0 <= i2 < tags@.len() && (#[trigger] spec_tag_names(tags@)[i2]) == n) by {
            if family_view(s_del, Family::Tag).contains_key(crate::keys::spec_tag_key(repo, n)) {
                // survived the deletion pass: it must be a live name
                if !names.contains(n) {
                    // it would have been checked and removed
                    assert(family_view(s_del, Family::Tag).contains_key(
                        crate::keys::spec_tag_key(repo, n),
                    ));
                    let a = choose|a: int|
                        0 <= a < indexed@.len() && (#[trigger] indexed@[a])@ == n;
                    assert(names.contains(indexed@[a]@));
                    assert(false);
                }
                let b = choose|b: int| 0 <= b < names.len() && #[trigger] names[b] == n;
                assert(spec_tag_names(tags@)[b] == n);
            }
        }
    }
    Ok(())
}

// ---------------------------------------------------------------------------
// The cycle driver.
// ---------------------------------------------------------------------------
/// One reference of a repository, with its full walk.
pub struct RefData {
    pub name: Vec<u8>,
    pub revs: Vec<RevRecord>,
}

/// Everything one cycle learned about one discovered repository.
pub struct RepoData {
    /// Relative path under the scan root: the record's key.
    pub path: Vec<u8>,
    /// The id to assign if the repository is new; an existing record
    /// keeps its id.
    pub id_hint: u64,
    pub name: Vec<u8>,
    pub description: Option<Vec<u8>>,
    pub owner: Option<Vec<u8>>,
    pub last_modified: (i64, i32),
    pub default_branch: Option<Vec<u8>>,
    pub exported: bool,
    pub refs: Vec<RefData>,
    pub tags: Vec<TagData>,
    pub submodules: Vec<(Vec<u8>, Vec<u8>)>,
}

/// What one cycle observed of one path under the scan root.
pub enum RepoObservation {
    Present(RepoData),
    Gone { path: Vec<u8> },
}

pub fn dup_opt_bytes(o: &Option<Vec<u8>>) -> (r: Option<Vec<u8>>)
    ensures
        match (r, o) {
            (Some(a), Some(b)) => a@ == b@,
            (None, None) => true,
            _ => false,
        },
{
    match o {
        Some(v) => Some(v.clone()),
        None => None,
    }
}

/// The exec check for [`spec_revs_valid`].
pub fn revs_valid(revs: &Vec<RevRecord>) -> (r: bool)
    ensures
        r == spec_revs_valid(rev_views(revs@)),
{
    let ghost rvs = rev_views(revs@);
    let mut i: usize = 0;
    while i < revs.len()
        invariant
            rvs == rev_views(revs@),
            rvs.len() == revs@.len(),
            i <= revs@.len(),
            forall|a: int| 0 <= a < i ==> spec_rev_valid(#[trigger] rvs[a]),
        decreases revs@.len() - i,
    {
        proof {
            let rv = revs@[i as int];
            assert(rv.summary@.len() == rv.summary.len());
            assert(rv.message@.len() == rv.message.len());
            assert(rv.author.name@.len() == rv.author.name.len());
            assert(rv.author.email@.len() == rv.author.email.len());
            assert(rv.committer.name@.len() == rv.committer.name.len());
            assert(rv.committer.email@.len() == rv.committer.email.len());
        }
        if revs[i].hash.len() != 20 {
            proof {
                assert(!spec_rev_valid(rvs[i as int]));
            }
            return false;
        }
        let tree_ok: bool = match &revs[i].tree {
            TreeData::Known(_) => true,
            TreeData::Walk { oid: _, entries } => crate::tree_index::entries_valid(entries),
        };
        if !tree_ok {
            proof {
                assert(!spec_rev_valid(rvs[i as int]));
            }
            return false;
        }
        proof {
            assert(spec_rev_valid(rvs[i as int]));
        }
        i = i + 1;
    }
    true
}

/// Tag data whose tree walks are all fit to index.
pub open spec fn spec_tags_walkable(tags: Seq<TagData>) -> bool {
    forall|i: int|
        0 <= i < tags.len() ==> ((#[trigger] tags[i]).tree matches Some(t) ==> (t@ matches
        TreeDataV::Walk { oid, entries } ==> spec_entries_valid(entries)))
}

/// The exec check for [`spec_tags_walkable`].
pub fn tags_valid(tags: &Vec<TagData>) -> (r: bool)
    ensures
        r == spec_tags_walkable(tags@),
{
    let mut i: usize = 0;
    while i < tags.len()
        invariant
            i <= tags@.len(),
            forall|a: int|
                0 <= a < i ==> ((#[trigger] tags@[a]).tree matches Some(t) ==> (t@ matches
                TreeDataV::Walk { oid, entries } ==> spec_entries_valid(entries))),
        decreases tags@.len() - i,
    {
        let ok: bool = match &tags[i].tree {
            None => true,
            Some(TreeData::Known(_)) => true,
            Some(TreeData::Walk { oid: _, entries }) => crate::tree_index::entries_valid(entries),
        };
        if !ok {
            return false;
        }
        i = i + 1;
    }
    true
}

/// The record the metadata refresher writes for an observation, given
/// the id it settled on.
pub open spec fn spec_refreshed_record(d: RepoData, id: u64) -> crate::records::RepositoryV {
    crate::records::RepositoryV {
        id,
        name: d.name@,
        description: spec_normalize_description(crate::records::opt_view(d.description)),
        owner: crate::records::opt_view(d.owner),
        seconds: d.last_modified.0,
        offset: d.last_modified.1,
        default_branch: crate::records::opt_view(d.default_branch),
        exported: d.exported,
    }
}

/// The path an observation concerns.
pub open spec fn spec_obs_path(o: RepoObservation) -> Seq<u8> {
    match o {
        RepoObservation::Present(d) => d.path@,
        RepoObservation::Gone { path } => path@,
    }
}

/// A reference the refresher can ingest: a key-safe name and well-formed
/// revisions.
pub open spec fn spec_ref_usable(rd: RefData) -> bool {
    &&& nul_free(rd.name@)
    &&& spec_revs_valid(rev_views(rd.revs@))
    &&& rd.revs@.len() < usize::MAX
}

/// The names of the usable references, in hand-in order: what the heads
/// row lists after the refresh.
pub open spec fn spec_valid_ref_names(refs: Seq<RefData>) -> Seq<Seq<u8>>
    decreases refs.len(),
{
    if refs.len() == 0 {
        Seq::empty()
    } else {
        spec_valid_ref_names(refs.drop_last()) + (if spec_ref_usable(refs.last()) {
            seq![refs.last().name@]
        } else {
            Seq::empty()
        })
    }
}

/// The id the refresher settles on: a readable record keeps its id, a
/// fresh path takes the hint.
pub open spec fn spec_settled_id(rm: Map<Seq<u8>, Seq<u8>>, d: RepoData) -> u64 {
    match crate::repo_table::spec_repo_at(rm, d.path@) {
        Some(rv) => rv.id,
        None => d.id_hint,
    }
}

/// A present observation is skipped when the stored record cannot be
/// read: replacing it could orphan the id-keyed rows.
pub open spec fn spec_present_skipped(rm0: Map<Seq<u8>, Seq<u8>>, d: RepoData) -> bool {
    rm0.contains_key(d.path@) && crate::repo_table::spec_repo_at(rm0, d.path@) is None
}

/// What a present observation does to the record at its path: a skipped
/// record stands as it was; otherwise the refreshed record is written
/// under the settled id.
pub open spec fn spec_present_record(
    rm0: Map<Seq<u8>, Seq<u8>>,
    rm1: Map<Seq<u8>, Seq<u8>>,
    d: RepoData,
) -> bool {
    if spec_present_skipped(rm0, d) {
        rm1.contains_key(d.path@) && rm1[d.path@] == rm0[d.path@]
    } else {
        rm1.contains_key(d.path@) && rm1[d.path@] == crate::records::enc_repository(
            spec_refreshed_record(d, spec_settled_id(rm0, d)),
        )
    }
}

/// What a gone observation does to the record at its path: a readable
/// record is removed, an unreadable one stands, an absent one stays
/// absent.
pub open spec fn spec_gone_record(
    rm0: Map<Seq<u8>, Seq<u8>>,
    rm1: Map<Seq<u8>, Seq<u8>>,
    path: Seq<u8>,
) -> bool {
    if rm0.contains_key(path) {
        if crate::repo_table::spec_repo_at(rm0, path) is Some {
            !rm1.contains_key(path)
        } else {
            rm1.contains_key(path) && rm1[path] == rm0[path]
        }
    } else {
        !rm1.contains_key(path)
    }
}

/// After the refresh, a usable reference's visible tip is its walk's
/// last revision (an empty walk promises nothing).
pub open spec fn spec_ref_tip_ok(
    cm: Map<Seq<u8>, Seq<u8>>,
    ccm: Map<Seq<u8>, Seq<u8>>,
    repo: u64,
    rd: RefData,
) -> bool {
    rev_views(rd.revs@).len() > 0 ==> (spec_ref_count(ccm, repo, rd.name@) matches Some(n) && n > 0
        && (spec_commit_at(cm, repo, rd.name@, (n - 1) as u64) matches Some(c) && c.hash
        == rev_views(rd.revs@).last().hash))
}

/// Two maps that agree on one row decode it the same way.
proof fn lemma_repo_at_row(m0: Map<Seq<u8>, Seq<u8>>, m1: Map<Seq<u8>, Seq<u8>>, p: Seq<u8>)
    requires
        m0.contains_key(p) == m1.contains_key(p),
        m0.contains_key(p) ==> m0[p] == m1[p],
    ensures
        crate::repo_table::spec_repo_at(m0, p) == crate::repo_table::spec_repo_at(m1, p),
{
}

/// Bring the store in line with one observation. A repository gone from
/// disk loses its record and everything keyed by its id; a present one
/// has its metadata upserted, each usable reference updated, its heads
/// row replaced with the usable names, and its tags reconciled. A stored
/// record that does not decode is skipped, never deleted or replaced.
pub fn sync_repository(store: &mut Store, obs: &RepoObservation) -> (r: Result<(), StoreError>)
    ensures
        r is Ok ==> family_view(*final(store), Family::Default) == family_view(
            *old(store),
            Family::Default,
        ),
        // records at other paths are untouched
        r is Ok ==> forall|p: Seq<u8>|
            #![trigger family_view(*final(store), Family::Repository).contains_key(p)]
            p != spec_obs_path(*obs) ==> (family_view(*final(store), Family::Repository).contains_key(
                p,
            ) == family_view(*old(store), Family::Repository).contains_key(p) && (family_view(
                *old(store),
                Family::Repository,
            ).contains_key(p) ==> family_view(*final(store), Family::Repository)[p] == family_view(
                *old(store),
                Family::Repository,
            )[p])),
        r is Ok ==> (obs matches RepoObservation::Gone { path } ==> ({
            let rm0 = family_view(*old(store), Family::Repository);
            &&& spec_gone_record(rm0, family_view(*final(store), Family::Repository), path@)
            // a readable record takes its id-keyed rows with it
            &&& (crate::repo_table::spec_repo_at(rm0, path@) matches Some(rv) ==> {
                &&& forall|k: Seq<u8>|
                    #![trigger family_view(*final(store), Family::Commit).contains_key(k)]
                    family_view(*final(store), Family::Commit).contains_key(k) <==> (family_view(
                        *old(store),
                        Family::Commit,
                    ).contains_key(k) && !has_prefix(k, u64_be(rv.id)))
                &&& forall|k: Seq<u8>|
                    #![trigger family_view(*final(store), Family::CommitCount).contains_key(k)]
                    family_view(*final(store), Family::CommitCount).contains_key(k) <==> (
                    family_view(*old(store), Family::CommitCount).contains_key(k) && !has_prefix(
                        k,
                        u64_be(rv.id),
                    ))
                &&& forall|k: Seq<u8>|
                    #![trigger family_view(*final(store), Family::Tag).contains_key(k)]
                    family_view(*final(store), Family::Tag).contains_key(k) <==> (family_view(
                        *old(store),
                        Family::Tag,
                    ).contains_key(k) && !has_prefix(k, u64_be(rv.id)))
                &&& family_view(*final(store), Family::Reference) == family_view(
                    *old(store),
                    Family::Reference,
                ).remove(u64_be(rv.id))
            })
            // nothing to remove: the store is untouched
            &&& (crate::repo_table::spec_repo_at(rm0, path@) is None ==> *final(store) == *old(
                store,
            ))
        })),
        r is Ok ==> (obs matches RepoObservation::Present(d) ==> ({
            let rm0 = family_view(*old(store), Family::Repository);
            let id = spec_settled_id(rm0, *d);
            &&& spec_present_record(rm0, family_view(*final(store), Family::Repository), *d)
            &&& (spec_present_skipped(rm0, *d) ==> *final(store) == *old(store))
            &&& (!spec_present_skipped(rm0, *d) ==> {
                // the heads row lists exactly the usable reference names
                &&& family_view(*final(store), Family::Reference) == family_view(
                    *old(store),
                    Family::Reference,
                ).insert(u64_be(id), crate::records::enc_list(spec_valid_ref_names(d.refs@)))
                &&& crate::repo_table::spec_heads_at(
                    family_view(*final(store), Family::Reference),
                    id,
                ) == Some(spec_valid_ref_names(d.refs@))
                // each usable reference not shadowed by a later usable one
                // of the same name ends at its walk's tip
                &&& forall|jj: int|
                    #![trigger d.refs@[jj]]
                    0 <= jj < d.refs@.len() && spec_ref_usable(d.refs@[jj]) && (forall|kk: int|
                        jj < kk < d.refs@.len() ==> !(spec_ref_usable(#[trigger] d.refs@[kk])
                            && d.refs@[kk].name@ == d.refs@[jj].name@)) ==> spec_ref_tip_ok(
                        family_view(*final(store), Family::Commit),
                        family_view(*final(store), Family::CommitCount),
                        id,
                        d.refs@[jj],
                    )
                // the indexed tag set ends exactly at the handed names
                &&& (spec_tags_walkable(d.tags@) ==> forall|n: Seq<u8>|
                    #![trigger crate::keys::spec_tag_key(id, n)]
                    family_view(*final(store), Family::Tag).contains_key(
                        crate::keys::spec_tag_key(id, n),
                    ) <==> (exists|ti: int|
                        0 <= ti < d.tags@.len() && (#[trigger] spec_tag_names(d.tags@)[ti]) == n))
                &&& (!spec_tags_walkable(d.tags@) ==> family_view(*final(store), Family::Tag)
                    == family_view(*old(store), Family::Tag))
            })
        })),
{
    let ghost rm0 = family_view(*store, Family::Repository);
    match obs {
        RepoObservation::Gone { path } => {
            match Repository::open(store, path) {
                Ok(Some(rec)) => Repository::delete(store, path, rec.id),
                Ok(None) => Ok(()),
                // a record that cannot be read is skipped, not deleted
                Err(StoreError::Corrupt) => Ok(()),
                Err(_) => Err(StoreError::Backend),
            }
        },
        RepoObservation::Present(d) => {
            let id: u64 = match Repository::open(store, &d.path) {
                Ok(Some(rec)) => rec.id,
                Ok(None) => d.id_hint,
                // a record that cannot be read is skipped, not replaced
                Err(StoreError::Corrupt) => return Ok(()),
                Err(_) => return Err(StoreError::Backend),
            };
            proof {
                assert(id == spec_settled_id(rm0, *d));
                assert(!spec_present_skipped(rm0, *d));
            }
            let rec = Repository {
                id,
                name: d.name.clone(),
                description: match &d.description {
                    Some(v) => normalize_description(v.clone()),
                    None => None,
                },
                owner: dup_opt_bytes(&d.owner),
                last_modified: d.last_modified,
                default_branch: dup_opt_bytes(&d.default_branch),
                exported: d.exported,
            };
            match rec.insert(store, &d.path) {
                Ok(()) => {},
                Err(e) => return Err(e),
            }
            let ghost rm_ins = family_view(*store, Family::Repository);
            let ghost ref0 = family_view(*store, Family::Reference);
            let ghost tag0 = family_view(*store, Family::Tag);
            proof {
                assert(rec@ =~= spec_refreshed_record(*d, id));
            }
            let mut valid: Vec<Vec<u8>> = Vec::new();
            let mut i: usize = 0;
            proof {
                assert(d.refs@.take(0) =~= Seq::<RefData>::empty());
                assert(crate::records::views_of(valid@) =~= spec_valid_ref_names(d.refs@.take(0)));
            }
            while i < d.refs.len()
                invariant
                    i <= d.refs@.len(),
                    family_view(*store, Family::Repository) == rm_ins,
                    rm_ins.contains_key(d.path@),
                    family_view(*store, Family::Reference) == ref0,
                    family_view(*store, Family::Tag) == tag0,
                    family_view(*store, Family::Default) == family_view(
                        *old(store),
                        Family::Default,
                    ),
                    crate::records::views_of(valid@) == spec_valid_ref_names(d.refs@.take(i as int)),
                    forall|jj: int|
                        #![trigger d.refs@[jj]]
                        0 <= jj < i && spec_ref_usable(d.refs@[jj]) && (forall|kk: int|
                            jj < kk < d.refs@.len() ==> !(spec_ref_usable(#[trigger] d.refs@[kk])
                                && d.refs@[kk].name@ == d.refs@[jj].name@)) ==> spec_ref_tip_ok(
                            family_view(*store, Family::Commit),
                            family_view(*store, Family::CommitCount),
                            id,
                            d.refs@[jj],
                        ),
                decreases d.refs@.len() - i,
            {
                let ghost s_pre = *store;
                let usable = crate::keys::check_nul_free(&d.refs[i].name) && revs_valid(
                    &d.refs[i].revs,
                ) && d.refs[i].revs.len() < usize::MAX;
                proof {
                    assert(usable == spec_ref_usable(d.refs@[i as int]));
                }
                if usable {
                    match update_ref(store, id, &d.refs[i].name, &d.refs[i].revs, &d.submodules) {
                        Ok(_) => {},
                        Err(e) => return Err(e),
                    }
                    proof {
                        let pfx_i = spec_commit_prefix(id, d.refs@[i as int].name@);
                        // earlier settled references keep their rows: their
                        // keys lie outside this reference's prefix
                        assert forall|jj: int|
                            #![trigger d.refs@[jj]]
                            0 <= jj < i && spec_ref_usable(d.refs@[jj]) && (forall|kk: int|
                                jj < kk < d.refs@.len() ==> !(spec_ref_usable(
                                    #[trigger] d.refs@[kk],
                                ) && d.refs@[kk].name@ == d.refs@[jj].name@)) implies spec_ref_tip_ok(
                            family_view(*store, Family::Commit),
                            family_view(*store, Family::CommitCount),
                            id,
                            d.refs@[jj],
                        ) by {
                            assert(d.refs@[jj].name@ != d.refs@[i as int].name@);
                            let rn = d.refs@[jj].name@;
                            if rev_views(d.refs@[jj].revs@).len() > 0 {
                                assert(spec_commit_prefix(id, rn) != pfx_i) by {
                                    if spec_commit_prefix(id, rn) == pfx_i {
                                        crate::keys::lemma_commit_prefix_injective(
                                            id,
                                            rn,
                                            id,
                                            d.refs@[i as int].name@,
                                        );
                                    }
                                }
                                let n = spec_ref_count(
                                    family_view(s_pre, Family::CommitCount),
                                    id,
                                    rn,
                                )->Some_0;
                                crate::keys::lemma_commit_key_prefix(
                                    id,
                                    rn,
                                    (n - 1) as u64,
                                    id,
                                    d.refs@[i as int].name@,
                                );
                            }
                        }
                    }
                    valid.push(d.refs[i].name.clone());
                }
                proof {
                    assert(d.refs@.take(i + 1).drop_last() =~= d.refs@.take(i as int));
                    assert(d.refs@.take(i + 1).last() == d.refs@[i as int]);
                    if usable {
                        assert(crate::records::views_of(valid@) =~= spec_valid_ref_names(
                            d.refs@.take(i + 1),
                        ));
                    } else {
                        assert(crate::records::views_of(valid@) =~= spec_valid_ref_names(
                            d.refs@.take(i + 1),
                        ));
                    }
                    // the newly settled reference, unless shadowed later
                    if usable {
                        assert(spec_ref_tip_ok(
                            family_view(*store, Family::Commit),
                            family_view(*store, Family::CommitCount),
                            id,
                            d.refs@[i as int],
                        ));
                    }
                }
                i = i + 1;
            }
            proof {
                assert(d.refs@.take(d.refs@.len() as int) =~= d.refs@);
                assert forall|a: int| 0 <= a < valid@.len() implies (#[trigger] valid@[a]@).len()
                    < 0x1_0000_0000_0000_0000 by {
                    assert(valid@[a]@.len() == valid@[a].len());
                }
            }
            match rec.replace_heads(store, &Heads(valid)) {
                Ok(()) => {},
                Err(e) => return Err(e),
            }
            proof {
                assert(crate::records::views_of(valid@).len() == valid@.len());
                assert(valid@.len() == valid.len());
                assert forall|a: int|
                    0 <= a < spec_valid_ref_names(d.refs@).len() implies crate::records::fits(
                    #[trigger] spec_valid_ref_names(d.refs@)[a],
                ) by {
                    assert(spec_valid_ref_names(d.refs@)[a] == crate::records::views_of(
                        valid@,
                    )[a]);
                    assert(crate::records::views_of(valid@)[a] == valid@[a]@);
                }
                crate::records::lemma_list_round_trip(spec_valid_ref_names(d.refs@));
                crate::wire::lemma_u64_be_val(id);
            }
            if tags_valid(&d.tags) {
                match sync_tags(store, id, &d.tags) {
                    Ok(()) => {},
                    Err(e) => return Err(e),
                }
            } else {
                proof {
                    assert(!spec_tags_walkable(d.tags@));
                }
            }
            Ok(())
        },
    }
}

/// One full indexing cycle: metadata, references and tags of every
/// observation in order, then a flush. A repository whose sync fails on
/// a store error is skipped and counted, and the cycle goes on; a flush
/// failure is tolerated. The host logs the count; the next cycle
/// retries.
pub fn run_cycle(store: &mut Store, observed: &Vec<RepoObservation>) -> (skipped: u64)
    ensures
        skipped == 0 ==> family_view(*final(store), Family::Default) == family_view(
            *old(store),
            Family::Default,
        ),
        skipped == 0 && observed@.len() == 0 ==> *final(store) == *old(store),
        // each observation whose path no other observation shares has its
        // record effect, whatever else the cycle did
        skipped == 0 ==> forall|i: int|
            #![trigger observed@[i]]
            0 <= i < observed@.len() && (forall|j: int|
                0 <= j < observed@.len() && j != i ==> spec_obs_path(#[trigger] observed@[j])
                    != spec_obs_path(observed@[i])) ==> match observed@[i] {
                RepoObservation::Present(d) => spec_present_record(
                    family_view(*old(store), Family::Repository),
                    family_view(*final(store), Family::Repository),
                    d,
                ),
                RepoObservation::Gone { path } => spec_gone_record(
                    family_view(*old(store), Family::Repository),
                    family_view(*final(store), Family::Repository),
                    path@,
                ),
            },
{
    let ghost rm0 = family_view(*store, Family::Repository);
    let mut skipped: u64 = 0;
    let mut i: usize = 0;
    while i < observed.len()
        invariant
            i <= observed@.len(),
            rm0 == family_view(*old(store), Family::Repository),
            skipped <= i,
            skipped == 0 ==> family_view(*store, Family::Default) == family_view(
                *old(store),
                Family::Default,
            ),
            skipped == 0 && observed@.len() == 0 ==> *store == *old(store),
            // settled observations hold their record effect
            skipped == 0 ==> forall|k: int|
                #![trigger observed@[k]]
                0 <= k < i && (forall|j: int|
                    0 <= j < observed@.len() && j != k ==> spec_obs_path(#[trigger] observed@[j])
                        != spec_obs_path(observed@[k])) ==> match observed@[k] {
                    RepoObservation::Present(d) => spec_present_record(
                        rm0,
                        family_view(*store, Family::Repository),
                        d,
                    ),
                    RepoObservation::Gone { path } => spec_gone_record(
                        rm0,
                        family_view(*store, Family::Repository),
                        path@,
                    ),
                },
            // unprocessed lone paths still carry their original row
            skipped == 0 ==> forall|k: int|
                #![trigger observed@[k]]
                i <= k < observed@.len() && (forall|j: int|
                    0 <= j < observed@.len() && j != k ==> spec_obs_path(#[trigger] observed@[j])
                        != spec_obs_path(observed@[k])) ==> (family_view(
                    *store,
                    Family::Repository,
                ).contains_key(spec_obs_path(observed@[k])) == rm0.contains_key(
                    spec_obs_path(observed@[k]),
                ) && (rm0.contains_key(spec_obs_path(observed@[k])) ==> family_view(
                    *store,
                    Family::Repository,
                )[spec_obs_path(observed@[k])] == rm0[spec_obs_path(observed@[k])])),
        decreases observed@.len() - i,
    {
        let ghost s_pre = *store;
        match sync_repository(store, &observed[i]) {
            Ok(()) => {
                proof {
                    if skipped == 0 {
                        let rmc = family_view(s_pre, Family::Repository);
                        let rmn = family_view(*store, Family::Repository);
                        let pi = spec_obs_path(observed@[i as int]);
                        // the settled effect transfers from the mid-cycle
                        // row to the original one when no other
                        // observation shares the path
                        if forall|j: int|
                            0 <= j < observed@.len() && j != i ==> spec_obs_path(
                                #[trigger] observed@[j],
                            ) != pi {
                            lemma_repo_at_row(rm0, rmc, pi);
                            match observed@[i as int] {
                                RepoObservation::Present(d) => {
                                    assert(spec_present_record(rm0, rmn, d));
                                },
                                RepoObservation::Gone { path } => {
                                    assert(spec_gone_record(rm0, rmn, path@));
                                },
                            }
                        }
                        // already-settled lone observations keep their
                        // effect: their rows lie at other paths
                        assert forall|k: int|
                            #![trigger observed@[k]]
                            0 <= k < i && (forall|j: int|
                                0 <= j < observed@.len() && j != k ==> spec_obs_path(
                                    #[trigger] observed@[j],
                                ) != spec_obs_path(observed@[k])) implies match observed@[k] {
                            RepoObservation::Present(d) => spec_present_record(rm0, rmn, d),
                            RepoObservation::Gone { path } => spec_gone_record(rm0, rmn, path@),
                        } by {
                            let pk = spec_obs_path(observed@[k]);
                            assert(spec_obs_path(observed@[i as int]) != pk);
                            assert(rmn.contains_key(pk) == rmc.contains_key(pk) && (
                            rmc.contains_key(pk) ==> rmn[pk] == rmc[pk]));
                            match observed@[k] {
                                RepoObservation::Present(d) => {
                                    assert(spec_present_record(rm0, rmc, d));
                                },
                                RepoObservation::Gone { path } => {
                                    assert(spec_gone_record(rm0, rmc, path@));
                                },
                            }
                        }
                        // unprocessed lone paths keep their original rows
                        assert forall|k: int|
                            #![trigger observed@[k]]
                            i + 1 <= k < observed@.len() && (forall|j: int|
                                0 <= j < observed@.len() && j != k ==> spec_obs_path(
                                    #[trigger] observed@[j],
                                ) != spec_obs_path(observed@[k])) implies (rmn.contains_key(
                            spec_obs_path(observed@[k]),
                        ) == rm0.contains_key(spec_obs_path(observed@[k])) && (rm0.contains_key(
                            spec_obs_path(observed@[k]),
                        ) ==> rmn[spec_obs_path(observed@[k])] == rm0[spec_obs_path(
                            observed@[k],
                        )])) by {
                            let pk = spec_obs_path(observed@[k]);
                            assert(spec_obs_path(observed@[i as int]) != pk);
                            assert(rmc.contains_key(pk) == rm0.contains_key(pk) && (
                            rm0.contains_key(pk) ==> rmc[pk] == rm0[pk]));
                            assert(rmn.contains_key(pk) == rmc.contains_key(pk) && (
                            rmc.contains_key(pk) ==> rmn[pk] == rmc[pk]));
                        }
                    }
                }
            },
            Err(_) => {
                if skipped < 0xffff_ffff_ffff_ffffu64 {
                    skipped = skipped + 1;
                } else {
                    skipped = 1;
                }
            },
        }
        i = i + 1;
    }
    match store.flush() {
        Ok(()) => {},
        Err(_) => {},
    }
    skipped
}

} // verus!
