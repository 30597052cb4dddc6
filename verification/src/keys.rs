//! Composite-key codec for the column families.
//!
//! Multi-byte integers in keys are big-endian so that ranges of one
//! repository or reference are contiguous, with one exception: the
//! tree-digest component is little-endian, the hasher's native output
//! order on the target, because digests are only probed by equality.
//! The commit family appends a single `0x00` separator after the
//! reference name, so reference names must not contain `0x00`.

use crate::wire::{
    has_prefix, lemma_u64_be_injective, lemma_u64_be_val, lemma_u64_le_injective, u64_be, u64_le,
    u64_to_be, u64_to_le,
};
use vstd::prelude::*;

verus! {

/// A reference name that may stand inside a commit-family key.
pub open spec fn nul_free(r: Seq<u8>) -> bool {
    forall|i: int| 0 <= i < r.len() ==> r[i] != 0u8
}

pub fn check_nul_free(r: &Vec<u8>) -> (b: bool)
    ensures
        b == nul_free(r@),
{
    let mut i: usize = 0;
    while i < r.len()
        invariant
            i <= r@.len(),
            forall|j: int| 0 <= j < i ==> r@[j] != 0u8,
        decreases r@.len() - i,
    {
        if r[i] == 0u8 {
            return false;
        }
        i = i + 1;
    }
    true
}

// ---------------------------------------------------------------------------
// Commit family: repo_id (8B BE) ‖ ref_name ‖ 0x00 ‖ seq (8B BE).
// Commit-count family: repo_id (8B BE) ‖ ref_name ‖ 0x00.
// ---------------------------------------------------------------------------
pub open spec fn spec_commit_prefix(repo: u64, ref_name: Seq<u8>) -> Seq<u8> {
    u64_be(repo) + ref_name + seq![0u8]
}

pub open spec fn spec_commit_key(repo: u64, ref_name: Seq<u8>, seq_no: u64) -> Seq<u8> {
    spec_commit_prefix(repo, ref_name) + u64_be(seq_no)
}

pub fn commit_prefix(repo: u64, ref_name: &Vec<u8>) -> (r: Vec<u8>)
    ensures
        r@ == spec_commit_prefix(repo, ref_name@),
{
    let mut r = u64_to_be(repo);
    let mut name = ref_name.clone();
    r.append(&mut name);
    r.push(0u8);
    proof {
        assert(r@ =~= spec_commit_prefix(repo, ref_name@));
    }
    r
}

pub fn commit_key(repo: u64, ref_name: &Vec<u8>, seq_no: u64) -> (r: Vec<u8>)
    ensures
        r@ == spec_commit_key(repo, ref_name@, seq_no),
{
    let mut r = commit_prefix(repo, ref_name);
    let mut tail = u64_to_be(seq_no);
    r.append(&mut tail);
    proof {
        assert(r@ =~= spec_commit_key(repo, ref_name@, seq_no));
    }
    r
}

/// Two commit keys agree exactly when repository, reference and sequence
/// number agree, provided both reference names are free of `0x00`.
pub proof fn lemma_commit_key_injective(
    r1: u64,
    f1: Seq<u8>,
    s1: u64,
    r2: u64,
    f2: Seq<u8>,
    s2: u64,
)
    requires
        nul_free(f1),
        nul_free(f2),
        spec_commit_key(r1, f1, s1) == spec_commit_key(r2, f2, s2),
    ensures
        r1 == r2 && f1 == f2 && s1 == s2,
{
    lemma_u64_be_val(r1);
    lemma_u64_be_val(r2);
    lemma_u64_be_val(s1);
    lemma_u64_be_val(s2);
    let k1 = spec_commit_key(r1, f1, s1);
    let k2 = spec_commit_key(r2, f2, s2);
    assert(k1.len() == 17 + f1.len());
    assert(k2.len() == 17 + f2.len());
    lemma_commit_prefix_lens(r1, f1, s1, r2, f2, s2);
    assert(f1 =~= f2);
    assert(u64_be(r1) =~= k1.take(8));
    assert(u64_be(r2) =~= k2.take(8));
    assert(u64_be(s1) =~= k1.skip(k1.len() - 8));
    assert(u64_be(s2) =~= k2.skip(k2.len() - 8));
    lemma_u64_be_injective(r1, r2);
    lemma_u64_be_injective(s1, s2);
}

proof fn lemma_commit_prefix_lens(r1: u64, f1: Seq<u8>, s1: u64, r2: u64, f2: Seq<u8>, s2: u64)
    requires
        nul_free(f1),
        nul_free(f2),
        spec_commit_key(r1, f1, s1) == spec_commit_key(r2, f2, s2),
    ensures
        f1.len() == f2.len(),
        forall|i: int| 0 <= i < f1.len() ==> f1[i] == f2[i],
{
    lemma_u64_be_val(r1);
    lemma_u64_be_val(r2);
    lemma_u64_be_val(s1);
    lemma_u64_be_val(s2);
    let k1 = spec_commit_key(r1, f1, s1);
    let k2 = spec_commit_key(r2, f2, s2);
    if f1.len() < f2.len() {
        // position of the separator in k1 falls inside f2 in k2
        assert(k1[8 + f1.len() as int] == 0u8);
        assert(k2[8 + f1.len() as int] == f2[f1.len() as int]);
        assert(false);
    }
    if f2.len() < f1.len() {
        assert(k2[8 + f2.len() as int] == 0u8);
        assert(k1[8 + f2.len() as int] == f1[f2.len() as int]);
        assert(false);
    }
    assert forall|i: int| 0 <= i < f1.len() implies f1[i] == f2[i] by {
        assert(k1[8 + i] == f1[i]);
        assert(k2[8 + i] == f2[i]);
    }
}

/// A commit key carries the commit prefix of `(repo, ref_name)` exactly
/// when it belongs to that repository and reference.
pub proof fn lemma_commit_key_prefix(r1: u64, f1: Seq<u8>, s1: u64, r2: u64, f2: Seq<u8>)
    requires
        nul_free(f1),
        nul_free(f2),
    ensures
        has_prefix(spec_commit_key(r1, f1, s1), spec_commit_prefix(r2, f2)) <==> (r1 == r2 && f1
            == f2),
{
    lemma_u64_be_val(r1);
    lemma_u64_be_val(r2);
    lemma_u64_be_val(s1);
    let k = spec_commit_key(r1, f1, s1);
    let p = spec_commit_prefix(r2, f2);
    if r1 == r2 && f1 == f2 {
        assert(k.take(p.len() as int) =~= p);
    }
    if has_prefix(k, p) {
        assert(k.take(p.len() as int) == p);
        if f1.len() < f2.len() {
            assert(p[8 + f1.len() as int] == f2[f1.len() as int]);
            assert(k[8 + f1.len() as int] == 0u8);
            assert(p[8 + f1.len() as int] == k.take(p.len() as int)[8 + f1.len() as int]);
            assert(false);
        }
        if f2.len() < f1.len() {
            assert(p[8 + f2.len() as int] == 0u8);
            assert(k[8 + f2.len() as int] == f1[f2.len() as int]);
            assert(p[8 + f2.len() as int] == k.take(p.len() as int)[8 + f2.len() as int]);
            assert(false);
        }
        assert(u64_be(r1) =~= k.take(8));
        assert(u64_be(r2) =~= p.take(8));
        assert(k.take(8) =~= p.take(8));
        lemma_u64_be_injective(r1, r2);
        assert forall|i: int| 0 <= i < f1.len() implies f1[i] == f2[i] by {
            assert(k[8 + i] == f1[i]);
            assert(p[8 + i] == f2[i]);
            assert(p[8 + i] == k.take(p.len() as int)[8 + i]);
        }
        assert(f1 =~= f2);
    }
}

/// A commit key always carries its repository's 8-byte prefix.
pub proof fn lemma_commit_key_repo_prefix(r1: u64, f1: Seq<u8>, s1: u64, r2: u64)
    ensures
        has_prefix(spec_commit_key(r1, f1, s1), u64_be(r2)) <==> r1 == r2,
{
    lemma_u64_be_val(r1);
    lemma_u64_be_val(r2);
    lemma_u64_be_val(s1);
    let k = spec_commit_key(r1, f1, s1);
    if r1 == r2 {
        assert(k.take(8) =~= u64_be(r2));
    }
    if has_prefix(k, u64_be(r2)) {
        assert(k.take(8) =~= u64_be(r1));
        lemma_u64_be_injective(r1, r2);
    }
}

/// The same, for a commit-count key.
pub proof fn lemma_commit_prefix_repo_prefix(r1: u64, f1: Seq<u8>, r2: u64)
    ensures
        has_prefix(spec_commit_prefix(r1, f1), u64_be(r2)) <==> r1 == r2,
{
    lemma_u64_be_val(r1);
    lemma_u64_be_val(r2);
    let k = spec_commit_prefix(r1, f1);
    if r1 == r2 {
        assert(k.take(8) =~= u64_be(r2));
    }
    if has_prefix(k, u64_be(r2)) {
        assert(k.take(8) =~= u64_be(r1));
        lemma_u64_be_injective(r1, r2);
    }
}

/// Count keys of distinct `(repo, ref)` pairs are distinct.
pub proof fn lemma_commit_prefix_injective(r1: u64, f1: Seq<u8>, r2: u64, f2: Seq<u8>)
    requires
        nul_free(f1),
        nul_free(f2),
        spec_commit_prefix(r1, f1) == spec_commit_prefix(r2, f2),
    ensures
        r1 == r2 && f1 == f2,
{
    lemma_u64_be_val(r1);
    lemma_u64_be_val(r2);
    let p1 = spec_commit_prefix(r1, f1);
    let p2 = spec_commit_prefix(r2, f2);
    assert(p1.len() == 9 + f1.len());
    assert(p2.len() == 9 + f2.len());
    assert(u64_be(r1) =~= p1.take(8));
    assert(u64_be(r2) =~= p2.take(8));
    lemma_u64_be_injective(r1, r2);
    assert forall|i: int| 0 <= i < f1.len() implies f1[i] == f2[i] by {
        assert(p1[8 + i] == f1[i]);
        assert(p2[8 + i] == f2[i]);
    }
    assert(f1 =~= f2);
}

// ---------------------------------------------------------------------------
// Tag family: repo_id (8B BE) ‖ full_ref_name.
// Reference (heads) family: repo_id (8B BE).
// ---------------------------------------------------------------------------
pub open spec fn spec_tag_key(repo: u64, name: Seq<u8>) -> Seq<u8> {
    u64_be(repo) + name
}

pub fn tag_key(repo: u64, name: &Vec<u8>) -> (r: Vec<u8>)
    ensures
        r@ == spec_tag_key(repo, name@),
{
    let mut r = u64_to_be(repo);
    let mut n = name.clone();
    r.append(&mut n);
    proof {
        assert(r@ =~= spec_tag_key(repo, name@));
    }
    r
}

pub proof fn lemma_tag_key_injective(r1: u64, n1: Seq<u8>, r2: u64, n2: Seq<u8>)
    requires
        spec_tag_key(r1, n1) == spec_tag_key(r2, n2),
    ensures
        r1 == r2 && n1 == n2,
{
    lemma_u64_be_val(r1);
    lemma_u64_be_val(r2);
    let k1 = spec_tag_key(r1, n1);
    let k2 = spec_tag_key(r2, n2);
    assert(u64_be(r1) =~= k1.take(8));
    assert(u64_be(r2) =~= k2.take(8));
    lemma_u64_be_injective(r1, r2);
    assert(k1.len() == 8 + n1.len());
    assert(k2.len() == 8 + n2.len());
    assert(n1.len() == n2.len());
    assert forall|i: int| 0 <= i < n1.len() implies n1[i] == n2[i] by {
        assert(k1[8 + i] == n1[i]);
        assert(k2[8 + i] == n2[i]);
    }
    assert(n1 =~= n2);
}

pub proof fn lemma_tag_key_repo_prefix(r1: u64, n1: Seq<u8>, r2: u64)
    ensures
        has_prefix(spec_tag_key(r1, n1), u64_be(r2)) <==> r1 == r2,
{
    lemma_u64_be_val(r1);
    lemma_u64_be_val(r2);
    let k = spec_tag_key(r1, n1);
    if r1 == r2 {
        assert(k.take(8) =~= u64_be(r2));
    }
    if has_prefix(k, u64_be(r2)) {
        assert(k.take(8) =~= u64_be(r1));
        lemma_u64_be_injective(r1, r2);
    }
}

// ---------------------------------------------------------------------------
// Tree-item family: digest (8B LE) ‖ depth (8B BE) ‖ path, where depth is
// the number of `/` bytes in the path. Prefix scans at a fixed depth thus
// return one directory level in path order without its descendants.
// ---------------------------------------------------------------------------
/// Number of `/` bytes in a path.
pub open spec fn spec_depth(path: Seq<u8>) -> int
    decreases path.len(),
{
    if path.len() == 0 {
        0
    } else {
        spec_depth(path.drop_last()) + if path.last() == 47u8 {
            1int
        } else {
            0int
        }
    }
}

pub fn depth_of(path: &Vec<u8>) -> (r: u64)
    requires
        path@.len() < 0x8000_0000_0000_0000,
    ensures
        r == spec_depth(path@),
{
    let mut count: u64 = 0;
    let mut i: usize = 0;
    proof {
        assert(path@.take(0) =~= Seq::<u8>::empty());
    }
    while i < path.len()
        invariant
            path@.len() < 0x8000_0000_0000_0000,
            i <= path@.len(),
            count == spec_depth(path@.take(i as int)),
            count <= i,
        decreases path@.len() - i,
    {
        proof {
            assert(path@.take(i + 1).drop_last() =~= path@.take(i as int));
            assert(path@.take(i + 1).last() == path@[i as int]);
        }
        if path[i] == 47u8 {
            count = count + 1;
        }
        i = i + 1;
    }
    proof {
        assert(path@.take(path@.len() as int) =~= path@);
    }
    count
}

/// A path has at most as many slashes as bytes.
pub proof fn lemma_depth_le_len(path: Seq<u8>)
    ensures
        0 <= spec_depth(path) <= path.len(),
    decreases path.len(),
{
    if path.len() > 0 {
        lemma_depth_le_len(path.drop_last());
    }
}

pub open spec fn spec_tree_item_key(digest: u64, depth: u64, path: Seq<u8>) -> Seq<u8> {
    u64_le(digest) + u64_be(depth) + path
}

pub fn tree_item_key(digest: u64, depth: u64, path: &Vec<u8>) -> (r: Vec<u8>)
    ensures
        r@ == spec_tree_item_key(digest, depth, path@),
{
    let mut r = u64_to_le(digest);
    let mut d = u64_to_be(depth);
    r.append(&mut d);
    let mut p = path.clone();
    r.append(&mut p);
    proof {
        assert(r@ =~= spec_tree_item_key(digest, depth, path@));
    }
    r
}

pub proof fn lemma_tree_item_key_injective(
    d1: u64,
    e1: u64,
    p1: Seq<u8>,
    d2: u64,
    e2: u64,
    p2: Seq<u8>,
)
    requires
        spec_tree_item_key(d1, e1, p1) == spec_tree_item_key(d2, e2, p2),
    ensures
        d1 == d2 && e1 == e2 && p1 == p2,
{
    lemma_u64_le_injective(d1, d2);
    lemma_u64_be_val(e1);
    lemma_u64_be_val(e2);
    let k1 = spec_tree_item_key(d1, e1, p1);
    let k2 = spec_tree_item_key(d2, e2, p2);
    assert(u64_le(d1) =~= k1.take(8));
    assert(u64_le(d2) =~= k2.take(8));
    assert(u64_be(e1) =~= k1.subrange(8, 16));
    assert(u64_be(e2) =~= k2.subrange(8, 16));
    lemma_u64_be_injective(e1, e2);
    assert(k1.len() == 16 + p1.len());
    assert(k2.len() == 16 + p2.len());
    assert(p1.len() == p2.len());
    assert forall|i: int| 0 <= i < p1.len() implies p1[i] == p2[i] by {
        assert(k1[16 + i] == p1[i]);
        assert(k2[16 + i] == p2[i]);
    }
    assert(p1 =~= p2);
}

/// A tree-item key carries the digest's 8-byte prefix exactly for its own
/// digest.
pub proof fn lemma_tree_item_key_digest_prefix(d1: u64, e1: u64, p1: Seq<u8>, d2: u64)
    ensures
        has_prefix(spec_tree_item_key(d1, e1, p1), u64_le(d2)) <==> d1 == d2,
{
    lemma_u64_le_injective(d1, d2);
    lemma_u64_be_val(e1);
    let k = spec_tree_item_key(d1, e1, p1);
    if d1 == d2 {
        assert(k.take(8) =~= u64_le(d2));
    }
    if has_prefix(k, u64_le(d2)) {
        assert(k.take(8) =~= u64_le(d1));
    }
}

/// The scan prefix for the direct children of directory `dir` (non-empty):
/// digest ‖ depth(dir)+1 ‖ dir ‖ `/`.
pub open spec fn spec_child_prefix(digest: u64, dir: Seq<u8>) -> Seq<u8> {
    u64_le(digest) + u64_be((spec_depth(dir) + 1) as u64) + dir + seq![47u8]
}

/// The scan prefix for the entries directly at the root: digest ‖ depth 0.
pub open spec fn spec_root_prefix(digest: u64) -> Seq<u8> {
    u64_le(digest) + u64_be(0)
}

pub proof fn lemma_tree_item_key_child_prefix(
    d1: u64,
    e1: u64,
    p1: Seq<u8>,
    d2: u64,
    dir: Seq<u8>,
)
    requires
        0 <= spec_depth(dir) + 1 < 0x1_0000_0000_0000_0000,
    ensures
        has_prefix(spec_tree_item_key(d1, e1, p1), spec_child_prefix(d2, dir)) <==> (d1 == d2 && e1
            == spec_depth(dir) + 1 && has_prefix(p1, dir + seq![47u8])),
{
    lemma_u64_le_injective(d1, d2);
    lemma_u64_be_val(e1);
    lemma_u64_be_val((spec_depth(dir) + 1) as u64);
    let k = spec_tree_item_key(d1, e1, p1);
    let pre = spec_child_prefix(d2, dir);
    assert(pre.len() == 17 + dir.len());
    if d1 == d2 && e1 == spec_depth(dir) + 1 && has_prefix(p1, dir + seq![47u8]) {
        assert((dir + seq![47u8]).len() == dir.len() + 1);
        assert(p1.len() >= dir.len() + 1);
        assert(k.len() >= pre.len());
        assert forall|i: int| 0 <= i < pre.len() implies k[i] == pre[i] by {
            if 16 <= i {
                assert(pre[i] == (dir + seq![47u8])[i - 16]);
                assert(k[i] == p1[i - 16]);
                assert(p1.take((dir.len() + 1) as int)[i - 16] == (dir + seq![47u8])[i - 16]);
            }
        }
        assert(k.take(pre.len() as int) =~= pre);
    }
    if has_prefix(k, pre) {
        assert(k.take(pre.len() as int) == pre);
        assert(k.take(8) =~= u64_le(d1));
        assert(pre.take(8) =~= u64_le(d2));
        assert forall|i: int| 0 <= i < 8 implies k[i] == pre[i] by {
            assert(k.take(pre.len() as int)[i] == pre[i]);
        }
        assert(k.take(8) =~= pre.take(8));
        assert(k.subrange(8, 16) =~= u64_be(e1));
        assert(pre.subrange(8, 16) =~= u64_be((spec_depth(dir) + 1) as u64));
        assert forall|i: int| 8 <= i < 16 implies k[i] == pre[i] by {
            assert(k.take(pre.len() as int)[i] == pre[i]);
        }
        assert(k.subrange(8, 16) =~= pre.subrange(8, 16));
        lemma_u64_be_injective(e1, (spec_depth(dir) + 1) as u64);
        assert(p1.len() >= dir.len() + 1);
        assert forall|i: int| 0 <= i < dir.len() + 1 implies p1[i] == (dir + seq![47u8])[i] by {
            assert(k[16 + i] == p1[i]);
            assert(pre[16 + i] == (dir + seq![47u8])[i]);
            assert(k.take(pre.len() as int)[16 + i] == pre[16 + i]);
        }
        assert(p1.take((dir.len() + 1) as int) =~= dir + seq![47u8]);
    }
}

pub proof fn lemma_tree_item_key_root_prefix(d1: u64, e1: u64, p1: Seq<u8>, d2: u64)
    ensures
        has_prefix(spec_tree_item_key(d1, e1, p1), spec_root_prefix(d2)) <==> (d1 == d2 && e1
            == 0),
{
    lemma_u64_le_injective(d1, d2);
    lemma_u64_be_val(e1);
    lemma_u64_be_val(0);
    let k = spec_tree_item_key(d1, e1, p1);
    let pre = spec_root_prefix(d2);
    assert(pre.len() == 16);
    if d1 == d2 && e1 == 0 {
        assert(k.take(16) =~= pre);
    }
    if has_prefix(k, pre) {
        assert(k.take(16) == pre);
        assert(k.take(8) =~= u64_le(d1));
        assert(pre.take(8) =~= u64_le(d2));
        assert forall|i: int| 0 <= i < 8 implies k[i] == pre[i] by {
            assert(k.take(16)[i] == pre[i]);
        }
        assert(k.take(8) =~= pre.take(8));
        assert(k.subrange(8, 16) =~= u64_be(e1));
        assert(pre.subrange(8, 16) =~= u64_be(0));
        assert forall|i: int| 8 <= i < 16 implies k[i] == pre[i] by {
            assert(k.take(16)[i] == pre[i]);
        }
        assert(k.subrange(8, 16) =~= pre.subrange(8, 16));
        lemma_u64_be_injective(e1, 0);
    }
}

pub fn child_prefix(digest: u64, dir: &Vec<u8>) -> (r: Vec<u8>)
    requires
        spec_depth(dir@) + 1 < 0x1_0000_0000_0000_0000,
        dir@.len() < 0x8000_0000_0000_0000,
    ensures
        r@ == spec_child_prefix(digest, dir@),
{
    let mut r = u64_to_le(digest);
    let d = depth_of(dir);
    let mut db = u64_to_be(d + 1);
    r.append(&mut db);
    let mut p = dir.clone();
    r.append(&mut p);
    r.push(47u8);
    proof {
        assert(r@ =~= spec_child_prefix(digest, dir@));
    }
    r
}

pub fn root_prefix(digest: u64) -> (r: Vec<u8>)
    ensures
        r@ == spec_root_prefix(digest),
{
    let mut r = u64_to_le(digest);
    let mut db = u64_to_be(0);
    r.append(&mut db);
    proof {
        assert(r@ =~= spec_root_prefix(digest));
    }
    r
}

// ---------------------------------------------------------------------------
// Single-namespace key prefixes. These build keys for a deployment that
// stores every entity in one namespace, each key led by a discriminating
// byte. The indexed store keeps its families apart by name instead and
// persists its schema version under its own literal key.
// ---------------------------------------------------------------------------
pub enum TreePrefix {
    Repository,
    SchemaVersion,
    Commit,
    Tag,
}

impl TreePrefix {
    /// The discriminating byte that leads keys of this kind.
    pub open spec fn spec_byte(self) -> u8 {
        match self {
            TreePrefix::Repository => 0u8,
            TreePrefix::SchemaVersion => 1u8,
            TreePrefix::Commit => 100u8,
            TreePrefix::Tag => 101u8,
        }
    }

    pub fn repository_id(path: &Vec<u8>) -> (r: Vec<u8>)
        ensures
            r@ == seq![TreePrefix::Repository.spec_byte()] + path@,
    {
        let mut r: Vec<u8> = Vec::new();
        r.push(0u8);
        let mut p = path.clone();
        r.append(&mut p);
        proof {
            assert(r@ =~= seq![TreePrefix::Repository.spec_byte()] + path@);
        }
        r
    }

    pub fn commit_id(repository: u64, reference: &Vec<u8>) -> (r: Vec<u8>)
        ensures
            r@ == seq![TreePrefix::Commit.spec_byte()] + u64_be(repository) + reference@,
    {
        let mut r: Vec<u8> = Vec::new();
        r.push(100u8);
        let mut id = u64_to_be(repository);
        r.append(&mut id);
        let mut n = reference.clone();
        r.append(&mut n);
        proof {
            assert(r@ =~= seq![TreePrefix::Commit.spec_byte()] + u64_be(repository) + reference@);
        }
        r
    }

    pub fn tag_id(repository: u64) -> (r: Vec<u8>)
        ensures
            r@ == seq![TreePrefix::Tag.spec_byte()] + u64_be(repository),
    {
        let mut r: Vec<u8> = Vec::new();
        r.push(101u8);
        let mut id = u64_to_be(repository);
        r.append(&mut id);
        proof {
            assert(r@ =~= seq![TreePrefix::Tag.spec_byte()] + u64_be(repository));
        }
        r
    }

    /// The key under which the schema version is persisted.
    pub fn schema_version() -> (r: Vec<u8>)
        ensures
            r@ == seq![TreePrefix::SchemaVersion.spec_byte()],
    {
        let mut r: Vec<u8> = Vec::new();
        r.push(1u8);
        proof {
            assert(r@ =~= seq![TreePrefix::SchemaVersion.spec_byte()]);
        }
        r
    }
}

} // verus!
