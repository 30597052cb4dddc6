//! Content-addressed tree indexing.
//!
//! A Git tree's indexed id is a 64-bit digest over its `(path, mode)`
//! pairs in breadth-first order — deliberately blind to blob contents, so
//! that shape-identical trees collapse into one set of rows. Unseen
//! shapes are flattened into per-entry rows keyed by
//! `digest ‖ depth ‖ path`, plus one summary row per digest, and the Git
//! tree object id is mapped to the digest so later commits skip the walk.

use crate::keys::{
    child_prefix, depth_of, root_prefix, spec_child_prefix, spec_depth, spec_root_prefix,
    spec_tree_item_key, tree_item_key,
};
use crate::records::{
    decode_tree, decode_tree_item, enc_tree, enc_tree_item, encode_tree, encode_tree_item,
    sdec_tree_item, Submodule, Tree, TreeItem, TreeItemKind, TreeItemV,
};
use crate::store::{family_view, Family, Store, StoreError};
use crate::wire::{has_prefix, lex_lt, u64_le, u64_to_le, u16_le, starts_with};
use vstd::prelude::*;

verus! {

// ---------------------------------------------------------------------------
// The raw tree walk, as plain values.
// ---------------------------------------------------------------------------
/// What one entry of a tree walk contributes: its slash-separated path
/// from the tree root, its Git file mode, and what kind of object it is.
pub struct TreeEntry {
    pub path: Vec<u8>,
    pub mode: u16,
    pub kind: TreeEntryKind,
}

pub enum TreeEntryKind {
    /// A blob, executable blob, or symlink.
    File,
    /// A subtree.
    Tree,
    /// A submodule: a commit entry pinning `oid`.
    Submodule { oid: Vec<u8> },
}

#[verifier::ext_equal]
pub ghost struct TreeEntryV {
    pub path: Seq<u8>,
    pub mode: u16,
    pub kind: TreeEntryKindV,
}

#[verifier::ext_equal]
pub ghost enum TreeEntryKindV {
    File,
    Tree,
    Submodule { oid: Seq<u8> },
}

impl View for TreeEntry {
    type V = TreeEntryV;

    open spec fn view(&self) -> TreeEntryV {
        TreeEntryV {
            path: self.path@,
            mode: self.mode,
            kind: match self.kind {
                TreeEntryKind::File => TreeEntryKindV::File,
                TreeEntryKind::Tree => TreeEntryKindV::Tree,
                TreeEntryKind::Submodule { ref oid } => TreeEntryKindV::Submodule { oid: oid@ },
            },
        }
    }
}

pub open spec fn entry_views(l: Seq<TreeEntry>) -> Seq<TreeEntryV> {
    Seq::new(l.len(), |i: int| l[i]@)
}

/// Entries fit to index: paths short enough to count slashes, submodule
/// ids 20 bytes, and paths pairwise distinct.
pub open spec fn spec_entries_valid(es: Seq<TreeEntryV>) -> bool {
    &&& forall|i: int|
        0 <= i < es.len() ==> (#[trigger] es[i]).path.len() < 0x8000_0000_0000_0000
    &&& forall|i: int|
        0 <= i < es.len() ==> ((#[trigger] es[i]).kind matches TreeEntryKindV::Submodule { oid }
            ==> oid.len() == 20)
    &&& forall|i: int, j: int|
        0 <= i < j < es.len() ==> (#[trigger] es[i]).path != (#[trigger] es[j]).path
}

/// The exec check for [`spec_entries_valid`].
pub fn entries_valid(es: &Vec<TreeEntry>) -> (r: bool)
    ensures
        r == spec_entries_valid(entry_views(es@)),
{
    let ghost evs = entry_views(es@);
    let mut i: usize = 0;
    while i < es.len()
        invariant
            evs == entry_views(es@),
            evs.len() == es@.len(),
            i <= es@.len(),
            forall|a: int| 0 <= a < i ==> (#[trigger] evs[a]).path.len() < 0x8000_0000_0000_0000,
            forall|a: int|
                0 <= a < i ==> ((#[trigger] evs[a]).kind matches TreeEntryKindV::Submodule { oid }
                    ==> oid.len() == 20),
            forall|a: int, b: int| 0 <= a < b < i ==> (#[trigger] evs[a]).path != (#[trigger] evs[b]).path,
        decreases es@.len() - i,
    {
        if es[i].path.len() as u64 >= 0x8000_0000_0000_0000u64 {
            proof {
                assert((evs[i as int]).path.len() >= 0x8000_0000_0000_0000);
                assert(!spec_entries_valid(evs));
            }
            return false;
        }
        match &es[i].kind {
            TreeEntryKind::Submodule { oid } => {
                if oid.len() != 20 {
                    proof {
                        assert((evs[i as int]).kind matches TreeEntryKindV::Submodule { oid: o }
                            && o.len() != 20);
                        assert(!spec_entries_valid(evs));
                    }
                    return false;
                }
            },
            _ => {},
        }
        let mut j: usize = 0;
        while j < i
            invariant
                evs == entry_views(es@),
                evs.len() == es@.len(),
                j <= i < es@.len(),
                forall|a: int| 0 <= a < j ==> (#[trigger] evs[a]).path != evs[i as int].path,
            decreases i - j,
        {
            if crate::store::bytes_equal(&es[j].path, &es[i].path) {
                proof {
                    assert((evs[j as int]).path == (evs[i as int]).path);
                    assert(!spec_entries_valid(evs));
                }
                return false;
            }
            j = j + 1;
        }
        i = i + 1;
    }
    true
}

// ---------------------------------------------------------------------------
// Shape digest.
// ---------------------------------------------------------------------------
/// The byte stream the digest is taken over: each entry's path bytes
/// followed by its 16-bit mode, little-endian, in walk order.
pub open spec fn shape_bytes(es: Seq<TreeEntryV>) -> Seq<u8>
    decreases es.len(),
{
    if es.len() == 0 {
        Seq::empty()
    } else {
        shape_bytes(es.drop_last()) + es.last().path + u16_le(es.last().mode)
    }
}

/// What the 64-bit hash returns for a byte stream. The digest is a pure
/// function of the bytes: the same stream gives the same value in every
/// process and on every machine.
pub uninterp spec fn xxh3_64_of(bytes: Seq<u8>) -> u64;

/// Relies on `xxhash_rust::xxh3::xxh3_64`: the digest depends on the
/// input bytes alone.
#[verifier::external_body]
fn xxh3_64(bytes: &Vec<u8>) -> (r: u64)
    ensures
        r == xxh3_64_of(bytes@),
{
    xxhash_rust::xxh3::xxh3_64(bytes.as_slice())
}

/// The content address of a tree shape.
pub open spec fn spec_shape_digest(es: Seq<TreeEntryV>) -> u64 {
    xxh3_64_of(shape_bytes(es))
}

/// Shape-identical walks — same paths and modes in the same order,
/// whatever their blobs hold — share their digest.
pub proof fn lemma_shape_digest_blind_to_content(a: Seq<TreeEntryV>, b: Seq<TreeEntryV>)
    requires
        a.len() == b.len(),
        forall|i: int|
            0 <= i < a.len() ==> (#[trigger] a[i]).path == b[i].path && a[i].mode == b[i].mode,
    ensures
        spec_shape_digest(a) == spec_shape_digest(b),
    decreases a.len(),
{
    if a.len() > 0 {
        lemma_shape_digest_blind_to_content(a.drop_last(), b.drop_last());
        assert(shape_bytes(a.drop_last()) == shape_bytes(b.drop_last())) by {
            lemma_shape_bytes_eq(a.drop_last(), b.drop_last());
        }
        assert(a.last().path == b.last().path && a.last().mode == b.last().mode);
    }
}

proof fn lemma_shape_bytes_eq(a: Seq<TreeEntryV>, b: Seq<TreeEntryV>)
    requires
        a.len() == b.len(),
        forall|i: int|
            0 <= i < a.len() ==> (#[trigger] a[i]).path == b[i].path && a[i].mode == b[i].mode,
    ensures
        shape_bytes(a) == shape_bytes(b),
    decreases a.len(),
{
    if a.len() > 0 {
        lemma_shape_bytes_eq(a.drop_last(), b.drop_last());
        assert(a.last().path == b.last().path && a.last().mode == b.last().mode);
    }
}

/// Compute the digest of a walk.
pub fn shape_digest(es: &Vec<TreeEntry>) -> (r: u64)
    ensures
        r == spec_shape_digest(entry_views(es@)),
{
    let ghost evs = entry_views(es@);
    let mut buf: Vec<u8> = Vec::new();
    let mut i: usize = 0;
    proof {
        assert(evs.take(0) =~= Seq::<TreeEntryV>::empty());
        assert(buf@ =~= shape_bytes(evs.take(0)));
    }
    while i < es.len()
        invariant
            evs == entry_views(es@),
            evs.len() == es@.len(),
            i <= es@.len(),
            buf@ == shape_bytes(evs.take(i as int)),
        decreases es@.len() - i,
    {
        let mut p = es[i].path.clone();
        buf.append(&mut p);
        crate::records::put_u16(es[i].mode, &mut buf);
        proof {
            assert(evs.take(i + 1).drop_last() =~= evs.take(i as int));
            assert(evs.take(i + 1).last() == evs[i as int]);
            assert(buf@ =~= shape_bytes(evs.take(i + 1)));
        }
        i = i + 1;
    }
    proof {
        assert(evs.take(evs.len() as int) =~= evs);
    }
    xxh3_64(&buf)
}

// ---------------------------------------------------------------------------
// Submodule URL resolution.
// ---------------------------------------------------------------------------
/// Rewrites `git://` and `ssh://` to `https://`; other URLs pass through.
pub open spec fn spec_rewrite_scheme(u: Seq<u8>) -> Seq<u8> {
    if has_prefix(u, "git://"@.map(|i: int, c: char| c as u8)) || has_prefix(
        u,
        "ssh://"@.map(|i: int, c: char| c as u8),
    ) {
        "https://"@.map(|i: int, c: char| c as u8) + u.skip(6)
    } else {
        u
    }
}

/// The URL recorded for a submodule at `path`: the first configured
/// submodule whose path matches, scheme-rewritten; nothing when none
/// matches.
pub open spec fn spec_submodule_url(subs: Seq<(Seq<u8>, Seq<u8>)>, path: Seq<u8>) -> Option<
    Seq<u8>,
>
    decreases subs.len(),
{
    if subs.len() == 0 {
        None
    } else if subs[0].0 == path {
        Some(spec_rewrite_scheme(subs[0].1))
    } else {
        spec_submodule_url(subs.skip(1), path)
    }
}

pub open spec fn sub_views(subs: Seq<(Vec<u8>, Vec<u8>)>) -> Seq<(Seq<u8>, Seq<u8>)> {
    Seq::new(subs.len(), |i: int| (subs[i].0@, subs[i].1@))
}

fn ascii_bytes_git() -> (r: Vec<u8>)
    ensures
        r@ == "git://"@.map(|i: int, c: char| c as u8),
{
    let mut v: Vec<u8> = Vec::new();
    v.push(103u8);
    v.push(105u8);
    v.push(116u8);
    v.push(58u8);
    v.push(47u8);
    v.push(47u8);
    proof {
        reveal_strlit("git://");
        assert(v@ =~= "git://"@.map(|i: int, c: char| c as u8));
    }
    v
}

fn ascii_bytes_ssh() -> (r: Vec<u8>)
    ensures
        r@ == "ssh://"@.map(|i: int, c: char| c as u8),
{
    let mut v: Vec<u8> = Vec::new();
    v.push(115u8);
    v.push(115u8);
    v.push(104u8);
    v.push(58u8);
    v.push(47u8);
    v.push(47u8);
    proof {
        reveal_strlit("ssh://");
        assert(v@ =~= "ssh://"@.map(|i: int, c: char| c as u8));
    }
    v
}

fn ascii_bytes_https() -> (r: Vec<u8>)
    ensures
        r@ == "https://"@.map(|i: int, c: char| c as u8),
{
    let mut v: Vec<u8> = Vec::new();
    v.push(104u8);
    v.push(116u8);
    v.push(116u8);
    v.push(112u8);
    v.push(115u8);
    v.push(58u8);
    v.push(47u8);
    v.push(47u8);
    proof {
        reveal_strlit("https://");
        assert(v@ =~= "https://"@.map(|i: int, c: char| c as u8));
    }
    v
}

/// Rewrite a clone URL for display: `git://` and `ssh://` become
/// `https://`.
pub fn rewrite_scheme(u: &Vec<u8>) -> (r: Vec<u8>)
    ensures
        r@ == spec_rewrite_scheme(u@),
{
    let git = ascii_bytes_git();
    let ssh = ascii_bytes_ssh();
    proof {
        reveal_strlit("git://");
        reveal_strlit("ssh://");
        reveal_strlit("https://");
        assert(git@.len() == 6);
        assert(ssh@.len() == 6);
    }
    if starts_with(u, &git) || starts_with(u, &ssh) {
        let mut out = ascii_bytes_https();
        let mut rest = crate::records::copy_range(u, 6, u.len());
        out.append(&mut rest);
        proof {
            assert(out@ =~= spec_rewrite_scheme(u@));
        }
        out
    } else {
        let r = u.clone();
        r
    }
}

/// Look a path up in the configured submodules.
pub fn submodule_url(subs: &Vec<(Vec<u8>, Vec<u8>)>, path: &Vec<u8>) -> (r: Option<Vec<u8>>)
    ensures
        match r {
            Some(u) => spec_submodule_url(sub_views(subs@), path@) == Some(u@),
            None => spec_submodule_url(sub_views(subs@), path@) is None,
        },
{
    let ghost svs = sub_views(subs@);
    let mut i: usize = 0;
    proof {
        assert(svs.skip(0) =~= svs);
    }
    while i < subs.len()
        invariant
            svs == sub_views(subs@),
            svs.len() == subs@.len(),
            i <= subs@.len(),
            spec_submodule_url(svs, path@) == spec_submodule_url(svs.skip(i as int), path@),
        decreases subs@.len() - i,
    {
        proof {
            assert(svs.skip(i as int)[0] == svs[i as int]);
            assert(svs.skip(i as int).skip(1) =~= svs.skip(i + 1));
        }
        if crate::store::bytes_equal(&subs[i].0, path) {
            return Some(rewrite_scheme(&subs[i].1));
        }
        i = i + 1;
    }
    proof {
        assert(svs.skip(svs.len() as int) =~= Seq::<(Seq<u8>, Seq<u8>)>::empty());
    }
    None
}

// ---------------------------------------------------------------------------
// The indexed-tree families.
// ---------------------------------------------------------------------------
/// Some row of the tree-item family lies under this digest.
pub open spec fn item_indexed(m: Map<Seq<u8>, Seq<u8>>, d: u64) -> bool {
    exists|k: Seq<u8>| #[trigger] m.contains_key(k) && has_prefix(k, u64_le(d))
}

/// Every key of the tree-item family is a digest, a depth, and a path,
/// with the depth equal to the number of slashes in the path. The
/// indexing functions write only such keys.
pub open spec fn tree_item_family_wf(m: Map<Seq<u8>, Seq<u8>>) -> bool {
    forall|k: Seq<u8>|
        #[trigger] m.contains_key(k) ==> k.len() >= 16 && k.subrange(8, 16) == crate::wire::u64_be(
            spec_depth(k.skip(16)) as u64,
        ) && spec_depth(k.skip(16)) < 0x8000_0000_0000_0000
}

/// The row value recorded for a walk entry: files and subtrees as they
/// are; submodules with their resolved URL, or no row when `.gitmodules`
/// does not name their path.
pub open spec fn spec_item_of(e: TreeEntryV, subs: Seq<(Seq<u8>, Seq<u8>)>) -> Option<TreeItemV> {
    match e.kind {
        TreeEntryKindV::File => Some(TreeItemV { mode: e.mode, kind: crate::records::TreeItemKindV::File }),
        TreeEntryKindV::Tree => Some(TreeItemV { mode: e.mode, kind: crate::records::TreeItemKindV::Tree }),
        TreeEntryKindV::Submodule { oid } => match spec_submodule_url(subs, e.path) {
            Some(u) => Some(
                TreeItemV {
                    mode: e.mode,
                    kind: crate::records::TreeItemKindV::Submodule { url: u, oid },
                },
            ),
            None => None,
        },
    }
}

/// The key under which a walk entry's row stands.
pub open spec fn spec_row_key(d: u64, e: TreeEntryV) -> Seq<u8> {
    spec_tree_item_key(d, spec_depth(e.path) as u64, e.path)
}

/// The paths the summary row lists: every non-subtree entry that gets a
/// row, in walk order.
pub open spec fn spec_file_paths(es: Seq<TreeEntryV>, subs: Seq<(Seq<u8>, Seq<u8>)>) -> Seq<
    Seq<u8>,
>
    decreases es.len(),
{
    if es.len() == 0 {
        Seq::empty()
    } else {
        spec_file_paths(es.drop_last(), subs) + (if spec_is_file_row(es.last(), subs) {
            seq![es.last().path]
        } else {
            Seq::empty()
        })
    }
}

pub open spec fn spec_is_file_row(e: TreeEntryV, subs: Seq<(Seq<u8>, Seq<u8>)>) -> bool {
    match e.kind {
        TreeEntryKindV::File => true,
        TreeEntryKindV::Tree => false,
        TreeEntryKindV::Submodule { oid } => spec_submodule_url(subs, e.path) is Some,
    }
}

impl Tree {
    /// The digest recorded for a Git tree object id, if any.
    pub fn find(store: &Store, tree_oid: &Vec<u8>) -> (r: Result<Option<u64>, StoreError>)
        ensures
            match r {
                Ok(Some(d)) => family_view(*store, Family::Tree).contains_key(tree_oid@)
                    && family_view(*store, Family::Tree)[tree_oid@] == enc_tree(d),
                Ok(None) => !family_view(*store, Family::Tree).contains_key(tree_oid@),
                Err(StoreError::Corrupt) => family_view(*store, Family::Tree).contains_key(
                    tree_oid@,
                ) && forall|d: u64| family_view(*store, Family::Tree)[tree_oid@] != enc_tree(d),
                Err(_) => true,
            },
    {
        match store.get(Family::Tree, tree_oid) {
            Ok(None) => Ok(None),
            Ok(Some(v)) => match decode_tree(&v) {
                Some(t) => Ok(Some(t.indexed_tree_id)),
                None => Err(StoreError::Corrupt),
            },
            Err(_) => Err(StoreError::Backend),
        }
    }
}

impl TreeItem {
    /// Does the tree-item family hold any row under this digest?
    pub fn contains(store: &Store, digest: u64) -> (r: Result<bool, StoreError>)
        ensures
            match r {
                Ok(b) => b == item_indexed(family_view(*store, Family::TreeItem), digest),
                Err(_) => true,
            },
    {
        let prefix = u64_to_le(digest);
        let entries = match store.entries_with_prefix(Family::TreeItem, &prefix) {
            Ok(v) => v,
            Err(_) => return Err(StoreError::Backend),
        };
        if entries.len() > 0 {
            proof {
                assert(family_view(*store, Family::TreeItem).contains_key(entries@[0].key@)
                    && has_prefix(entries@[0].key@, u64_le(digest)));
            }
            Ok(true)
        } else {
            proof {
                assert forall|k: Seq<u8>|
                    !(#[trigger] family_view(*store, Family::TreeItem).contains_key(k)
                        && has_prefix(k, u64_le(digest))) by {
                    if family_view(*store, Family::TreeItem).contains_key(k) && has_prefix(
                        k,
                        u64_le(digest),
                    ) {
                        let i = choose|i: int|
                            0 <= i < entries@.len() && #[trigger] entries@[i].key@ == k;
                        assert(false);
                    }
                }
            }
            Ok(false)
        }
    }

    /// The row stored for one exact path under a digest.
    pub fn find_exact(store: &Store, digest: u64, path: &Vec<u8>) -> (r: Result<
        Option<TreeItem>,
        StoreError,
    >)
        requires
            path@.len() < 0x8000_0000_0000_0000,
        ensures
            match r {
                Ok(Some(t)) => {
                    &&& family_view(*store, Family::TreeItem).contains_key(
                        spec_tree_item_key(digest, spec_depth(path@) as u64, path@),
                    )
                    &&& crate::records::sdec_tree_item(
                        family_view(*store, Family::TreeItem)[spec_tree_item_key(
                            digest,
                            spec_depth(path@) as u64,
                            path@,
                        )],
                        0,
                    ) matches Some((v, p)) && v == t@
                },
                Ok(None) => !family_view(*store, Family::TreeItem).contains_key(
                    spec_tree_item_key(digest, spec_depth(path@) as u64, path@),
                ),
                Err(_) => true,
            },
    {
        let depth = depth_of(path);
        let key = tree_item_key(digest, depth, path);
        match store.get(Family::TreeItem, &key) {
            Ok(None) => Ok(None),
            Ok(Some(v)) => match decode_tree_item(&v) {
                Some(t) => Ok(Some(t)),
                None => Err(StoreError::Corrupt),
            },
            Err(_) => Err(StoreError::Backend),
        }
    }
}

/// Hash a tree's shape, and — when no row yet lies under that digest —
/// flatten the walk into per-entry rows and one summary row. The Git tree
/// object id is recorded against the digest either way.
pub fn index_tree(
    store: &mut Store,
    git_oid: &Vec<u8>,
    entries: &Vec<TreeEntry>,
    subs: &Vec<(Vec<u8>, Vec<u8>)>,
) -> (r: Result<u64, StoreError>)
    requires
        spec_entries_valid(entry_views(entries@)),
    ensures
        r matches Ok(d) ==> ({
            let evs = entry_views(entries@);
            let svs = sub_views(subs@);
            let old_items = family_view(*old(store), Family::TreeItem);
            let new_items = family_view(*final(store), Family::TreeItem);
            &&& d == spec_shape_digest(evs)
            &&& family_view(*final(store), Family::Tree) == family_view(
                *old(store),
                Family::Tree,
            ).insert(git_oid@, enc_tree(d))
            &&& forall|g: Family|
                g != Family::Tree && g != Family::TreeItem && g != Family::SortedTree
                    ==> family_view(*final(store), g) == family_view(*old(store), g)
            &&& (item_indexed(old_items, d) ==> new_items == old_items && family_view(
                *final(store),
                Family::SortedTree,
            ) == family_view(*old(store), Family::SortedTree))
            &&& (!item_indexed(old_items, d) ==> {
                &&& forall|k: Seq<u8>|
                    #![trigger new_items.contains_key(k)]
                    new_items.contains_key(k) <==> (old_items.contains_key(k) || (exists|j: int|
                        0 <= j < evs.len() && spec_item_of(#[trigger] evs[j], svs) is Some && k
                            == spec_row_key(d, evs[j])))
                &&& forall|j: int|
                    0 <= j < evs.len() && spec_item_of(#[trigger] evs[j], svs) is Some
                        ==> new_items.contains_key(spec_row_key(d, evs[j]))
                        && new_items[spec_row_key(d, evs[j])] == crate::records::enc_tree_item(
                        spec_item_of(evs[j], svs)->Some_0,
                    )
                &&& forall|k: Seq<u8>|
                    #![trigger old_items.contains_key(k)]
                    old_items.contains_key(k) ==> new_items[k] == old_items[k]
                &&& family_view(*final(store), Family::SortedTree) == family_view(
                    *old(store),
                    Family::SortedTree,
                ).insert(u64_le(d), crate::records::enc_list(spec_file_paths(evs, svs)))
            })
            &&& (tree_item_family_wf(old_items) ==> tree_item_family_wf(new_items))
        }),
{
    let ghost evs = entry_views(entries@);
    let ghost svs = sub_views(subs@);
    let d = shape_digest(entries);
    let have = match TreeItem::contains(store, d) {
        Ok(b) => b,
        Err(_) => return Err(StoreError::Backend),
    };
    if !have {
        let ghost items0 = family_view(*store, Family::TreeItem);
        let mut file_paths: Vec<Vec<u8>> = Vec::new();
        let mut j: usize = 0;
        proof {
            assert(evs.take(0) =~= Seq::<TreeEntryV>::empty());
            assert(crate::records::views_of(file_paths@) =~= spec_file_paths(evs.take(0), svs));
        }
        while j < entries.len()
            invariant
                evs == entry_views(entries@),
                svs == sub_views(subs@),
                evs.len() == entries@.len(),
                spec_entries_valid(evs),
                j <= entries@.len(),
                !item_indexed(items0, d),
                crate::records::views_of(file_paths@) == spec_file_paths(evs.take(j as int), svs),
                forall|k: Seq<u8>|
                    #![trigger family_view(*store, Family::TreeItem).contains_key(k)]
                    family_view(*store, Family::TreeItem).contains_key(k) <==> (items0.contains_key(
                        k,
                    ) || (exists|jj: int|
                        0 <= jj < j && spec_item_of(#[trigger] evs[jj], svs) is Some && k
                            == spec_row_key(d, evs[jj]))),
                forall|jj: int|
                    0 <= jj < j && spec_item_of(#[trigger] evs[jj], svs) is Some ==> family_view(
                        *store,
                        Family::TreeItem,
                    ).contains_key(spec_row_key(d, evs[jj])) && family_view(
                        *store,
                        Family::TreeItem,
                    )[spec_row_key(d, evs[jj])] == crate::records::enc_tree_item(
                        spec_item_of(evs[jj], svs)->Some_0,
                    ),
                forall|k: Seq<u8>|
                    #![trigger items0.contains_key(k)]
                    items0.contains_key(k) ==> family_view(*store, Family::TreeItem)[k]
                        == items0[k],
                tree_item_family_wf(items0) ==> tree_item_family_wf(
                    family_view(*store, Family::TreeItem),
                ),
                forall|g: Family|
                    g != Family::TreeItem ==> family_view(*store, g) == family_view(
                        *old(store),
                        g,
                    ),
                items0 == family_view(*old(store), Family::TreeItem),
            decreases entries@.len() - j,
        {
            let ghost pre = *store;
            let item_opt: Option<TreeItem> = match &entries[j].kind {
                TreeEntryKind::File => Some(
                    TreeItem { mode: entries[j].mode, kind: TreeItemKind::File },
                ),
                TreeEntryKind::Tree => Some(
                    TreeItem { mode: entries[j].mode, kind: TreeItemKind::Tree },
                ),
                TreeEntryKind::Submodule { oid } => match submodule_url(subs, &entries[j].path) {
                    Some(u) => Some(
                        TreeItem {
                            mode: entries[j].mode,
                            kind: TreeItemKind::Submodule(
                                Submodule { url: u, oid: oid.clone() },
                            ),
                        },
                    ),
                    None => None,
                },
            };
            proof {
                match item_opt {
                    Some(ref it) => {
                        assert(spec_item_of(evs[j as int], svs) == Some(it@));
                    },
                    None => {
                        assert(spec_item_of(evs[j as int], svs) is None);
                    },
                }
            }
            match &item_opt {
                Some(item) => {
                    let depth = depth_of(&entries[j].path);
                    let key = tree_item_key(d, depth, &entries[j].path);
                    let value = encode_tree_item(&item);
                    match store.put(Family::TreeItem, &key, &value) {
                        Ok(()) => {},
                        Err(_) => return Err(StoreError::Backend),
                    }
                    proof {
                        crate::wire::lemma_u64_le_injective(d, d);
                        crate::wire::lemma_u64_be_val(depth);
                        assert(key@ == spec_row_key(d, evs[j as int]));
                        assert(family_view(*store, Family::TreeItem) == family_view(
                            pre,
                            Family::TreeItem,
                        ).insert(key@, value@));
                        assert(key@.subrange(8, 16) =~= crate::wire::u64_be(
                            spec_depth(evs[j as int].path) as u64,
                        ));
                        assert(key@.skip(16) =~= evs[j as int].path);
                        assert(key@.len() >= 16);
                        // distinct entry paths give distinct row keys
                        assert forall|jj: int|
                            0 <= jj < j && spec_item_of(#[trigger] evs[jj], svs)
                                is Some implies spec_row_key(d, evs[jj]) != key@ by {
                            if spec_row_key(d, evs[jj]) == key@ {
                                crate::keys::lemma_tree_item_key_injective(
                                    d,
                                    spec_depth(evs[jj].path) as u64,
                                    evs[jj].path,
                                    d,
                                    spec_depth(evs[j as int].path) as u64,
                                    evs[j as int].path,
                                );
                                assert(evs[jj].path == evs[j as int].path);
                                assert(false);
                            }
                        }
                        // the new key lies under the digest, so it is not an old key
                        assert(has_prefix(key@, u64_le(d))) by {
                            crate::keys::lemma_tree_item_key_digest_prefix(
                                d,
                                spec_depth(evs[j as int].path) as u64,
                                evs[j as int].path,
                                d,
                            );
                        }
                        assert(!items0.contains_key(key@));
                        if tree_item_family_wf(items0) {
                            crate::keys::lemma_depth_le_len(evs[j as int].path);
                            assert forall|k: Seq<u8>|
                                #[trigger] family_view(*store, Family::TreeItem).contains_key(
                                    k,
                                ) implies k.len() >= 16 && k.subrange(8, 16)
                                == crate::wire::u64_be(spec_depth(k.skip(16)) as u64)
                                && spec_depth(k.skip(16)) < 0x8000_0000_0000_0000 by {
                                if k != key@ {
                                    assert(family_view(pre, Family::TreeItem).contains_key(k));
                                }
                            }
                        }
                    }
                },
                None => {},
            }
            if match &entries[j].kind {
                TreeEntryKind::Tree => false,
                TreeEntryKind::File => true,
                TreeEntryKind::Submodule { .. } => item_opt.is_some(),
            } {
                file_paths.push(entries[j].path.clone());
                proof {
                    assert(spec_is_file_row(evs[j as int], svs));
                }
            } else {
                proof {
                    assert(!spec_is_file_row(evs[j as int], svs));
                }
            }
            proof {
                assert(evs.take(j + 1).drop_last() =~= evs.take(j as int));
                assert(evs.take(j + 1).last() == evs[j as int]);
                assert(crate::records::views_of(file_paths@) =~= spec_file_paths(
                    evs.take(j + 1),
                    svs,
                ));
            }
            j = j + 1;
        }
        proof {
            assert(evs.take(evs.len() as int) =~= evs);
        }
        let sorted_key = u64_to_le(d);
        let sorted_value = crate::records::encode_list(&file_paths);
        match store.put(Family::SortedTree, &sorted_key, &sorted_value) {
            Ok(()) => {},
            Err(_) => return Err(StoreError::Backend),
        }
    }
    let tree_value = encode_tree(&Tree { indexed_tree_id: d });
    match store.put(Family::Tree, git_oid, &tree_value) {
        Ok(()) => {},
        Err(_) => return Err(StoreError::Backend),
    }
    Ok(d)
}

/// Which stored paths a prefix query selects: everything under the
/// digest, the root level, or the direct children of one directory.
pub open spec fn spec_selected(sel: Option<Seq<u8>>, path: Seq<u8>) -> bool {
    match sel {
        None => true,
        Some(p) => if p.len() == 0 {
            spec_depth(path) == 0
        } else {
            spec_depth(path) == spec_depth(p) + 1 && has_prefix(path, p + seq![47u8])
        },
    }
}

/// Under a well-formed tree-item family, every key is the row key of its
/// own digest, depth and path components.
proof fn lemma_wf_key_form(m: Map<Seq<u8>, Seq<u8>>, k: Seq<u8>)
    requires
        tree_item_family_wf(m),
        m.contains_key(k),
    ensures
        k == spec_tree_item_key(
            crate::wire::u64_le_val(k.take(8)),
            spec_depth(k.skip(16)) as u64,
            k.skip(16),
        ),
        spec_depth(k.skip(16)) < 0x8000_0000_0000_0000,
{
    crate::wire::lemma_u64_le_val_roundtrip(k.take(8));
    let d = crate::wire::u64_le_val(k.take(8));
    let dep = spec_depth(k.skip(16)) as u64;
    let p = k.skip(16);
    assert(u64_le(d) == k.take(8));
    assert(crate::wire::u64_be(dep) == k.subrange(8, 16));
    assert(spec_tree_item_key(d, dep, p) =~= k);
}

impl TreeItem {
    /// The rows a prefix query returns: every entry under `digest` for
    /// `None`; the root level for `Some` of the empty path; the direct
    /// children of the directory for `Some` of a non-empty path. Paths
    /// come back full, ascending when a path selector is given.
    ///
    /// The well-formedness asked of the family holds of any store this
    /// crate populated: a fresh or rebuilt gate establishes it and every
    /// tree-item writer preserves it.
    #[verifier::rlimit(100)]
    #[verifier::spinoff_prover]
    pub fn find_prefix(store: &Store, digest: u64, sel: Option<&Vec<u8>>) -> (r: Result<
        Vec<(Vec<u8>, TreeItem)>,
        StoreError,
    >)
        requires
            tree_item_family_wf(family_view(*store, Family::TreeItem)),
            sel matches Some(p) ==> p@.len() < 0x8000_0000_0000_0000,
        ensures
            match r {
                Ok(list) => ({
                    let m = family_view(*store, Family::TreeItem);
                    let sv = match sel {
                        Some(p) => Some(p@),
                        None => None,
                    };
                    &&& forall|i: int|
                        0 <= i < list@.len() ==> ({
                            let key = spec_tree_item_key(
                                digest,
                                spec_depth((#[trigger] list@[i]).0@) as u64,
                                list@[i].0@,
                            );
                            &&& m.contains_key(key)
                            &&& (sdec_tree_item(m[key], 0) matches Some((v, p)) && v
                                == list@[i].1@)
                            &&& spec_selected(sv, list@[i].0@)
                        })
                    &&& forall|path: Seq<u8>|
                        #![trigger spec_selected(sv, path)]
                        (0 <= spec_depth(path) < 0x8000_0000_0000_0000 && m.contains_key(
                            spec_tree_item_key(digest, spec_depth(path) as u64, path),
                        ) && spec_selected(sv, path)) ==> exists|i: int|
                            0 <= i < list@.len() && (#[trigger] list@[i]).0@ == path
                    &&& (sel is Some ==> forall|i: int, j: int|
                        0 <= i < j < list@.len() ==> lex_lt(
                            (#[trigger] list@[i]).0@,
                            (#[trigger] list@[j]).0@,
                        ))
                }),
                Err(_) => true,
            },
    {
        let pre: Vec<u8> = match sel {
            None => u64_to_le(digest),
            Some(p) => if p.len() == 0 {
                root_prefix(digest)
            } else {
                proof {
                    crate::keys::lemma_depth_le_len(p@);
                }
                child_prefix(digest, p)
            },
        };
        let ghost sv: Option<Seq<u8>> = match sel {
            Some(p) => Some(p@),
            None => None,
        };
        let ghost m = family_view(*store, Family::TreeItem);
        let entries = match store.entries_with_prefix(Family::TreeItem, &pre) {
            Ok(v) => v,
            Err(_) => return Err(StoreError::Backend),
        };
        proof {
            // each selected key form matches the prefix, and conversely
            assert forall|a: int| 0 <= a < entries@.len() implies ({
                let k = (#[trigger] entries@[a]).key@;
                &&& k.len() >= 16
                &&& k == spec_tree_item_key(
                    digest,
                    spec_depth(k.skip(16)) as u64,
                    k.skip(16),
                )
                &&& spec_depth(k.skip(16)) < 0x8000_0000_0000_0000
                &&& spec_selected(sv, k.skip(16))
            }) by {
                let k = entries@[a].key@;
                assert(m.contains_key(k));
                assert(has_prefix(k, pre@));
                lemma_wf_key_form(m, k);
                let kd = crate::wire::u64_le_val(k.take(8));
                let dep = spec_depth(k.skip(16)) as u64;
                let p2 = k.skip(16);
                crate::keys::lemma_depth_le_len(p2);
                assert(k == spec_tree_item_key(kd, dep, p2));
                match sv {
                    None => {
                        assert(pre@ == u64_le(digest));
                        crate::keys::lemma_tree_item_key_digest_prefix(kd, dep, p2, digest);
                        assert(kd == digest);
                        assert(spec_selected(sv, p2));
                    },
                    Some(pp) => {
                        if pp.len() == 0 {
                            assert(pre@ == spec_root_prefix(digest));
                            crate::keys::lemma_tree_item_key_root_prefix(kd, dep, p2, digest);
                            assert(kd == digest && dep == 0);
                            assert(spec_depth(p2) == 0);
                            assert(spec_selected(sv, p2));
                        } else {
                            assert(pre@ == spec_child_prefix(digest, pp));
                            crate::keys::lemma_depth_le_len(pp);
                            crate::keys::lemma_tree_item_key_child_prefix(
                                kd,
                                dep,
                                p2,
                                digest,
                                pp,
                            );
                            assert(kd == digest);
                            assert(dep == spec_depth(pp) + 1);
                            assert(has_prefix(p2, pp + seq![47u8]));
                            assert(spec_depth(p2) == spec_depth(pp) + 1);
                            assert(spec_selected(sv, p2));
                        }
                    },
                }
                assert(k == spec_tree_item_key(digest, spec_depth(k.skip(16)) as u64, k.skip(16)));
            }
        }
        let mut out: Vec<(Vec<u8>, TreeItem)> = Vec::new();
        let mut i: usize = 0;
        while i < entries.len()
            invariant
                m == family_view(*store, Family::TreeItem),
                tree_item_family_wf(m),
                i <= entries@.len(),
                out@.len() == i,
                forall|a: int|
                    0 <= a < entries@.len() ==> m.contains_key((#[trigger] entries@[a]).key@)
                        && m[entries@[a].key@] == entries@[a].value@,
                forall|a: int| 0 <= a < entries@.len() ==> ({
                    let k = (#[trigger] entries@[a]).key@;
                    &&& k.len() >= 16
                    &&& k == spec_tree_item_key(
                        digest,
                        spec_depth(k.skip(16)) as u64,
                        k.skip(16),
                    )
                    &&& spec_depth(k.skip(16)) < 0x8000_0000_0000_0000
                    &&& spec_selected(sv, k.skip(16))
                }),
                forall|a: int|
                    0 <= a < i ==> (#[trigger] out@[a]).0@ == entries@[a].key@.skip(16) && ({
                        let key = spec_tree_item_key(
                            digest,
                            spec_depth(out@[a].0@) as u64,
                            out@[a].0@,
                        );
                        &&& m.contains_key(key)
                        &&& (sdec_tree_item(m[key], 0) matches Some((v, p)) && v == out@[a].1@)
                        &&& spec_selected(sv, out@[a].0@)
                    }),
            decreases entries@.len() - i,
        {
            let k = &entries[i].key;
            let path = crate::records::copy_range(k, 16, k.len());
            let item = match decode_tree_item(&entries[i].value) {
                Some(t) => t,
                None => return Err(StoreError::Corrupt),
            };
            proof {
                assert(path@ == entries@[i as int].key@.skip(16));
                assert(entries@[i as int].key@ == spec_tree_item_key(
                    digest,
                    spec_depth(path@) as u64,
                    path@,
                ));
            }
            out.push((path, item));
            i = i + 1;
        }
        let ghost gout = out@;
        let rr: Result<Vec<(Vec<u8>, TreeItem)>, StoreError> = Ok(out);
        proof {
            assert(rr->Ok_0@ == gout);
            assert forall|path: Seq<u8>|
                #![trigger spec_selected(sv, path)]
                (0 <= spec_depth(path) < 0x8000_0000_0000_0000 && m.contains_key(
                    spec_tree_item_key(digest, spec_depth(path) as u64, path),
                ) && spec_selected(sv, path)) implies exists|i: int|
                0 <= i < rr->Ok_0@.len() && (#[trigger] rr->Ok_0@[i]).0@ == path by {
                let key = spec_tree_item_key(digest, spec_depth(path) as u64, path);
                let dep = spec_depth(path) as u64;
                crate::wire::lemma_u64_le_injective(digest, digest);
                crate::wire::lemma_u64_be_val(dep);
                assert(has_prefix(key, pre@)) by {
                    match sv {
                        None => {
                            crate::keys::lemma_tree_item_key_digest_prefix(
                                digest,
                                dep,
                                path,
                                digest,
                            );
                        },
                        Some(pp) => {
                            if pp.len() == 0 {
                                crate::keys::lemma_tree_item_key_root_prefix(
                                    digest,
                                    dep,
                                    path,
                                    digest,
                                );
                            } else {
                                crate::keys::lemma_depth_le_len(pp);
                                crate::keys::lemma_tree_item_key_child_prefix(
                                    digest,
                                    dep,
                                    path,
                                    digest,
                                    pp,
                                );
                            }
                        },
                    }
                }
                let a = choose|a: int|
                    0 <= a < entries@.len() && (#[trigger] entries@[a]).key@ == key;
                assert(gout[a].0@ == entries@[a].key@.skip(16));
                assert(entries@[a].key@.skip(16) =~= path) by {
                    crate::keys::lemma_tree_item_key_injective(
                        digest,
                        spec_depth(entries@[a].key@.skip(16)) as u64,
                        entries@[a].key@.skip(16),
                        digest,
                        dep,
                        path,
                    );
                }
                assert(rr->Ok_0@[a].0@ == path);
            }
            if sel is Some {
                assert forall|i: int, j: int| 0 <= i < j < gout.len() implies lex_lt(
                    (#[trigger] gout[i]).0@,
                    (#[trigger] gout[j]).0@,
                ) by {
                    assert(lex_lt(entries@[i].key@, entries@[j].key@));
                    assert(pre@.len() >= 16);
                    assert(entries@[i].key@.take(16) =~= pre@.take(16));
                    assert(entries@[j].key@.take(16) =~= pre@.take(16));
                    crate::tag_tree::lemma_lex_lt_common_prefix(
                        entries@[i].key@,
                        entries@[j].key@,
                        16,
                    );
                    assert(gout[i].0@ == entries@[i].key@.skip(16));
                    assert(gout[j].0@ == entries@[j].key@.skip(16));
                }
            }
        }
        rr
    }
}

} // verus!
