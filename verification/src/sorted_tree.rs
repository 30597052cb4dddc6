//! The per-digest directory summary: a recursive map from path segment
//! to file or subdirectory, assembled by splitting each file path on `/`
//! and inserting into nested maps. Directories are created on demand; a
//! file standing where a directory is needed (or the other way round) is
//! a collision and fails the assembly.
//!
//! The store keeps the flat path list under the digest (see the tree
//! indexer); readers assemble the nested form from it.

use crate::records::{decode_list, sdec_list, views_of};
use crate::store::{family_view, Family, Store, StoreError};
use crate::wire::u64_le;
use vstd::prelude::*;

verus! {

broadcast use vstd::std_specs::vec::group_vec_axioms;

/// One path segment.
pub struct TreeKey(pub Vec<u8>);

/// The recursive directory summary.
pub struct SortedTree(pub Vec<(TreeKey, SortedTreeItem)>);

pub enum SortedTreeItem {
    File,
    Directory(SortedTree),
}

#[verifier::ext_equal]
pub ghost struct SortedTreeV {
    pub entries: Seq<(Seq<u8>, SortedTreeItemV)>,
}

#[verifier::ext_equal]
pub ghost enum SortedTreeItemV {
    File,
    Directory(SortedTreeV),
}

pub open spec fn st_view(t: SortedTree) -> SortedTreeV
    decreases t, t.0@.len() + 1,
{
    SortedTreeV { entries: st_entries_upto(t, t.0@.len() as int) }
}

pub open spec fn st_entries_upto(t: SortedTree, n: int) -> Seq<(Seq<u8>, SortedTreeItemV)>
    decreases t, n,
{
    if n <= 0 || n > t.0@.len() {
        Seq::empty()
    } else {
        st_entries_upto(t, n - 1).push((t.0@[n - 1].0.0@, st_item_view(t.0@[n - 1].1)))
    }
}

pub open spec fn st_item_view(it: SortedTreeItem) -> SortedTreeItemV
    decreases it,
{
    match it {
        SortedTreeItem::File => SortedTreeItemV::File,
        SortedTreeItem::Directory(sub) => SortedTreeItemV::Directory(st_view(sub)),
    }
}

/// The view of a summary, pointwise.
pub proof fn lemma_st_view_index(t: SortedTree)
    ensures
        st_view(t).entries.len() == t.0@.len(),
        forall|i: int|
            0 <= i < t.0@.len() ==> #[trigger] st_view(t).entries[i] == (
                t.0@[i].0.0@,
                st_item_view(t.0@[i].1),
            ),
{
    lemma_st_upto_index(t, t.0@.len() as int);
}

proof fn lemma_st_upto_index(t: SortedTree, n: int)
    requires
        n <= t.0@.len(),
    ensures
        st_entries_upto(t, n).len() == (if n >= 0 { n } else { 0 }),
        forall|i: int|
            0 <= i < n ==> #[trigger] st_entries_upto(t, n)[i] == (
                t.0@[i].0.0@,
                st_item_view(t.0@[i].1),
            ),
    decreases n,
{
    if n > 0 {
        lemma_st_upto_index(t, n - 1);
    }
}

// ---------------------------------------------------------------------------
// Splitting a path into segments.
// ---------------------------------------------------------------------------
/// The segments of a path: split on `/`. A path with no slash is one
/// segment; a leading slash opens an empty segment.
pub open spec fn spec_split(p: Seq<u8>) -> Seq<Seq<u8>>
    decreases p.len(),
{
    if p.len() == 0 {
        seq![Seq::empty()]
    } else {
        let rest = spec_split(p.skip(1));
        if p[0] == 47u8 {
            seq![Seq::empty()] + rest
        } else {
            seq![seq![p[0]] + rest[0]] + rest.skip(1)
        }
    }
}

proof fn lemma_split_len(p: Seq<u8>)
    ensures
        spec_split(p).len() >= 1,
    decreases p.len(),
{
    if p.len() > 0 {
        lemma_split_len(p.skip(1));
    }
}

proof fn lemma_split_no_slash(p: Seq<u8>)
    requires
        forall|j: int| 0 <= j < p.len() ==> p[j] != 47u8,
    ensures
        spec_split(p) == seq![p],
    decreases p.len(),
{
    if p.len() == 0 {
        assert(p =~= Seq::<u8>::empty());
        assert(spec_split(p) =~~= seq![p]);
    } else {
        lemma_split_no_slash(p.skip(1));
        assert(seq![p[0]] + p.skip(1) =~= p);
        assert(spec_split(p.skip(1)).skip(1) =~= Seq::<Seq<u8>>::empty());
        assert(spec_split(p) =~~= seq![p]);
    }
}

proof fn lemma_split_at_slash(p: Seq<u8>, i: int)
    requires
        0 <= i < p.len(),
        p[i] == 47u8,
        forall|j: int| 0 <= j < i ==> p[j] != 47u8,
    ensures
        spec_split(p) == seq![p.take(i)] + spec_split(p.skip(i + 1)),
    decreases i,
{
    lemma_split_len(p.skip(1));
    if i == 0 {
        assert(p.take(0) =~= Seq::<u8>::empty());
        assert(spec_split(p) =~= seq![p.take(0)] + spec_split(p.skip(1)));
    } else {
        assert(p.skip(1)[i - 1] == p[i]);
        lemma_split_at_slash(p.skip(1), i - 1);
        assert(seq![p[0]] + p.skip(1).take(i - 1) =~= p.take(i));
        assert(p.skip(1).skip(i) =~= p.skip(i + 1));
        assert((seq![p.skip(1).take(i - 1)] + spec_split(p.skip(1).skip(i))).skip(1)
            =~= spec_split(p.skip(i + 1)));
        assert(spec_split(p) =~= seq![p.take(i)] + spec_split(p.skip(i + 1)));
    }
}

/// Split a path on `/`.
pub fn split_path(p: &Vec<u8>) -> (r: Vec<Vec<u8>>)
    ensures
        views_of(r@) == spec_split(p@),
        r@.len() >= 1,
    decreases p@.len(),
{
    let mut i: usize = 0;
    while i < p.len()
        invariant
            i <= p@.len(),
            forall|j: int| 0 <= j < i ==> p@[j] != 47u8,
        decreases p@.len() - i,
    {
        if p[i] == 47u8 {
            proof {
                lemma_split_at_slash(p@, i as int);
            }
            let head = crate::records::copy_range(p, 0, i);
            let rest = crate::records::copy_range(p, i + 1, p.len());
            let mut tail = split_path(&rest);
            let mut out: Vec<Vec<u8>> = Vec::new();
            out.push(head);
            out.append(&mut tail);
            proof {
                assert(head@ =~= p@.take(i as int));
                assert(rest@ =~= p@.skip(i + 1));
                assert(views_of(out@) =~= spec_split(p@));
            }
            return out;
        }
        i = i + 1;
    }
    proof {
        lemma_split_no_slash(p@);
    }
    let mut out: Vec<Vec<u8>> = Vec::new();
    out.push(p.clone());
    proof {
        assert(views_of(out@) =~= spec_split(p@));
    }
    out
}

// ---------------------------------------------------------------------------
// Nested insertion.
// ---------------------------------------------------------------------------
/// Insert one segmented path into the summary: intermediate segments
/// become directories, the last becomes a file; a file where a directory
/// is needed, or a directory where the file goes, is a collision and
/// yields nothing.
pub open spec fn spec_st_insert(t: SortedTreeV, segs: Seq<Seq<u8>>, at: int) -> Option<SortedTreeV>
    decreases segs.len() - at,
{
    if at < 0 || at >= segs.len() {
        None
    } else {
        let found = spec_st_find(t.entries, segs[at]);
        if at == segs.len() - 1 {
            match found {
                Some(i) => match t.entries[i].1 {
                    SortedTreeItemV::File => Some(t),
                    SortedTreeItemV::Directory(_) => None,
                },
                None => Some(
                    SortedTreeV { entries: t.entries.push((segs[at], SortedTreeItemV::File)) },
                ),
            }
        } else {
            match found {
                Some(i) => match t.entries[i].1 {
                    SortedTreeItemV::File => None,
                    SortedTreeItemV::Directory(sub) => match spec_st_insert(sub, segs, at + 1) {
                        Some(sub2) => Some(
                            SortedTreeV {
                                entries: t.entries.update(
                                    i,
                                    (segs[at], SortedTreeItemV::Directory(sub2)),
                                ),
                            },
                        ),
                        None => None,
                    },
                },
                None => match spec_st_insert(SortedTreeV { entries: Seq::empty() }, segs, at + 1) {
                    Some(sub2) => Some(
                        SortedTreeV {
                            entries: t.entries.push((segs[at], SortedTreeItemV::Directory(sub2))),
                        },
                    ),
                    None => None,
                },
            }
        }
    }
}

/// The position of a segment among the entries, if present.
pub open spec fn spec_st_find(entries: Seq<(Seq<u8>, SortedTreeItemV)>, seg: Seq<u8>) -> Option<
    int,
>
    decreases entries.len(),
{
    if entries.len() == 0 {
        None
    } else if entries[0].0 == seg {
        Some(0)
    } else {
        match spec_st_find(entries.skip(1), seg) {
            Some(i) => Some(i + 1),
            None => None,
        }
    }
}

impl SortedTree {
    /// An empty summary.
    pub fn new() -> (r: SortedTree)
        ensures
            st_view(r).entries == Seq::<(Seq<u8>, SortedTreeItemV)>::empty(),
    {
        let t = SortedTree(Vec::new());
        proof {
            assert(st_view(t).entries =~= Seq::<(Seq<u8>, SortedTreeItemV)>::empty());
        }
        t
    }

    /// Insert one segmented path, starting at segment `at`.
    pub fn insert_path(&mut self, segs: &Vec<Vec<u8>>, at: usize) -> (r: bool)
        requires
            at < segs@.len(),
        ensures
            match spec_st_insert(st_view(*old(self)), views_of(segs@), at as int) {
                Some(t2) => r == true && st_view(*final(self)) == t2,
                None => r == false,
            },
        decreases segs@.len() - at,
    {
        let ghost t0 = st_view(*self);
        let ghost self0 = *self;
        let ghost svs = views_of(segs@);
        let mut found: Option<usize> = None;
        let mut i: usize = 0;
        proof {
            lemma_st_view_index(*self);
            assert(t0.entries.skip(0) =~= t0.entries);
        }
        while found.is_none() && i < self.0.len()
            invariant
                t0 == st_view(*self),
                svs == views_of(segs@),
                at < segs@.len(),
                i <= self.0@.len(),
                t0.entries.len() == self.0@.len(),
                forall|a: int|
                    0 <= a < t0.entries.len() ==> (#[trigger] t0.entries[a]).0 == self.0@[a].0.0@,
                found matches Some(p) ==> p == i && i < self.0@.len() && t0.entries[i as int].0
                    == svs[at as int] && spec_st_find(t0.entries, svs[at as int]) == Some(i as int),
                found is None ==> (spec_st_find(t0.entries.skip(i as int), svs[at as int])
                    matches Some(x) ==> spec_st_find(t0.entries, svs[at as int]) == Some(x + i)),
                found is None ==> (spec_st_find(t0.entries.skip(i as int), svs[at as int]) is None
                    ==> spec_st_find(t0.entries, svs[at as int]) is None),
                found is None ==> forall|a: int|
                    0 <= a < i ==> (#[trigger] t0.entries[a]).0 != svs[at as int],
            decreases self.0@.len() - i, (if found is None { 1int } else { 0int }),
        {
            proof {
                assert(t0.entries.skip(i as int)[0] == t0.entries[i as int]);
                assert(t0.entries.skip(i as int).skip(1) =~= t0.entries.skip(i + 1));
            }
            if crate::store::bytes_equal(&self.0[i].0.0, &segs[at]) {
                found = Some(i);
                proof {
                    assert(spec_st_find(t0.entries.skip(i as int), svs[at as int]) == Some(0int));
                    assert(spec_st_find(t0.entries, svs[at as int]) == Some(i as int));
                }
            } else {
                i = i + 1;
            }
        }
        proof {
            if found is None {
                assert(i == self.0@.len());
                assert(t0.entries.skip(i as int) =~= Seq::<(Seq<u8>, SortedTreeItemV)>::empty());
                assert(spec_st_find(t0.entries, svs[at as int]) is None);
            }
        }
        let last = at == segs.len() - 1;
        match found {
            Some(pos) => {
                if last {
                    let is_file = match &self.0[pos].1 {
                        SortedTreeItem::File => true,
                        SortedTreeItem::Directory(_) => false,
                    };
                    proof {
                        match t0.entries[pos as int].1 {
                            SortedTreeItemV::File => assert(is_file),
                            SortedTreeItemV::Directory(_) => assert(!is_file),
                        }
                    }
                    if is_file {
                        proof {
                            assert(st_view(*self) == t0);
                        }
                        true
                    } else {
                        false
                    }
                } else {
                    // descend into the directory, or fail on a file
                    let mut entry = self.0.remove(pos);
                    let ghost entry0 = entry;
                    match &mut entry.1 {
                        SortedTreeItem::File => {
                            self.0.insert(pos, entry);
                            proof {
                                lemma_st_view_index(*self);
                                assert(self.0@ =~= self0.0@);
                                assert forall|a: int|
                                    0 <= a < t0.entries.len() implies #[trigger] st_view(
                                    *self,
                                ).entries[a] == t0.entries[a] by {
                                    assert(self.0@[a] == self0.0@[a]);
                                }
                                assert(st_view(*self).entries =~= t0.entries);
                                assert(st_view(*self) =~= t0);
                            }
                            false
                        },
                        SortedTreeItem::Directory(sub) => {
                            let ok = sub.insert_path(segs, at + 1);
                            let ghost e2 = entry;
                            if ok {
                                self.0.insert(pos, entry);
                                proof {
                                    lemma_st_view_index(*self);
                                    let sub2 = spec_st_insert(
                                        st_view_of_item_dir(entry0.1),
                                        svs,
                                        at + 1,
                                    )->Some_0;
                                    assert(st_item_view(entry0.1) == t0.entries[pos as int].1);
                                    assert(st_item_view(e2.1) == SortedTreeItemV::Directory(sub2));
                                    assert(e2.0.0@ == self0.0@[pos as int].0.0@);
                                    assert(self.0@ =~= self0.0@.update(pos as int, e2));
                                    assert forall|a: int|
                                        0 <= a < st_view(*self).entries.len() implies #[trigger] st_view(
                                        *self,
                                    ).entries[a] == t0.entries.update(
                                        pos as int,
                                        (svs[at as int], SortedTreeItemV::Directory(sub2)),
                                    )[a] by {
                                        if a != pos {
                                            assert(self.0@[a] == self0.0@[a]);
                                        }
                                    }
                                    assert(st_view(*self).entries =~= t0.entries.update(
                                        pos as int,
                                        (svs[at as int], SortedTreeItemV::Directory(sub2)),
                                    ));
                                }
                                true
                            } else {
                                false
                            }
                        },
                    }
                }
            },
            None => {
                if last {
                    self.0.push((TreeKey(segs[at].clone()), SortedTreeItem::File));
                    proof {
                        lemma_st_view_index(*self);
                        assert forall|a: int|
                            0 <= a < st_view(*self).entries.len() implies #[trigger] st_view(
                            *self,
                        ).entries[a] == t0.entries.push(
                            (svs[at as int], SortedTreeItemV::File),
                        )[a] by {
                            if a < t0.entries.len() {
                                assert(self.0@[a] == self0.0@[a]);
                            }
                        }
                        assert(st_view(*self).entries =~= t0.entries.push(
                            (svs[at as int], SortedTreeItemV::File),
                        ));
                    }
                    true
                } else {
                    let mut sub = SortedTree::new();
                    let ghost sub_i = sub;
                    let ok = sub.insert_path(segs, at + 1);
                    if ok {
                        let ghost sub_f = sub;
                        self.0.push((TreeKey(segs[at].clone()), SortedTreeItem::Directory(sub)));
                        proof {
                            lemma_st_view_index(*self);
                            let sub2 = spec_st_insert(
                                SortedTreeV { entries: Seq::empty() },
                                svs,
                                at + 1,
                            )->Some_0;
                            assert(st_view(sub_f) == sub2) by {
                                assert(st_view(sub_i) =~= SortedTreeV { entries: Seq::empty() });
                            }
                            assert forall|a: int|
                                0 <= a < st_view(*self).entries.len() implies #[trigger] st_view(
                                *self,
                            ).entries[a] == t0.entries.push(
                                (svs[at as int], SortedTreeItemV::Directory(sub2)),
                            )[a] by {
                                if a < t0.entries.len() {
                                    assert(self.0@[a] == self0.0@[a]);
                                }
                            }
                            assert(st_view(*self).entries =~= t0.entries.push(
                                (svs[at as int], SortedTreeItemV::Directory(sub2)),
                            ));
                        }
                        true
                    } else {
                        false
                    }
                }
            },
        }
    }

    /// Assemble a summary from a flat list of file paths. Fails exactly
    /// when a path runs through another path's file name.
    pub fn build(paths: &Vec<Vec<u8>>) -> (r: Option<SortedTree>)
        ensures
            match spec_st_build(views_of(paths@)) {
                Some(t2) => r matches Some(t) && st_view(t) == t2,
                None => r is None,
            },
    {
        let ghost pvs = views_of(paths@);
        let mut t = SortedTree::new();
        let mut i: usize = 0;
        proof {
            assert(pvs.take(0) =~= Seq::<Seq<u8>>::empty());
            assert(spec_st_build_from(
                SortedTreeV { entries: Seq::empty() },
                pvs.take(0),
            ) == Some(st_view(t))) by {
                assert(st_view(t) =~= SortedTreeV { entries: Seq::empty() });
            }
            assert(spec_st_build_from(SortedTreeV { entries: Seq::empty() }, pvs)
                == spec_st_build(pvs));
        }
        while i < paths.len()
            invariant
                pvs == views_of(paths@),
                pvs.len() == paths@.len(),
                i <= paths@.len(),
                spec_st_build_from(SortedTreeV { entries: Seq::empty() }, pvs.take(i as int))
                    == Some(st_view(t)),
            decreases paths@.len() - i,
        {
            let segs = split_path(&paths[i]);
            let ghost t_pre = st_view(t);
            let ok = t.insert_path(&segs, 0);
            proof {
                assert(pvs.take(i + 1).drop_last() =~= pvs.take(i as int));
                assert(pvs.take(i + 1).last() == pvs[i as int]);
                lemma_build_from_snoc(
                    SortedTreeV { entries: Seq::empty() },
                    pvs.take(i as int),
                    pvs[i as int],
                );
            }
            if !ok {
                proof {
                    assert(spec_st_build_from(
                        SortedTreeV { entries: Seq::empty() },
                        pvs.take(i + 1),
                    ) is None);
                    lemma_build_from_none(
                        SortedTreeV { entries: Seq::empty() },
                        pvs.take(i + 1),
                        pvs,
                    );
                }
                return None;
            }
            i = i + 1;
        }
        proof {
            assert(pvs.take(pvs.len() as int) =~= pvs);
        }
        Some(t)
    }
}

/// The directory payload of an item known to be a directory.
pub open spec fn st_view_of_item_dir(item: SortedTreeItem) -> SortedTreeV {
    match item {
        SortedTreeItem::Directory(sub) => st_view(sub),
        SortedTreeItem::File => SortedTreeV { entries: Seq::empty() },
    }
}

/// Fold the paths into a summary, left to right.
pub open spec fn spec_st_build_from(t: SortedTreeV, paths: Seq<Seq<u8>>) -> Option<SortedTreeV>
    decreases paths.len(),
{
    if paths.len() == 0 {
        Some(t)
    } else {
        match spec_st_build_from(t, paths.drop_last()) {
            Some(t2) => spec_st_insert(t2, spec_split(paths.last()), 0),
            None => None,
        }
    }
}

/// The summary a path list assembles into, if no path collides.
pub open spec fn spec_st_build(paths: Seq<Seq<u8>>) -> Option<SortedTreeV> {
    spec_st_build_from(SortedTreeV { entries: Seq::empty() }, paths)
}

proof fn lemma_build_from_snoc(t: SortedTreeV, paths: Seq<Seq<u8>>, p: Seq<u8>)
    ensures
        spec_st_build_from(t, paths.push(p)) == (match spec_st_build_from(t, paths) {
            Some(t2) => spec_st_insert(t2, spec_split(p), 0),
            None => None,
        }),
{
    assert(paths.push(p).drop_last() =~= paths);
    assert(paths.push(p).last() == p);
}

proof fn lemma_build_from_none(t: SortedTreeV, prefix: Seq<Seq<u8>>, full: Seq<Seq<u8>>)
    requires
        spec_st_build_from(t, prefix) is None,
        prefix.len() <= full.len(),
        prefix =~= full.take(prefix.len() as int),
    ensures
        spec_st_build_from(t, full) is None,
    decreases full.len() - prefix.len(),
{
    if prefix.len() < full.len() {
        let next = full.take(prefix.len() + 1 as int);
        assert(next.drop_last() =~= prefix);
        assert(spec_st_build_from(t, next) is None);
        lemma_build_from_none(t, next, full);
    } else {
        assert(prefix =~= full);
    }
}

/// The stored file-path list of a digest, if one was recorded.
pub fn sorted_tree_paths(store: &Store, digest: u64) -> (r: Result<
    Option<Vec<Vec<u8>>>,
    StoreError,
>)
    ensures
        match r {
            Ok(Some(paths)) => family_view(*store, Family::SortedTree).contains_key(
                u64_le(digest),
            ) && (sdec_list(family_view(*store, Family::SortedTree)[u64_le(digest)], 0)
                matches Some((v, p)) && v == views_of(paths@)),
            Ok(None) => !family_view(*store, Family::SortedTree).contains_key(u64_le(digest)),
            Err(_) => true,
        },
{
    let key = crate::wire::u64_to_le(digest);
    match store.get(Family::SortedTree, &key) {
        Ok(None) => Ok(None),
        Ok(Some(v)) => match decode_list(&v) {
            Some(l) => Ok(Some(l)),
            None => Err(StoreError::Corrupt),
        },
        Err(_) => Err(StoreError::Backend),
    }
}

/// The assembled summary of a digest, if one was recorded and assembles.
pub fn sorted_tree_get(store: &Store, digest: u64) -> (r: Result<Option<SortedTree>, StoreError>)
    ensures
        r matches Ok(None) ==> !family_view(*store, Family::SortedTree).contains_key(
            u64_le(digest),
        ),
        r matches Ok(Some(t)) ==> family_view(*store, Family::SortedTree).contains_key(
            u64_le(digest),
        ) && (sdec_list(family_view(*store, Family::SortedTree)[u64_le(digest)], 0) matches Some(
            (paths, p),
        ) && spec_st_build(paths) == Some(st_view(t))),
{
    match sorted_tree_paths(store, digest) {
        Ok(None) => Ok(None),
        Ok(Some(paths)) => match SortedTree::build(&paths) {
            Some(t) => Ok(Some(t)),
            None => Err(StoreError::Corrupt),
        },
        Err(e) => Err(e),
    }
}

} // verus!
