//! The repository table: one record per discovered repository, keyed by
//! its relative path under the scan root, plus the per-repository heads
//! row and the removal of everything a repository owns.

use crate::commit_tree::CommitTree;
use crate::records::{
    decode_heads, decode_repository, enc_list, enc_repository, sdec_list, sdec_repository,
    encode_heads, encode_repository, views_of, Heads, Repository, RepositoryV,
};
use crate::store::{family_view, Family, Store, StoreError};
use crate::wire::{has_prefix, lex_lt, u64_be, u64_to_be};
use vstd::prelude::*;

verus! {

/// The repository record stored under `path`, decoded; nothing when the
/// value is malformed.
pub open spec fn spec_repo_at(rm: Map<Seq<u8>, Seq<u8>>, path: Seq<u8>) -> Option<RepositoryV> {
    if rm.contains_key(path) {
        match sdec_repository(rm[path], 0) {
            Some((v, p)) => if p == rm[path].len() {
                Some(v)
            } else {
                None
            },
            None => None,
        }
    } else {
        None
    }
}

/// The heads row of a repository id, decoded.
pub open spec fn spec_heads_at(hm: Map<Seq<u8>, Seq<u8>>, id: u64) -> Option<Seq<Seq<u8>>> {
    if hm.contains_key(u64_be(id)) {
        match sdec_list(hm[u64_be(id)], 0) {
            Some((v, p)) => if p == hm[u64_be(id)].len() {
                Some(v)
            } else {
                None
            },
            None => None,
        }
    } else {
        None
    }
}

impl Repository {
    /// Is any repository recorded under `path`?
    pub fn contains(store: &Store, path: &Vec<u8>) -> (r: Result<bool, StoreError>)
        ensures
            match r {
                Ok(b) => b == family_view(*store, Family::Repository).contains_key(path@),
                Err(_) => true,
            },
    {
        match store.get(Family::Repository, path) {
            Ok(Some(_)) => Ok(true),
            Ok(None) => Ok(false),
            Err(_) => Err(StoreError::Backend),
        }
    }

    /// The record stored under `path`, if one is stored and well formed.
    pub fn open(store: &Store, path: &Vec<u8>) -> (r: Result<Option<Repository>, StoreError>)
        ensures
            match r {
                Ok(Some(rec)) => spec_repo_at(family_view(*store, Family::Repository), path@)
                    == Some(rec@),
                Ok(None) => !family_view(*store, Family::Repository).contains_key(path@),
                Err(StoreError::Corrupt) => family_view(*store, Family::Repository).contains_key(
                    path@,
                ) && spec_repo_at(family_view(*store, Family::Repository), path@) is None,
                Err(_) => true,
            },
    {
        match store.get(Family::Repository, path) {
            Ok(None) => Ok(None),
            Ok(Some(v)) => match decode_repository(&v) {
                Some(rec) => Ok(Some(rec)),
                None => Err(StoreError::Corrupt),
            },
            Err(_) => Err(StoreError::Backend),
        }
    }

    /// Upsert the record under `path`.
    pub fn insert(&self, store: &mut Store, path: &Vec<u8>) -> (r: Result<(), StoreError>)
        ensures
            r is Ok ==> family_view(*final(store), Family::Repository) == family_view(
                *old(store),
                Family::Repository,
            ).insert(path@, enc_repository(self@)),
            r is Ok ==> forall|g: Family|
                g != Family::Repository ==> family_view(*final(store), g) == family_view(
                    *old(store),
                    g,
                ),
    {
        let value = encode_repository(self);
        store.put(Family::Repository, path, &value)
    }

    /// Every stored repository, in ascending path order. Fails as corrupt
    /// if any record does not decode.
    pub fn fetch_all(store: &Store) -> (r: Result<Vec<(Vec<u8>, Repository)>, StoreError>)
        ensures
            match r {
                Ok(list) => {
                    &&& forall|i: int|
                        0 <= i < list@.len() ==> family_view(*store, Family::Repository).contains_key(
                            #[trigger] list@[i].0@,
                        ) && spec_repo_at(family_view(*store, Family::Repository), list@[i].0@)
                            == Some(list@[i].1@)
                    &&& forall|i: int, j: int|
                        0 <= i < j < list@.len() ==> lex_lt(
                            #[trigger] list@[i].0@,
                            #[trigger] list@[j].0@,
                        )
                    &&& forall|k: Seq<u8>|
                        family_view(*store, Family::Repository).contains_key(k) ==> exists|i: int|
                            0 <= i < list@.len() && #[trigger] list@[i].0@ == k
                },
                Err(_) => true,
            },
    {
        let all = match store.entries(Family::Repository) {
            Ok(v) => v,
            Err(_) => return Err(StoreError::Backend),
        };
        let mut out: Vec<(Vec<u8>, Repository)> = Vec::new();
        let mut i: usize = 0;
        while i < all.len()
            invariant
                i <= all@.len(),
                out@.len() == i,
                forall|a: int|
                    0 <= a < all@.len() ==> family_view(*store, Family::Repository).contains_key(
                        #[trigger] all@[a].key@,
                    ) && family_view(*store, Family::Repository)[all@[a].key@] == all@[a].value@,
                forall|a: int, b: int|
                    0 <= a < b < all@.len() ==> lex_lt(
                        #[trigger] all@[a].key@,
                        #[trigger] all@[b].key@,
                    ),
                forall|k: Seq<u8>|
                    family_view(*store, Family::Repository).contains_key(k) ==> exists|a: int|
                        0 <= a < all@.len() && #[trigger] all@[a].key@ == k,
                forall|a: int|
                    0 <= a < i ==> (#[trigger] out@[a].0@) == all@[a].key@ && spec_repo_at(
                        family_view(*store, Family::Repository),
                        out@[a].0@,
                    ) == Some(out@[a].1@),
            decreases all@.len() - i,
        {
            let key = all[i].key.clone();
            let rec = match decode_repository(&all[i].value) {
                Some(rec) => rec,
                None => return Err(StoreError::Corrupt),
            };
            out.push((key, rec));
            i = i + 1;
        }
        let ghost gout = out@;
        let rr: Result<Vec<(Vec<u8>, Repository)>, StoreError> = Ok(out);
        proof {
            assert(rr->Ok_0@ == gout);
            assert forall|k: Seq<u8>|
                family_view(*store, Family::Repository).contains_key(k) implies exists|i: int|
                0 <= i < rr->Ok_0@.len() && #[trigger] rr->Ok_0@[i].0@ == k by {
                let a = choose|a: int| 0 <= a < all@.len() && #[trigger] all@[a].key@ == k;
                assert(rr->Ok_0@[a].0@ == k);
            }
        }
        rr
    }

    /// Remove everything the repository with this path and id owns: its
    /// record, its commit rows and counts, its tags, and its heads row.
    /// Indexed trees are deliberately left behind.
    pub fn delete(store: &mut Store, path: &Vec<u8>, id: u64) -> (r: Result<(), StoreError>)
        ensures
            r is Ok ==> family_view(*final(store), Family::Repository) == family_view(
                *old(store),
                Family::Repository,
            ).remove(path@),
            r is Ok ==> family_view(*final(store), Family::Reference) == family_view(
                *old(store),
                Family::Reference,
            ).remove(u64_be(id)),
            r is Ok ==> forall|k: Seq<u8>|
                #![trigger family_view(*final(store), Family::Commit).contains_key(k)]
                family_view(*final(store), Family::Commit).contains_key(k) <==> (family_view(
                    *old(store),
                    Family::Commit,
                ).contains_key(k) && !has_prefix(k, u64_be(id))),
            r is Ok ==> forall|k: Seq<u8>|
                #![trigger family_view(*final(store), Family::CommitCount).contains_key(k)]
                family_view(*final(store), Family::CommitCount).contains_key(k) <==> (family_view(
                    *old(store),
                    Family::CommitCount,
                ).contains_key(k) && !has_prefix(k, u64_be(id))),
            r is Ok ==> forall|k: Seq<u8>|
                #![trigger family_view(*final(store), Family::Tag).contains_key(k)]
                family_view(*final(store), Family::Tag).contains_key(k) <==> (family_view(
                    *old(store),
                    Family::Tag,
                ).contains_key(k) && !has_prefix(k, u64_be(id))),
            r is Ok ==> forall|k: Seq<u8>|
                #![trigger family_view(*final(store), Family::Commit).index(k)]
                family_view(*final(store), Family::Commit).contains_key(k) ==> family_view(
                    *final(store),
                    Family::Commit,
                )[k] == family_view(*old(store), Family::Commit)[k],
            r is Ok ==> forall|k: Seq<u8>|
                #![trigger family_view(*final(store), Family::CommitCount).index(k)]
                family_view(*final(store), Family::CommitCount).contains_key(k) ==> family_view(
                    *final(store),
                    Family::CommitCount,
                )[k] == family_view(*old(store), Family::CommitCount)[k],
            r is Ok ==> forall|k: Seq<u8>|
                #![trigger family_view(*final(store), Family::Tag).index(k)]
                family_view(*final(store), Family::Tag).contains_key(k) ==> family_view(
                    *final(store),
                    Family::Tag,
                )[k] == family_view(*old(store), Family::Tag)[k],
            r is Ok ==> forall|g: Family|
                g != Family::Repository && g != Family::Commit && g != Family::CommitCount && g
                    != Family::Tag && g != Family::Reference ==> family_view(*final(store), g)
                    == family_view(*old(store), g),
    {
        let id_prefix = u64_to_be(id);
        match store.remove_prefix(Family::Commit, &id_prefix) {
            Ok(()) => {},
            Err(_) => return Err(StoreError::Backend),
        }
        match store.remove_prefix(Family::CommitCount, &id_prefix) {
            Ok(()) => {},
            Err(_) => return Err(StoreError::Backend),
        }
        match store.remove_prefix(Family::Tag, &id_prefix) {
            Ok(()) => {},
            Err(_) => return Err(StoreError::Backend),
        }
        match store.remove(Family::Reference, &id_prefix) {
            Ok(()) => {},
            Err(_) => return Err(StoreError::Backend),
        }
        match store.remove(Family::Repository, path) {
            Ok(()) => {},
            Err(_) => return Err(StoreError::Backend),
        }
        Ok(())
    }

    /// The commit log of one of this repository's references.
    pub fn commit_tree(&self, reference: &Vec<u8>) -> (r: Option<CommitTree>)
        ensures
            match r {
                Some(t) => t.wf() && t.repo == self.id && t.ref_name@ == reference@,
                None => !crate::keys::nul_free(reference@),
            },
    {
        CommitTree::new(self.id, reference)
    }

    /// Replace the heads row: the full names of the references that
    /// currently exist.
    pub fn replace_heads(&self, store: &mut Store, new_heads: &Heads) -> (r: Result<
        (),
        StoreError,
    >)
        ensures
            r is Ok ==> family_view(*final(store), Family::Reference) == family_view(
                *old(store),
                Family::Reference,
            ).insert(u64_be(self.id), enc_list(views_of(new_heads.0@))),
            r is Ok ==> forall|g: Family|
                g != Family::Reference ==> family_view(*final(store), g) == family_view(
                    *old(store),
                    g,
                ),
    {
        let key = u64_to_be(self.id);
        let value = encode_heads(new_heads);
        store.put(Family::Reference, &key, &value)
    }

    /// The stored heads row, if present and well formed.
    pub fn heads(&self, store: &Store) -> (r: Result<Option<Heads>, StoreError>)
        ensures
            match r {
                Ok(Some(h)) => spec_heads_at(family_view(*store, Family::Reference), self.id)
                    == Some(views_of(h.0@)),
                Ok(None) => !family_view(*store, Family::Reference).contains_key(u64_be(self.id)),
                Err(StoreError::Corrupt) => family_view(*store, Family::Reference).contains_key(
                    u64_be(self.id),
                ) && spec_heads_at(family_view(*store, Family::Reference), self.id) is None,
                Err(_) => true,
            },
    {
        let key = u64_to_be(self.id);
        match store.get(Family::Reference, &key) {
            Ok(None) => Ok(None),
            Ok(Some(v)) => match decode_heads(&v) {
                Some(h) => Ok(Some(h)),
                None => Err(StoreError::Corrupt),
            },
            Err(_) => Err(StoreError::Backend),
        }
    }
}

} // verus!
