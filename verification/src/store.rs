//! Facade over the embedded key-value engine.
//!
//! The store is a set of column families, each an independently-keyed
//! byte-string namespace. Verus sees each family as a map from key bytes
//! to value bytes through the uninterpreted contents function
//! [`family_view`]; the few primitive operations that touch the engine
//! are trusted wrappers whose contracts say how that map changes, and
//! everything above them is verified.

use crate::wire::{has_prefix, lex_lt, starts_with};
use vstd::prelude::*;

verus! {

/// The column families the schema needs at open.
#[derive(Clone, Copy, Debug, PartialEq, Eq, Structural)]
pub enum Family {
    Default,
    Repository,
    Commit,
    CommitCount,
    Tag,
    Reference,
    Tree,
    TreeItem,
    SortedTree,
}

impl Family {
    pub open spec fn spec_name(self) -> Seq<char> {
        match self {
            Family::Default => "default"@,
            Family::Repository => "repository"@,
            Family::Commit => "commit"@,
            Family::CommitCount => "commit_count"@,
            Family::Tag => "tag"@,
            Family::Reference => "reference"@,
            Family::Tree => "tree"@,
            Family::TreeItem => "tree_item"@,
            Family::SortedTree => "sorted_tree"@,
        }
    }

    /// The on-disk name of this family.
    pub fn name(self) -> (r: &'static str)
        ensures
            r@ == self.spec_name(),
    {
        match self {
            Family::Default => "default",
            Family::Repository => "repository",
            Family::Commit => "commit",
            Family::CommitCount => "commit_count",
            Family::Tag => "tag",
            Family::Reference => "reference",
            Family::Tree => "tree",
            Family::TreeItem => "tree_item",
            Family::SortedTree => "sorted_tree",
        }
    }
}

#[derive(Clone, Copy, Debug, PartialEq, Eq, Structural)]
pub enum StoreError {
    /// The engine reported a failure.
    Backend,
    /// A stored value did not decode as the schema demands.
    Corrupt,
}

/// One key-value pair handed back by an iteration.
#[derive(Debug)]
pub struct Entry {
    pub key: Vec<u8>,
    pub value: Vec<u8>,
}

impl Entry {
    pub fn dup(&self) -> (r: Entry)
        ensures
            r.key@ == self.key@,
            r.value@ == self.value@,
    {
        Entry { key: self.key.clone(), value: self.value.clone() }
    }
}

/// Handle on the opened store. The engine's handle is hidden from Verus;
/// the contents of each family are reachable only through [`family_view`].
#[verifier::external_body]
pub struct Store {
    db: sled::Db,
}

/// What a family of the store holds: its current map from keys to values.
pub uninterp spec fn family_view(s: Store, f: Family) -> Map<Seq<u8>, Seq<u8>>;

/// The empty family: no keys at all.
pub open spec fn empty_family() -> Map<Seq<u8>, Seq<u8>> {
    Map::empty()
}

impl Store {
    /// Relies on `sled::open`: opens (creating if missing) the store at
    /// `path`. Nothing is promised of the contents, which are whatever
    /// the directory held.
    #[verifier::external_body]
    pub fn open(path: &str) -> (r: Result<Store, StoreError>)
    {
        match sled::open(path) {
            Ok(db) => Ok(Store { db }),
            Err(_) => Err(StoreError::Backend),
        }
    }

    /// Relies on `sled::Config::temporary` and `Config::open`: a store
    /// backed by a fresh temporary directory starts with every family
    /// empty.
    #[verifier::external_body]
    pub fn open_temporary() -> (r: Result<Store, StoreError>)
        ensures
            match r {
                Ok(s) => forall|f: Family| family_view(s, f) == empty_family(),
                Err(_) => true,
            },
    {
        match sled::Config::new().temporary(true).open() {
            Ok(db) => Ok(Store { db }),
            Err(_) => Err(StoreError::Backend),
        }
    }

    /// Relies on `sled::Db::open_tree` and `sled::Tree::get`: returns the
    /// value stored under `key` in the named tree, if any.
    #[verifier::external_body]
    fn raw_get(&self, fam: Family, name: &str, key: &Vec<u8>) -> (r: Result<
        Option<Vec<u8>>,
        StoreError,
    >)
        requires
            name@ == fam.spec_name(),
        ensures
            match r {
                Ok(Some(v)) => family_view(*self, fam).contains_key(key@) && family_view(
                    *self,
                    fam,
                )[key@] == v@,
                Ok(None) => !family_view(*self, fam).contains_key(key@),
                Err(_) => true,
            },
    {
        let tree = match self.db.open_tree(name) {
            Ok(t) => t,
            Err(_) => return Err(StoreError::Backend),
        };
        match tree.get(key.as_slice()) {
            Ok(v) => Ok(v.map(|iv| iv.to_vec())),
            Err(_) => Err(StoreError::Backend),
        }
    }

    /// Relies on `sled::Db::open_tree` and `sled::Tree::insert`: on
    /// success the named tree maps `key` to `value` and nothing else
    /// changed; on failure nothing is promised.
    #[verifier::external_body]
    fn raw_put(&mut self, fam: Family, name: &str, key: &Vec<u8>, value: &Vec<u8>) -> (r: Result<
        (),
        StoreError,
    >)
        requires
            name@ == fam.spec_name(),
        ensures
            r is Ok ==> family_view(*final(self), fam) == family_view(*old(self), fam).insert(
                key@,
                value@,
            ),
            r is Ok ==> forall|g: Family|
                g != fam ==> family_view(*final(self), g) == family_view(*old(self), g),
    {
        let tree = match self.db.open_tree(name) {
            Ok(t) => t,
            Err(_) => return Err(StoreError::Backend),
        };
        match tree.insert(key.as_slice(), value.as_slice()) {
            Ok(_) => Ok(()),
            Err(_) => Err(StoreError::Backend),
        }
    }

    /// Relies on `sled::Db::open_tree` and `sled::Tree::remove`: on
    /// success `key` is absent from the named tree and nothing else
    /// changed.
    #[verifier::external_body]
    fn raw_remove(&mut self, fam: Family, name: &str, key: &Vec<u8>) -> (r: Result<
        (),
        StoreError,
    >)
        requires
            name@ == fam.spec_name(),
        ensures
            r is Ok ==> family_view(*final(self), fam) == family_view(*old(self), fam).remove(
                key@,
            ),
            r is Ok ==> forall|g: Family|
                g != fam ==> family_view(*final(self), g) == family_view(*old(self), g),
    {
        let tree = match self.db.open_tree(name) {
            Ok(t) => t,
            Err(_) => return Err(StoreError::Backend),
        };
        match tree.remove(key.as_slice()) {
            Ok(_) => Ok(()),
            Err(_) => Err(StoreError::Backend),
        }
    }

    /// Relies on `sled::Db::open_tree` and `sled::Tree::iter`: the
    /// iterator yields every pair of the named tree, keys strictly
    /// ascending in lexicographic order.
    #[verifier::external_body]
    fn raw_entries(&self, fam: Family, name: &str) -> (r: Result<Vec<Entry>, StoreError>)
        requires
            name@ == fam.spec_name(),
        ensures
            match r {
                Ok(es) => {
                    &&& forall|i: int|
                        0 <= i < es@.len() ==> family_view(*self, fam).contains_key(
                            #[trigger] es@[i].key@,
                        ) && family_view(*self, fam)[es@[i].key@] == es@[i].value@
                    &&& forall|i: int, j: int|
                        0 <= i < j < es@.len() ==> lex_lt(
                            #[trigger] es@[i].key@,
                            #[trigger] es@[j].key@,
                        )
                    &&& forall|k: Seq<u8>|
                        family_view(*self, fam).contains_key(k) ==> exists|i: int|
                            0 <= i < es@.len() && #[trigger] es@[i].key@ == k
                },
                Err(_) => true,
            },
    {
        let tree = match self.db.open_tree(name) {
            Ok(t) => t,
            Err(_) => return Err(StoreError::Backend),
        };
        let mut out = Vec::new();
        for item in tree.iter() {
            match item {
                Ok((k, v)) => out.push(Entry { key: k.to_vec(), value: v.to_vec() }),
                Err(_) => return Err(StoreError::Backend),
            }
        }
        Ok(out)
    }

    /// Relies on `sled::Db::open_tree` and `sled::Tree::clear`: on
    /// success the named tree is empty and nothing else changed.
    #[verifier::external_body]
    fn raw_clear(&mut self, fam: Family, name: &str) -> (r: Result<(), StoreError>)
        requires
            name@ == fam.spec_name(),
        ensures
            r is Ok ==> family_view(*final(self), fam) == empty_family(),
            r is Ok ==> forall|g: Family|
                g != fam ==> family_view(*final(self), g) == family_view(*old(self), g),
    {
        let tree = match self.db.open_tree(name) {
            Ok(t) => t,
            Err(_) => return Err(StoreError::Backend),
        };
        match tree.clear() {
            Ok(()) => Ok(()),
            Err(_) => Err(StoreError::Backend),
        }
    }

    /// Relies on `sled::Db::flush`: persists pending writes; the contents
    /// are untouched.
    #[verifier::external_body]
    pub fn flush(&self) -> (r: Result<(), StoreError>)
    {
        match self.db.flush() {
            Ok(_) => Ok(()),
            Err(_) => Err(StoreError::Backend),
        }
    }

    /// Read one value of a family.
    pub fn get(&self, fam: Family, key: &Vec<u8>) -> (r: Result<Option<Vec<u8>>, StoreError>)
        ensures
            match r {
                Ok(Some(v)) => family_view(*self, fam).contains_key(key@) && family_view(
                    *self,
                    fam,
                )[key@] == v@,
                Ok(None) => !family_view(*self, fam).contains_key(key@),
                Err(_) => true,
            },
    {
        let name = fam.name();
        self.raw_get(fam, name, key)
    }

    /// Write one value of a family.
    pub fn put(&mut self, fam: Family, key: &Vec<u8>, value: &Vec<u8>) -> (r: Result<
        (),
        StoreError,
    >)
        ensures
            r is Ok ==> family_view(*final(self), fam) == family_view(*old(self), fam).insert(
                key@,
                value@,
            ),
            r is Ok ==> forall|g: Family|
                g != fam ==> family_view(*final(self), g) == family_view(*old(self), g),
    {
        let name = fam.name();
        self.raw_put(fam, name, key, value)
    }

    /// Delete one key of a family.
    pub fn remove(&mut self, fam: Family, key: &Vec<u8>) -> (r: Result<(), StoreError>)
        ensures
            r is Ok ==> family_view(*final(self), fam) == family_view(*old(self), fam).remove(
                key@,
            ),
            r is Ok ==> forall|g: Family|
                g != fam ==> family_view(*final(self), g) == family_view(*old(self), g),
    {
        let name = fam.name();
        self.raw_remove(fam, name, key)
    }

    /// Every entry of a family, keys ascending.
    pub fn entries(&self, fam: Family) -> (r: Result<Vec<Entry>, StoreError>)
        ensures
            match r {
                Ok(es) => {
                    &&& forall|i: int|
                        0 <= i < es@.len() ==> family_view(*self, fam).contains_key(
                            #[trigger] es@[i].key@,
                        ) && family_view(*self, fam)[es@[i].key@] == es@[i].value@
                    &&& forall|i: int, j: int|
                        0 <= i < j < es@.len() ==> lex_lt(
                            #[trigger] es@[i].key@,
                            #[trigger] es@[j].key@,
                        )
                    &&& forall|k: Seq<u8>|
                        family_view(*self, fam).contains_key(k) ==> exists|i: int|
                            0 <= i < es@.len() && #[trigger] es@[i].key@ == k
                },
                Err(_) => true,
            },
    {
        let name = fam.name();
        self.raw_entries(fam, name)
    }

    /// Every entry of a family whose key begins with `prefix`, keys
    /// ascending; exactly those entries.
    #[verifier::rlimit(50)]
    pub fn entries_with_prefix(&self, fam: Family, prefix: &Vec<u8>) -> (r: Result<
        Vec<Entry>,
        StoreError,
    >)
        ensures
            r is Ok ==> forall|i: int|
                0 <= i < r->Ok_0@.len() ==> family_view(*self, fam).contains_key(
                    #[trigger] r->Ok_0@[i].key@,
                ) && family_view(*self, fam)[r->Ok_0@[i].key@] == r->Ok_0@[i].value@ && has_prefix(
                    r->Ok_0@[i].key@,
                    prefix@,
                ),
            r is Ok ==> forall|i: int, j: int|
                0 <= i < j < r->Ok_0@.len() ==> lex_lt(
                    #[trigger] r->Ok_0@[i].key@,
                    #[trigger] r->Ok_0@[j].key@,
                ),
            r is Ok ==> forall|k: Seq<u8>|
                family_view(*self, fam).contains_key(k) && has_prefix(k, prefix@) ==> exists|i: int|
                    0 <= i < r->Ok_0@.len() && #[trigger] r->Ok_0@[i].key@ == k,
    {
        let all = match self.entries(fam) {
            Ok(v) => v,
            Err(e) => return Err(e),
        };
        let mut out: Vec<Entry> = Vec::new();
        let mut i: usize = 0;
        while i < all.len()
            invariant
                i <= all@.len(),
                forall|a: int|
                    0 <= a < all@.len() ==> family_view(*self, fam).contains_key(
                        #[trigger] all@[a].key@,
                    ) && family_view(*self, fam)[all@[a].key@] == all@[a].value@,
                forall|a: int, b: int|
                    0 <= a < b < all@.len() ==> lex_lt(
                        #[trigger] all@[a].key@,
                        #[trigger] all@[b].key@,
                    ),
                forall|a: int|
                    0 <= a < out@.len() ==> family_view(*self, fam).contains_key(
                        #[trigger] out@[a].key@,
                    ) && family_view(*self, fam)[out@[a].key@] == out@[a].value@ && has_prefix(
                        out@[a].key@,
                        prefix@,
                    ),
                forall|a: int, b: int|
                    0 <= a < b < out@.len() ==> lex_lt(
                        #[trigger] out@[a].key@,
                        #[trigger] out@[b].key@,
                    ),
                forall|a: int, c: int|
                    0 <= a < out@.len() && i <= c < all@.len() ==> lex_lt(
                        #[trigger] out@[a].key@,
                        #[trigger] all@[c].key@,
                    ),
                forall|j: int|
                    0 <= j < i && has_prefix(#[trigger] all@[j].key@, prefix@) ==> exists|a: int|
                        0 <= a < out@.len() && #[trigger] out@[a].key@ == all@[j].key@,
            decreases all@.len() - i,
        {
            let ghost out0 = out@;
            if starts_with(&all[i].key, prefix) {
                let e = all[i].dup();
                proof {
                    assert(e.key@ == all@[i as int].key@ && e.value@ == all@[i as int].value@);
                }
                out.push(e);
                proof {
                    assert(out@ == out0.push(e));
                    assert(out@[out0.len() as int].key@ == all@[i as int].key@);
                    assert(forall|a: int| 0 <= a < out0.len() ==> out@[a] == out0[a]);
                }
            }
            proof {
                assert forall|j: int|
                    0 <= j < i + 1 && has_prefix(#[trigger] all@[j].key@, prefix@) implies exists|
                    a: int,
                | 0 <= a < out@.len() && #[trigger] out@[a].key@ == all@[j].key@ by {
                    if j < i {
                        let a = choose|a: int|
                            0 <= a < out0.len() && #[trigger] out0[a].key@ == all@[j].key@;
                        assert(out@[a].key@ == all@[j].key@);
                    } else {
                        assert(out@[out@.len() - 1].key@ == all@[j].key@);
                    }
                }
            }
            i = i + 1;
        }
        proof {
            assert forall|k: Seq<u8>|
                family_view(*self, fam).contains_key(k) && has_prefix(
                    k,
                    prefix@,
                ) implies exists|a: int| 0 <= a < out@.len() && #[trigger] out@[a].key@ == k by {
                let j = choose|j: int| 0 <= j < all@.len() && #[trigger] all@[j].key@ == k;
                assert(has_prefix(all@[j].key@, prefix@));
            }
        }
        let ghost gout = out@;
        let rr: Result<Vec<Entry>, StoreError> = Ok(out);
        proof {
            assert(rr->Ok_0@ == gout);
            assert forall|k: Seq<u8>|
                family_view(*self, fam).contains_key(k) && has_prefix(
                    k,
                    prefix@,
                ) implies exists|i: int| 0 <= i < rr->Ok_0@.len() && #[trigger] rr->Ok_0@[i].key@
                == k by {
                let a = choose|a: int| 0 <= a < gout.len() && #[trigger] gout[a].key@ == k;
                assert(rr->Ok_0@[a].key@ == k);
            }
        }
        rr
    }

    /// Delete every key of a family that begins with `prefix`.
    pub fn remove_prefix(&mut self, fam: Family, prefix: &Vec<u8>) -> (r: Result<(), StoreError>)
        ensures
            r is Ok ==> forall|k: Seq<u8>|
                #![trigger family_view(*final(self), fam).contains_key(k)]
                #![trigger family_view(*old(self), fam).contains_key(k)]
                family_view(*final(self), fam).contains_key(k) <==> (family_view(
                    *old(self),
                    fam,
                ).contains_key(k) && !has_prefix(k, prefix@)),
            r is Ok ==> forall|k: Seq<u8>|
                #![trigger family_view(*final(self), fam).index(k)]
                family_view(*final(self), fam).contains_key(k) ==> family_view(*final(self), fam)[k]
                    == family_view(*old(self), fam)[k],
            r is Ok ==> forall|g: Family|
                g != fam ==> family_view(*final(self), g) == family_view(*old(self), g),
    {
        let doomed = match self.entries_with_prefix(fam, prefix) {
            Ok(v) => v,
            Err(e) => return Err(e),
        };
        let ghost orig = *self;
        let mut i: usize = 0;
        while i < doomed.len()
            invariant
                i <= doomed@.len(),
                forall|a: int|
                    0 <= a < doomed@.len() ==> family_view(orig, fam).contains_key(
                        #[trigger] doomed@[a].key@,
                    ) && has_prefix(doomed@[a].key@, prefix@),
                forall|k: Seq<u8>|
                    family_view(orig, fam).contains_key(k) && has_prefix(k, prefix@) ==> exists|
                        a: int,
                    | 0 <= a < doomed@.len() && #[trigger] doomed@[a].key@ == k,
                forall|k: Seq<u8>|
                    family_view(*self, fam).contains_key(k) <==> (family_view(
                        orig,
                        fam,
                    ).contains_key(k) && !(exists|a: int|
                        0 <= a < i && #[trigger] doomed@[a].key@ == k)),
                forall|k: Seq<u8>|
                    family_view(*self, fam).contains_key(k) ==> family_view(*self, fam)[k]
                        == family_view(orig, fam)[k],
                forall|g: Family| g != fam ==> family_view(*self, g) == family_view(orig, g),
            decreases doomed@.len() - i,
        {
            let ghost pre = *self;
            match self.remove(fam, &doomed[i].key) {
                Ok(()) => {},
                Err(e) => return Err(e),
            }
            proof {
                assert(family_view(*self, fam) == family_view(pre, fam).remove(
                    doomed@[i as int].key@,
                ));
                assert forall|k: Seq<u8>|
                    family_view(*self, fam).contains_key(k) <==> (family_view(
                        orig,
                        fam,
                    ).contains_key(k) && !(exists|a: int|
                        0 <= a < i + 1 && #[trigger] doomed@[a].key@ == k)) by {
                    if k == doomed@[i as int].key@ {
                        assert(!family_view(*self, fam).contains_key(k));
                        assert(doomed@[i as int].key@ == k);
                    } else {
                        assert(family_view(*self, fam).contains_key(k) == family_view(
                            pre,
                            fam,
                        ).contains_key(k));
                    }
                }
            }
            i = i + 1;
        }
        proof {
            assert forall|k: Seq<u8>|
                family_view(*self, fam).contains_key(k) <==> (family_view(orig, fam).contains_key(
                    k,
                ) && !has_prefix(k, prefix@)) by {
                if family_view(orig, fam).contains_key(k) && has_prefix(k, prefix@) {
                    let a = choose|a: int|
                        0 <= a < doomed@.len() && #[trigger] doomed@[a].key@ == k;
                    assert(0 <= a < i);
                }
                if family_view(*self, fam).contains_key(k) {
                    if has_prefix(k, prefix@) {
                        assert(family_view(orig, fam).contains_key(k));
                    }
                }
            }
        }
        Ok(())
    }
}

// ---------------------------------------------------------------------------
// Schema gate.
// ---------------------------------------------------------------------------
/// The key of the default family that holds the schema version: the
/// ASCII bytes of `schema_version`.
pub open spec fn spec_schema_key() -> Seq<u8> {
    "schema_version"@.map(|i: int, c: char| c as u8)
}

/// The key under which the schema version is persisted.
pub fn schema_key() -> (r: Vec<u8>)
    ensures
        r@ == spec_schema_key(),
{
    let mut v: Vec<u8> = Vec::new();
    v.push(115u8);
    v.push(99u8);
    v.push(104u8);
    v.push(101u8);
    v.push(109u8);
    v.push(97u8);
    v.push(95u8);
    v.push(118u8);
    v.push(101u8);
    v.push(114u8);
    v.push(115u8);
    v.push(105u8);
    v.push(111u8);
    v.push(110u8);
    proof {
        reveal_strlit("schema_version");
        assert(v@ =~= spec_schema_key());
    }
    v
}

/// The persisted form of [`crate::SCHEMA_VERSION`]: the ASCII digits of the
/// version string.
pub open spec fn spec_schema_version_bytes() -> Seq<u8> {
    seq![50u8]  // ASCII '2'
}

/// The compiled schema version, as the bytes the store persists.
pub fn schema_version_value() -> (r: Vec<u8>)
    ensures
        r@ == spec_schema_version_bytes(),
{
    let mut v: Vec<u8> = Vec::new();
    v.push(50u8);
    proof {
        assert(v@ =~= spec_schema_version_bytes());
    }
    v
}

/// Did the store pass the schema gate untouched, or was it cleared first?
#[derive(Clone, Copy, Debug, PartialEq, Eq, Structural)]
pub enum SchemaOutcome {
    /// The persisted version was absent (written) or already current.
    Current,
    /// The persisted version differed: every family was cleared, then the
    /// current version written.
    Rebuilt,
}

impl Store {
    /// Open the store and hold it to the compiled schema version: write the
    /// version if none is persisted, keep the store if it matches, and
    /// otherwise clear every family and start over at the current version.
    pub fn open_indexed(path: &str) -> (r: Result<(Store, SchemaOutcome), StoreError>)
        ensures
            match r {
                Ok((s, outcome)) => {
                    &&& family_view(s, Family::Default).contains_key(spec_schema_key())
                    &&& family_view(s, Family::Default)[spec_schema_key()]
                        == spec_schema_version_bytes()
                    &&& outcome is Rebuilt ==> forall|g: Family|
                        g != Family::Default ==> family_view(s, g) == empty_family()
                    &&& outcome is Rebuilt ==> crate::tree_index::tree_item_family_wf(
                        family_view(s, Family::TreeItem),
                    )
                },
                Err(_) => true,
            },
    {
        let store = match Store::open(path) {
            Ok(s) => s,
            Err(e) => return Err(e),
        };
        Store::schema_gate(store)
    }

    /// A fresh temporary store, taken through the schema gate: ready for
    /// tests and one-shot runs.
    pub fn open_temp_indexed() -> (r: Result<(Store, SchemaOutcome), StoreError>)
        ensures
            match r {
                Ok((s, outcome)) => {
                    &&& family_view(s, Family::Default).contains_key(spec_schema_key())
                    &&& family_view(s, Family::Default)[spec_schema_key()]
                        == spec_schema_version_bytes()
                    &&& forall|g: Family|
                        g != Family::Default ==> family_view(s, g) == empty_family()
                    &&& crate::tree_index::tree_item_family_wf(family_view(s, Family::TreeItem))
                },
                Err(_) => true,
            },
    {
        let store = match Store::open_temporary() {
            Ok(s) => s,
            Err(e) => return Err(e),
        };
        Store::schema_gate(store)
    }

    /// The same gate over an already-opened store.
    pub fn schema_gate(mut store: Store) -> (r: Result<(Store, SchemaOutcome), StoreError>)
        ensures
            match r {
                Ok((s, outcome)) => {
                    &&& family_view(s, Family::Default).contains_key(spec_schema_key())
                    &&& family_view(s, Family::Default)[spec_schema_key()]
                        == spec_schema_version_bytes()
                    // a persisted version that differs forces the rebuild
                    &&& (outcome is Rebuilt <==> (family_view(store, Family::Default).contains_key(
                        spec_schema_key(),
                    ) && family_view(store, Family::Default)[spec_schema_key()]
                        != spec_schema_version_bytes()))
                    &&& outcome is Rebuilt ==> forall|g: Family|
                        g != Family::Default ==> family_view(s, g) == empty_family()
                    &&& outcome is Rebuilt ==> crate::tree_index::tree_item_family_wf(
                        family_view(s, Family::TreeItem),
                    )
                    &&& outcome is Current ==> forall|g: Family|
                        g != Family::Default ==> family_view(s, g) == family_view(store, g)
                },
                Err(_) => true,
            },
    {
        let key = schema_key();
        let version = schema_version_value();
        let stored = match store.get(Family::Default, &key) {
            Ok(v) => v,
            Err(e) => return Err(e),
        };
        match stored {
            Some(v) => {
                if bytes_equal(&v, &version) {
                    return Ok((store, SchemaOutcome::Current));
                }
                // Persisted version differs: destructive upgrade.
                match store.clear_all() {
                    Ok(()) => {},
                    Err(e) => return Err(e),
                }
                match store.put(Family::Default, &key, &version) {
                    Ok(()) => {},
                    Err(e) => return Err(e),
                }
                Ok((store, SchemaOutcome::Rebuilt))
            },
            None => {
                match store.put(Family::Default, &key, &version) {
                    Ok(()) => {},
                    Err(e) => return Err(e),
                }
                Ok((store, SchemaOutcome::Current))
            },
        }
    }

    /// Clear every family.
    fn clear_all(&mut self) -> (r: Result<(), StoreError>)
        ensures
            r is Ok ==> forall|g: Family|
                family_view(*final(self), g) == empty_family(),
    {
        match self.raw_clear(Family::Default, "default") {
            Ok(()) => {},
            Err(e) => return Err(e),
        }
        match self.raw_clear(Family::Repository, "repository") {
            Ok(()) => {},
            Err(e) => return Err(e),
        }
        match self.raw_clear(Family::Commit, "commit") {
            Ok(()) => {},
            Err(e) => return Err(e),
        }
        match self.raw_clear(Family::CommitCount, "commit_count") {
            Ok(()) => {},
            Err(e) => return Err(e),
        }
        match self.raw_clear(Family::Tag, "tag") {
            Ok(()) => {},
            Err(e) => return Err(e),
        }
        match self.raw_clear(Family::Reference, "reference") {
            Ok(()) => {},
            Err(e) => return Err(e),
        }
        match self.raw_clear(Family::Tree, "tree") {
            Ok(()) => {},
            Err(e) => return Err(e),
        }
        match self.raw_clear(Family::TreeItem, "tree_item") {
            Ok(()) => {},
            Err(e) => return Err(e),
        }
        match self.raw_clear(Family::SortedTree, "sorted_tree") {
            Ok(()) => {},
            Err(e) => return Err(e),
        }
        Ok(())
    }
}

/// Byte-for-byte equality of two buffers.
pub fn bytes_equal(a: &Vec<u8>, b: &Vec<u8>) -> (r: bool)
    ensures
        r == (a@ == b@),
{
    if a.len() != b.len() {
        proof {
            assert(a@.len() != b@.len());
        }
        return false;
    }
    let mut i: usize = 0;
    while i < a.len()
        invariant
            a@.len() == b@.len(),
            i <= a@.len(),
            forall|j: int| 0 <= j < i ==> a@[j] == b@[j],
        decreases a@.len() - i,
    {
        if a[i] != b[i] {
            return false;
        }
        i = i + 1;
    }
    proof {
        assert(a@ =~= b@);
    }
    true
}

} // verus!
