//! The per-repository tag set: one row per annotated tag, keyed by
//! repository id and full reference name.

use crate::keys::{spec_tag_key, tag_key};
use crate::records::{decode_tag, enc_tag, encode_tag, sdec_tag, Tag, TagV};
use crate::store::{family_view, Family, Store, StoreError};
use crate::wire::{has_prefix, lex_lt, u64_be, u64_to_be};
use vstd::prelude::*;

verus! {

/// The tag stored under `(repo, name)`, decoded; nothing when the value
/// is malformed.
pub open spec fn spec_tag_at(tm: Map<Seq<u8>, Seq<u8>>, repo: u64, name: Seq<u8>) -> Option<TagV> {
    let key = spec_tag_key(repo, name);
    if tm.contains_key(key) {
        match sdec_tag(tm[key], 0) {
            Some((v, p)) => if p == tm[key].len() {
                Some(v)
            } else {
                None
            },
            None => None,
        }
    } else {
        None
    }
}

/// The tag rows of one repository.
pub struct TagTree {
    pub repo: u64,
}

impl TagTree {
    pub fn new(repo: u64) -> (r: TagTree)
        ensures
            r.repo == repo,
    {
        TagTree { repo }
    }

    /// Upsert the row of one tag.
    pub fn insert(&self, store: &mut Store, name: &Vec<u8>, value: &Tag) -> (r: Result<
        (),
        StoreError,
    >)
        ensures
            r is Ok ==> family_view(*final(store), Family::Tag) == family_view(
                *old(store),
                Family::Tag,
            ).insert(spec_tag_key(self.repo, name@), enc_tag(value@)),
            r is Ok ==> forall|g: Family|
                g != Family::Tag ==> family_view(*final(store), g) == family_view(*old(store), g),
    {
        let key = tag_key(self.repo, name);
        let bytes = encode_tag(value);
        store.put(Family::Tag, &key, &bytes)
    }

    /// Delete the row of one tag.
    pub fn remove(&self, store: &mut Store, name: &Vec<u8>) -> (r: Result<(), StoreError>)
        ensures
            r is Ok ==> family_view(*final(store), Family::Tag) == family_view(
                *old(store),
                Family::Tag,
            ).remove(spec_tag_key(self.repo, name@)),
            r is Ok ==> forall|g: Family|
                g != Family::Tag ==> family_view(*final(store), g) == family_view(*old(store), g),
    {
        let key = tag_key(self.repo, name);
        store.remove(Family::Tag, &key)
    }

    /// The full reference names of every indexed tag of this repository,
    /// in ascending name order.
    pub fn list(&self, store: &Store) -> (r: Result<Vec<Vec<u8>>, StoreError>)
        ensures
            match r {
                Ok(names) => {
                    &&& forall|i: int|
                        0 <= i < names@.len() ==> family_view(*store, Family::Tag).contains_key(
                            spec_tag_key(self.repo, #[trigger] names@[i]@),
                        )
                    &&& forall|i: int, j: int|
                        0 <= i < j < names@.len() ==> lex_lt(
                            #[trigger] names@[i]@,
                            #[trigger] names@[j]@,
                        )
                    &&& forall|n: Seq<u8>|
                        family_view(*store, Family::Tag).contains_key(spec_tag_key(self.repo, n))
                            ==> exists|i: int| 0 <= i < names@.len() && #[trigger] names@[i]@ == n
                },
                Err(_) => true,
            },
    {
        let prefix = u64_to_be(self.repo);
        let entries = match store.entries_with_prefix(Family::Tag, &prefix) {
            Ok(v) => v,
            Err(_) => return Err(StoreError::Backend),
        };
        let mut names: Vec<Vec<u8>> = Vec::new();
        let mut i: usize = 0;
        proof {
            crate::wire::lemma_u64_be_val(self.repo);
            assert forall|n: Seq<u8>|
                family_view(*store, Family::Tag).contains_key(
                    spec_tag_key(self.repo, n),
                ) implies exists|a: int|
                0 <= a < entries@.len() && #[trigger] entries@[a].key@ == spec_tag_key(
                    self.repo,
                    n,
                ) by {
                crate::keys::lemma_tag_key_repo_prefix(self.repo, n, self.repo);
                assert(has_prefix(spec_tag_key(self.repo, n), prefix@));
            }
        }
        while i < entries.len()
            invariant
                i <= entries@.len(),
                names@.len() == i,
                forall|a: int|
                    0 <= a < entries@.len() ==> family_view(*store, Family::Tag).contains_key(
                        #[trigger] entries@[a].key@,
                    ) && has_prefix(entries@[a].key@, u64_be(self.repo)) && entries@[a].key@.len()
                        >= 8,
                forall|a: int, b: int|
                    0 <= a < b < entries@.len() ==> lex_lt(
                        #[trigger] entries@[a].key@,
                        #[trigger] entries@[b].key@,
                    ),
                forall|n: Seq<u8>|
                    family_view(*store, Family::Tag).contains_key(spec_tag_key(self.repo, n))
                        ==> exists|a: int|
                        0 <= a < entries@.len() && #[trigger] entries@[a].key@ == spec_tag_key(
                            self.repo,
                            n,
                        ),
                forall|a: int|
                    0 <= a < i ==> (#[trigger] names@[a]@) == entries@[a].key@.skip(8),
            decreases entries@.len() - i,
        {
            proof {
                crate::wire::lemma_u64_be_val(self.repo);
            }
            let name = crate::records::copy_range(&entries[i].key, 8, entries[i].key.len());
            names.push(name);
            i = i + 1;
        }
        let ghost gnames = names@;
        let rr: Result<Vec<Vec<u8>>, StoreError> = Ok(names);
        proof {
            crate::wire::lemma_u64_be_val(self.repo);
            assert(rr->Ok_0@ == gnames);
            assert forall|a: int| 0 <= a < gnames.len() implies family_view(
                *store,
                Family::Tag,
            ).contains_key(spec_tag_key(self.repo, #[trigger] gnames[a]@)) by {
                assert(gnames[a]@ == entries@[a].key@.skip(8));
                assert(entries@[a].key@.take(8) == u64_be(self.repo));
                assert(spec_tag_key(self.repo, entries@[a].key@.skip(8)) =~= entries@[a].key@);
            }
            assert forall|a: int, b: int| 0 <= a < b < gnames.len() implies lex_lt(
                #[trigger] gnames[a]@,
                #[trigger] gnames[b]@,
            ) by {
                assert(lex_lt(entries@[a].key@, entries@[b].key@));
                lemma_lex_lt_common_prefix(entries@[a].key@, entries@[b].key@, 8);
                assert(gnames[a]@ == entries@[a].key@.skip(8));
                assert(gnames[b]@ == entries@[b].key@.skip(8));
            }
            assert forall|n: Seq<u8>|
                family_view(*store, Family::Tag).contains_key(
                    spec_tag_key(self.repo, n),
                ) implies exists|i: int| 0 <= i < rr->Ok_0@.len() && #[trigger] rr->Ok_0@[i]@
                == n by {
                assert(has_prefix(spec_tag_key(self.repo, n), u64_be(self.repo))) by {
                    crate::keys::lemma_tag_key_repo_prefix(self.repo, n, self.repo);
                }
                let a = choose|a: int|
                    0 <= a < entries@.len() && #[trigger] entries@[a].key@ == spec_tag_key(
                        self.repo,
                        n,
                    );
                assert(gnames[a]@ == entries@[a].key@.skip(8));
                assert(entries@[a].key@.skip(8) =~= n);
                assert(rr->Ok_0@[a]@ == n);
            }
        }
        rr
    }

    /// Every indexed tag of this repository, as `(short name, record)`
    /// pairs with the `refs/tags/` prefix stripped, newest first by
    /// tagger time (untagged records last); rows under other reference
    /// names are skipped. Fails as corrupt if any record does not
    /// decode.
    #[verifier::rlimit(100)]
    pub fn fetch_all(&self, store: &Store) -> (r: Result<Vec<(Vec<u8>, Tag)>, StoreError>)
        ensures
            match r {
                Ok(list) => {
                    &&& forall|i: int|
                        0 <= i < list@.len() ==> spec_tag_at(
                            family_view(*store, Family::Tag),
                            self.repo,
                            spec_tags_prefix() + (#[trigger] list@[i].0@),
                        ) == Some(list@[i].1@)
                    &&& forall|n: Seq<u8>|
                        family_view(*store, Family::Tag).contains_key(spec_tag_key(self.repo, n))
                            && has_prefix(n, spec_tags_prefix()) ==> exists|i: int|
                            0 <= i < list@.len() && (#[trigger] list@[i].0@) == n.skip(10)
                    &&& forall|a: int, b: int|
                        0 <= a < b < list@.len() ==> spec_tag_newer_eq(
                            (#[trigger] list@[a]).1@,
                            (#[trigger] list@[b]).1@,
                        )
                },
                Err(_) => true,
            },
    {
        let ghost tm = family_view(*store, Family::Tag);
        let prefix = u64_to_be(self.repo);
        let entries = match store.entries_with_prefix(Family::Tag, &prefix) {
            Ok(v) => v,
            Err(_) => return Err(StoreError::Backend),
        };
        let tags_prefix = tags_prefix_bytes();
        let mut out: Vec<(Vec<u8>, Tag)> = Vec::new();
        let mut i: usize = 0;
        proof {
            crate::wire::lemma_u64_be_val(self.repo);
            assert forall|n: Seq<u8>|
                tm.contains_key(spec_tag_key(self.repo, n)) implies exists|a: int|
                0 <= a < entries@.len() && #[trigger] entries@[a].key@ == spec_tag_key(
                    self.repo,
                    n,
                ) by {
                crate::keys::lemma_tag_key_repo_prefix(self.repo, n, self.repo);
                assert(has_prefix(spec_tag_key(self.repo, n), prefix@));
            }
        }
        while i < entries.len()
            invariant
                tm == family_view(*store, Family::Tag),
                tags_prefix@ == spec_tags_prefix(),
                tags_prefix@.len() == 10,
                i <= entries@.len(),
                forall|a: int|
                    0 <= a < entries@.len() ==> tm.contains_key(#[trigger] entries@[a].key@)
                        && tm[entries@[a].key@] == entries@[a].value@ && has_prefix(
                        entries@[a].key@,
                        u64_be(self.repo),
                    ) && entries@[a].key@.len() >= 8,
                forall|n: Seq<u8>|
                    tm.contains_key(spec_tag_key(self.repo, n)) ==> exists|a: int|
                        0 <= a < entries@.len() && #[trigger] entries@[a].key@ == spec_tag_key(
                            self.repo,
                            n,
                        ),
                // every produced pair is a decoded tags-row
                forall|x: int|
                    0 <= x < out@.len() ==> spec_tag_at(
                        tm,
                        self.repo,
                        spec_tags_prefix() + (#[trigger] out@[x].0@),
                    ) == Some(out@[x].1@),
                // every processed tags-row has its pair
                forall|a: int|
                    0 <= a < i && has_prefix(
                        (#[trigger] entries@[a].key@).skip(8),
                        spec_tags_prefix(),
                    ) ==> exists|x: int|
                        0 <= x < out@.len() && (#[trigger] out@[x].0@) == entries@[a].key@.skip(
                            18,
                        ),
            decreases entries@.len() - i,
        {
            proof {
                crate::wire::lemma_u64_be_val(self.repo);
                assert(spec_tag_key(self.repo, entries@[i as int].key@.skip(8)) =~= entries@[
                    i as int
                ].key@);
            }
            let name = crate::records::copy_range(&entries[i].key, 8, entries[i].key.len());
            if crate::wire::starts_with(&name, &tags_prefix) {
                let short = crate::records::copy_range(&name, 10, name.len());
                let tag = match decode_tag(&entries[i].value) {
                    Some(t) => t,
                    None => return Err(StoreError::Corrupt),
                };
                let ghost out0 = out@;
                out.push((short, tag));
                proof {
                    assert(spec_tags_prefix() + out@[out0.len() as int].0@ =~= name@);
                    assert(entries@[i as int].key@.skip(18) =~= short@);
                    assert(forall|x: int| 0 <= x < out0.len() ==> out@[x] == out0[x]);
                    assert forall|a: int|
                        0 <= a < i + 1 && has_prefix(
                            (#[trigger] entries@[a].key@).skip(8),
                            spec_tags_prefix(),
                        ) implies exists|x: int|
                        0 <= x < out@.len() && (#[trigger] out@[x].0@) == entries@[a].key@.skip(
                            18,
                        ) by {
                        if a < i {
                            let x = choose|x: int|
                                0 <= x < out0.len() && (#[trigger] out0[x].0@) == entries@[
                                    a
                                ].key@.skip(18);
                            assert(out@[x].0@ == entries@[a].key@.skip(18));
                        } else {
                            assert(out@[out0.len() as int].0@ == entries@[a].key@.skip(18));
                        }
                    }
                }
            } else {
                proof {
                    assert(!has_prefix(entries@[i as int].key@.skip(8), spec_tags_prefix()));
                }
            }
            i = i + 1;
        }
        let ghost pre = pair_views(out@);
        proof {
            // carry the completeness witnesses over to the pair views
            // while the unsorted list is still in scope
            assert forall|a: int|
                0 <= a < entries@.len() && has_prefix(
                    (#[trigger] entries@[a].key@).skip(8),
                    spec_tags_prefix(),
                ) implies exists|y: int|
                0 <= y < pre.len() && (#[trigger] pre[y]).0 == entries@[a].key@.skip(18) by {
                let x = choose|x: int|
                    0 <= x < out@.len() && (#[trigger] out@[x].0@) == entries@[a].key@.skip(18);
                assert(pre[x].0 == entries@[a].key@.skip(18));
            }
        }
        let sorted_list = sort_tags_by_time(out);
        let ghost gout = sorted_list@;
        let rr: Result<Vec<(Vec<u8>, Tag)>, StoreError> = Ok(sorted_list);
        proof {
            broadcast use vstd::seq_lib::group_to_multiset_ensures;

            assert(rr->Ok_0@ == gout);
            pre.to_multiset_ensures();
            pair_views(gout).to_multiset_ensures();
            assert forall|x: int| 0 <= x < gout.len() implies spec_tag_at(
                tm,
                self.repo,
                spec_tags_prefix() + (#[trigger] gout[x].0@),
            ) == Some(gout[x].1@) by {
                let p = pair_views(gout)[x];
                assert(pair_views(gout).contains(p));
                assert(pair_views(gout).to_multiset().count(p) > 0);
                assert(pre.to_multiset().count(p) > 0);
                assert(pre.contains(p));
                let a = choose|a: int| 0 <= a < pre.len() && pre[a] == p;
                assert(spec_tag_at(tm, self.repo, spec_tags_prefix() + pre[a].0) == Some(
                    pre[a].1,
                ));
                assert(gout[x].0@ == p.0 && gout[x].1@ == p.1);
            }
            assert forall|n: Seq<u8>|
                tm.contains_key(spec_tag_key(self.repo, n)) && has_prefix(
                    n,
                    spec_tags_prefix(),
                ) implies exists|x: int| 0 <= x < rr->Ok_0@.len() && (#[trigger] rr->Ok_0@[x].0@)
                == n.skip(10) by {
                let a = choose|a: int|
                    0 <= a < entries@.len() && #[trigger] entries@[a].key@ == spec_tag_key(
                        self.repo,
                        n,
                    );
                assert(entries@[a].key@.skip(8) =~= n);
                assert(has_prefix(entries@[a].key@.skip(8), spec_tags_prefix()));
                let y = choose|y: int|
                    0 <= y < pre.len() && (#[trigger] pre[y]).0 == entries@[a].key@.skip(18);
                let p = pre[y];
                assert(pre.contains(p));
                assert(pre.to_multiset().count(p) > 0);
                assert(pair_views(gout).to_multiset().count(p) > 0);
                assert(pair_views(gout).contains(p));
                let x = choose|x: int| 0 <= x < pair_views(gout).len() && pair_views(gout)[x] == p;
                assert(gout[x].0@ == p.0);
                assert(entries@[a].key@.skip(18) =~= n.skip(10));
                assert(rr->Ok_0@[x].0@ == n.skip(10));
            }
        }
        rr
    }

}


/// The `refs/tags/` namespace prefix.
pub open spec fn spec_tags_prefix() -> Seq<u8> {
    "refs/tags/"@.map(|i: int, c: char| c as u8)
}

fn tags_prefix_bytes() -> (r: Vec<u8>)
    ensures
        r@ == spec_tags_prefix(),
        r@.len() == 10,
{
    let mut v: Vec<u8> = Vec::new();
    v.push(114u8);
    v.push(101u8);
    v.push(102u8);
    v.push(115u8);
    v.push(47u8);
    v.push(116u8);
    v.push(97u8);
    v.push(103u8);
    v.push(115u8);
    v.push(47u8);
    proof {
        reveal_strlit("refs/tags/");
        assert(v@ =~= spec_tags_prefix());
    }
    v
}

/// The views of a list of name-tag pairs.
pub open spec fn pair_views(l: Seq<(Vec<u8>, Tag)>) -> Seq<(Seq<u8>, TagV)> {
    Seq::new(l.len(), |i: int| (l[i].0@, l[i].1@))
}

/// `a` sorts at or before `b` in a newest-first listing: later tagger
/// times come first, records without a tagger come last.
pub open spec fn spec_tag_newer_eq(a: TagV, b: TagV) -> bool {
    match (a.tagger, b.tagger) {
        (Some(x), Some(y)) => x.seconds >= y.seconds,
        (Some(x), None) => true,
        (None, Some(y)) => false,
        (None, None) => true,
    }
}

fn tag_newer_eq(a: &Tag, b: &Tag) -> (r: bool)
    ensures
        r == spec_tag_newer_eq(a@, b@),
{
    match (&a.tagger, &b.tagger) {
        (Some(x), Some(y)) => x.time.0 >= y.time.0,
        (Some(_), None) => true,
        (None, Some(_)) => false,
        (None, None) => true,
    }
}

/// Sort pairs newest first by tagger time: the result is ordered and
/// holds exactly the input pairs.
#[verifier::rlimit(100)]
fn sort_tags_by_time(input: Vec<(Vec<u8>, Tag)>) -> (r: Vec<(Vec<u8>, Tag)>)
    ensures
        pair_views(r@).to_multiset() == pair_views(input@).to_multiset(),
        forall|a: int, b: int|
            0 <= a < b < r@.len() ==> spec_tag_newer_eq(
                (#[trigger] r@[a]).1@,
                (#[trigger] r@[b]).1@,
            ),
{
    broadcast use vstd::seq_lib::group_to_multiset_ensures;

    let ghost orig = pair_views(input@);
    let mut work = input;
    let mut out: Vec<(Vec<u8>, Tag)> = Vec::new();
    proof {
        assert(pair_views(out@) =~= Seq::<(Seq<u8>, TagV)>::empty());
        assert(pair_views(out@).to_multiset().add(pair_views(work@).to_multiset())
            =~= orig.to_multiset());
    }
    while work.len() > 0
        invariant
            pair_views(out@).to_multiset().add(pair_views(work@).to_multiset())
                == orig.to_multiset(),
            forall|a: int, b: int|
                0 <= a < b < out@.len() ==> spec_tag_newer_eq(
                    (#[trigger] out@[a]).1@,
                    (#[trigger] out@[b]).1@,
                ),
        decreases work@.len(),
    {
        let ghost work0 = pair_views(work@);
        let item = work.remove(0);
        let ghost pv = (item.0@, item.1@);
        proof {
            work0.to_multiset_ensures();
            assert(pair_views(work@) =~= work0.remove(0));
            assert(work0.remove(0).to_multiset() =~= work0.to_multiset().remove(work0[0]));
            assert(work0[0] == pv);
        }
        let mut pos: usize = 0;
        while pos < out.len() && tag_newer_eq(&out[pos].1, &item.1)
            invariant
                pos <= out@.len(),
                pv == (item.0@, item.1@),
                forall|a: int| 0 <= a < pos ==> spec_tag_newer_eq((#[trigger] out@[a]).1@, pv.1),
                forall|a: int, b: int|
                    0 <= a < b < out@.len() ==> spec_tag_newer_eq(
                        (#[trigger] out@[a]).1@,
                        (#[trigger] out@[b]).1@,
                    ),
            decreases out@.len() - pos,
        {
            pos = pos + 1;
        }
        let ghost out0 = pair_views(out@);
        let ghost gpos = pos as int;
        out.insert(pos, item);
        proof {
            let out1 = pair_views(out@);
            out0.to_multiset_ensures();
            out1.to_multiset_ensures();
            assert(out1 =~= out0.insert(gpos, pv));
            // the inserted sequence is the old one plus the new pair
            assert(out1.remove(gpos) =~= out0);
            assert(out1[gpos] == pv);
            assert(out1.remove(gpos).to_multiset() =~= out1.to_multiset().remove(out1[gpos]));
            assert(out1.contains(pv));
            assert(out1.to_multiset().count(pv) > 0);
            assert forall|q: (Seq<u8>, TagV)| true implies #[trigger] out1.to_multiset().count(q)
                == out0.to_multiset().insert(pv).count(q) by {
                if q == pv {
                    assert(out0.to_multiset().count(q) == out1.to_multiset().remove(pv).count(q));
                } else {
                    assert(out0.to_multiset().count(q) == out1.to_multiset().remove(pv).count(q));
                }
            }
            assert(out1.to_multiset() =~= out0.to_multiset().insert(pv));
            // order: everything before the slot is at or above the item,
            // everything after is at or below it
            assert forall|a: int, b: int| 0 <= a < b < out@.len() implies spec_tag_newer_eq(
                (#[trigger] out@[a]).1@,
                (#[trigger] out@[b]).1@,
            ) by {
                if b == gpos {
                    assert(out1[a] == out0[a]);
                    assert(spec_tag_newer_eq(out0[a].1, pv.1));
                } else if a == gpos {
                    // the scan stopped: the slot's old occupant is not at
                    // or above the item, so the item is at or above it and,
                    // by order, above everything after
                    assert(out1[b] == out0[b - 1]);
                    if gpos < out0.len() {
                        assert(!spec_tag_newer_eq(out0[gpos].1, pv.1));
                        assert(spec_tag_newer_eq(pv.1, out0[gpos].1));
                        if b - 1 > gpos {
                            assert(spec_tag_newer_eq(out0[gpos].1, out0[b - 1].1));
                        }
                    }
                } else if a < gpos && b > gpos {
                    assert(out1[a] == out0[a]);
                    assert(out1[b] == out0[b - 1]);
                    assert(spec_tag_newer_eq(out0[a].1, out0[b - 1].1));
                } else if b < gpos {
                    assert(out1[a] == out0[a]);
                    assert(out1[b] == out0[b]);
                } else {
                    assert(out1[a] == out0[a - 1]);
                    assert(out1[b] == out0[b - 1]);
                }
            }
        }
    }
    proof {
        assert(pair_views(work@) =~= Seq::<(Seq<u8>, TagV)>::empty());
        assert(pair_views(out@).to_multiset().add(
            Seq::<(Seq<u8>, TagV)>::empty().to_multiset(),
        ) =~= pair_views(out@).to_multiset());
    }
    out
}

/// Inserting a tag and then removing it leaves the tag family without
/// that key, whatever it held before.
pub proof fn lemma_tag_insert_then_remove(
    m: Map<Seq<u8>, Seq<u8>>,
    repo: u64,
    name: Seq<u8>,
    v: Seq<u8>,
)
    ensures
        !m.insert(spec_tag_key(repo, name), v).remove(spec_tag_key(repo, name)).contains_key(
            spec_tag_key(repo, name),
        ),
        forall|k: Seq<u8>|
            k != spec_tag_key(repo, name) ==> m.insert(spec_tag_key(repo, name), v).remove(
                spec_tag_key(repo, name),
            ).contains_key(k) == m.contains_key(k),
{
}

/// Two byte strings that share a prefix of length `n` stay ordered when
/// the prefix is dropped.
pub proof fn lemma_lex_lt_common_prefix(a: Seq<u8>, b: Seq<u8>, n: int)
    requires
        0 <= n <= a.len(),
        n <= b.len(),
        a.take(n) == b.take(n),
        lex_lt(a, b),
    ensures
        lex_lt(a.skip(n), b.skip(n)),
    decreases n,
{
    if n == 0 {
        assert(a.skip(0) =~= a);
        assert(b.skip(0) =~= b);
    }
    if n > 0 {
        assert(a.take(n)[0] == a[0]);
        assert(b.take(n)[0] == b[0]);
        assert(a[0] == b[0]);
        assert(a.len() > 0 && b.len() > 0);
        assert(lex_lt(a.skip(1), b.skip(1)));
        assert(a.skip(1).take(n - 1) =~= a.take(n).skip(1));
        assert(b.skip(1).take(n - 1) =~= b.take(n).skip(1));
        lemma_lex_lt_common_prefix(a.skip(1), b.skip(1), n - 1);
        assert(a.skip(1).skip(n - 1) =~= a.skip(n));
        assert(b.skip(1).skip(n - 1) =~= b.skip(n));
    }
}

} // verus!
