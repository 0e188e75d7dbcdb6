//! The shared in-memory store and the dispatch from a typed command to a
//! store operation and a reply frame.
//!
//! The store holds two namespaces: a flat key-to-frame map and a hash
//! namespace mapping a key to a nested field-to-frame map. Entries are
//! created lazily on first write and persist for the life of the store.
//! The store itself is a plain structure with no interior locking; a caller
//! that shares it across connections guards it with a lock of its own — the
//! coarse-grained trade-off, under which unrelated keys contend but every
//! command stays one atomic operation.

use vstd::prelude::*;

use crate::cmd::{Command, HGet, HGetAll, HSet};
use crate::frame::{pairs_view, Frame, FrameModel};
use crate::table::{keys_unique, lemma_pairs_map_props, lemma_pairs_map_push,
    lemma_pairs_map_update, pairs_map, sorted_keys, TableBuilder};
use crate::text::bytes_eq;

verus! {

/// The store's mathematical state.
#[verifier::ext_equal]
pub struct BackendModel {
    /// Flat namespace: key to stored frame.
    pub flat: Map<Seq<u8>, FrameModel>,
    /// Hash namespace: key to nested field-to-frame map.
    pub hashes: Map<Seq<u8>, Map<Seq<u8>, FrameModel>>,
}

/// The nested map a list of hash entries denotes.
pub open spec fn hashes_map(s: Seq<(Seq<u8>, Map<Seq<u8>, FrameModel>)>) -> Map<
    Seq<u8>,
    Map<Seq<u8>, FrameModel>,
>
    decreases s.len(),
{
    if s.len() == 0 {
        Map::empty()
    } else {
        hashes_map(s.drop_last()).insert(s.last().0, s.last().1)
    }
}

/// No two hash entries share a key.
pub open spec fn hkeys_unique(s: Seq<(Seq<u8>, Map<Seq<u8>, FrameModel>)>) -> bool {
    forall|i: int, j: int| 0 <= i < j < s.len() ==> (#[trigger] s[i]).0 != (#[trigger] s[j]).0
}

/// What the nested map holds, entry by entry, when keys are unique.
pub proof fn lemma_hashes_map_props(s: Seq<(Seq<u8>, Map<Seq<u8>, FrameModel>)>)
    requires
        hkeys_unique(s),
    ensures
        forall|k: Seq<u8>|
            #[trigger] hashes_map(s).contains_key(k) <==> exists|i: int|
                0 <= i < s.len() && (#[trigger] s[i]).0 == k,
        forall|i: int| 0 <= i < s.len() ==> hashes_map(s)[(#[trigger] s[i]).0] == s[i].1,
    decreases s.len(),
{
    if s.len() > 0 {
        assert(hkeys_unique(s.drop_last())) by {
            assert forall|i: int, j: int|
                0 <= i < j < s.drop_last().len() implies (#[trigger] s.drop_last()[i]).0 != (
            #[trigger] s.drop_last()[j]).0 by {
                assert(s.drop_last()[i] == s[i]);
                assert(s.drop_last()[j] == s[j]);
            }
        }
        lemma_hashes_map_props(s.drop_last());
        assert forall|i: int|
            0 <= i < s.len() implies hashes_map(s)[(#[trigger] s[i]).0] == s[i].1 by {
            if i < s.len() - 1 {
                assert(s.drop_last()[i] == s[i]);
                assert(s[i].0 != s.last().0);
            }
        }
        assert forall|k: Seq<u8>|
            #[trigger] hashes_map(s).contains_key(k) implies exists|i: int|
            0 <= i < s.len() && (#[trigger] s[i]).0 == k by {
            if k != s.last().0 {
                assert(hashes_map(s.drop_last()).contains_key(k));
                let i = choose|i: int|
                    0 <= i < s.drop_last().len() && (#[trigger] s.drop_last()[i]).0 == k;
                assert(s.drop_last()[i] == s[i]);
                assert(s[i].0 == k);
            } else {
                assert(s[s.len() - 1].0 == k);
            }
        }
        assert forall|k: Seq<u8>|
            (exists|i: int| 0 <= i < s.len() && (#[trigger] s[i]).0 == k) implies #[trigger] hashes_map(
            s,
        ).contains_key(k) by {
            let i = choose|i: int| 0 <= i < s.len() && (#[trigger] s[i]).0 == k;
            if i < s.len() - 1 {
                assert(s.drop_last()[i] == s[i]);
            }
        }
    }
}

/// Appending a fresh hash entry inserts it into the nested map.
pub proof fn lemma_hashes_map_push(
    s: Seq<(Seq<u8>, Map<Seq<u8>, FrameModel>)>,
    p: (Seq<u8>, Map<Seq<u8>, FrameModel>),
)
    ensures
        hashes_map(s.push(p)) == hashes_map(s).insert(p.0, p.1),
{
    assert(s.push(p).drop_last() =~= s);
    assert(s.push(p).last() == p);
}

/// Overwriting the hash entry that holds a key updates the nested map there.
pub proof fn lemma_hashes_map_update(
    s: Seq<(Seq<u8>, Map<Seq<u8>, FrameModel>)>,
    i: int,
    m: Map<Seq<u8>, FrameModel>,
)
    requires
        hkeys_unique(s),
        0 <= i < s.len(),
    ensures
        hashes_map(s.update(i, (s[i].0, m))) == hashes_map(s).insert(s[i].0, m),
    decreases s.len(),
{
    let newp = s.update(i, (s[i].0, m));
    if i == s.len() - 1 {
        assert(newp.drop_last() =~= s.drop_last());
        assert(newp.last() == (s[i].0, m));
        assert(hashes_map(newp) =~= hashes_map(s).insert(s[i].0, m));
    } else {
        assert(hkeys_unique(s.drop_last())) by {
            assert forall|a: int, b: int|
                0 <= a < b < s.drop_last().len() implies (#[trigger] s.drop_last()[a]).0 != (
            #[trigger] s.drop_last()[b]).0 by {
                assert(s.drop_last()[a] == s[a]);
                assert(s.drop_last()[b] == s[b]);
            }
        }
        assert(s.drop_last()[i] == s[i]);
        lemma_hashes_map_update(s.drop_last(), i, m);
        assert(newp.drop_last() =~= s.drop_last().update(i, (s[i].0, m)));
        assert(newp.last() == s.last());
        assert(s[i].0 != s.last().0);
        assert(hashes_map(newp) == hashes_map(s.drop_last().update(i, (s[i].0, m))).insert(
            s.last().0,
            s.last().1,
        ));
        assert(hashes_map(newp) =~= hashes_map(s).insert(s[i].0, m));
    }
}

/// The models of a list of hash entries.
pub open spec fn hentries_view(s: Seq<(Vec<u8>, Vec<(Vec<u8>, Frame)>)>) -> Seq<
    (Seq<u8>, Map<Seq<u8>, FrameModel>),
>
    decreases s.len(),
{
    if s.len() == 0 {
        Seq::empty()
    } else {
        hentries_view(s.drop_last()).push(
            (s.last().0@, pairs_map(pairs_view(s.last().1@))),
        )
    }
}

/// `hentries_view` read pointwise.
pub proof fn lemma_hentries_view(s: Seq<(Vec<u8>, Vec<(Vec<u8>, Frame)>)>)
    ensures
        hentries_view(s).len() == s.len(),
        forall|i: int|
            0 <= i < s.len() ==> #[trigger] hentries_view(s)[i] == (
                s[i].0@,
                pairs_map(pairs_view(s[i].1@)),
            ),
    decreases s.len(),
{
    if s.len() > 0 {
        lemma_hentries_view(s.drop_last());
        assert forall|i: int|
            0 <= i < s.len() implies #[trigger] hentries_view(s)[i] == (
            s[i].0@,
            pairs_map(pairs_view(s[i].1@)),
        ) by {
            if i < s.len() - 1 {
                assert(s.drop_last()[i] == s[i]);
                assert(hentries_view(s.drop_last())[i] == (
                    s.drop_last()[i].0@,
                    pairs_map(pairs_view(s.drop_last()[i].1@)),
                ));
            }
        }
    }
}

/// The shared store: one instance is created at process start and every
/// command execution runs against it.
#[derive(Debug)]
pub struct Backend {
    flat: Vec<(Vec<u8>, Frame)>,
    hashes: Vec<(Vec<u8>, Vec<(Vec<u8>, Frame)>)>,
}

impl View for Backend {
    type V = BackendModel;

    closed spec fn view(&self) -> BackendModel {
        BackendModel {
            flat: pairs_map(pairs_view(self.flat@)),
            hashes: hashes_map(hentries_view(self.hashes@)),
        }
    }
}

impl Backend {
    /// Internal shape: keys are unique in each namespace and in each nested
    /// field list, so entry lists denote their maps faithfully.
    pub closed spec fn inv(&self) -> bool {
        &&& keys_unique(pairs_view(self.flat@))
        &&& hkeys_unique(hentries_view(self.hashes@))
        &&& forall|i: int|
            0 <= i < self.hashes@.len() ==> keys_unique(
                pairs_view((#[trigger] self.hashes@[i]).1@),
            )
    }

    /// A fresh, empty store.
    pub fn new() -> (r: Backend)
        ensures
            r.inv(),
            r@.flat == Map::<Seq<u8>, FrameModel>::empty(),
            r@.hashes == Map::<Seq<u8>, Map<Seq<u8>, FrameModel>>::empty(),
    {
        let r = Backend { flat: Vec::new(), hashes: Vec::new() };
        proof {
            assert(pairs_view(r.flat@) =~= Seq::<(Seq<u8>, FrameModel)>::empty());
            assert(hentries_view(r.hashes@) =~= Seq::<
                (Seq<u8>, Map<Seq<u8>, FrameModel>),
            >::empty());
        }
        r
    }

    /// Read the flat value stored under `key`, if any.
    pub fn get(&self, key: &Vec<u8>) -> (r: Option<Frame>)
        requires
            self.inv(),
        ensures
            r is Some <==> self@.flat.contains_key(key@),
            r matches Some(v) ==> v@ == self@.flat[key@],
    {
        proof {
            crate::frame::lemma_pairs_view(self.flat@);
            lemma_pairs_map_props(pairs_view(self.flat@));
        }
        match find_pair(&self.flat, key) {
            Some(i) => {
                proof {
                    assert(pairs_view(self.flat@)[i as int] == (self.flat@[i as int].0@, self.flat@[
                    i as int].1@));
                }
                Some(self.flat[i].1.duplicate())
            },
            None => None,
        }
    }

    /// Store `value` under `key` in the flat namespace, overwriting.
    pub fn set(&mut self, key: Vec<u8>, value: Frame)
        requires
            old(self).inv(),
        ensures
            final(self).inv(),
            final(self)@.flat == old(self)@.flat.insert(key@, value@),
            final(self)@.hashes == old(self)@.hashes,
    {
        let ghost oldv = pairs_view(self.flat@);
        proof {
            crate::frame::lemma_pairs_view(self.flat@);
        }
        match find_pair(&self.flat, &key) {
            Some(i) => {
                proof {
                    lemma_pairs_map_update(oldv, i as int, value@);
                }
                self.flat.set(i, (key, value));
                proof {
                    crate::frame::lemma_pairs_view(self.flat@);
                    crate::frame::lemma_pairs_view(old(self).flat@);
                    assert(pairs_view(self.flat@) =~= oldv.update(
                        i as int,
                        (oldv[i as int].0, value@),
                    ));
                    assert forall|a: int, b: int|
                        0 <= a < b < pairs_view(self.flat@).len() implies (
                    #[trigger] pairs_view(self.flat@)[a]).0 != (#[trigger] pairs_view(
                        self.flat@,
                    )[b]).0 by {
                        assert(pairs_view(self.flat@)[a].0 == oldv[a].0);
                        assert(pairs_view(self.flat@)[b].0 == oldv[b].0);
                    }
                }
            },
            None => {
                proof {
                    lemma_pairs_map_push(oldv, (key@, value@));
                }
                self.flat.push((key, value));
                proof {
                    crate::frame::lemma_pairs_view(self.flat@);
                    crate::frame::lemma_pairs_view(old(self).flat@);
                    assert(pairs_view(self.flat@) =~= oldv.push((key@, value@)));
                    assert forall|a: int, b: int|
                        0 <= a < b < pairs_view(self.flat@).len() implies (
                    #[trigger] pairs_view(self.flat@)[a]).0 != (#[trigger] pairs_view(
                        self.flat@,
                    )[b]).0 by {
                        assert(pairs_view(self.flat@)[a].0 == oldv.push((key@, value@))[a].0);
                        assert(pairs_view(self.flat@)[b].0 == oldv.push((key@, value@))[b].0);
                        if b < oldv.len() {
                            assert(oldv[a].0 != oldv[b].0);
                        }
                    }
                }
            },
        }
        proof {
            assert(hentries_view(self.hashes@) == hentries_view(old(self).hashes@));
        }
    }

    /// Read the frame stored under `key`/`field` in the hash namespace.
    pub fn hget(&self, key: &Vec<u8>, field: &Vec<u8>) -> (r: Option<Frame>)
        requires
            self.inv(),
        ensures
            r is Some <==> self@.hashes.contains_key(key@) && self@.hashes[key@].contains_key(
                field@,
            ),
            r matches Some(v) ==> v@ == self@.hashes[key@][field@],
    {
        proof {
            lemma_hashes_map_props(hentries_view(self.hashes@));
            lemma_hentries_view(self.hashes@);
        }
        match find_hash(&self.hashes, key) {
            Some(i) => {
                proof {
                    crate::frame::lemma_pairs_view(self.hashes@[i as int].1@);
                    lemma_pairs_map_props(pairs_view(self.hashes@[i as int].1@));
                }
                match find_pair(&self.hashes[i].1, field) {
                    Some(j) => {
                        proof {
                            assert(pairs_view(self.hashes@[i as int].1@)[j as int] == (self.hashes@[
                            i as int].1@[j as int].0@, self.hashes@[i as int].1@[j as int].1@));
                        }
                        Some(self.hashes[i].1[j].1.duplicate())
                    },
                    None => None,
                }
            },
            None => None,
        }
    }

    /// Upsert `key`/`field` to `value` in the hash namespace: the nested map
    /// is created on first write to `key`, and the field is overwritten if
    /// it already exists.
    pub fn hset(&mut self, key: Vec<u8>, field: Vec<u8>, value: Frame)
        requires
            old(self).inv(),
        ensures
            final(self).inv(),
            final(self)@.flat == old(self)@.flat,
            final(self)@.hashes == hset_step(old(self)@.hashes, key@, field@, value@),
    {
        let ghost oldh = hentries_view(self.hashes@);
        proof {
            lemma_hashes_map_props(oldh);
            lemma_hentries_view(self.hashes@);
        }
        match find_hash(&self.hashes, &key) {
            Some(i) => {
                let ghost oldinner = pairs_view(self.hashes@[i as int].1@);
                let mut inner = crate::frame::dup_pairs(&self.hashes[i].1);
                proof {
                    crate::frame::lemma_pairs_view(self.hashes@[i as int].1@);
                    crate::frame::lemma_pairs_view(inner@);
                    lemma_pairs_map_props(oldinner);
                }
                match find_pair(&inner, &field) {
                    Some(j) => {
                        proof {
                            lemma_pairs_map_update(oldinner, j as int, value@);
                        }
                        inner.set(j, (field, value));
                        proof {
                            crate::frame::lemma_pairs_view(inner@);
                            assert(pairs_view(inner@) =~= oldinner.update(
                                j as int,
                                (oldinner[j as int].0, value@),
                            ));
                            assert forall|a: int, b: int|
                                0 <= a < b < pairs_view(inner@).len() implies (
                            #[trigger] pairs_view(inner@)[a]).0 != (#[trigger] pairs_view(
                                inner@,
                            )[b]).0 by {
                                assert(pairs_view(inner@)[a].0 == oldinner[a].0);
                                assert(pairs_view(inner@)[b].0 == oldinner[b].0);
                            }
                        }
                    },
                    None => {
                        proof {
                            lemma_pairs_map_push(oldinner, (field@, value@));
                        }
                        inner.push((field, value));
                        proof {
                            crate::frame::lemma_pairs_view(inner@);
                            assert(pairs_view(inner@) =~= oldinner.push((field@, value@)));
                            assert forall|a: int, b: int|
                                0 <= a < b < pairs_view(inner@).len() implies (
                            #[trigger] pairs_view(inner@)[a]).0 != (#[trigger] pairs_view(
                                inner@,
                            )[b]).0 by {
                                assert(pairs_view(inner@)[a].0 == oldinner.push(
                                    (field@, value@),
                                )[a].0);
                                assert(pairs_view(inner@)[b].0 == oldinner.push(
                                    (field@, value@),
                                )[b].0);
                                if b < oldinner.len() {
                                    assert(oldinner[a].0 != oldinner[b].0);
                                }
                            }
                        }
                    },
                }
                proof {
                    lemma_hashes_map_update(oldh, i as int, pairs_map(pairs_view(inner@)));
                }
                self.hashes.set(i, (key, inner));
                proof {
                    lemma_hentries_view(self.hashes@);
                    assert(hentries_view(self.hashes@) =~= oldh.update(
                        i as int,
                        (oldh[i as int].0, pairs_map(pairs_view(self.hashes@[i as int].1@))),
                    ));
                    assert forall|a: int, b: int|
                        0 <= a < b < hentries_view(self.hashes@).len() implies (
                    #[trigger] hentries_view(self.hashes@)[a]).0 != (#[trigger] hentries_view(
                        self.hashes@,
                    )[b]).0 by {
                        assert(hentries_view(self.hashes@)[a].0 == oldh[a].0);
                        assert(hentries_view(self.hashes@)[b].0 == oldh[b].0);
                    }
                    assert(final(self)@.hashes =~= hset_step(
                        old(self)@.hashes,
                        key@,
                        field@,
                        value@,
                    ));
                }
            },
            None => {
                let mut inner: Vec<(Vec<u8>, Frame)> = Vec::new();
                inner.push((field, value));
                proof {
                    crate::frame::lemma_pairs_view(inner@);
                    assert(pairs_view(inner@) =~= Seq::<(Seq<u8>, FrameModel)>::empty().push(
                        (field@, value@),
                    ));
                    lemma_pairs_map_push(Seq::<(Seq<u8>, FrameModel)>::empty(), (field@, value@));
                    lemma_hashes_map_push(oldh, (key@, pairs_map(pairs_view(inner@))));
                }
                self.hashes.push((key, inner));
                proof {
                    lemma_hentries_view(self.hashes@);
                    assert(hentries_view(self.hashes@) =~= oldh.push(
                        (key@, pairs_map(pairs_view(self.hashes@[self.hashes@.len() - 1].1@))),
                    ));
                    assert forall|a: int, b: int|
                        0 <= a < b < hentries_view(self.hashes@).len() implies (
                    #[trigger] hentries_view(self.hashes@)[a]).0 != (#[trigger] hentries_view(
                        self.hashes@,
                    )[b]).0 by {
                        assert(hentries_view(self.hashes@)[a].0 == hentries_view(
                            self.hashes@,
                        )[a].0);
                        if b < oldh.len() {
                            assert(hentries_view(self.hashes@)[a].0 == oldh[a].0);
                            assert(hentries_view(self.hashes@)[b].0 == oldh[b].0);
                        } else {
                            assert(hentries_view(self.hashes@)[b].0 == key@);
                            if a < oldh.len() {
                                assert(hentries_view(self.hashes@)[a].0 == oldh[a].0);
                            }
                        }
                    }
                    assert(final(self)@.hashes =~= hset_step(
                        old(self)@.hashes,
                        key@,
                        field@,
                        value@,
                    ));
                }
            },
        }
        proof {
            assert(pairs_view(self.flat@) == pairs_view(old(self).flat@));
        }
    }

    /// Every field/value pair stored under `key`, as a sorted table, or
    /// nothing when the key is absent.
    pub fn hgetall(&self, key: &Vec<u8>) -> (r: Option<Frame>)
        requires
            self.inv(),
        ensures
            r is Some <==> self@.hashes.contains_key(key@),
            r matches Some(t) ==> (t@ matches FrameModel::Table(ps) && sorted_keys(ps)
                && pairs_map(ps) == self@.hashes[key@]),
    {
        proof {
            lemma_hashes_map_props(hentries_view(self.hashes@));
            lemma_hentries_view(self.hashes@);
        }
        match find_hash(&self.hashes, key) {
            Some(i) => {
                let entries = &self.hashes[i].1;
                let ghost innerv = pairs_view(entries@);
                proof {
                    crate::frame::lemma_pairs_view(entries@);
                    lemma_pairs_map_props(innerv);
                }
                let mut out = TableBuilder::new();
                let mut j: usize = 0;
                while j < entries.len()
                    invariant
                        j <= entries.len(),
                        innerv == pairs_view(entries@),
                        keys_unique(innerv),
                        innerv.len() == entries@.len(),
                        sorted_keys(out@),
                        pairs_map(out@) == pairs_map(innerv.take(j as int)),
                    decreases entries.len() - j,
                {
                    proof {
                        crate::frame::lemma_pairs_view(entries@);
                        assert(innerv[j as int] == (entries@[j as int].0@, entries@[
                        j as int].1@));
                        assert(innerv.take(j as int + 1).drop_last() =~= innerv.take(j as int));
                        assert(innerv.take(j as int + 1).last() == innerv[j as int]);
                    }
                    out.insert(
                        crate::text::copy_bytes(&entries[j].0),
                        entries[j].1.duplicate(),
                    );
                    j = j + 1;
                }
                proof {
                    assert(innerv.take(innerv.len() as int) =~= innerv);
                }
                Some(out.into_frame())
            },
            None => None,
        }
    }
}

/// Index of the entry holding `key`, scanning a flat entry list.
fn find_pair(entries: &Vec<(Vec<u8>, Frame)>, key: &Vec<u8>) -> (r: Option<usize>)
    ensures
        ({
            let v = pairs_view(entries@);
            &&& (r matches Some(i) ==> i < entries.len() && v[i as int].0 == key@)
            &&& (r is None ==> forall|j: int| 0 <= j < v.len() ==> (#[trigger] v[j]).0 != key@)
        }),
{
    let ghost v = pairs_view(entries@);
    proof {
        crate::frame::lemma_pairs_view(entries@);
    }
    let mut i: usize = 0;
    while i < entries.len()
        invariant
            i <= entries.len(),
            v == pairs_view(entries@),
            v.len() == entries@.len(),
            forall|j: int| 0 <= j < i ==> (#[trigger] v[j]).0 != key@,
        decreases entries.len() - i,
    {
        proof {
            crate::frame::lemma_pairs_view(entries@);
            assert(v[i as int] == (entries@[i as int].0@, entries@[i as int].1@));
        }
        if bytes_eq(&entries[i].0, key) {
            return Some(i);
        }
        i = i + 1;
    }
    None
}

/// Index of the entry holding `key`, scanning the hash namespace.
fn find_hash(entries: &Vec<(Vec<u8>, Vec<(Vec<u8>, Frame)>)>, key: &Vec<u8>) -> (r: Option<usize>)
    ensures
        ({
            let v = hentries_view(entries@);
            &&& (r matches Some(i) ==> i < entries.len() && v[i as int].0 == key@)
            &&& (r is None ==> forall|j: int| 0 <= j < v.len() ==> (#[trigger] v[j]).0 != key@)
        }),
{
    let ghost v = hentries_view(entries@);
    proof {
        lemma_hentries_view(entries@);
    }
    let mut i: usize = 0;
    while i < entries.len()
        invariant
            i <= entries.len(),
            v == hentries_view(entries@),
            v.len() == entries@.len(),
            forall|j: int| 0 <= j < v.len() ==> #[trigger] v[j].0 == entries@[j].0@,
            forall|j: int| 0 <= j < i ==> (#[trigger] v[j]).0 != key@,
        decreases entries.len() - i,
    {
        if bytes_eq(&entries[i].0, key) {
            return Some(i);
        }
        i = i + 1;
    }
    None
}

/// The state change one `HSET` performs on the hash namespace.
pub open spec fn hset_step(
    h: Map<Seq<u8>, Map<Seq<u8>, FrameModel>>,
    k: Seq<u8>,
    f: Seq<u8>,
    v: FrameModel,
) -> Map<Seq<u8>, Map<Seq<u8>, FrameModel>> {
    h.insert(
        k,
        (if h.contains_key(k) {
            h[k]
        } else {
            Map::empty()
        }).insert(f, v),
    )
}

/// The frame an `HGET` replies with: the stored value, or null when the key
/// or field is absent.
pub open spec fn hget_out(
    h: Map<Seq<u8>, Map<Seq<u8>, FrameModel>>,
    k: Seq<u8>,
    f: Seq<u8>,
) -> FrameModel {
    if h.contains_key(k) && h[k].contains_key(f) {
        h[k][f]
    } else {
        FrameModel::Null
    }
}

/// The canonical success reply.
pub fn ok_frame() -> (r: Frame)
    ensures
        r@ == FrameModel::SimpleString(seq![79u8, 75u8]),
{
    let mut t: Vec<u8> = Vec::new();
    t.push(79);
    t.push(75);
    proof {
        assert(t@ =~= seq![79u8, 75u8]);
    }
    Frame::SimpleString(t)
}

impl HGet {
    /// Reply with the stored value, or null when key or field is absent.
    pub fn execute(self, backend: &Backend) -> (r: Frame)
        requires
            backend.inv(),
        ensures
            r@ == hget_out(backend@.hashes, self.key@, self.field@),
    {
        match backend.hget(&self.key, &self.field) {
            Some(v) => v,
            None => Frame::Null,
        }
    }
}

impl HSet {
    /// Store the value and reply `OK`, whether or not the field existed.
    pub fn execute(self, backend: &mut Backend) -> (r: Frame)
        requires
            old(backend).inv(),
        ensures
            final(backend).inv(),
            final(backend)@.hashes == hset_step(
                old(backend)@.hashes,
                self.key@,
                self.field@,
                self.value@,
            ),
            final(backend)@.flat == old(backend)@.flat,
            r@ == FrameModel::SimpleString(seq![79u8, 75u8]),
    {
        let HSet { key, field, value } = self;
        backend.hset(key, field, value);
        ok_frame()
    }
}

impl HGetAll {
    /// Reply with every pair stored under the key as a sorted table, or an
    /// empty array when the key is absent.
    pub fn execute(self, backend: &Backend) -> (r: Frame)
        requires
            backend.inv(),
        ensures
            !backend@.hashes.contains_key(self.key@) ==> r@ == FrameModel::Array(
                Seq::<FrameModel>::empty(),
            ),
            backend@.hashes.contains_key(self.key@) ==> (r@ matches FrameModel::Table(ps)
                && sorted_keys(ps) && pairs_map(ps) == backend@.hashes[self.key@]),
    {
        match backend.hgetall(&self.key) {
            Some(t) => t,
            None => {
                let empty: Vec<Frame> = Vec::new();
                proof {
                    assert(crate::frame::frames_view(empty@) =~= Seq::<FrameModel>::empty());
                }
                Frame::Array(empty)
            },
        }
    }
}

impl Command {
    /// Run one command against the store and produce its reply frame.
    pub fn execute(self, backend: &mut Backend) -> (r: Frame)
        requires
            old(backend).inv(),
        ensures
            final(backend).inv(),
            final(backend)@.flat == old(backend)@.flat,
            self matches Command::HGet(c) ==> final(backend)@ == old(backend)@ && r@ == hget_out(
                old(backend)@.hashes,
                c.key@,
                c.field@,
            ),
            self matches Command::HSet(c) ==> final(backend)@.hashes == hset_step(
                old(backend)@.hashes,
                c.key@,
                c.field@,
                c.value@,
            ) && r@ == FrameModel::SimpleString(seq![79u8, 75u8]),
            self matches Command::HGetAll(c) ==> final(backend)@ == old(backend)@ && (
            if old(backend)@.hashes.contains_key(c.key@) {
                r@ matches FrameModel::Table(ps) && sorted_keys(ps) && pairs_map(ps) == old(
                    backend,
                )@.hashes[c.key@]
            } else {
                r@ == FrameModel::Array(Seq::<FrameModel>::empty())
            }),
    {
        match self {
            Command::HGet(c) => c.execute(backend),
            Command::HSet(c) => c.execute(backend),
            Command::HGetAll(c) => c.execute(backend),
        }
    }
}

/// Write-then-read: after `HSET(k, f, v)`, `HGET(k, f)` replies `v`.
pub proof fn lemma_write_then_read(
    h: Map<Seq<u8>, Map<Seq<u8>, FrameModel>>,
    k: Seq<u8>,
    f: Seq<u8>,
    v: FrameModel,
)
    ensures
        hget_out(hset_step(h, k, f, v), k, f) == v,
{
}

/// Overwrite isolation: writing a sibling field leaves a field's value
/// untouched.
pub proof fn lemma_overwrite_isolation(
    h: Map<Seq<u8>, Map<Seq<u8>, FrameModel>>,
    k: Seq<u8>,
    f1: Seq<u8>,
    v1: FrameModel,
    f2: Seq<u8>,
    v2: FrameModel,
)
    requires
        f1 != f2,
    ensures
        hget_out(hset_step(hset_step(h, k, f1, v1), k, f2, v2), k, f1) == v1,
{
}

/// Absence semantics: reading a key never written replies null.
pub proof fn lemma_absent_null(
    h: Map<Seq<u8>, Map<Seq<u8>, FrameModel>>,
    k: Seq<u8>,
    f: Seq<u8>,
)
    requires
        !h.contains_key(k),
    ensures
        hget_out(h, k, f) == FrameModel::Null,
{
}

/// Aggregate correctness: after writing two distinct fields of a fresh key,
/// the key holds exactly those two pairs and no others.
pub proof fn lemma_aggregate(
    h: Map<Seq<u8>, Map<Seq<u8>, FrameModel>>,
    k: Seq<u8>,
    f1: Seq<u8>,
    v1: FrameModel,
    f2: Seq<u8>,
    v2: FrameModel,
)
    requires
        !h.contains_key(k),
        f1 != f2,
    ensures
        hset_step(hset_step(h, k, f1, v1), k, f2, v2).contains_key(k),
        hset_step(hset_step(h, k, f1, v1), k, f2, v2)[k] == Map::<Seq<u8>, FrameModel>::empty()
            .insert(f1, v1).insert(f2, v2),
{
    assert(hset_step(hset_step(h, k, f1, v1), k, f2, v2)[k] =~= Map::<
        Seq<u8>,
        FrameModel,
    >::empty().insert(f1, v1).insert(f2, v2));
}

} // verus!
