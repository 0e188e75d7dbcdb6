//! A sorted key/value table of frames: the builder behind the `%` reply and
//! the mathematical map its entry list denotes.
//!
//! Entries are kept in strictly ascending byte order of their keys, so a
//! table is a canonical representation of the finite map [`pairs_map`]
//! carries it to.

use vstd::pervasive::VecAdditionalExecFns;
use vstd::prelude::*;

use crate::frame::{pairs_view, Frame, FrameModel};
use crate::text::{bytes_cmp, bytes_lt, lemma_bytes_lt_irrefl, lemma_bytes_lt_trans, KeyOrder};

verus! {

/// The finite map an entry list denotes: later entries win.
pub open spec fn pairs_map(ps: Seq<(Seq<u8>, FrameModel)>) -> Map<Seq<u8>, FrameModel>
    decreases ps.len(),
{
    if ps.len() == 0 {
        Map::empty()
    } else {
        pairs_map(ps.drop_last()).insert(ps.last().0, ps.last().1)
    }
}

/// No two entries share a key.
pub open spec fn keys_unique(ps: Seq<(Seq<u8>, FrameModel)>) -> bool {
    forall|i: int, j: int| 0 <= i < j < ps.len() ==> (#[trigger] ps[i]).0 != (#[trigger] ps[j]).0
}

/// Keys in strictly ascending byte order.
pub open spec fn sorted_keys(ps: Seq<(Seq<u8>, FrameModel)>) -> bool {
    forall|i: int, j: int|
        0 <= i < j < ps.len() ==> bytes_lt((#[trigger] ps[i]).0, (#[trigger] ps[j]).0)
}

/// Strict order leaves no room for equal keys.
pub proof fn lemma_sorted_unique(ps: Seq<(Seq<u8>, FrameModel)>)
    requires
        sorted_keys(ps),
    ensures
        keys_unique(ps),
{
    assert forall|i: int, j: int|
        0 <= i < j < ps.len() implies (#[trigger] ps[i]).0 != (#[trigger] ps[j]).0 by {
        lemma_bytes_lt_irrefl(ps[i].0);
    }
}

/// What the map holds, read entry by entry, when keys are unique.
pub proof fn lemma_pairs_map_props(ps: Seq<(Seq<u8>, FrameModel)>)
    requires
        keys_unique(ps),
    ensures
        forall|k: Seq<u8>|
            #[trigger] pairs_map(ps).contains_key(k) <==> exists|i: int|
                0 <= i < ps.len() && (#[trigger] ps[i]).0 == k,
        forall|i: int|
            0 <= i < ps.len() ==> pairs_map(ps)[(#[trigger] ps[i]).0] == ps[i].1,
    decreases ps.len(),
{
    if ps.len() > 0 {
        assert(keys_unique(ps.drop_last())) by {
            assert forall|i: int, j: int|
                0 <= i < j < ps.drop_last().len() implies (#[trigger] ps.drop_last()[i]).0 != (
            #[trigger] ps.drop_last()[j]).0 by {
                assert(ps.drop_last()[i] == ps[i]);
                assert(ps.drop_last()[j] == ps[j]);
            }
        }
        lemma_pairs_map_props(ps.drop_last());
        assert forall|i: int|
            0 <= i < ps.len() implies pairs_map(ps)[(#[trigger] ps[i]).0] == ps[i].1 by {
            if i < ps.len() - 1 {
                assert(ps.drop_last()[i] == ps[i]);
                assert(ps[i].0 != ps.last().0);
            }
        }
        assert forall|k: Seq<u8>|
            #[trigger] pairs_map(ps).contains_key(k) implies exists|i: int|
            0 <= i < ps.len() && (#[trigger] ps[i]).0 == k by {
            if k != ps.last().0 {
                assert(pairs_map(ps.drop_last()).contains_key(k));
                let i = choose|i: int|
                    0 <= i < ps.drop_last().len() && (#[trigger] ps.drop_last()[i]).0 == k;
                assert(ps.drop_last()[i] == ps[i]);
                assert(ps[i].0 == k);
            } else {
                assert(ps[ps.len() - 1].0 == k);
            }
        }
        assert forall|k: Seq<u8>|
            (exists|i: int| 0 <= i < ps.len() && (#[trigger] ps[i]).0 == k) implies #[trigger] pairs_map(
            ps,
        ).contains_key(k) by {
            let i = choose|i: int| 0 <= i < ps.len() && (#[trigger] ps[i]).0 == k;
            if i < ps.len() - 1 {
                assert(ps.drop_last()[i] == ps[i]);
            }
        }
    }
}

/// Appending a fresh entry inserts it into the map.
pub proof fn lemma_pairs_map_push(ps: Seq<(Seq<u8>, FrameModel)>, p: (Seq<u8>, FrameModel))
    ensures
        pairs_map(ps.push(p)) == pairs_map(ps).insert(p.0, p.1),
{
    assert(ps.push(p).drop_last() =~= ps);
    assert(ps.push(p).last() == p);
}

/// Overwriting the entry that holds a key updates the map at that key.
pub proof fn lemma_pairs_map_update(ps: Seq<(Seq<u8>, FrameModel)>, i: int, v: FrameModel)
    requires
        keys_unique(ps),
        0 <= i < ps.len(),
    ensures
        pairs_map(ps.update(i, (ps[i].0, v))) == pairs_map(ps).insert(ps[i].0, v),
    decreases ps.len(),
{
    let newp = ps.update(i, (ps[i].0, v));
    if i == ps.len() - 1 {
        assert(newp.drop_last() =~= ps.drop_last());
        assert(newp.last() == (ps[i].0, v));
        assert(pairs_map(newp) =~= pairs_map(ps).insert(ps[i].0, v));
    } else {
        assert(keys_unique(ps.drop_last())) by {
            assert forall|a: int, b: int|
                0 <= a < b < ps.drop_last().len() implies (#[trigger] ps.drop_last()[a]).0 != (
            #[trigger] ps.drop_last()[b]).0 by {
                assert(ps.drop_last()[a] == ps[a]);
                assert(ps.drop_last()[b] == ps[b]);
            }
        }
        assert(ps.drop_last()[i] == ps[i]);
        lemma_pairs_map_update(ps.drop_last(), i, v);
        assert(newp.drop_last() =~= ps.drop_last().update(i, (ps[i].0, v)));
        assert(newp.last() == ps.last());
        assert(ps[i].0 != ps.last().0);
        assert(pairs_map(newp) == pairs_map(ps.drop_last().update(i, (ps[i].0, v))).insert(
            ps.last().0,
            ps.last().1,
        ));
        assert(pairs_map(newp) =~= pairs_map(ps).insert(ps[i].0, v));
    }
}

/// Splicing a fresh key in at its ordered position inserts it into the map
/// and keeps the entries sorted.
pub proof fn lemma_pairs_map_insert_at(
    ps: Seq<(Seq<u8>, FrameModel)>,
    idx: int,
    k: Seq<u8>,
    v: FrameModel,
)
    requires
        sorted_keys(ps),
        0 <= idx <= ps.len(),
        forall|j: int| 0 <= j < idx ==> bytes_lt((#[trigger] ps[j]).0, k),
        forall|j: int| idx <= j < ps.len() ==> bytes_lt(k, (#[trigger] ps[j]).0),
    ensures
        sorted_keys(ps.insert(idx, (k, v))),
        pairs_map(ps.insert(idx, (k, v))) == pairs_map(ps).insert(k, v),
    decreases ps.len() - idx,
{
    let newp = ps.insert(idx, (k, v));
    assert(sorted_keys(newp)) by {
        assert forall|a: int, b: int|
            0 <= a < b < newp.len() implies bytes_lt((#[trigger] newp[a]).0, (
        #[trigger] newp[b]).0) by {
            if a < idx {
                assert(newp[a] == ps[a]);
            } else if a == idx {
                assert(newp[a] == (k, v));
            } else {
                assert(newp[a] == ps[a - 1]);
            }
            if b < idx {
                assert(newp[b] == ps[b]);
            } else if b == idx {
                assert(newp[b] == (k, v));
            } else {
                assert(newp[b] == ps[b - 1]);
            }
        }
    }
    if idx == ps.len() {
        assert(newp =~= ps.push((k, v)));
        lemma_pairs_map_push(ps, (k, v));
    } else {
        assert(sorted_keys(ps.drop_last())) by {
            assert forall|a: int, b: int|
                0 <= a < b < ps.drop_last().len() implies bytes_lt(
                (#[trigger] ps.drop_last()[a]).0,
                (#[trigger] ps.drop_last()[b]).0,
            ) by {
                assert(ps.drop_last()[a] == ps[a]);
                assert(ps.drop_last()[b] == ps[b]);
            }
        }
        assert(forall|j: int|
            0 <= j < idx ==> bytes_lt((#[trigger] ps.drop_last()[j]).0, k)) by {
            assert(forall|j: int| 0 <= j < idx ==> #[trigger] ps.drop_last()[j] == ps[j]);
        }
        assert(forall|j: int|
            idx <= j < ps.drop_last().len() ==> bytes_lt(k, (#[trigger] ps.drop_last()[j]).0))
            by {
            assert(forall|j: int|
                idx <= j < ps.drop_last().len() ==> #[trigger] ps.drop_last()[j] == ps[j]);
        }
        lemma_pairs_map_insert_at(ps.drop_last(), idx, k, v);
        assert(newp.drop_last() =~= ps.drop_last().insert(idx, (k, v)));
        assert(newp.last() == ps.last());
        assert(bytes_lt(k, ps.last().0));
        lemma_bytes_lt_irrefl(k);
        assert(k != ps.last().0);
        assert(pairs_map(newp) == pairs_map(ps.drop_last().insert(idx, (k, v))).insert(
            ps.last().0,
            ps.last().1,
        ));
        assert(pairs_map(newp) =~= pairs_map(ps).insert(k, v));
    }
}

/// Builder for a `%` frame: an insertion-ordered map whose entries stay in
/// ascending key order, so equal maps render to equal wire bytes.
#[derive(Debug, PartialEq, Eq)]
pub struct TableBuilder {
    entries: Vec<(Vec<u8>, Frame)>,
}

impl View for TableBuilder {
    type V = Seq<(Seq<u8>, FrameModel)>;

    closed spec fn view(&self) -> Seq<(Seq<u8>, FrameModel)> {
        pairs_view(self.entries@)
    }
}

impl TableBuilder {
    /// The empty table.
    pub fn new() -> (t: TableBuilder)
        ensures
            t@ == Seq::<(Seq<u8>, FrameModel)>::empty(),
            sorted_keys(t@),
    {
        let t = TableBuilder { entries: Vec::new() };
        assert(t@ =~= Seq::<(Seq<u8>, FrameModel)>::empty());
        t
    }

    /// Insert or overwrite one key.
    pub fn insert(&mut self, key: Vec<u8>, value: Frame)
        requires
            sorted_keys(old(self)@),
        ensures
            sorted_keys(final(self)@),
            pairs_map(final(self)@) == pairs_map(old(self)@).insert(key@, value@),
    {
        broadcast use crate::frame::lemma_pairs_view;

        let ghost oldv = pairs_view(self.entries@);
        let (idx, found) = find_slot(&self.entries, &key);
        if found {
            proof {
                lemma_sorted_unique(oldv);
                lemma_pairs_map_update(oldv, idx as int, value@);
            }
            self.entries.set(idx, (key, value));
            proof {
                assert(pairs_view(self.entries@) =~= oldv.update(
                    idx as int,
                    (oldv[idx as int].0, value@),
                ));
                assert forall|a: int, b: int|
                    0 <= a < b < pairs_view(self.entries@).len() implies bytes_lt(
                    (#[trigger] pairs_view(self.entries@)[a]).0,
                    (#[trigger] pairs_view(self.entries@)[b]).0,
                ) by {
                    assert(pairs_view(self.entries@)[a].0 == oldv[a].0);
                    assert(pairs_view(self.entries@)[b].0 == oldv[b].0);
                }
            }
        } else {
            proof {
                assert forall|j: int|
                    idx <= j < oldv.len() implies bytes_lt(key@, (#[trigger] oldv[j]).0) by {
                    if j > idx {
                        lemma_bytes_lt_trans(key@, oldv[idx as int].0, oldv[j].0);
                    }
                }
                lemma_pairs_map_insert_at(oldv, idx as int, key@, value@);
            }
            self.entries.insert(idx, (key, value));
            proof {
                assert(pairs_view(self.entries@) =~= oldv.insert(idx as int, (key@, value@)));
            }
        }
    }

    /// The finished `%` frame.
    pub fn into_frame(self) -> (f: Frame)
        ensures
            f@ == FrameModel::Table(self@),
    {
        let TableBuilder { entries } = self;
        Frame::Table(entries)
    }
}

/// Position of `key` among sorted entries: the index of its entry when
/// present, else the index where it belongs.
fn find_slot(entries: &Vec<(Vec<u8>, Frame)>, key: &Vec<u8>) -> (r: (usize, bool))
    requires
        sorted_keys(pairs_view(entries@)),
    ensures
        ({
            let v = pairs_view(entries@);
            &&& r.0 <= entries.len()
            &&& forall|j: int| 0 <= j < r.0 ==> bytes_lt((#[trigger] v[j]).0, key@)
            &&& (r.1 ==> r.0 < v.len() && v[r.0 as int].0 == key@)
            &&& (!r.1 ==> r.0 as int == v.len() || bytes_lt(key@, v[r.0 as int].0))
        }),
{
    broadcast use crate::frame::lemma_pairs_view;

    let ghost v = pairs_view(entries@);
    let mut idx: usize = 0;
    while idx < entries.len()
        invariant
            idx <= entries.len(),
            v == pairs_view(entries@),
            sorted_keys(v),
            v.len() == entries@.len(),
            forall|j: int| 0 <= j < idx ==> bytes_lt((#[trigger] v[j]).0, key@),
        decreases entries.len() - idx,
    {
        proof {
            crate::frame::lemma_pairs_view(entries@);
            assert(v[idx as int] == (entries@[idx as int].0@, entries@[idx as int].1@));
        }
        let ord = bytes_cmp(&entries[idx].0, key);
        match ord {
            KeyOrder::Less => {
                idx = idx + 1;
            },
            KeyOrder::Equal => {
                return (idx, true);
            },
            KeyOrder::Greater => {
                return (idx, false);
            },
        }
    }
    (idx, false)
}

} // verus!
