//! The store of discovered nodes: for each node the index of the node it was
//! best reached from, and the best cost known so far. A node keeps the
//! position at which it was first stored.

use crate::cost::zero;
use indexmap::IndexMap;
use rustc_hash::FxHasher;
use std::hash::BuildHasherDefault;
use vstd::prelude::*;

verus! {

/// `indexmap::IndexMap`, taken as it is: what it holds is told by
/// `store_entries` alone.
#[verifier::external_type_specification]
#[verifier::external_body]
#[verifier::reject_recursive_types(K)]
#[verifier::reject_recursive_types(V)]
#[verifier::reject_recursive_types(S)]
pub struct ExIndexMap<K, V, S>(IndexMap<K, V, S>);

/// `rustc_hash::FxHasher`, the hasher of the map; nothing is said of it.
#[verifier::external_type_specification]
#[verifier::external_body]
pub struct ExFxHasher(FxHasher);

/// `std::hash::BuildHasherDefault`, which makes the hashers of the map;
/// nothing is said of it.
#[verifier::external_type_specification]
#[verifier::external_body]
#[verifier::reject_recursive_types(H)]
pub struct ExBuildHasherDefault<H>(BuildHasherDefault<H>);

/// The key-value pairs that an `IndexMap` holds, in its order: position `i`
/// of the sequence is the pair that the map has at index `i`.
pub uninterp spec fn store_entries(
    m: IndexMap<u64, (usize, u64), BuildHasherDefault<FxHasher>>,
) -> Seq<(u64, (usize, u64))>;

/// `IndexMap::default`: a map that holds nothing.
#[verifier::external_body]
fn map_new() -> (m: IndexMap<u64, (usize, u64), BuildHasherDefault<FxHasher>>)
    ensures
        store_entries(m).len() == 0,
{
    IndexMap::default()
}

/// `IndexMap::len`: the number of pairs held.
#[verifier::external_body]
fn map_len(m: &IndexMap<u64, (usize, u64), BuildHasherDefault<FxHasher>>) -> (n: usize)
    ensures
        n == store_entries(*m).len(),
{
    m.len()
}

/// `IndexMap::get_index`: the pair at `index`, or `None` where `index` is
/// not below the number of pairs.
#[verifier::external_body]
fn map_get_index(
    m: &IndexMap<u64, (usize, u64), BuildHasherDefault<FxHasher>>,
    index: usize,
) -> (r: Option<(u64, usize, u64)>)
    ensures
        index < store_entries(*m).len() ==> r == Some(
            (
                store_entries(*m)[index as int].0,
                store_entries(*m)[index as int].1.0,
                store_entries(*m)[index as int].1.1,
            ),
        ),
        index >= store_entries(*m).len() ==> r is None,
{
    m.get_index(index).map(|(k, v)| (*k, v.0, v.1))
}

/// `IndexMap::get_full`: where a pair with this key is held, its index and
/// its value; `None` where no pair has this key.
#[verifier::external_body]
fn map_get_full(
    m: &IndexMap<u64, (usize, u64), BuildHasherDefault<FxHasher>>,
    key: u64,
) -> (r: Option<(usize, usize, u64)>)
    ensures
        match r {
            Some((i, parent, cost)) => i < store_entries(*m).len() && store_entries(*m)[i as int]
                == (key, (parent, cost)),
            None => forall|i: int|
                0 <= i < store_entries(*m).len() ==> (#[trigger] store_entries(*m)[i]).0 != key,
        },
{
    m.get_full(&key).map(|(i, _, v)| (i, v.0, v.1))
}

/// `IndexMap::insert_full`: where a pair with this key is held, its value
/// is replaced, the pair stays at its index, and that index is returned;
/// otherwise the pair is added last, and its index, the former number of
/// pairs, is returned. As with `Vec::push`, nothing is said of a machine
/// that has no memory left for the pair.
#[verifier::external_body]
fn map_insert_full(
    m: &mut IndexMap<u64, (usize, u64), BuildHasherDefault<FxHasher>>,
    key: u64,
    parent: usize,
    cost: u64,
) -> (r: usize)
    ensures
        r <= store_entries(*old(m)).len(),
        r < store_entries(*old(m)).len() ==> store_entries(*old(m))[r as int].0 == key
            && store_entries(*final(m)) == store_entries(*old(m)).update(
            r as int,
            (key, (parent, cost)),
        ),
        r == store_entries(*old(m)).len() ==> store_entries(*final(m)) == store_entries(
            *old(m),
        ).push((key, (parent, cost))),
        r == store_entries(*old(m)).len() <==> forall|i: int|
            0 <= i < store_entries(*old(m)).len() ==> (#[trigger] store_entries(*old(m))[i]).0
                != key,
{
    m.insert_full(key, (parent, cost)).0
}

/// What the store keeps for one node.
#[derive(Clone, Copy, Debug, PartialEq, Eq, Structural)]
pub struct FrontierEntry {
    pub node: u64,
    /// The index of the node this one was best reached from; `usize::MAX`
    /// for a node that was reached from nowhere.
    pub parent: usize,
    /// The best cost known so far.
    pub cost: u64,
}

/// What becomes of a candidate path to a node.
#[derive(Clone, Copy, Debug, PartialEq, Eq, Structural)]
pub enum RelaxOutcome {
    /// The node was unknown and now stands at this index.
    Inserted(usize),
    /// The node, at this index, was known at a higher cost; parent and cost
    /// were replaced.
    Improved(usize),
    /// The node was known at a cost no higher; nothing changed.
    Rejected,
}

/// Whether `node` is stored.
pub open spec fn holds(entries: Seq<FrontierEntry>, node: u64) -> bool {
    exists|i: int| 0 <= i < entries.len() && (#[trigger] entries[i]).node == node
}

/// An index at which `node` is stored. Where no two entries share a node it
/// is the only one.
pub open spec fn index_of(entries: Seq<FrontierEntry>, node: u64) -> int {
    choose|i: int| 0 <= i < entries.len() && (#[trigger] entries[i]).node == node
}

/// No node is stored twice.
pub open spec fn distinct_nodes(entries: Seq<FrontierEntry>) -> bool {
    forall|i: int, j: int|
        0 <= i < j < entries.len() ==> (#[trigger] entries[i]).node != (#[trigger] entries[j]).node
}

/// The store after a path to `node` through `parent` at `cost` was offered.
pub open spec fn relaxed(
    entries: Seq<FrontierEntry>,
    node: u64,
    parent: usize,
    cost: u64,
) -> Seq<FrontierEntry> {
    let fresh = FrontierEntry { node, parent, cost };
    if !holds(entries, node) {
        entries.push(fresh)
    } else if entries[index_of(entries, node)].cost > cost {
        entries.update(index_of(entries, node), fresh)
    } else {
        entries
    }
}

/// What offering a path to `node` at `cost` reports.
pub open spec fn relax_outcome(entries: Seq<FrontierEntry>, node: u64, cost: u64) -> RelaxOutcome {
    if !holds(entries, node) {
        RelaxOutcome::Inserted(entries.len() as usize)
    } else if entries[index_of(entries, node)].cost > cost {
        RelaxOutcome::Improved(index_of(entries, node) as usize)
    } else {
        RelaxOutcome::Rejected
    }
}

/// The discovered nodes, each at a fixed index.
pub struct FrontierStore {
    map: IndexMap<u64, (usize, u64), BuildHasherDefault<FxHasher>>,
}

impl View for FrontierStore {
    type V = Seq<FrontierEntry>;

    closed spec fn view(&self) -> Seq<FrontierEntry> {
        Seq::new(
            store_entries(self.map).len(),
            |i: int|
                FrontierEntry {
                    node: store_entries(self.map)[i].0,
                    parent: store_entries(self.map)[i].1.0,
                    cost: store_entries(self.map)[i].1.1,
                },
        )
    }
}

impl FrontierStore {
    /// No node is stored twice, and every index fits the machine word.
    pub open spec fn wf(&self) -> bool {
        distinct_nodes(self@) && self@.len() <= usize::MAX
    }

    /// A store without nodes.
    pub fn new() -> (s: Self)
        ensures
            s.wf(),
            s@.len() == 0,
    {
        FrontierStore { map: map_new() }
    }

    /// The number of nodes stored.
    pub fn len(&self) -> (n: usize)
        ensures
            n == self@.len(),
    {
        map_len(&self.map)
    }

    /// The index of `node`. A node not yet stored is first stored, without
    /// a parent and at cost zero; a stored one is left as it is.
    pub fn lookup_or_create(&mut self, node: u64) -> (index: usize)
        requires
            old(self).wf(),
        ensures
            final(self).wf(),
            holds(old(self)@, node) ==> final(self)@ == old(self)@ && index == index_of(
                old(self)@,
                node,
            ),
            !holds(old(self)@, node) ==> index == old(self)@.len() && final(self)@ == old(
                self,
            )@.push(FrontierEntry { node, parent: usize::MAX, cost: 0 }),
    {
        match map_get_full(&self.map, node) {
            Some((i, _, _)) => {
                assert(self@[i as int].node == node);
                i
            },
            None => {
                assert(!holds(self@, node)) by {
                    if holds(self@, node) {
                        let k = index_of(self@, node);
                        assert(store_entries(self.map)[k].0 == node);
                    }
                }
                let ghost before = self@;
                let i = map_insert_full(&mut self.map, node, usize::MAX, zero());
                // The map hands its new length out as a `usize`, so it fits one.
                let _length: usize = map_len(&self.map);
                assert(self@ =~= before.push(FrontierEntry { node, parent: usize::MAX, cost: 0 }));
                i
            },
        }
    }

    /// The entry at `index`.
    pub fn get_by_index(&self, index: usize) -> (e: FrontierEntry)
        requires
            index < self@.len(),
        ensures
            e == self@[index as int],
    {
        self.entry_at(index).unwrap()
    }

    /// The entry at `index`, or `None` where the store has no such index.
    pub fn entry_at(&self, index: usize) -> (r: Option<FrontierEntry>)
        ensures
            index < self@.len() ==> r == Some(self@[index as int]),
            index >= self@.len() ==> r is None,
    {
        match map_get_index(&self.map, index) {
            Some((node, parent, cost)) => Some(FrontierEntry { node, parent, cost }),
            None => None,
        }
    }

    /// Offers a path to `node` that comes through the node at index
    /// `parent` and costs `cost`. An unknown node is stored at the next free
    /// index. A known node keeps its index, and takes the new parent and
    /// cost only where the cost is strictly lower than the stored one.
    pub fn relax(&mut self, node: u64, parent: usize, cost: u64) -> (r: RelaxOutcome)
        requires
            old(self).wf(),
        ensures
            final(self).wf(),
            final(self)@ == relaxed(old(self)@, node, parent, cost),
            r == relax_outcome(old(self)@, node, cost),
    {
        let ghost before = self@;
        let fresh = FrontierEntry { node, parent, cost };
        match map_get_full(&self.map, node) {
            None => {
                assert(!holds(before, node)) by {
                    if holds(before, node) {
                        let k = index_of(before, node);
                        assert(store_entries(self.map)[k].0 == node);
                    }
                }
                let i = map_insert_full(&mut self.map, node, parent, cost);
                // The map hands its new length out as a `usize`, so it fits one.
                let _length: usize = map_len(&self.map);
                assert(self@ =~= before.push(fresh));
                RelaxOutcome::Inserted(i)
            },
            Some((i, _, stored)) => {
                assert(before[i as int].node == node);
                assert(holds(before, node));
                assert(index_of(before, node) == i) by {
                    let k = index_of(before, node);
                    if k != i {
                        assert(before[k].node == before[i as int].node);
                    }
                }
                if stored > cost {
                    let j = map_insert_full(&mut self.map, node, parent, cost);
                    assert(j == i) by {
                        assert(store_entries(old(self).map)[i as int].0 == node);
                        if j != i {
                            assert(before[j as int].node == before[i as int].node);
                        }
                    }
                    assert(self@ =~= before.update(i as int, fresh));
                    RelaxOutcome::Improved(i)
                } else {
                    RelaxOutcome::Rejected
                }
            },
        }
    }
}

/// A node keeps its index: offering a path moves no stored node and
/// removes none, and the index that an offer reports is the index of the
/// node, which it had before where the node was known.
pub proof fn lemma_relax_keeps_indices(
    entries: Seq<FrontierEntry>,
    node: u64,
    parent: usize,
    cost: u64,
)
    requires
        distinct_nodes(entries),
        entries.len() < usize::MAX,
    ensures
        relaxed(entries, node, parent, cost).len() >= entries.len(),
        forall|i: int|
            0 <= i < entries.len() ==> (#[trigger] relaxed(entries, node, parent, cost)[i]).node
                == entries[i].node,
        relax_outcome(entries, node, cost) matches RelaxOutcome::Inserted(j) ==> j
            == entries.len() && relaxed(entries, node, parent, cost)[j as int].node == node,
        relax_outcome(entries, node, cost) matches RelaxOutcome::Improved(j) ==> j
            < entries.len() && entries[j as int].node == node && relaxed(
            entries,
            node,
            parent,
            cost,
        )[j as int] == (FrontierEntry { node, parent, cost }),
{
    if holds(entries, node) {
        let k = index_of(entries, node);
        assert(entries[k].node == node);
    }
}

/// A path that is no cheaper than the stored one changes nothing, and no
/// offer ever raises a stored cost.
pub proof fn lemma_relax_never_worsens(
    entries: Seq<FrontierEntry>,
    node: u64,
    parent: usize,
    cost: u64,
)
    ensures
        holds(entries, node) && entries[index_of(entries, node)].cost <= cost ==> relaxed(
            entries,
            node,
            parent,
            cost,
        ) == entries,
        forall|i: int|
            0 <= i < entries.len() ==> (#[trigger] relaxed(entries, node, parent, cost)[i]).cost
                <= entries[i].cost,
        forall|i: int|
            0 <= i < entries.len() && entries[i].node != node ==> (#[trigger] relaxed(
                entries,
                node,
                parent,
                cost,
            )[i]) == entries[i],
{
    if holds(entries, node) {
        let k = index_of(entries, node);
        assert(entries[k].node == node);
    }
}

} // verus!
