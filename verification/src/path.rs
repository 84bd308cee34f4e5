//! The way back: from a stored node along the parents to a node that has
//! none.

use crate::store::FrontierEntry;
use crate::store::FrontierStore;
use vstd::prelude::*;

verus! {

/// The nodes met from index `i` along the parents, `i` first, as far as
/// `fuel` steps lead and the indices stay inside the store.
pub open spec fn trail(entries: Seq<FrontierEntry>, i: int, fuel: nat) -> Seq<u64>
    decreases fuel,
{
    if fuel == 0 || !(0 <= i < entries.len()) {
        Seq::empty()
    } else {
        seq![entries[i].node] + trail(entries, entries[i].parent as int, (fuel - 1) as nat)
    }
}

/// From index `i` the parents lead out of the store in at most `fuel`
/// steps.
pub open spec fn ends_within(entries: Seq<FrontierEntry>, i: int, fuel: nat) -> bool
    decreases fuel,
{
    !(0 <= i < entries.len()) || (fuel > 0 && ends_within(
        entries,
        entries[i].parent as int,
        (fuel - 1) as nat,
    ))
}

/// From index `i` the parents lead out of the store: they do not run in a
/// circle.
pub open spec fn trail_ends(entries: Seq<FrontierEntry>, i: int) -> bool {
    exists|fuel: nat| ends_within(entries, i, fuel)
}

/// The nodes from index `i` along the parents to the node without a
/// parent, `i` first.
pub open spec fn full_trail(entries: Seq<FrontierEntry>, i: int) -> Seq<u64> {
    trail(entries, i, choose|fuel: nat| ends_within(entries, i, fuel))
}

/// Once the parents have led out of the store, more steps add nothing.
pub proof fn lemma_trail_fuel(entries: Seq<FrontierEntry>, i: int, f1: nat, f2: nat)
    requires
        ends_within(entries, i, f1),
        ends_within(entries, i, f2),
    ensures
        trail(entries, i, f1) == trail(entries, i, f2),
    decreases f1,
{
    if 0 <= i < entries.len() {
        lemma_trail_fuel(entries, entries[i].parent as int, (f1 - 1) as nat, (f2 - 1) as nat);
    }
}

/// The full trail is the trail for any number of steps that suffices.
pub proof fn lemma_full_trail(entries: Seq<FrontierEntry>, i: int, fuel: nat)
    requires
        ends_within(entries, i, fuel),
    ensures
        trail_ends(entries, i),
        full_trail(entries, i) == trail(entries, i, fuel),
{
    let f = choose|f: nat| ends_within(entries, i, f);
    lemma_trail_fuel(entries, i, f, fuel);
}

/// The full trail of a stored node is the node followed by the full trail
/// of its parent.
pub proof fn lemma_full_trail_unfold(entries: Seq<FrontierEntry>, i: int)
    requires
        trail_ends(entries, i),
    ensures
        0 <= i < entries.len() ==> trail_ends(entries, entries[i].parent as int) && full_trail(
            entries,
            i,
        ) == seq![entries[i].node] + full_trail(entries, entries[i].parent as int),
        !(0 <= i < entries.len()) ==> full_trail(entries, i) == Seq::<u64>::empty(),
{
    let f = choose|f: nat| ends_within(entries, i, f);
    if 0 <= i < entries.len() {
        lemma_full_trail(entries, entries[i].parent as int, (f - 1) as nat);
    }
}

/// One step along the parents: hands out the node at index `*i` and moves
/// `*i` to its parent, or hands out nothing where the store has no such
/// index.
pub fn step(store: &FrontierStore, i: &mut usize) -> (r: Option<u64>)
    ensures
        *old(i) < store@.len() ==> r == Some(store@[*old(i) as int].node) && *final(i)
            == store@[*old(i) as int].parent,
        *old(i) >= store@.len() ==> r is None && *final(i) == *old(i),
{
    match store.entry_at(*i) {
        Some(entry) => {
            *i = entry.parent;
            Some(entry.node)
        },
        None => None,
    }
}

/// `itertools::unfold`, collected: starting with the state `from`, `step`
/// is called on the state again and again, and what it hands out is
/// gathered in order, until it hands out nothing. The call returns only
/// where that happens, which `requires` asks for.
#[verifier::external_body]
#[allow(deprecated)]
fn unfold_trail(store: &FrontierStore, from: usize) -> (path: Vec<u64>)
    requires
        trail_ends(store@, from as int),
    ensures
        path@ == full_trail(store@, from as int),
{
    itertools::unfold(from, |i| step(store, i)).collect()
}

/// The nodes from index `from` along the parents to the node without a
/// parent, `from` first; no nodes where the store has no index `from`.
pub fn path_from(store: &FrontierStore, from: usize) -> (path: Vec<u64>)
    requires
        trail_ends(store@, from as int),
    ensures
        path@ == full_trail(store@, from as int),
        from < store@.len() ==> path@.len() >= 1 && path@[0] == store@[from as int].node,
        from >= store@.len() ==> path@.len() == 0,
{
    proof {
        lemma_full_trail_unfold(store@, from as int);
    }
    unfold_trail(store, from)
}

} // verus!
