//! A user's entry: an identifier and one balance per asset.

use vstd::prelude::*;
use crate::encoding::amounts;
use crate::shape::Shape;

verus! {

/// An identifier and an ordered vector of per-asset balances.
#[derive(Clone, Debug, PartialEq, Eq)]
pub struct Entry {
    pub id: String,
    pub balances: Vec<u128>,
}

/// The mathematical value of an [`Entry`].
pub struct EntryView {
    pub id: Seq<char>,
    pub balances: Seq<nat>,
}

impl View for Entry {
    type V = EntryView;

    open spec fn view(&self) -> EntryView {
        EntryView { id: self.id@, balances: amounts(self.balances@) }
    }
}

impl DeepView for Entry {
    type V = EntryView;

    open spec fn deep_view(&self) -> EntryView {
        self@
    }
}

/// Identifier of the entries that fill the unused leaves.
pub open spec fn sentinel_id() -> Seq<char> {
    "0"@
}

/// The zero-balance entry that fills an unused leaf.
pub open spec fn sentinel_entry(n_assets: nat) -> EntryView {
    EntryView { id: sentinel_id(), balances: Seq::new(n_assets, |i: int| 0nat) }
}

impl EntryView {
    /// The entry has one balance per asset, each within the byte width.
    pub open spec fn fits(&self, shape: Shape) -> bool {
        &&& self.has_assets(shape.n_assets as nat)
        &&& self.in_range(shape.spec_max_amount())
    }

    /// The entry has exactly `n_assets` balances.
    pub open spec fn has_assets(&self, n_assets: nat) -> bool {
        self.balances.len() == n_assets
    }

    /// No balance of the entry exceeds `max`.
    pub open spec fn in_range(&self, max: nat) -> bool {
        forall|i: int| 0 <= i < self.balances.len() ==> self.balances[i] <= max
    }
}

/// Copies a vector of amounts.
pub fn copy_amounts(values: &Vec<u128>) -> (copy: Vec<u128>)
    ensures
        copy@ == values@,
{
    let mut copy: Vec<u128> = Vec::new();
    let mut i: usize = 0;
    while i < values.len()
        invariant
            i <= values.len(),
            copy@ == values@.subrange(0, i as int),
        decreases values.len() - i,
    {
        copy.push(values[i]);
        proof {
            assert(values@.subrange(0, i + 1) =~= values@.subrange(0, i as int).push(
                values@[i as int],
            ));
        }
        i = i + 1;
    }
    proof {
        assert(values@.subrange(0, values@.len() as int) =~= values@);
    }
    copy
}

/// Copies a vector of bytes.
pub fn copy_bytes(bytes: &Vec<u8>) -> (copy: Vec<u8>)
    ensures
        copy@ == bytes@,
{
    let mut copy: Vec<u8> = Vec::new();
    copy.extend_from_slice(bytes.as_slice());
    proof {
        assert(copy@ =~= bytes@);
    }
    copy
}

/// Whether no amount of `values` exceeds `max`.
pub fn all_within(values: &Vec<u128>, max: u128) -> (ok: bool)
    ensures
        ok == (forall|i: int| 0 <= i < values@.len() ==> values@[i] <= max),
{
    let mut i: usize = 0;
    while i < values.len()
        invariant
            i <= values.len(),
            forall|j: int| 0 <= j < i ==> values@[j] <= max,
        decreases values.len() - i,
    {
        if values[i] > max {
            return false;
        }
        i = i + 1;
    }
    true
}

impl Entry {
    /// An entry with the given identifier and balances.
    pub fn new(id: String, balances: Vec<u128>) -> (entry: Self)
        ensures
            entry.id == id,
            entry.balances == balances,
    {
        Entry { id, balances }
    }

    /// The zero-balance entry that fills an unused leaf.
    pub fn sentinel(n_assets: usize) -> (entry: Self)
        ensures
            entry@ == sentinel_entry(n_assets as nat),
    {
        let mut balances: Vec<u128> = Vec::new();
        let mut i: usize = 0;
        while i < n_assets
            invariant
                i <= n_assets,
                balances@.len() == i,
                forall|j: int| 0 <= j < i ==> balances@[j] == 0,
            decreases n_assets - i,
        {
            balances.push(0);
            i = i + 1;
        }
        let entry = Entry { id: "0".to_owned(), balances };
        proof {
            assert(entry@.balances =~= sentinel_entry(n_assets as nat).balances);
        }
        entry
    }

    /// The identifier.
    pub fn id(&self) -> (id: &String)
        ensures
            id == self.id,
    {
        &self.id
    }

    /// The balances, one per asset.
    pub fn balances(&self) -> (balances: &Vec<u128>)
        ensures
            balances == self.balances,
    {
        &self.balances
    }

    /// An entry of the same value.
    pub fn duplicate(&self) -> (copy: Self)
        ensures
            copy@ == self@,
    {
        Entry { id: self.id.clone(), balances: copy_amounts(&self.balances) }
    }

    /// Whether the entry has `n_assets` balances, none above `max`.
    pub fn fits(&self, shape: &Shape) -> (ok: bool)
        requires
            shape.valid(),
        ensures
            ok == self@.fits(*shape),
    {
        let max = shape.max_amount();
        let ok = self.balances.len() == shape.n_assets && all_within(&self.balances, max);
        proof {
            assert(self@.balances.len() == self.balances@.len());
            if ok {
                assert forall|i: int| 0 <= i < self@.balances.len() implies self@.balances[i]
                    <= shape.spec_max_amount() by {
                    assert(self.balances@[i] <= max);
                }
            } else if self.balances.len() == shape.n_assets {
                let i = choose|i: int| 0 <= i < self.balances@.len() && !(self.balances@[i] <= max);
                assert(self@.balances[i] > shape.spec_max_amount());
            }
        }
        ok
    }
}

} // verus!
