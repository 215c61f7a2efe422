//! Outpoints, and maps from outpoints that keep the order in which keys came.

use vstd::prelude::*;
use vstd::string::StringExecFns;
use crate::bytes::{array_ext, bytes_equal};
use crate::text::{decimal, hex, push_decimal, push_hex};

verus! {

/// An output of a transaction: the transaction's hash and the output's number.
#[derive(Clone, Copy, Debug, PartialEq, Eq, Hash)]
pub struct Outpoint {
    pub txid: [u8; 32],
    pub vout: u32,
}

impl Outpoint {
    /// Whether two outpoints are the same.
    pub fn same(&self, other: &Outpoint) -> (r: bool)
        ensures
            r == (*self == *other),
    {
        if self.vout != other.vout {
            return false;
        }
        let r = bytes_equal(&self.txid, &other.txid);
        proof {
            if r {
                array_ext(self.txid, other.txid);
            }
        }
        r
    }

    /// A short form for people: the first four bytes of the hash as it is commonly shown,
    /// last byte first, and the output's number.
    pub fn short_form(&self) -> (r: String)
        ensures
            r@ == hex(self.txid@.reverse().take(4)) + "…:"@ + decimal(self.vout as nat),
    {
        let first: [u8; 4] = [self.txid[31], self.txid[30], self.txid[29], self.txid[28]];
        let mut r = String::new();
        push_hex(&mut r, &first);
        r.append("…:");
        push_decimal(&mut r, self.vout as u64);
        assert(first@ =~= self.txid@.reverse().take(4));
        assert(r@ =~= hex(first@) + "…:"@ + decimal(self.vout as nat));
        r
    }
}

/// The position of the entry with key `k`, from `i` on.
pub open spec fn position_from<V>(entries: Seq<(Outpoint, V)>, k: Outpoint, i: int) -> Option<int>
    decreases entries.len() - i,
{
    if i < 0 || i >= entries.len() {
        None
    } else if entries[i].0 == k {
        Some(i)
    } else {
        position_from(entries, k, i + 1)
    }
}

/// The position of the entry with key `k`.
pub open spec fn position_in<V>(entries: Seq<(Outpoint, V)>, k: Outpoint) -> Option<int> {
    position_from(entries, k, 0)
}

/// Whether no key occurs twice.
pub open spec fn distinct_keys<V>(entries: Seq<(Outpoint, V)>) -> bool {
    forall|i: int, j: int|
        0 <= i < j < entries.len() ==> (#[trigger] entries[i]).0 != (#[trigger] entries[j]).0
}

/// The entries with `v` under `k`: in the place of the entry that `k` had, or at the end.
pub open spec fn with_entry<V>(entries: Seq<(Outpoint, V)>, k: Outpoint, v: V) -> Seq<
    (Outpoint, V),
> {
    match position_in(entries, k) {
        Some(i) => entries.update(i, (k, v)),
        None => entries.push((k, v)),
    }
}

/// The entries without the one under `k`.
pub open spec fn without_entry<V>(entries: Seq<(Outpoint, V)>, k: Outpoint) -> Seq<(Outpoint, V)> {
    match position_in(entries, k) {
        Some(i) => entries.remove(i),
        None => entries,
    }
}

/// The map that a list of entries with distinct keys holds.
pub open spec fn map_of<V>(entries: Seq<(Outpoint, V)>) -> Map<Outpoint, V> {
    Map::new(
        |k: Outpoint| position_in(entries, k) is Some,
        |k: Outpoint| entries[position_in(entries, k).unwrap()].1,
    )
}

/// A map from outpoints that keeps the order in which its keys came.
pub struct OutpointMap<V> {
    entries: Vec<(Outpoint, V)>,
}

proof fn lemma_position<V>(entries: Seq<(Outpoint, V)>, k: Outpoint, from: int)
    requires
        0 <= from,
    ensures
        match position_from(entries, k, from) {
            Some(i) => {
                &&& from <= i < entries.len()
                &&& entries[i].0 == k
                &&& forall|j: int| from <= j < i ==> (#[trigger] entries[j]).0 != k
            },
            None => forall|j: int| from <= j < entries.len() ==> (#[trigger] entries[j]).0 != k,
        },
    decreases entries.len() - from,
{
    if from < entries.len() && entries[from].0 != k {
        lemma_position(entries, k, from + 1);
    }
}

/// Finding an entry by a key that it has, where no key occurs twice.
pub proof fn position_found<V>(entries: Seq<(Outpoint, V)>, i: int)
    requires
        distinct_keys(entries),
        0 <= i < entries.len(),
    ensures
        position_in(entries, entries[i].0) == Some(i),
{
    lemma_position(entries, entries[i].0, 0);
}

/// What a found position means.
pub proof fn position_meaning<V>(entries: Seq<(Outpoint, V)>, k: Outpoint)
    ensures
        match position_in(entries, k) {
            Some(i) => 0 <= i < entries.len() && entries[i].0 == k,
            None => forall|j: int| 0 <= j < entries.len() ==> (#[trigger] entries[j]).0 != k,
        },
{
    lemma_position(entries, k, 0);
}

/// Where a key is after an entry was appended.
pub proof fn position_pushed<V>(entries: Seq<(Outpoint, V)>, e: (Outpoint, V), k: Outpoint)
    ensures
        position_in(entries.push(e), k) == (if position_in(entries, k) is Some {
            position_in(entries, k)
        } else if e.0 == k {
            Some(entries.len() as int)
        } else {
            None
        }),
{
    let after = entries.push(e);
    lemma_position(entries, k, 0);
    lemma_position(after, k, 0);
    if let Some(i) = position_in(entries, k) {
        assert(after[i].0 == k);
        assert forall|j: int| 0 <= j < i implies (#[trigger] after[j]).0 != k by {
            assert(entries[j].0 != k);
        }
    } else {
        assert forall|j: int| 0 <= j < entries.len() implies (#[trigger] after[j]).0 != k by {
            assert(entries[j].0 != k);
        }
        if e.0 == k {
            assert(after[entries.len() as int].0 == k);
        }
    }
}

/// Lists with the same keys have each key in the same place.
pub proof fn position_by_keys<V, W>(a: Seq<(Outpoint, V)>, b: Seq<(Outpoint, W)>, k: Outpoint)
    requires
        a.len() == b.len(),
        forall|i: int| 0 <= i < a.len() ==> (#[trigger] a[i]).0 == b[i].0,
    ensures
        position_in(a, k) == position_in(b, k),
{
    lemma_position(a, k, 0);
    lemma_position(b, k, 0);
    if let Some(i) = position_in(a, k) {
        assert(b[i].0 == k);
        if let Some(j) = position_in(b, k) {
            assert(a[j].0 == k);
        }
    }
    if let Some(j) = position_in(b, k) {
        assert(a[j].0 == b[j].0);
    }
}

/// Writing an entry keeps the keys distinct and inserts into the map.
pub proof fn with_entry_inserts<V>(entries: Seq<(Outpoint, V)>, k: Outpoint, v: V)
    requires
        distinct_keys(entries),
    ensures
        distinct_keys(with_entry(entries, k, v)),
        map_of(with_entry(entries, k, v)) == map_of(entries).insert(k, v),
{
    lemma_position(entries, k, 0);
    let after = with_entry(entries, k, v);
    assert(distinct_keys(after));
    assert forall|q: Outpoint| #[trigger]
        map_of(after).dom().contains(q) == map_of(entries).insert(k, v).dom().contains(q) by {
        lemma_position(entries, q, 0);
        lemma_position(after, q, 0);
        if let Some(i) = position_in(entries, q) {
            assert(after[i].0 == q);
        }
        if q == k {
            let i = match position_in(entries, k) {
                Some(i) => i,
                None => entries.len() as int,
            };
            assert(after[i].0 == k);
        }
    }
    assert forall|q: Outpoint| map_of(after).dom().contains(q) implies #[trigger] map_of(after)[q]
        == map_of(entries).insert(k, v)[q] by {
        lemma_position(entries, q, 0);
        lemma_position(after, q, 0);
        let i = position_in(after, q).unwrap();
        if q != k {
            assert(entries[i].0 == q);
            position_found(entries, i);
        }
    }
    assert(map_of(after) =~= map_of(entries).insert(k, v));
}

/// Removing an entry keeps the keys distinct and removes from the map.
pub proof fn without_entry_removes<V>(entries: Seq<(Outpoint, V)>, k: Outpoint)
    requires
        distinct_keys(entries),
    ensures
        distinct_keys(without_entry(entries, k)),
        map_of(without_entry(entries, k)) == map_of(entries).remove(k),
{
    lemma_position(entries, k, 0);
    let after = without_entry(entries, k);
    if let Some(p) = position_in(entries, k) {
        assert forall|i: int, j: int| 0 <= i < j < after.len() implies (#[trigger] after[i]).0 != (
        #[trigger] after[j]).0 by {
            let a = if i < p { i } else { i + 1 };
            let b = if j < p { j } else { j + 1 };
            assert(entries[a].0 != entries[b].0);
        }
    }
    assert forall|q: Outpoint| #[trigger]
        map_of(after).dom().contains(q) == map_of(entries).remove(k).dom().contains(q) by {
        lemma_position(entries, q, 0);
        lemma_position(after, q, 0);
        if let Some(p) = position_in(entries, k) {
            if let Some(i) = position_in(entries, q) {
                if q != k {
                    let a = if i < p { i } else { i - 1 };
                    assert(after[a].0 == q);
                }
            }
            if let Some(i) = position_in(after, q) {
                let a = if i < p { i } else { i + 1 };
                assert(entries[a].0 == q);
                assert(entries[p].0 == k);
                assert(q != k);
            }
        }
    }
    assert forall|q: Outpoint| map_of(after).dom().contains(q) implies #[trigger] map_of(after)[q]
        == map_of(entries).remove(k)[q] by {
        lemma_position(after, q, 0);
        if let Some(p) = position_in(entries, k) {
            let i = position_in(after, q).unwrap();
            let a = if i < p { i } else { i + 1 };
            position_found(entries, a);
        }
    }
    assert(map_of(after) =~= map_of(entries).remove(k));
}

impl<V> View for OutpointMap<V> {
    type V = Map<Outpoint, V>;

    open spec fn view(&self) -> Map<Outpoint, V> {
        map_of(self.order())
    }
}

impl<V> OutpointMap<V> {
    /// The entries in the order in which their keys came.
    pub closed spec fn order(&self) -> Seq<(Outpoint, V)> {
        self.entries@
    }

    /// Whether no key occurs twice.
    pub open spec fn wf(&self) -> bool {
        distinct_keys(self.order())
    }

    /// An empty map.
    pub fn new() -> (r: Self)
        ensures
            r.wf(),
            r.order() == Seq::<(Outpoint, V)>::empty(),
            r@ == Map::<Outpoint, V>::empty(),
    {
        let r = OutpointMap { entries: Vec::new() };
        assert(r@ =~= Map::<Outpoint, V>::empty());
        r
    }

    /// The number of entries.
    pub fn len(&self) -> (r: usize)
        ensures
            r == self.order().len(),
    {
        self.entries.len()
    }

    /// The `i`-th entry.
    pub fn at(&self, i: usize) -> (r: &(Outpoint, V))
        requires
            i < self.order().len(),
        ensures
            *r == self.order()[i as int],
    {
        &self.entries[i]
    }

    /// The position of a key.
    pub fn position(&self, k: &Outpoint) -> (r: Option<usize>)
        ensures
            match r {
                Some(i) => i < self.order().len() && position_in(self.order(), *k) == Some(
                    i as int,
                ),
                None => position_in(self.order(), *k) is None,
            },
    {
        let mut i: usize = 0;
        while i < self.entries.len()
            invariant
                i <= self.entries@.len(),
                position_in(self.entries@, *k) == position_from(self.entries@, *k, i as int),
            decreases self.entries@.len() - i,
        {
            if self.entries[i].0.same(k) {
                return Some(i);
            }
            i = i + 1;
        }
        None
    }

    /// Whether a key is present.
    pub fn contains_key(&self, k: &Outpoint) -> (r: bool)
        ensures
            r == self@.contains_key(*k),
    {
        self.position(k).is_some()
    }

    /// The value under a key.
    pub fn get(&self, k: &Outpoint) -> (r: Option<&V>)
        ensures
            match r {
                Some(v) => self@.contains_key(*k) && self@[*k] == *v,
                None => !self@.contains_key(*k),
            },
    {
        match self.position(k) {
            Some(i) => Some(&self.entries[i].1),
            None => None,
        }
    }

    /// Puts a value under a key, in the place of one that was there.
    pub fn insert(&mut self, k: Outpoint, v: V)
        requires
            old(self).wf(),
        ensures
            final(self).wf(),
            final(self)@ == old(self)@.insert(k, v),
            final(self).order() == with_entry(old(self).order(), k, v),
    {
        proof {
            with_entry_inserts(self.entries@, k, v);
        }
        match self.position(&k) {
            Some(i) => {
                self.entries.set(i, (k, v));
            },
            None => {
                self.entries.push((k, v));
            },
        }
    }

    /// Takes a key out.
    pub fn remove(&mut self, k: &Outpoint) -> (r: Option<V>)
        requires
            old(self).wf(),
        ensures
            final(self).wf(),
            final(self)@ == old(self)@.remove(*k),
            final(self).order() == without_entry(old(self).order(), *k),
            match r {
                Some(v) => old(self)@.contains_key(*k) && old(self)@[*k] == v,
                None => !old(self)@.contains_key(*k) && *final(self) == *old(self),
            },
    {
        proof {
            without_entry_removes(self.entries@, *k);
        }
        match self.position(k) {
            Some(i) => {
                let e = self.entries.remove(i);
                Some(e.1)
            },
            None => None,
        }
    }
}

} // verus!
