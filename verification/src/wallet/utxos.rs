//! The wallet's outputs, followed block by block.

use vstd::prelude::*;
use crate::bytes::{
    array_of, array_of_view, be_value, bytes_equal, get_array, get_le32, get_le64, le32,
    le32_round_trip, le32_spells, le32_value, le64, le64_spells, le64_value, put_bytes, put_le32,
    put_le64,
};
use crate::chain::{compute_txid, txid_of, Block, Transaction, TxIn};
use crate::outpoints::{
    distinct_keys, map_of, position_in, position_meaning, with_entry, with_entry_inserts, Outpoint,
    OutpointMap,
};
use crate::silentpayments::wallet::ErrorKind;
use crate::sorting::{
    same_counts_same_total, stable_sort, stably_sorted, stably_sorted_keeps_order,
    stably_sorted_same_counts, stably_sorted_same_items, total_by, Ranked,
};

pub use crate::silentpayments::wallet::SpentBy;

verus! {

/// An output that the wallet received.
#[derive(Clone, Copy, Debug, PartialEq, Eq)]
pub struct OwnedUtxo {
    /// The amount, in satoshis.
    pub value: u64,
    pub block_height: u32,
    pub spent_by: Option<SpentBy>,
}

/// An event in the history of the wallet.
#[derive(Clone, Copy, Debug, PartialEq, Eq)]
pub enum HistoryEntry {
    Received { outpoint: Outpoint, value: u64, block_height: u32 },
    Spent { outpoint: Outpoint, value: u64, spent_at: u32 },
}

/// A wallet of silent payment outputs.
pub struct SilentPaymentWallet {
    pub scan_height: u32,
    utxos: OutpointMap<OwnedUtxo>,
}

/// Why the bytes of a wallet could not be read.
#[derive(Clone, Copy, Debug, PartialEq, Eq, Structural)]
pub enum LoadError {
    /// The bytes end too early.
    UnexpectedEof,
    /// The bytes do not begin as a wallet's do.
    BadMagic,
}

impl LoadError {
    /// The kind of the error.
    pub fn kind(&self) -> (r: ErrorKind)
        ensures
            r == (match *self {
                LoadError::UnexpectedEof => ErrorKind::UnexpectedEof,
                LoadError::BadMagic => ErrorKind::InvalidData,
            }),
    {
        match self {
            LoadError::UnexpectedEof => ErrorKind::UnexpectedEof,
            LoadError::BadMagic => ErrorKind::InvalidData,
        }
    }

    /// The error in words.
    pub fn message(&self) -> (r: &'static str)
        ensures
            r@ == (match *self {
                LoadError::UnexpectedEof => "failed to fill whole buffer"@,
                LoadError::BadMagic => "bad magic"@,
            }),
    {
        match self {
            LoadError::UnexpectedEof => "failed to fill whole buffer",
            LoadError::BadMagic => "bad magic",
        }
    }
}

/// The outpoint of a found output, whose number is kept in thirty-two bits.
pub open spec fn found_outpoint(f: ([u8; 32], usize, u64)) -> Outpoint {
    Outpoint { txid: f.0, vout: (f.1 as int % 0x1_0000_0000) as u32 }
}

/// The entries of a wallet after outputs were found, in order.
pub open spec fn with_found(
    entries: Seq<(Outpoint, OwnedUtxo)>,
    found: Seq<([u8; 32], usize, u64)>,
    block_height: u32,
) -> Seq<(Outpoint, OwnedUtxo)>
    decreases found.len(),
{
    if found.len() == 0 {
        entries
    } else {
        with_entry(
            with_found(entries, found.drop_last(), block_height),
            found_outpoint(found.last()),
            OwnedUtxo { value: found.last().2, block_height, spent_by: None },
        )
    }
}

/// The entries of a wallet after an output was spent, if the wallet has it.
pub open spec fn with_spend(
    entries: Seq<(Outpoint, OwnedUtxo)>,
    outpoint: Outpoint,
    by: SpentBy,
) -> Seq<(Outpoint, OwnedUtxo)> {
    match position_in(entries, outpoint) {
        Some(i) => entries.update(i, (outpoint, OwnedUtxo { spent_by: Some(by), ..entries[i].1 })),
        None => entries,
    }
}

/// The entries of a wallet after a transaction's inputs, in order.
pub open spec fn with_inputs(
    entries: Seq<(Outpoint, OwnedUtxo)>,
    inputs: Seq<TxIn>,
    by: SpentBy,
) -> Seq<(Outpoint, OwnedUtxo)>
    decreases inputs.len(),
{
    if inputs.len() == 0 {
        entries
    } else {
        with_spend(
            with_inputs(entries, inputs.drop_last(), by),
            inputs.last().previous_output,
            by,
        )
    }
}

/// The entries of a wallet after transactions, in order.
pub open spec fn with_transactions(
    entries: Seq<(Outpoint, OwnedUtxo)>,
    txs: Seq<Transaction>,
    block_height: u32,
) -> Seq<(Outpoint, OwnedUtxo)>
    decreases txs.len(),
{
    if txs.len() == 0 {
        entries
    } else {
        with_inputs(
            with_transactions(entries, txs.drop_last(), block_height),
            txs.last().input@,
            SpentBy { txid: txid_of(txs.last()@), block_height },
        )
    }
}

/// The unspent outputs among the entries, in order.
pub open spec fn unspent(entries: Seq<(Outpoint, OwnedUtxo)>) -> Seq<(Outpoint, OwnedUtxo)>
    decreases entries.len(),
{
    if entries.len() == 0 {
        Seq::empty()
    } else {
        let before = unspent(entries.drop_last());
        if entries.last().1.spent_by is None {
            before.push(entries.last())
        } else {
            before
        }
    }
}

/// The sum of the values of outputs.
pub open spec fn total_value(entries: Seq<(Outpoint, OwnedUtxo)>) -> nat
    decreases entries.len(),
{
    if entries.len() == 0 {
        0
    } else {
        total_value(entries.drop_last()) + entries.last().1.value as nat
    }
}

/// The events of outputs, output by output.
pub open spec fn events(entries: Seq<(Outpoint, OwnedUtxo)>) -> Seq<HistoryEntry>
    decreases entries.len(),
{
    if entries.len() == 0 {
        Seq::empty()
    } else {
        let (outpoint, u) = entries.last();
        let received = events(entries.drop_last()).push(
            HistoryEntry::Received { outpoint, value: u.value, block_height: u.block_height },
        );
        match u.spent_by {
            Some(by) => received.push(
                HistoryEntry::Spent { outpoint, value: u.value, spent_at: by.block_height },
            ),
            None => received,
        }
    }
}

impl Ranked for HistoryEntry {
    /// Entries are ordered by height.
    open spec fn rank_of(&self) -> int {
        match *self {
            HistoryEntry::Received { block_height, .. } => block_height as int,
            HistoryEntry::Spent { spent_at, .. } => spent_at as int,
        }
    }

    fn rank(&self) -> (r: u64) {
        match self {
            HistoryEntry::Received { block_height, .. } => *block_height as u64,
            HistoryEntry::Spent { spent_at, .. } => *spent_at as u64,
        }
    }
}

proof fn lemma_with_spend(entries: Seq<(Outpoint, OwnedUtxo)>, outpoint: Outpoint, by: SpentBy)
    requires
        distinct_keys(entries),
    ensures
        with_spend(entries, outpoint, by).len() == entries.len(),
        distinct_keys(with_spend(entries, outpoint, by)),
        forall|i: int|
            0 <= i < entries.len() ==> (#[trigger] with_spend(entries, outpoint, by)[i]).0
                == entries[i].0 && with_spend(entries, outpoint, by)[i].1.value
                == entries[i].1.value,
{
    position_meaning(entries, outpoint);
}

/// A block's transactions keep every output that the wallet has, and its value.
pub proof fn transactions_keep_outputs(
    entries: Seq<(Outpoint, OwnedUtxo)>,
    txs: Seq<Transaction>,
    block_height: u32,
)
    requires
        distinct_keys(entries),
    ensures
        ({
            let after = with_transactions(entries, txs, block_height);
            &&& after.len() == entries.len()
            &&& distinct_keys(after)
            &&& forall|i: int|
                0 <= i < entries.len() ==> (#[trigger] after[i]).0 == entries[i].0
                    && after[i].1.value == entries[i].1.value
        }),
    decreases txs.len(),
{
    if txs.len() > 0 {
        transactions_keep_outputs(entries, txs.drop_last(), block_height);
        lemma_with_inputs(
            with_transactions(entries, txs.drop_last(), block_height),
            txs.last().input@,
            SpentBy { txid: txid_of(txs.last()@), block_height },
        );
    }
}

proof fn lemma_with_inputs(entries: Seq<(Outpoint, OwnedUtxo)>, inputs: Seq<TxIn>, by: SpentBy)
    requires
        distinct_keys(entries),
    ensures
        ({
            let after = with_inputs(entries, inputs, by);
            &&& after.len() == entries.len()
            &&& distinct_keys(after)
            &&& forall|i: int|
                0 <= i < entries.len() ==> (#[trigger] after[i]).0 == entries[i].0
                    && after[i].1.value == entries[i].1.value
        }),
    decreases inputs.len(),
{
    if inputs.len() > 0 {
        lemma_with_inputs(entries, inputs.drop_last(), by);
        lemma_with_spend(
            with_inputs(entries, inputs.drop_last(), by),
            inputs.last().previous_output,
            by,
        );
    }
}

proof fn lemma_spend_by_key(entries: Seq<(Outpoint, OwnedUtxo)>, outpoint: Outpoint, by: SpentBy)
    requires
        distinct_keys(entries),
    ensures
        distinct_keys(with_spend(entries, outpoint, by)),
        map_of(with_spend(entries, outpoint, by)) == (if map_of(entries).contains_key(outpoint) {
            map_of(entries).insert(
                outpoint,
                OwnedUtxo { spent_by: Some(by), ..map_of(entries)[outpoint] },
            )
        } else {
            map_of(entries)
        }),
{
    position_meaning(entries, outpoint);
    if let Some(i) = position_in(entries, outpoint) {
        with_entry_inserts(
            entries,
            outpoint,
            OwnedUtxo { spent_by: Some(by), ..entries[i].1 },
        );
    }
}

/// A transaction's inputs mark the outputs that they name, each of them, as spent by the
/// transaction. Every other output is as it was.
pub proof fn inputs_mark_what_they_name(
    entries: Seq<(Outpoint, OwnedUtxo)>,
    inputs: Seq<TxIn>,
    by: SpentBy,
    k: Outpoint,
)
    requires
        distinct_keys(entries),
    ensures
        ({
            let before = map_of(entries);
            let after = map_of(with_inputs(entries, inputs, by));
            let named = exists|j: int|
                0 <= j < inputs.len() && (#[trigger] inputs[j]).previous_output == k;
            &&& distinct_keys(with_inputs(entries, inputs, by))
            &&& after.contains_key(k) == before.contains_key(k)
            &&& before.contains_key(k) ==> {
                &&& after[k].value == before[k].value
                &&& after[k].block_height == before[k].block_height
                &&& after[k].spent_by == (if named {
                    Some(by)
                } else {
                    before[k].spent_by
                })
            }
        }),
    decreases inputs.len(),
{
    if inputs.len() > 0 {
        let fewer = inputs.drop_last();
        inputs_mark_what_they_name(entries, fewer, by, k);
        let mid = with_inputs(entries, fewer, by);
        lemma_spend_by_key(mid, inputs.last().previous_output, by);
        if inputs.last().previous_output == k {
            assert(inputs[inputs.len() - 1].previous_output == k);
        }
        assert forall|j: int| 0 <= j < fewer.len() implies inputs[j] == #[trigger] fewer[j] by {}
        if exists|j: int| 0 <= j < inputs.len() && (#[trigger] inputs[j]).previous_output == k {
            let j = choose|j: int|
                0 <= j < inputs.len() && (#[trigger] inputs[j]).previous_output == k;
            if j < fewer.len() {
                assert(fewer[j].previous_output == k);
            }
        }
        if exists|j: int| 0 <= j < fewer.len() && (#[trigger] fewer[j]).previous_output == k {
            let j = choose|j: int|
                0 <= j < fewer.len() && (#[trigger] fewer[j]).previous_output == k;
            assert(inputs[j].previous_output == k);
        }
    }
}

/// A block's transactions mark an output of the wallet that any of their inputs names as
/// spent, at the block's height, by the last transaction that has such an input. An output
/// that none of them names is as it was.
pub proof fn transactions_mark_what_they_name(
    entries: Seq<(Outpoint, OwnedUtxo)>,
    txs: Seq<Transaction>,
    block_height: u32,
    k: Outpoint,
)
    requires
        distinct_keys(entries),
    ensures
        ({
            let before = map_of(entries);
            let after = map_of(with_transactions(entries, txs, block_height));
            &&& distinct_keys(with_transactions(entries, txs, block_height))
            &&& after.contains_key(k) == before.contains_key(k)
            &&& before.contains_key(k) ==> {
                &&& after[k].value == before[k].value
                &&& after[k].block_height == before[k].block_height
            }
            &&& forall|t: int, j: int|
                before.contains_key(k) && 0 <= t < txs.len() && 0 <= j < txs[t].input@.len() && (
                #[trigger] txs[t].input@[j]).previous_output == k && (forall|u: int, l: int|
                    t < u < txs.len() && 0 <= l < txs[u].input@.len() ==> (
                    #[trigger] txs[u].input@[l]).previous_output != k) ==> after[k].spent_by
                    == Some(SpentBy { txid: txid_of(txs[t]@), block_height })
            &&& (forall|t: int, j: int|
                0 <= t < txs.len() && 0 <= j < txs[t].input@.len() ==> (
                #[trigger] txs[t].input@[j]).previous_output != k) && before.contains_key(k)
                ==> after[k] == before[k]
        }),
    decreases txs.len(),
{
    if txs.len() > 0 {
        let fewer = txs.drop_last();
        let n = txs.len() - 1;
        transactions_mark_what_they_name(entries, fewer, block_height, k);
        let before = map_of(entries);
        let mid = with_transactions(entries, fewer, block_height);
        let by = SpentBy { txid: txid_of(txs.last()@), block_height };
        let inputs = txs.last().input@;
        inputs_mark_what_they_name(mid, inputs, by, k);
        let after = map_of(with_transactions(entries, txs, block_height));
        assert forall|t: int, j: int|
            before.contains_key(k) && 0 <= t < txs.len() && 0 <= j < txs[t].input@.len() && (
            #[trigger] txs[t].input@[j]).previous_output == k && (forall|u: int, l: int|
                t < u < txs.len() && 0 <= l < txs[u].input@.len() ==> (
                #[trigger] txs[u].input@[l]).previous_output != k) implies after[k].spent_by == Some(
            SpentBy { txid: txid_of(txs[t]@), block_height },
        ) by {
            if t == n {
                assert(inputs[j].previous_output == k);
            } else {
                assert forall|l: int| 0 <= l < inputs.len() implies (
                #[trigger] inputs[l]).previous_output != k by {
                    assert(txs[n].input@[l].previous_output != k);
                }
                assert(fewer[t] == txs[t]);
                assert(fewer[t].input@[j].previous_output == k);
                assert forall|u: int, l: int|
                    t < u < fewer.len() && 0 <= l < fewer[u].input@.len() implies (
                #[trigger] fewer[u].input@[l]).previous_output != k by {
                    assert(txs[u].input@[l].previous_output != k);
                }
            }
        }
        if (forall|t: int, j: int|
            0 <= t < txs.len() && 0 <= j < txs[t].input@.len() ==> (
            #[trigger] txs[t].input@[j]).previous_output != k) && before.contains_key(k) {
            assert forall|t: int, j: int|
                0 <= t < fewer.len() && 0 <= j < fewer[t].input@.len() implies (
            #[trigger] fewer[t].input@[j]).previous_output != k by {
                assert(txs[t].input@[j].previous_output != k);
            }
            assert forall|l: int| 0 <= l < inputs.len() implies (
            #[trigger] inputs[l]).previous_output != k by {
                assert(txs[n].input@[l].previous_output != k);
            }
        }
    }
}

/// Any input of any of a block's transactions that names an output of the wallet leaves it
/// spent at the block's height, by a transaction of the block that has such an input.
pub proof fn named_outputs_are_spent(
    entries: Seq<(Outpoint, OwnedUtxo)>,
    txs: Seq<Transaction>,
    block_height: u32,
    k: Outpoint,
    t: int,
    j: int,
)
    requires
        distinct_keys(entries),
        map_of(entries).contains_key(k),
        0 <= t < txs.len(),
        0 <= j < txs[t].input@.len(),
        txs[t].input@[j].previous_output == k,
    ensures
        exists|u: int, l: int|
            0 <= u < txs.len() && 0 <= l < txs[u].input@.len() && (
            #[trigger] txs[u].input@[l]).previous_output == k && map_of(
                with_transactions(entries, txs, block_height),
            )[k].spent_by == Some(SpentBy { txid: txid_of(txs[u]@), block_height }),
    decreases txs.len() - t,
{
    if exists|u: int, l: int|
        t < u < txs.len() && 0 <= l < txs[u].input@.len() && (
        #[trigger] txs[u].input@[l]).previous_output == k {
        let (u, l) = choose|u: int, l: int|
            t < u < txs.len() && 0 <= l < txs[u].input@.len() && (
            #[trigger] txs[u].input@[l]).previous_output == k;
        named_outputs_are_spent(entries, txs, block_height, k, u, l);
    } else {
        transactions_mark_what_they_name(entries, txs, block_height, k);
    }
}

/// An output that was found stands in the wallet as it was found last: unspent, with its
/// value, at the block's height. Every other output is as it was.
pub proof fn found_outputs_are_recorded(
    entries: Seq<(Outpoint, OwnedUtxo)>,
    found: Seq<([u8; 32], usize, u64)>,
    block_height: u32,
    k: Outpoint,
)
    requires
        distinct_keys(entries),
    ensures
        ({
            let before = map_of(entries);
            let after = map_of(with_found(entries, found, block_height));
            &&& distinct_keys(with_found(entries, found, block_height))
            &&& forall|i: int|
                0 <= i < found.len() && (#[trigger] found[i]).0 == k.txid && found[i].1 as int
                    % 0x1_0000_0000 == k.vout && (forall|l: int|
                    i < l < found.len() ==> (#[trigger] found[l]).0 != k.txid || found[l].1 as int
                        % 0x1_0000_0000 != k.vout) ==> after.contains_key(k) && after[k].value
                    == found[i].2 && after[k].block_height == block_height && after[k].spent_by
                    is None
            &&& (forall|i: int|
                0 <= i < found.len() ==> (#[trigger] found[i]).0 != k.txid || found[i].1 as int
                    % 0x1_0000_0000 != k.vout) ==> after.contains_key(k) == before.contains_key(k)
                && (before.contains_key(k) ==> after[k] == before[k])
        }),
    decreases found.len(),
{
    if found.len() > 0 {
        let fewer = found.drop_last();
        let n = found.len() - 1;
        found_outputs_are_recorded(entries, fewer, block_height, k);
        let before = map_of(entries);
        let mid = with_found(entries, fewer, block_height);
        let o = found_outpoint(found.last());
        with_entry_inserts(
            mid,
            o,
            OwnedUtxo { value: found.last().2, block_height, spent_by: None },
        );
        let after = map_of(with_found(entries, found, block_height));
        let last_names = found[n].0 == k.txid && found[n].1 as int % 0x1_0000_0000 == k.vout;
        assert(last_names == (o == k));
        assert forall|i: int|
            0 <= i < found.len() && (#[trigger] found[i]).0 == k.txid && found[i].1 as int
                % 0x1_0000_0000 == k.vout && (forall|l: int|
                i < l < found.len() ==> (#[trigger] found[l]).0 != k.txid || found[l].1 as int
                    % 0x1_0000_0000 != k.vout) implies after.contains_key(k) && after[k].value
            == found[i].2 && after[k].block_height == block_height && after[k].spent_by is None by {
            if i < n {
                assert(!last_names);
                assert(fewer[i] == found[i]);
                assert forall|l: int| i < l < fewer.len() implies (#[trigger] fewer[l]).0 != k.txid
                    || fewer[l].1 as int % 0x1_0000_0000 != k.vout by {
                    assert(fewer[l] == found[l]);
                }
            }
        }
        if forall|i: int|
            0 <= i < found.len() ==> (#[trigger] found[i]).0 != k.txid || found[i].1 as int
                % 0x1_0000_0000 != k.vout {
            assert(!last_names);
            assert forall|i: int| 0 <= i < fewer.len() implies (#[trigger] fewer[i]).0 != k.txid
                || fewer[i].1 as int % 0x1_0000_0000 != k.vout by {
                assert(fewer[i] == found[i]);
            }
        }
    }
}

/// The unspent outputs are those of the wallet's outputs that nothing spent, in order.
pub proof fn unspent_outputs_are_not_spent(entries: Seq<(Outpoint, OwnedUtxo)>)
    ensures
        unspent(entries) == entries.filter(|e: (Outpoint, OwnedUtxo)| e.1.spent_by is None),
    decreases entries.len(),
{
    reveal(Seq::filter);
    if entries.len() > 0 {
        unspent_outputs_are_not_spent(entries.drop_last());
    }
}

/// The value of outputs grows by an output's value, and only by it, where the output comes
/// in, wherever it stands.
pub proof fn total_value_grows_by_each(
    head: Seq<(Outpoint, OwnedUtxo)>,
    e: (Outpoint, OwnedUtxo),
    tail: Seq<(Outpoint, OwnedUtxo)>,
)
    ensures
        total_value(Seq::<(Outpoint, OwnedUtxo)>::empty()) == 0,
        total_value(head + seq![e] + tail) == total_value(head + tail) + e.1.value,
    decreases tail.len(),
{
    let s = head + seq![e] + tail;
    if tail.len() == 0 {
        assert(s.drop_last() =~= head + tail);
    } else {
        total_value_grows_by_each(head, e, tail.drop_last());
        assert(s.drop_last() =~= head + seq![e] + tail.drop_last());
        assert((head + tail).drop_last() =~= head + tail.drop_last());
    }
}

/// The events of the wallet's outputs are, for each output, its receipt at the height at
/// which it came, with its value, and, where it was spent, its spending at the height of
/// what spent it, with the same value; and nothing else.
pub proof fn events_tell_of_each_output(entries: Seq<(Outpoint, OwnedUtxo)>, x: HistoryEntry)
    ensures
        events(entries).contains(x) <==> match x {
            HistoryEntry::Received { outpoint, value, block_height } => exists|i: int|
                0 <= i < entries.len() && (#[trigger] entries[i]).0 == outpoint
                    && entries[i].1.value == value && entries[i].1.block_height == block_height,
            HistoryEntry::Spent { outpoint, value, spent_at } => exists|i: int|
                0 <= i < entries.len() && (#[trigger] entries[i]).0 == outpoint
                    && entries[i].1.value == value && entries[i].1.spent_by is Some
                    && entries[i].1.spent_by.unwrap().block_height == spent_at,
        },
    decreases entries.len(),
{
    if entries.len() > 0 {
        let fewer = entries.drop_last();
        let n = entries.len() - 1;
        events_tell_of_each_output(fewer, x);
        let (outpoint, u) = entries[n];
        let before = events(fewer);
        let r = HistoryEntry::Received { outpoint, value: u.value, block_height: u.block_height };
        pushed_contains(before, r, x);
        if let Some(by) = u.spent_by {
            pushed_contains(
                before.push(r),
                HistoryEntry::Spent { outpoint, value: u.value, spent_at: by.block_height },
                x,
            );
        }
        assert forall|i: int| 0 <= i < fewer.len() implies entries[i] == #[trigger] fewer[i] by {}
        match x {
            HistoryEntry::Received { outpoint, value, block_height } => {
                if exists|i: int|
                    0 <= i < fewer.len() && (#[trigger] fewer[i]).0 == outpoint
                        && fewer[i].1.value == value && fewer[i].1.block_height == block_height {
                    let i = choose|i: int|
                        0 <= i < fewer.len() && (#[trigger] fewer[i]).0 == outpoint
                            && fewer[i].1.value == value && fewer[i].1.block_height
                            == block_height;
                    assert(entries[i] == fewer[i]);
                }
                if exists|i: int|
                    0 <= i < entries.len() && (#[trigger] entries[i]).0 == outpoint
                        && entries[i].1.value == value && entries[i].1.block_height
                        == block_height {
                    let i = choose|i: int|
                        0 <= i < entries.len() && (#[trigger] entries[i]).0 == outpoint
                            && entries[i].1.value == value && entries[i].1.block_height
                            == block_height;
                    if i < n {
                        assert(entries[i] == fewer[i]);
                    }
                }
            },
            HistoryEntry::Spent { outpoint, value, spent_at } => {
                if exists|i: int|
                    0 <= i < fewer.len() && (#[trigger] fewer[i]).0 == outpoint
                        && fewer[i].1.value == value && fewer[i].1.spent_by is Some
                        && fewer[i].1.spent_by.unwrap().block_height == spent_at {
                    let i = choose|i: int|
                        0 <= i < fewer.len() && (#[trigger] fewer[i]).0 == outpoint
                            && fewer[i].1.value == value && fewer[i].1.spent_by is Some
                            && fewer[i].1.spent_by.unwrap().block_height == spent_at;
                    assert(entries[i] == fewer[i]);
                }
                if exists|i: int|
                    0 <= i < entries.len() && (#[trigger] entries[i]).0 == outpoint
                        && entries[i].1.value == value && entries[i].1.spent_by is Some
                        && entries[i].1.spent_by.unwrap().block_height == spent_at {
                    let i = choose|i: int|
                        0 <= i < entries.len() && (#[trigger] entries[i]).0 == outpoint
                            && entries[i].1.value == value && entries[i].1.spent_by is Some
                            && entries[i].1.spent_by.unwrap().block_height == spent_at;
                    if i < n {
                        assert(entries[i] == fewer[i]);
                    }
                }
            },
        }
    }
}

/// What a list of events holds after one more was put at its end.
pub proof fn pushed_contains(s: Seq<HistoryEntry>, e: HistoryEntry, x: HistoryEntry)
    ensures
        s.push(e).contains(x) <==> s.contains(x) || x == e,
{
    if s.contains(x) {
        let i = choose|i: int| 0 <= i < s.len() && s[i] == x;
        assert(s.push(e)[i] == x);
    }
    if x == e {
        assert(s.push(e)[s.len() as int] == x);
    }
}

/// Where a found output is found last.
pub proof fn last_found(found: Seq<([u8; 32], usize, u64)>, k: Outpoint, i: int) -> (l: int)
    requires
        0 <= i < found.len(),
        found[i].0 == k.txid,
        found[i].1 as int % 0x1_0000_0000 == k.vout,
    ensures
        i <= l < found.len(),
        found[l].0 == k.txid,
        found[l].1 as int % 0x1_0000_0000 == k.vout,
        forall|m: int|
            l < m < found.len() ==> (#[trigger] found[m]).0 != k.txid || found[m].1 as int
                % 0x1_0000_0000 != k.vout,
    decreases found.len() - i,
{
    if exists|m: int|
        i < m < found.len() && (#[trigger] found[m]).0 == k.txid && found[m].1 as int
            % 0x1_0000_0000 == k.vout {
        let m = choose|m: int|
            i < m < found.len() && (#[trigger] found[m]).0 == k.txid && found[m].1 as int
                % 0x1_0000_0000 == k.vout;
        last_found(found, k, m)
    } else {
        i
    }
}

/// Whether no input of any of a block's transactions names an output, and it is not among
/// the outputs that were found.
pub open spec fn untouched(
    txs: Seq<Transaction>,
    found: Seq<([u8; 32], usize, u64)>,
    k: Outpoint,
) -> bool {
    &&& forall|t: int, j: int|
        0 <= t < txs.len() && 0 <= j < txs[t].input@.len() ==> (
        #[trigger] txs[t].input@[j]).previous_output != k
    &&& forall|i: int|
        0 <= i < found.len() ==> (#[trigger] found[i]).0 != k.txid || found[i].1 as int
            % 0x1_0000_0000 != k.vout
}

/// Taking in a block: an output that was found in it stands in the wallet with its value, at
/// the block's height; an output that any input of any of its transactions names is spent, at
/// the block's height, by a transaction of the block with such an input; and every other
/// output is as it was.
pub proof fn blocks_change_what_they_touch(
    entries: Seq<(Outpoint, OwnedUtxo)>,
    txs: Seq<Transaction>,
    found: Seq<([u8; 32], usize, u64)>,
    block_height: u32,
    k: Outpoint,
)
    requires
        distinct_keys(entries),
    ensures
        ({
            let before = map_of(entries);
            let after = map_of(
                with_transactions(with_found(entries, found, block_height), txs, block_height),
            );
            &&& forall|t: int, j: int|
                after.contains_key(k) && 0 <= t < txs.len() && 0 <= j < txs[t].input@.len() && (
                #[trigger] txs[t].input@[j]).previous_output == k ==> exists|u: int, l: int|
                    0 <= u < txs.len() && 0 <= l < txs[u].input@.len() && (
                    #[trigger] txs[u].input@[l]).previous_output == k && after[k].spent_by == Some(
                        SpentBy { txid: txid_of(txs[u]@), block_height },
                    )
            &&& after.contains_key(k) && untouched(txs, found, k) ==> before.contains_key(k)
                && after[k] == before[k]
            &&& before.contains_key(k) ==> after.contains_key(k)
            &&& after.contains_key(k) && !before.contains_key(k) ==> exists|i: int|
                0 <= i < found.len() && (#[trigger] found[i]).0 == k.txid && found[i].1 as int
                    % 0x1_0000_0000 == k.vout
            &&& forall|i: int|
                0 <= i < found.len() && (#[trigger] found[i]).0 == k.txid && found[i].1 as int
                    % 0x1_0000_0000 == k.vout && (forall|l: int|
                    i < l < found.len() ==> (#[trigger] found[l]).0 != k.txid || found[l].1 as int
                        % 0x1_0000_0000 != k.vout) ==> after.contains_key(k) && after[k].value
                    == found[i].2 && after[k].block_height == block_height
        }),
{
    let mid = with_found(entries, found, block_height);
    let after = map_of(with_transactions(mid, txs, block_height));
    found_outputs_are_recorded(entries, found, block_height, k);
    transactions_mark_what_they_name(mid, txs, block_height, k);
    assert forall|t: int, j: int|
        after.contains_key(k) && 0 <= t < txs.len() && 0 <= j < txs[t].input@.len() && (
        #[trigger] txs[t].input@[j]).previous_output == k implies exists|u: int, l: int|
        0 <= u < txs.len() && 0 <= l < txs[u].input@.len() && (
        #[trigger] txs[u].input@[l]).previous_output == k && after[k].spent_by == Some(
            SpentBy { txid: txid_of(txs[u]@), block_height },
        ) by {
        named_outputs_are_spent(mid, txs, block_height, k, t, j);
    }
    if map_of(entries).contains_key(k) {
        if exists|i: int|
            0 <= i < found.len() && (#[trigger] found[i]).0 == k.txid && found[i].1 as int
                % 0x1_0000_0000 == k.vout {
            let i = choose|i: int|
                0 <= i < found.len() && (#[trigger] found[i]).0 == k.txid && found[i].1 as int
                    % 0x1_0000_0000 == k.vout;
            let l = last_found(found, k, i);
            assert(map_of(mid).contains_key(k));
        }
    }
}

/// The height at which an event happened.
pub open spec fn height_of(e: HistoryEntry) -> u32 {
    match e {
        HistoryEntry::Received { block_height, .. } => block_height,
        HistoryEntry::Spent { spent_at, .. } => spent_at,
    }
}

/// The history of a wallet holds, for each output, its receipt and, where it was spent, its
/// spending, and nothing else, and its heights never fall.
pub proof fn history_tells_of_each_output(
    history: Seq<HistoryEntry>,
    entries: Seq<(Outpoint, OwnedUtxo)>,
    x: HistoryEntry,
)
    requires
        stably_sorted(history, events(entries)),
    ensures
        history.contains(x) <==> match x {
            HistoryEntry::Received { outpoint, value, block_height } => exists|i: int|
                0 <= i < entries.len() && (#[trigger] entries[i]).0 == outpoint
                    && entries[i].1.value == value && entries[i].1.block_height == block_height,
            HistoryEntry::Spent { outpoint, value, spent_at } => exists|i: int|
                0 <= i < entries.len() && (#[trigger] entries[i]).0 == outpoint
                    && entries[i].1.value == value && entries[i].1.spent_by is Some
                    && entries[i].1.spent_by.unwrap().block_height == spent_at,
        },
        forall|i: int, j: int|
            0 <= i <= j < history.len() ==> height_of(#[trigger] history[i]) <= height_of(
                #[trigger] history[j],
            ),
{
    stably_sorted_same_items(history, events(entries), x);
    events_tell_of_each_output(entries, x);
}

proof fn lemma_receipt_before_spending(entries: Seq<(Outpoint, OwnedUtxo)>, i: int) -> (a: int)
    requires
        0 <= i < entries.len(),
        entries[i].1.spent_by is Some,
    ensures
        0 <= a,
        a + 1 < events(entries).len(),
        events(entries)[a] == (HistoryEntry::Received {
            outpoint: entries[i].0,
            value: entries[i].1.value,
            block_height: entries[i].1.block_height,
        }),
        events(entries)[a + 1] == (HistoryEntry::Spent {
            outpoint: entries[i].0,
            value: entries[i].1.value,
            spent_at: entries[i].1.spent_by.unwrap().block_height,
        }),
    decreases entries.len(),
{
    let fewer = entries.drop_last();
    if i == entries.len() - 1 {
        events(fewer).len() as int
    } else {
        assert(fewer[i] == entries[i]);
        lemma_receipt_before_spending(fewer, i)
    }
}

/// In the history of a wallet an output's receipt comes before its spending, unless it was
/// spent at a lower height than it came at.
pub proof fn receipt_comes_before_spending(
    history: Seq<HistoryEntry>,
    entries: Seq<(Outpoint, OwnedUtxo)>,
    i: int,
)
    requires
        stably_sorted(history, events(entries)),
        0 <= i < entries.len(),
        entries[i].1.spent_by is Some,
        entries[i].1.block_height <= entries[i].1.spent_by.unwrap().block_height,
    ensures
        exists|a: int, b: int|
            0 <= a < b < history.len() && #[trigger] history[a] == (HistoryEntry::Received {
                outpoint: entries[i].0,
                value: entries[i].1.value,
                block_height: entries[i].1.block_height,
            }) && #[trigger] history[b] == (HistoryEntry::Spent {
                outpoint: entries[i].0,
                value: entries[i].1.value,
                spent_at: entries[i].1.spent_by.unwrap().block_height,
            }),
{
    let a = lemma_receipt_before_spending(entries, i);
    stably_sorted_keeps_order(history, events(entries), a, a + 1);
}

impl View for SilentPaymentWallet {
    type V = Map<Outpoint, OwnedUtxo>;

    open spec fn view(&self) -> Map<Outpoint, OwnedUtxo> {
        map_of(self.entries())
    }
}

impl SilentPaymentWallet {
    /// The outputs of the wallet by outpoint, in the order in which they came.
    pub closed spec fn entries(&self) -> Seq<(Outpoint, OwnedUtxo)> {
        self.utxos.order()
    }

    /// The height of the last block that was processed.
    pub closed spec fn height(&self) -> u32 {
        self.scan_height
    }

    /// Whether every output stands once.
    pub open spec fn wf(&self) -> bool {
        distinct_keys(self.entries())
    }

    /// The height of the last block that was processed.
    pub fn scan_height(&self) -> (r: u32)
        ensures
            r == self.height(),
    {
        self.scan_height
    }

    /// A wallet without outputs.
    pub fn new() -> (r: Self)
        ensures
            r.wf(),
            r.entries() == Seq::<(Outpoint, OwnedUtxo)>::empty(),
            r.height() == 0,
    {
        SilentPaymentWallet { scan_height: 0, utxos: OutpointMap::new() }
    }

    fn spend_inputs(&mut self, inputs: &[TxIn], by: SpentBy)
        requires
            old(self).wf(),
        ensures
            final(self).wf(),
            final(self).entries() == with_inputs(old(self).entries(), inputs@, by),
            final(self).height() == old(self).height(),
    {
        let ghost before = self.entries();
        let mut i: usize = 0;
        while i < inputs.len()
            invariant
                i <= inputs@.len(),
                self.wf(),
                self.entries() == with_inputs(before, inputs@.take(i as int), by),
                self.height() == old(self).height(),
            decreases inputs@.len() - i,
        {
            let outpoint = inputs[i].previous_output;
            proof {
                let done = inputs@.take(i + 1);
                assert(done.drop_last() =~= inputs@.take(i as int));
                lemma_with_spend(self.entries(), outpoint, by);
                position_meaning(self.entries(), outpoint);
            }
            if let Some(k) = self.utxos.position(&outpoint) {
                let mut utxo = self.utxos.at(k).1;
                utxo.spent_by = Some(by);
                self.utxos.insert(outpoint, utxo);
            }
            i = i + 1;
        }
        assert(inputs@.take(i as int) =~= inputs@);
    }

    /// Takes in a block: the outputs that were found in it, each given as its transaction's
    /// hash, its number and its value, then what its transactions spend.
    pub fn process_block(
        &mut self,
        block: &Block,
        block_height: u32,
        found: &[([u8; 32], usize, u64)],
    )
        requires
            old(self).wf(),
        ensures
            final(self).wf(),
            final(self).entries() == with_transactions(
                with_found(old(self).entries(), found@, block_height),
                block.txdata@,
                block_height,
            ),
            final(self).height() == block_height,
            forall|k: Outpoint, t: int, j: int|
                #![trigger final(self)@[k], block.txdata@[t].input@[j]]
                final(self)@.contains_key(k) && 0 <= t < block.txdata@.len() && 0 <= j
                    < block.txdata@[t].input@.len() && block.txdata@[t].input@[j].previous_output
                    == k ==> exists|u: int, l: int|
                    0 <= u < block.txdata@.len() && 0 <= l < block.txdata@[u].input@.len() && (
                    #[trigger] block.txdata@[u].input@[l]).previous_output == k
                        && final(self)@[k].spent_by == Some(
                        SpentBy { txid: txid_of(block.txdata@[u]@), block_height },
                    ),
            forall|k: Outpoint|
                #![trigger final(self)@[k]]
                final(self)@.contains_key(k) && untouched(block.txdata@, found@, k)
                    ==> old(self)@.contains_pair(k, final(self)@[k]),
            forall|k: Outpoint| #[trigger]
                old(self)@.contains_key(k) ==> final(self)@.contains_key(k),
            forall|k: Outpoint| #[trigger]
                final(self)@.contains_key(k) && !old(self)@.contains_key(k) ==> exists|i: int|
                    0 <= i < found@.len() && (#[trigger] found@[i]).0 == k.txid && found@[i].1
                        as int % 0x1_0000_0000 == k.vout,
            forall|k: Outpoint, i: int|
                #![trigger final(self)@[k], found@[i]]
                0 <= i < found@.len() && found@[i].0 == k.txid && found@[i].1 as int
                    % 0x1_0000_0000 == k.vout && (forall|l: int|
                    i < l < found@.len() ==> (#[trigger] found@[l]).0 != k.txid || found@[l].1
                        as int % 0x1_0000_0000 != k.vout) ==> final(self)@.contains_key(k)
                    && final(self)@[k].value == found@[i].2 && final(self)@[k].block_height
                    == block_height,
    {
        let ghost before = self.entries();
        let mut i: usize = 0;
        while i < found.len()
            invariant
                i <= found@.len(),
                self.wf(),
                self.entries() == with_found(before, found@.take(i as int), block_height),
            decreases found@.len() - i,
        {
            let f = found[i];
            let vout: u32 = (f.1 as u64 % 0x1_0000_0000) as u32;
            let outpoint = Outpoint { txid: f.0, vout };
            proof {
                let done = found@.take(i + 1);
                assert(done.drop_last() =~= found@.take(i as int));
                assert(done.last() == f);
            }
            self.utxos.insert(
                outpoint,
                OwnedUtxo { value: f.2, block_height, spent_by: None },
            );
            i = i + 1;
        }
        assert(found@.take(i as int) =~= found@);
        let ghost with_new = self.entries();
        let mut j: usize = 0;
        while j < block.txdata.len()
            invariant
                j <= block.txdata@.len(),
                self.wf(),
                self.entries() == with_transactions(
                    with_new,
                    block.txdata@.take(j as int),
                    block_height,
                ),
            decreases block.txdata@.len() - j,
        {
            let tx = &block.txdata[j];
            proof {
                let done = block.txdata@.take(j + 1);
                assert(done.drop_last() =~= block.txdata@.take(j as int));
                assert(done.last() == *tx);
            }
            let spending_txid = compute_txid(tx);
            self.spend_inputs(
                tx.input.as_slice(),
                SpentBy { txid: spending_txid, block_height },
            );
            j = j + 1;
        }
        assert(block.txdata@.take(j as int) =~= block.txdata@);
        self.scan_height = block_height;
        proof {
            let txs = block.txdata@;
            let was = old(self)@;
            let now = self@;
            assert forall|k: Outpoint, t: int, j: int|
                #![trigger now[k], txs[t].input@[j]]
                now.contains_key(k) && 0 <= t < txs.len() && 0 <= j < txs[t].input@.len()
                    && txs[t].input@[j].previous_output == k implies exists|u: int, l: int|
                0 <= u < txs.len() && 0 <= l < txs[u].input@.len() && (
                #[trigger] txs[u].input@[l]).previous_output == k && now[k].spent_by == Some(
                    SpentBy { txid: txid_of(txs[u]@), block_height },
                ) by {
                blocks_change_what_they_touch(before, txs, found@, block_height, k);
            }
            assert forall|k: Outpoint|
                #![trigger now[k]]
                now.contains_key(k) && untouched(txs, found@, k) implies was.contains_pair(
                k,
                now[k],
            ) by {
                blocks_change_what_they_touch(before, txs, found@, block_height, k);
            }
            assert forall|k: Outpoint| #[trigger] was.contains_key(k) implies now.contains_key(
                k,
            ) by {
                blocks_change_what_they_touch(before, txs, found@, block_height, k);
            }
            assert forall|k: Outpoint| #[trigger]
                now.contains_key(k) && !was.contains_key(k) implies exists|i: int|
                0 <= i < found@.len() && (#[trigger] found@[i]).0 == k.txid && found@[i].1 as int
                    % 0x1_0000_0000 == k.vout by {
                blocks_change_what_they_touch(before, txs, found@, block_height, k);
            }
            assert forall|k: Outpoint, i: int|
                #![trigger now[k], found@[i]]
                0 <= i < found@.len() && found@[i].0 == k.txid && found@[i].1 as int
                    % 0x1_0000_0000 == k.vout && (forall|l: int|
                    i < l < found@.len() ==> (#[trigger] found@[l]).0 != k.txid || found@[l].1
                        as int % 0x1_0000_0000 != k.vout) implies now.contains_key(k)
                && now[k].value == found@[i].2 && now[k].block_height == block_height by {
                blocks_change_what_they_touch(before, txs, found@, block_height, k);
            }
        }
    }

    /// The number of unspent outputs.
    pub fn utxo_count(&self) -> (r: usize)
        ensures
            r == unspent(self.entries()).len(),
    {
        let mut count: usize = 0;
        let mut i: usize = 0;
        while i < self.utxos.len()
            invariant
                i <= self.entries().len(),
                count <= i,
                self.entries() == self.utxos.order(),
                count == unspent(self.entries().take(i as int)).len(),
            decreases self.entries().len() - i,
        {
            proof {
                let done = self.entries().take(i + 1);
                assert(done.drop_last() =~= self.entries().take(i as int));
            }
            if self.utxos.at(i).1.spent_by.is_none() {
                count = count + 1;
            }
            i = i + 1;
        }
        assert(self.entries().take(i as int) =~= self.entries());
        count
    }

    /// The sum of the values of the unspent outputs.
    pub fn balance(&self) -> (r: u64)
        requires
            total_value(unspent(self.entries())) <= u64::MAX,
        ensures
            r == total_value(unspent(self.entries())),
    {
        let mut total: u64 = 0;
        let mut i: usize = 0;
        while i < self.utxos.len()
            invariant
                i <= self.entries().len(),
                self.entries() == self.utxos.order(),
                total == total_value(unspent(self.entries().take(i as int))),
                total_value(unspent(self.entries())) <= u64::MAX,
            decreases self.entries().len() - i,
        {
            let utxo = self.utxos.at(i).1;
            proof {
                let done = self.entries().take(i + 1);
                assert(done.drop_last() =~= self.entries().take(i as int));
                let before = unspent(done.drop_last());
                assert(before.push(done.last()).drop_last() =~= before);
                lemma_total_grows(self.entries(), i + 1);
            }
            if utxo.spent_by.is_none() {
                total = total + utxo.value;
            }
            i = i + 1;
        }
        assert(self.entries().take(i as int) =~= self.entries());
        total
    }

    /// The history of the wallet by height.
    pub fn history(&self) -> (r: Vec<HistoryEntry>)
        ensures
            stably_sorted(r@, events(self.entries())),
            forall|i: int, j: int|
                0 <= i <= j < r@.len() ==> height_of(#[trigger] r@[i]) <= height_of(
                    #[trigger] r@[j],
                ),
            forall|i: int|
                0 <= i < self.entries().len() ==> r@.contains(
                    HistoryEntry::Received {
                        outpoint: (#[trigger] self.entries()[i]).0,
                        value: self.entries()[i].1.value,
                        block_height: self.entries()[i].1.block_height,
                    },
                ) && (self.entries()[i].1.spent_by matches Some(by) ==> r@.contains(
                    HistoryEntry::Spent {
                        outpoint: self.entries()[i].0,
                        value: self.entries()[i].1.value,
                        spent_at: by.block_height,
                    },
                )),
    {
        let mut entries: Vec<HistoryEntry> = Vec::new();
        let mut i: usize = 0;
        while i < self.utxos.len()
            invariant
                i <= self.entries().len(),
                self.entries() == self.utxos.order(),
                entries@ == events(self.entries().take(i as int)),
            decreases self.entries().len() - i,
        {
            let (outpoint, utxo) = *self.utxos.at(i);
            entries.push(
                HistoryEntry::Received {
                    outpoint,
                    value: utxo.value,
                    block_height: utxo.block_height,
                },
            );
            if let Some(s) = &utxo.spent_by {
                entries.push(
                    HistoryEntry::Spent { outpoint, value: utxo.value, spent_at: s.block_height },
                );
            }
            i = i + 1;
            proof {
                let done = self.entries().take(i as int);
                assert(done.drop_last() =~= self.entries().take(i - 1));
            }
        }
        assert(self.entries().take(i as int) =~= self.entries());
        let r = stable_sort(entries);
        proof {
            let all = self.entries();
            assert forall|i: int| 0 <= i < all.len() implies r@.contains(
                HistoryEntry::Received {
                    outpoint: (#[trigger] all[i]).0,
                    value: all[i].1.value,
                    block_height: all[i].1.block_height,
                },
            ) && (all[i].1.spent_by matches Some(by) ==> r@.contains(
                HistoryEntry::Spent {
                    outpoint: all[i].0,
                    value: all[i].1.value,
                    spent_at: by.block_height,
                },
            )) by {
                let (outpoint, u) = all[i];
                history_tells_of_each_output(
                    r@,
                    all,
                    HistoryEntry::Received {
                        outpoint,
                        value: u.value,
                        block_height: u.block_height,
                    },
                );
                if let Some(by) = u.spent_by {
                    history_tells_of_each_output(
                        r@,
                        all,
                        HistoryEntry::Spent { outpoint, value: u.value, spent_at: by.block_height },
                    );
                }
            }
        }
        r
    }
}

proof fn lemma_total_grows(entries: Seq<(Outpoint, OwnedUtxo)>, n: int)
    requires
        0 <= n <= entries.len(),
    ensures
        total_value(unspent(entries.take(n))) <= total_value(unspent(entries)),
    decreases entries.len() - n,
{
    if n < entries.len() {
        lemma_total_grows(entries, n + 1);
        let more = entries.take(n + 1);
        assert(more.drop_last() =~= entries.take(n));
        let before = unspent(more.drop_last());
        assert(before.push(more.last()).drop_last() =~= before);
    } else {
        assert(entries.take(n) =~= entries);
    }
}

impl Default for SilentPaymentWallet {
    fn default() -> (r: Self)
        ensures
            r.wf(),
            r.entries() == Seq::<(Outpoint, OwnedUtxo)>::empty(),
            r.height() == 0,
    {
        SilentPaymentWallet::new()
    }
}

/// The bytes with which a saved wallet begins.
pub open spec fn wallet_magic() -> Seq<u8> {
    seq![0x53u8, 0x50u8, 0x30u8, 0x32u8]
}

/// An output as it is saved.
#[verifier::opaque]
pub open spec fn entry_bytes(e: (Outpoint, OwnedUtxo)) -> Seq<u8> {
    e.0.txid@ + le32(e.0.vout) + le64(e.1.value) + le32(e.1.block_height) + (match e.1.spent_by {
        Some(by) => seq![1u8] + by.txid@ + le32(by.block_height),
        None => seq![0u8],
    })
}

/// Outputs as they are saved, one after another.
pub open spec fn entries_bytes(entries: Seq<(Outpoint, OwnedUtxo)>) -> Seq<u8>
    decreases entries.len(),
{
    if entries.len() == 0 {
        Seq::empty()
    } else {
        entry_bytes(entries[0]) + entries_bytes(entries.skip(1))
    }
}

/// A wallet as it is saved. The number of outputs is kept in thirty-two bits.
pub open spec fn wallet_bytes(entries: Seq<(Outpoint, OwnedUtxo)>, height: u32) -> Seq<u8> {
    wallet_magic() + le32(height) + le32((entries.len() % 0x1_0000_0000) as u32) + entries_bytes(
        entries,
    )
}

/// The output at the beginning of `s` and the number of bytes that it takes, unless `s`
/// ends too early.
#[verifier::opaque]
pub open spec fn parsed_entry(s: Seq<u8>) -> Option<((Outpoint, OwnedUtxo), int)> {
    if s.len() < 49 || s[48] == 1 && s.len() < 85 {
        None
    } else {
        let spent_by = if s[48] == 1 {
            Some(
                SpentBy {
                    txid: array_of(s.subrange(49, 81)),
                    block_height: le32_value(s.subrange(81, 85)),
                },
            )
        } else {
            None
        };
        Some(
            (
                (
                    Outpoint {
                        txid: array_of(s.subrange(0, 32)),
                        vout: le32_value(s.subrange(32, 36)),
                    },
                    OwnedUtxo {
                        value: le64_value(s.subrange(36, 44)),
                        block_height: le32_value(s.subrange(44, 48)),
                        spent_by,
                    },
                ),
                if s[48] == 1 {
                    85int
                } else {
                    49int
                },
            ),
        )
    }
}

/// The entries after `n` more outputs were read from `s`, unless it ends too early.
pub open spec fn parsed_entries(
    s: Seq<u8>,
    n: nat,
    before: Seq<(Outpoint, OwnedUtxo)>,
) -> Option<Seq<(Outpoint, OwnedUtxo)>>
    decreases n,
{
    if n == 0 {
        Some(before)
    } else {
        match parsed_entry(s) {
            Some((e, len)) => parsed_entries(
                s.skip(len),
                (n - 1) as nat,
                with_entry(before, e.0, e.1),
            ),
            None => None,
        }
    }
}

/// What the bytes of a saved wallet say: its entries and its height. Bytes behind the
/// last output are not read.
pub open spec fn parsed_wallet(s: Seq<u8>) -> Result<(Seq<(Outpoint, OwnedUtxo)>, u32), LoadError> {
    if s.len() < 4 {
        Err(LoadError::UnexpectedEof)
    } else if s.take(4) != wallet_magic() {
        Err(LoadError::BadMagic)
    } else if s.len() < 12 {
        Err(LoadError::UnexpectedEof)
    } else {
        let n = le32_value(s.subrange(8, 12)) as nat;
        match parsed_entries(s.skip(12), n, Seq::empty()) {
            Some(entries) => Ok((entries, le32_value(s.subrange(4, 8)))),
            None => Err(LoadError::UnexpectedEof),
        }
    }
}

proof fn lemma_entry_round_trip(e: (Outpoint, OwnedUtxo), tail: Seq<u8>)
    ensures
        parsed_entry(entry_bytes(e) + tail) == Some((e, entry_bytes(e).len() as int)),
{
    broadcast use {crate::bytes::le32_round_trip, crate::bytes::le64_round_trip};

    reveal(entry_bytes);
    reveal(parsed_entry);
    let s = entry_bytes(e) + tail;
    assert(s.subrange(0, 32) =~= e.0.txid@);
    assert(s.subrange(32, 36) =~= le32(e.0.vout));
    assert(s.subrange(36, 44) =~= le64(e.1.value));
    assert(s.subrange(44, 48) =~= le32(e.1.block_height));
    array_of_view(e.0.txid);
    if let Some(by) = e.1.spent_by {
        assert(s.subrange(49, 81) =~= by.txid@);
        assert(s.subrange(81, 85) =~= le32(by.block_height));
        array_of_view(by.txid);
    }
}

proof fn lemma_entries_round_trip(
    before: Seq<(Outpoint, OwnedUtxo)>,
    rest: Seq<(Outpoint, OwnedUtxo)>,
    tail: Seq<u8>,
)
    requires
        distinct_keys(before + rest),
    ensures
        parsed_entries(entries_bytes(rest) + tail, rest.len(), before) == Some(before + rest),
    decreases rest.len(),
{
    if rest.len() == 0 {
        assert(before + rest =~= before);
    } else {
        let e = rest[0];
        let len = entry_bytes(e).len() as int;
        let more = entries_bytes(rest.skip(1)) + tail;
        let s = entries_bytes(rest) + tail;
        assert(s =~= entry_bytes(e) + more);
        lemma_entry_round_trip(e, more);
        assert(s.skip(len) =~= more);
        assert(with_entry(before, e.0, e.1) == before.push(e)) by {
            position_meaning(before, e.0);
            if let Some(i) = position_in(before, e.0) {
                assert((before + rest)[i].0 == (before + rest)[before.len() as int].0);
            }
        }
        assert(before.push(e) + rest.skip(1) =~= before + rest);
        lemma_entries_round_trip(before.push(e), rest.skip(1), tail);
    }
}

/// A saved wallet, with anything behind it, is read back as it was, unless it has more
/// outputs than thirty-two bits can count.
#[verifier::spinoff_prover]
pub proof fn wallet_round_trip(
    entries: Seq<(Outpoint, OwnedUtxo)>,
    height: u32,
    tail: Seq<u8>,
)
    requires
        distinct_keys(entries),
        entries.len() <= u32::MAX,
    ensures
        parsed_wallet(wallet_bytes(entries, height) + tail) == Ok::<_, LoadError>(
            (entries, height),
        ),
{
    let n = (entries.len() % 0x1_0000_0000) as u32;
    let s = wallet_bytes(entries, height) + tail;
    le32_round_trip(height);
    le32_round_trip(n);
    assert(s.take(4) =~= wallet_magic());
    assert(s.subrange(4, 8) =~= le32(height));
    assert(s.subrange(8, 12) =~= le32(n));
    assert(s.skip(12) =~= entries_bytes(entries) + tail);
    assert(Seq::<(Outpoint, OwnedUtxo)>::empty() + entries =~= entries);
    lemma_entries_round_trip(Seq::empty(), entries, tail);
}

proof fn lemma_entry_prefix(e: (Outpoint, OwnedUtxo), n: int)
    requires
        0 <= n < entry_bytes(e).len(),
    ensures
        parsed_entry(entry_bytes(e).take(n)) is None,
{
    broadcast use {crate::bytes::le32_round_trip, crate::bytes::le64_round_trip};

    reveal(entry_bytes);
    reveal(parsed_entry);
    if n >= 49 {
        assert(entry_bytes(e)[48] == 1);
    }
}

proof fn lemma_entries_prefix(
    before: Seq<(Outpoint, OwnedUtxo)>,
    rest: Seq<(Outpoint, OwnedUtxo)>,
    n: int,
)
    requires
        0 <= n < entries_bytes(rest).len(),
    ensures
        parsed_entries(entries_bytes(rest).take(n), rest.len(), before) is None,
    decreases rest.len(),
{
    if rest.len() > 0 {
        let e = rest[0];
        let first = entry_bytes(e);
        let s = entries_bytes(rest).take(n);
        if n < first.len() {
            assert(s =~= first.take(n));
            lemma_entry_prefix(e, n);
        } else {
            let tail = entries_bytes(rest.skip(1)).take(n - first.len());
            assert(s =~= first + tail);
            lemma_entry_round_trip(e, tail);
            assert(s.skip(first.len() as int) =~= tail);
            lemma_entries_prefix(with_entry(before, e.0, e.1), rest.skip(1), n - first.len());
        }
    }
}

/// No proper prefix of a saved wallet is read as a wallet: it ends too early.
pub proof fn wallet_prefixes_are_refused(
    entries: Seq<(Outpoint, OwnedUtxo)>,
    height: u32,
    n: int,
)
    requires
        entries.len() <= u32::MAX,
        0 <= n < wallet_bytes(entries, height).len(),
    ensures
        parsed_wallet(wallet_bytes(entries, height).take(n)) == Err::<
            (Seq<(Outpoint, OwnedUtxo)>, u32),
            _,
        >(LoadError::UnexpectedEof),
{
    let t = wallet_bytes(entries, height).take(n);
    let count = (entries.len() % 0x1_0000_0000) as u32;
    le32_round_trip(height);
    le32_round_trip(count);
    if n >= 4 {
        assert(t.take(4) =~= wallet_magic());
    }
    if n >= 12 {
        assert(t.subrange(8, 12) =~= le32(count));
        assert(t.skip(12) =~= entries_bytes(entries).take(n - 12));
        lemma_entries_prefix(Seq::empty(), entries, n - 12);
    }
}

/// Where the parts of a saved output stand, and what their bytes spell; numbers have their
/// least significant byte first.
pub proof fn saved_outputs_have_their_layout(e: (Outpoint, OwnedUtxo))
    ensures
        ({
            let s = entry_bytes(e);
            &&& s.len() == if e.1.spent_by is Some { 85int } else { 49int }
            &&& s.subrange(0, 32) == e.0.txid@
            &&& be_value(s.subrange(32, 36).reverse()) == e.0.vout
            &&& be_value(s.subrange(36, 44).reverse()) == e.1.value
            &&& be_value(s.subrange(44, 48).reverse()) == e.1.block_height
            &&& s[48] == if e.1.spent_by is Some { 1int } else { 0int }
            &&& e.1.spent_by matches Some(by) ==> s.subrange(49, 81) == by.txid@ && be_value(
                s.subrange(81, 85).reverse(),
            ) == by.block_height
        }),
{
    reveal(entry_bytes);
    let s = entry_bytes(e);
    le32_spells(e.0.vout);
    le64_spells(e.1.value);
    le32_spells(e.1.block_height);
    assert(s.subrange(0, 32) =~= e.0.txid@);
    assert(s.subrange(32, 36) =~= le32(e.0.vout));
    assert(s.subrange(36, 44) =~= le64(e.1.value));
    assert(s.subrange(44, 48) =~= le32(e.1.block_height));
    if let Some(by) = e.1.spent_by {
        le32_spells(by.block_height);
        assert(s.subrange(49, 81) =~= by.txid@);
        assert(s.subrange(81, 85) =~= le32(by.block_height));
    }
}

/// A saved wallet begins with the letters SP02, its height and the number of its outputs,
/// and goes on with the outputs, one behind another.
pub proof fn saved_wallets_have_their_layout(
    entries: Seq<(Outpoint, OwnedUtxo)>,
    height: u32,
    e: (Outpoint, OwnedUtxo),
)
    requires
        entries.len() < 0xffff_ffff,
    ensures
        ({
            let s = wallet_bytes(entries, height);
            let t = wallet_bytes(entries.push(e), height);
            &&& s.len() >= 12
            &&& s[0] == 'S' as u8 && s[1] == 'P' as u8 && s[2] == '0' as u8 && s[3] == '2' as u8
            &&& be_value(s.subrange(4, 8).reverse()) == height
            &&& be_value(s.subrange(8, 12).reverse()) == entries.len()
            &&& entries.len() == 0 ==> s.len() == 12
            &&& t.skip(12) == s.skip(12) + entry_bytes(e)
        }),
{
    let s = wallet_bytes(entries, height);
    let t = wallet_bytes(entries.push(e), height);
    le32_spells(height);
    le32_spells(entries.len() as u32);
    le32_spells((entries.len() + 1) as u32);
    assert(s.subrange(4, 8) =~= le32(height));
    assert(s.subrange(8, 12) =~= le32(entries.len() as u32));
    assert(s.skip(12) =~= entries_bytes(entries));
    assert(t.skip(12) =~= entries_bytes(entries.push(e)));
    lemma_entries_bytes_push(entries, e);
}

proof fn lemma_entries_bytes_push(entries: Seq<(Outpoint, OwnedUtxo)>, e: (Outpoint, OwnedUtxo))
    ensures
        entries_bytes(entries.push(e)) == entries_bytes(entries) + entry_bytes(e),
    decreases entries.len(),
{
    reveal_with_fuel(entries_bytes, 2);
    let all = entries.push(e);
    if entries.len() == 0 {
        assert(entries_bytes(all) =~= entries_bytes(entries) + entry_bytes(e));
    } else {
        lemma_entries_bytes_push(entries.skip(1), e);
        assert(all.skip(1) =~= entries.skip(1).push(e));
        assert(entries_bytes(all) =~= entries_bytes(entries) + entry_bytes(e));
    }
}

/// No flag but one is read as set.
pub proof fn one_is_the_set_flag(s: Seq<u8>)
    ensures
        parsed_entry(s) matches Some((e, len)) ==> {
            &&& (e.1.spent_by is Some) == (s[48] == 1)
            &&& len == if s[48] == 1 { 85int } else { 49int }
            &&& len <= s.len()
        },
{
    reveal(parsed_entry);
}

fn put_entry(out: &mut Vec<u8>, outpoint: &Outpoint, utxo: &OwnedUtxo)
    ensures
        final(out)@ == old(out)@ + entry_bytes((*outpoint, *utxo)),
{
    let ghost before = out@;
    put_bytes(out, &outpoint.txid);
    put_le32(out, outpoint.vout);
    put_le64(out, utxo.value);
    put_le32(out, utxo.block_height);
    match &utxo.spent_by {
        None => out.push(0),
        Some(s) => {
            out.push(1);
            put_bytes(out, &s.txid);
            put_le32(out, s.block_height);
        },
    }
    proof {
        reveal(entry_bytes);
        assert(out@ =~= before + entry_bytes((*outpoint, *utxo)));
    }
}

fn get_entry(s: &[u8], at: usize) -> (r: Option<(Outpoint, OwnedUtxo, usize)>)
    requires
        at <= s@.len(),
    ensures
        match r {
            Some((outpoint, utxo, next)) => at <= next <= s@.len() && parsed_entry(
                s@.skip(at as int),
            ) == Some(((outpoint, utxo), next - at)),
            None => parsed_entry(s@.skip(at as int)) is None,
        },
{
    let len: usize = s.len();
    let ghost t = s@.skip(at as int);
    proof {
        reveal(parsed_entry);
    }
    if len - at < 49 {
        return None;
    }
    let flag: u8 = s[at + 48];
    if flag == 1 && len - at < 85 {
        return None;
    }
    let txid: [u8; 32] = get_array(s, at);
    let outpoint = Outpoint { txid, vout: get_le32(s, at + 32) };
    let spent_by = if flag == 1 {
        let by_txid: [u8; 32] = get_array(s, at + 49);
        proof {
            array_of_view(by_txid);
            assert(by_txid@ =~= t.subrange(49, 81));
            assert(s@.subrange(at + 81, at + 85) =~= t.subrange(81, 85));
        }
        Some(SpentBy { txid: by_txid, block_height: get_le32(s, at + 81) })
    } else {
        None
    };
    let utxo = OwnedUtxo {
        value: get_le64(s, at + 36),
        block_height: get_le32(s, at + 44),
        spent_by,
    };
    proof {
        array_of_view(txid);
        assert(txid@ =~= t.subrange(0, 32));
        assert(s@.subrange(at + 32, at + 36) =~= t.subrange(32, 36));
        assert(s@.subrange(at + 36, at + 44) =~= t.subrange(36, 44));
        assert(s@.subrange(at + 44, at + 48) =~= t.subrange(44, 48));
    }
    Some((outpoint, utxo, if flag == 1 {
        at + 85
    } else {
        at + 49
    }))
}

impl SilentPaymentWallet {
    /// The wallet as bytes.
    pub fn save(&self) -> (r: Vec<u8>)
        ensures
            r@ == wallet_bytes(self.entries(), self.height()),
    {
        let mut out: Vec<u8> = Vec::new();
        let magic: [u8; 4] = [0x53, 0x50, 0x30, 0x32];
        put_bytes(&mut out, &magic);
        put_le32(&mut out, self.scan_height);
        let count: usize = self.utxos.len();
        put_le32(&mut out, (count as u64 % 0x1_0000_0000) as u32);
        assert(magic@ =~= wallet_magic());
        let mut i: usize = 0;
        assert(self.entries().skip(0) =~= self.entries());
        assert(out@ + entries_bytes(self.entries()) =~= wallet_bytes(
            self.entries(),
            self.height(),
        ));
        while i < self.utxos.len()
            invariant
                i <= self.entries().len(),
                self.entries() == self.utxos.order(),
                out@ + entries_bytes(self.entries().skip(i as int)) == wallet_bytes(
                    self.entries(),
                    self.height(),
                ),
            decreases self.entries().len() - i,
        {
            let ghost before = out@;
            let e = self.utxos.at(i);
            put_entry(&mut out, &e.0, &e.1);
            i = i + 1;
            proof {
                let rest = self.entries().skip(i - 1);
                assert(rest.skip(1) =~= self.entries().skip(i as int));
                assert(rest[0] == *e);
                assert(out@ + entries_bytes(rest.skip(1)) =~= before + entries_bytes(rest));
            }
        }
        assert(entries_bytes(self.entries().skip(i as int)) =~= Seq::<u8>::empty());
        assert(out@ =~= wallet_bytes(self.entries(), self.height()));
        out
    }

    /// Reads a wallet back from bytes.
    pub fn load(s: &[u8]) -> (r: Result<Self, LoadError>)
        ensures
            match r {
                Ok(w) => w.wf() && parsed_wallet(s@) == Ok::<_, LoadError>(
                    (w.entries(), w.height()),
                ),
                Err(e) => parsed_wallet(s@) == Err::<(Seq<(Outpoint, OwnedUtxo)>, u32), _>(e),
            },
    {
        if s.len() < 4 {
            return Err(LoadError::UnexpectedEof);
        }
        let magic: [u8; 4] = get_array(s, 0);
        let expected: [u8; 4] = [0x53, 0x50, 0x30, 0x32];
        assert(expected@ =~= wallet_magic());
        assert(magic@ =~= s@.take(4));
        if !bytes_equal(&magic, &expected) {
            return Err(LoadError::BadMagic);
        }
        if s.len() < 12 {
            return Err(LoadError::UnexpectedEof);
        }
        let scan_height: u32 = get_le32(s, 4);
        let count: u32 = get_le32(s, 8);
        let mut utxos: OutpointMap<OwnedUtxo> = OutpointMap::new();
        let mut at: usize = 12;
        let mut left: u32 = count;
        while left > 0
            invariant
                at <= s@.len(),
                utxos.wf(),
                parsed_entries(s@.skip(12), count as nat, Seq::empty()) == parsed_entries(
                    s@.skip(at as int),
                    left as nat,
                    utxos.order(),
                ),
                parsed_wallet(s@) == (match parsed_entries(
                    s@.skip(12),
                    count as nat,
                    Seq::empty(),
                ) {
                    Some(entries) => Ok((entries, scan_height)),
                    None => Err(LoadError::UnexpectedEof),
                }),
            decreases left,
        {
            match get_entry(s, at) {
                Some((outpoint, utxo, next)) => {
                    assert(s@.skip(at as int).skip(next - at) =~= s@.skip(next as int));
                    utxos.insert(outpoint, utxo);
                    at = next;
                },
                None => {
                    return Err(LoadError::UnexpectedEof);
                },
            }
            left = left - 1;
        }
        Ok(SilentPaymentWallet { scan_height, utxos })
    }
}

/// What an entry adds to the balance.
pub open spec fn change_of() -> spec_fn(HistoryEntry) -> int {
    |e: HistoryEntry|
        match e {
            HistoryEntry::Received { value, .. } => value as int,
            HistoryEntry::Spent { value, .. } => -(value as int),
        }
}

proof fn lemma_events_add_up(entries: Seq<(Outpoint, OwnedUtxo)>)
    ensures
        total_by(events(entries), change_of()) == total_value(unspent(entries)),
    decreases entries.len(),
{
    if entries.len() > 0 {
        let fewer = entries.drop_last();
        lemma_events_add_up(fewer);
        let (outpoint, u) = entries.last();
        let before = events(fewer);
        let received = before.push(
            HistoryEntry::Received { outpoint, value: u.value, block_height: u.block_height },
        );
        assert(received.drop_last() =~= before);
        assert(total_by(received, change_of()) == total_by(before, change_of()) + u.value);
        if let Some(by) = u.spent_by {
            let spent = received.push(
                HistoryEntry::Spent { outpoint, value: u.value, spent_at: by.block_height },
            );
            assert(spent.drop_last() =~= received);
            assert(total_by(spent, change_of()) == total_by(received, change_of()) - u.value);
        }
        let kept = unspent(fewer);
        assert(kept.push(entries.last()).drop_last() =~= kept);
    }
}

/// The history of a wallet adds up to its balance.
pub proof fn history_adds_up(history: Seq<HistoryEntry>, entries: Seq<(Outpoint, OwnedUtxo)>)
    requires
        stably_sorted(history, events(entries)),
    ensures
        total_by(history, change_of()) == total_value(unspent(entries)),
{
    lemma_events_add_up(entries);
    stably_sorted_same_counts(history, events(entries));
    same_counts_same_total(history, events(entries), change_of());
}

} // verus!
