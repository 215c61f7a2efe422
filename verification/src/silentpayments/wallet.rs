//! A wallet that follows silent payment outputs through blocks.

use vstd::prelude::*;
use crate::bytes::{
    array_of, array_of_view, be_value, bytes_equal, get_array, get_le32, get_le64, le32,
    le32_spells, le32_value, le64, le64_spells, le64_value, put_bytes, put_le32, put_le64,
    signed, signedness_keeps_bits, to_signed, to_unsigned, unsigned,
};
use crate::outpoints::{
    distinct_keys, map_of, position_in, position_meaning, with_entry, with_entry_inserts,
    Outpoint, OutpointMap,
};
use crate::secp::{is_x_coordinate, x_only_of, x_only_of_view, XOnlyPublicKey};
use crate::silentpayments::scanning::FoundPayment;
use crate::sorting::{
    same_counts_same_total, stable_sort, stably_sorted, stably_sorted_same_counts,
    stably_sorted_same_items, total_by, Ranked,
};

verus! {

/// The transaction that spent an output, and the height of its block.
#[derive(Clone, Copy, Debug, PartialEq, Eq)]
pub struct SpentBy {
    pub txid: [u8; 32],
    pub block_height: u32,
}

/// An output that the wallet received.
#[derive(Clone, Copy, Debug, PartialEq, Eq)]
pub struct OwnedUtxo {
    pub outpoint: Outpoint,
    pub x_only_pubkey: XOnlyPublicKey,
    pub k: u32,
    pub amount: i64,
    pub block_height: u32,
    pub spent: bool,
    pub spent_by: Option<SpentBy>,
}

/// In-memory wallet tracking silent payment UTXOs.
pub struct SilentPaymentWallet {
    utxos: OutpointMap<OwnedUtxo>,
    pub scan_height: u32,
}

/// Why the bytes of a wallet could not be read.
#[derive(Clone, Copy, Debug, PartialEq, Eq, Structural)]
pub enum LoadError {
    /// The bytes end too early.
    UnexpectedEof,
    /// The bytes do not begin as a wallet's do.
    BadMagic,
    /// An output's key is not a point's x coordinate.
    BadKey,
}

/// The kinds of errors that reading a wallet can meet.
#[derive(Clone, Copy, Debug, PartialEq, Eq, Structural)]
pub enum ErrorKind {
    UnexpectedEof,
    InvalidData,
}

/// The text of a load error.
pub open spec fn load_error_text(e: LoadError) -> Seq<char> {
    match e {
        LoadError::UnexpectedEof => "failed to fill whole buffer"@,
        LoadError::BadMagic => "not a silent payment wallet file (bad magic)"@,
        LoadError::BadKey => "bad x-only key: malformed public key"@,
    }
}

impl LoadError {
    /// The kind of the error.
    pub fn kind(&self) -> (r: ErrorKind)
        ensures
            r == (match *self {
                LoadError::UnexpectedEof => ErrorKind::UnexpectedEof,
                _ => ErrorKind::InvalidData,
            }),
    {
        match self {
            LoadError::UnexpectedEof => ErrorKind::UnexpectedEof,
            _ => ErrorKind::InvalidData,
        }
    }

    /// The error in words.
    pub fn message(&self) -> (r: &'static str)
        ensures
            r@ == load_error_text(*self),
    {
        match self {
            LoadError::UnexpectedEof => "failed to fill whole buffer",
            LoadError::BadMagic => "not a silent payment wallet file (bad magic)",
            LoadError::BadKey => "bad x-only key: malformed public key",
        }
    }
}

/// The outpoint of a found payment.
pub open spec fn payment_outpoint(p: FoundPayment) -> Outpoint {
    Outpoint { txid: p.txid, vout: p.vout }
}

/// What the wallet holds of a payment found at a height.
pub open spec fn received_utxo(p: FoundPayment, block_height: u32) -> OwnedUtxo {
    OwnedUtxo {
        outpoint: payment_outpoint(p),
        x_only_pubkey: p.x_only_pubkey,
        k: p.k,
        amount: p.amount,
        block_height,
        spent: false,
        spent_by: None,
    }
}

/// The entries of a wallet after payments came in, in order.
pub open spec fn with_payments(
    entries: Seq<(Outpoint, OwnedUtxo)>,
    payments: Seq<FoundPayment>,
    block_height: u32,
) -> Seq<(Outpoint, OwnedUtxo)>
    decreases payments.len(),
{
    if payments.len() == 0 {
        entries
    } else {
        let p = payments.last();
        with_entry(
            with_payments(entries, payments.drop_last(), block_height),
            payment_outpoint(p),
            received_utxo(p, block_height),
        )
    }
}

/// An output once it is spent.
pub open spec fn spent_utxo(u: OwnedUtxo, spending_txid: [u8; 32], block_height: u32) -> OwnedUtxo {
    OwnedUtxo { spent: true, spent_by: Some(SpentBy { txid: spending_txid, block_height }), ..u }
}

/// The entries of a wallet after an output was spent, if the wallet has it.
pub open spec fn with_spend(
    entries: Seq<(Outpoint, OwnedUtxo)>,
    outpoint: Outpoint,
    spending_txid: [u8; 32],
    block_height: u32,
) -> Seq<(Outpoint, OwnedUtxo)> {
    match position_in(entries, outpoint) {
        Some(i) => entries.update(
            i,
            (outpoint, spent_utxo(entries[i].1, spending_txid, block_height)),
        ),
        None => entries,
    }
}

/// The outpoint that an input, given as its transaction and the outpoint's parts, spends.
pub open spec fn input_outpoint(input: ([u8; 32], [u8; 32], u32)) -> Outpoint {
    Outpoint { txid: input.1, vout: input.2 }
}

/// The entries of a wallet after a block's inputs, in order.
pub open spec fn with_spends(
    entries: Seq<(Outpoint, OwnedUtxo)>,
    inputs: Seq<([u8; 32], [u8; 32], u32)>,
    block_height: u32,
) -> Seq<(Outpoint, OwnedUtxo)>
    decreases inputs.len(),
{
    if inputs.len() == 0 {
        entries
    } else {
        with_spend(
            with_spends(entries, inputs.drop_last(), block_height),
            input_outpoint(inputs.last()),
            inputs.last().0,
            block_height,
        )
    }
}

/// The number of inputs that spend an output of the wallet.
pub open spec fn spend_count(
    entries: Seq<(Outpoint, OwnedUtxo)>,
    inputs: Seq<([u8; 32], [u8; 32], u32)>,
) -> nat {
    inputs.filter(
        |input: ([u8; 32], [u8; 32], u32)| position_in(entries, input_outpoint(input)) is Some,
    ).len()
}

/// The unspent outputs among the entries, in order.
pub open spec fn unspent(entries: Seq<(Outpoint, OwnedUtxo)>) -> Seq<OwnedUtxo>
    decreases entries.len(),
{
    if entries.len() == 0 {
        Seq::empty()
    } else {
        let u = entries.last().1;
        let before = unspent(entries.drop_last());
        if u.spent {
            before
        } else {
            before.push(u)
        }
    }
}

/// The sum of the amounts of outputs.
pub open spec fn total_amount(utxos: Seq<OwnedUtxo>) -> int
    decreases utxos.len(),
{
    if utxos.len() == 0 {
        0
    } else {
        total_amount(utxos.drop_last()) + utxos.last().amount
    }
}

/// References as the values behind them.
pub open spec fn referents(r: Seq<&OwnedUtxo>) -> Seq<OwnedUtxo> {
    r.map_values(|u: &OwnedUtxo| *u)
}

/// The outputs of the entries, in order.
pub open spec fn values(entries: Seq<(Outpoint, OwnedUtxo)>) -> Seq<OwnedUtxo> {
    entries.map_values(|e: (Outpoint, OwnedUtxo)| e.1)
}

impl View for SilentPaymentWallet {
    type V = Map<Outpoint, OwnedUtxo>;

    open spec fn view(&self) -> Map<Outpoint, OwnedUtxo> {
        map_of(self.entries())
    }
}

/// Whether each entry stands under the outpoint of its output.
pub open spec fn keyed(entries: Seq<(Outpoint, OwnedUtxo)>) -> bool {
    forall|i: int| 0 <= i < entries.len() ==> (#[trigger] entries[i]).0 == entries[i].1.outpoint
}

proof fn lemma_with_spend(
    entries: Seq<(Outpoint, OwnedUtxo)>,
    outpoint: Outpoint,
    spending_txid: [u8; 32],
    block_height: u32,
)
    requires
        distinct_keys(entries),
        keyed(entries),
    ensures
        ({
            let after = with_spend(entries, outpoint, spending_txid, block_height);
            &&& distinct_keys(after)
            &&& keyed(after)
            &&& after.len() == entries.len()
            &&& forall|i: int| 0 <= i < after.len() ==> (#[trigger] after[i]).0 == entries[i].0
            &&& forall|k: Outpoint|
                (#[trigger] position_in(after, k)) is Some <==> position_in(entries, k) is Some
        }),
{
    position_meaning(entries, outpoint);
    let after = with_spend(entries, outpoint, spending_txid, block_height);
    assert forall|k: Outpoint|
        (#[trigger] position_in(after, k)) is Some <==> position_in(entries, k) is Some by {
        position_meaning(entries, k);
        position_meaning(after, k);
        if let Some(i) = position_in(entries, k) {
            assert(after[i].0 == k);
        }
        if let Some(i) = position_in(after, k) {
            assert(entries[i].0 == k);
        }
    }
}

/// Spending keeps every output that the wallet has and brings no other in.
pub proof fn spends_keep_outputs(
    entries: Seq<(Outpoint, OwnedUtxo)>,
    inputs: Seq<([u8; 32], [u8; 32], u32)>,
    block_height: u32,
)
    requires
        distinct_keys(entries),
        keyed(entries),
    ensures
        ({
            let after = with_spends(entries, inputs, block_height);
            &&& distinct_keys(after)
            &&& keyed(after)
            &&& after.len() == entries.len()
            &&& forall|i: int| 0 <= i < after.len() ==> (#[trigger] after[i]).0 == entries[i].0
            &&& forall|k: Outpoint|
                (#[trigger] position_in(after, k)) is Some <==> position_in(entries, k) is Some
        }),
    decreases inputs.len(),
{
    if inputs.len() > 0 {
        spends_keep_outputs(entries, inputs.drop_last(), block_height);
        lemma_with_spend(
            with_spends(entries, inputs.drop_last(), block_height),
            input_outpoint(inputs.last()),
            inputs.last().0,
            block_height,
        );
    }
}

/// Payments keep the wallet well formed.
pub proof fn payments_keep_form(
    entries: Seq<(Outpoint, OwnedUtxo)>,
    payments: Seq<FoundPayment>,
    block_height: u32,
)
    requires
        distinct_keys(entries),
        keyed(entries),
    ensures
        distinct_keys(with_payments(entries, payments, block_height)),
        keyed(with_payments(entries, payments, block_height)),
    decreases payments.len(),
{
    if payments.len() > 0 {
        payments_keep_form(entries, payments.drop_last(), block_height);
        let before = with_payments(entries, payments.drop_last(), block_height);
        let p = payments.last();
        with_entry_inserts(before, payment_outpoint(p), received_utxo(p, block_height));
        position_meaning(before, payment_outpoint(p));
    }
}

/// A payment that came in stands in the wallet as it came last: unspent, with its key, its
/// counter and its amount, at the block's height. Every other output is as it was.
pub proof fn payments_are_recorded(
    entries: Seq<(Outpoint, OwnedUtxo)>,
    payments: Seq<FoundPayment>,
    block_height: u32,
    k: Outpoint,
)
    requires
        distinct_keys(entries),
    ensures
        ({
            let before = map_of(entries);
            let after = map_of(with_payments(entries, payments, block_height));
            &&& distinct_keys(with_payments(entries, payments, block_height))
            &&& forall|i: int|
                0 <= i < payments.len() && (#[trigger] payments[i]).txid == k.txid
                    && payments[i].vout == k.vout && (forall|l: int|
                    i < l < payments.len() ==> (#[trigger] payments[l]).txid != k.txid
                        || payments[l].vout != k.vout) ==> {
                    &&& after.contains_key(k)
                    &&& after[k].outpoint == k
                    &&& after[k].x_only_pubkey == payments[i].x_only_pubkey
                    &&& after[k].k == payments[i].k
                    &&& after[k].amount == payments[i].amount
                    &&& after[k].block_height == block_height
                    &&& !after[k].spent && after[k].spent_by is None
                }
            &&& (forall|i: int|
                0 <= i < payments.len() ==> (#[trigger] payments[i]).txid != k.txid
                    || payments[i].vout != k.vout) ==> after.contains_key(k)
                == before.contains_key(k) && (before.contains_key(k) ==> after[k] == before[k])
        }),
    decreases payments.len(),
{
    if payments.len() > 0 {
        let fewer = payments.drop_last();
        let n = payments.len() - 1;
        payments_are_recorded(entries, fewer, block_height, k);
        let before = map_of(entries);
        let p = payments.last();
        let mid = with_payments(entries, fewer, block_height);
        with_entry_inserts(mid, payment_outpoint(p), received_utxo(p, block_height));
        let after = map_of(with_payments(entries, payments, block_height));
        let last_names = payments[n].txid == k.txid && payments[n].vout == k.vout;
        assert(last_names == (payment_outpoint(p) == k));
        assert forall|i: int|
            0 <= i < payments.len() && (#[trigger] payments[i]).txid == k.txid && payments[i].vout
                == k.vout && (forall|l: int|
                i < l < payments.len() ==> (#[trigger] payments[l]).txid != k.txid
                    || payments[l].vout != k.vout) implies {
            &&& after.contains_key(k)
            &&& after[k].outpoint == k
            &&& after[k].x_only_pubkey == payments[i].x_only_pubkey
            &&& after[k].k == payments[i].k
            &&& after[k].amount == payments[i].amount
            &&& after[k].block_height == block_height
            &&& !after[k].spent && after[k].spent_by is None
        } by {
            if i < n {
                assert(!last_names);
                assert(fewer[i] == payments[i]);
                assert forall|l: int| i < l < fewer.len() implies (#[trigger] fewer[l]).txid
                    != k.txid || fewer[l].vout != k.vout by {
                    assert(fewer[l] == payments[l]);
                }
            }
        }
        if forall|i: int|
            0 <= i < payments.len() ==> (#[trigger] payments[i]).txid != k.txid || payments[i].vout
                != k.vout {
            assert(!last_names);
            assert forall|i: int| 0 <= i < fewer.len() implies (#[trigger] fewer[i]).txid != k.txid
                || fewer[i].vout != k.vout by {
                assert(fewer[i] == payments[i]);
            }
        }
    }
}

proof fn lemma_spend_by_key(
    entries: Seq<(Outpoint, OwnedUtxo)>,
    outpoint: Outpoint,
    spending_txid: [u8; 32],
    block_height: u32,
)
    requires
        distinct_keys(entries),
    ensures
        ({
            let after = with_spend(entries, outpoint, spending_txid, block_height);
            &&& distinct_keys(after)
            &&& map_of(after) == (if map_of(entries).contains_key(outpoint) {
                map_of(entries).insert(
                    outpoint,
                    spent_utxo(map_of(entries)[outpoint], spending_txid, block_height),
                )
            } else {
                map_of(entries)
            })
        }),
{
    position_meaning(entries, outpoint);
    if let Some(i) = position_in(entries, outpoint) {
        with_entry_inserts(
            entries,
            outpoint,
            spent_utxo(entries[i].1, spending_txid, block_height),
        );
    }
}

/// A block's inputs mark an output of the wallet that any of them names as spent, at the
/// block's height, by the transaction of the last of them that names it. Nothing else of it
/// changes, and an output that none of them names is as it was.
pub proof fn spends_mark_what_they_name(
    entries: Seq<(Outpoint, OwnedUtxo)>,
    inputs: Seq<([u8; 32], [u8; 32], u32)>,
    block_height: u32,
    k: Outpoint,
)
    requires
        distinct_keys(entries),
    ensures
        ({
            let before = map_of(entries);
            let after = map_of(with_spends(entries, inputs, block_height));
            &&& distinct_keys(with_spends(entries, inputs, block_height))
            &&& after.contains_key(k) == before.contains_key(k)
            &&& before.contains_key(k) ==> {
                &&& after[k].outpoint == before[k].outpoint
                &&& after[k].x_only_pubkey == before[k].x_only_pubkey
                &&& after[k].k == before[k].k
                &&& after[k].amount == before[k].amount
                &&& after[k].block_height == before[k].block_height
            }
            &&& forall|i: int|
                before.contains_key(k) && 0 <= i < inputs.len() && (#[trigger] inputs[i]).1
                    == k.txid && inputs[i].2 == k.vout && (forall|l: int|
                    i < l < inputs.len() ==> (#[trigger] inputs[l]).1 != k.txid || inputs[l].2
                        != k.vout) ==> after[k].spent && after[k].spent_by == Some(
                    SpentBy { txid: inputs[i].0, block_height },
                )
            &&& before.contains_key(k) && (forall|i: int|
                0 <= i < inputs.len() ==> (#[trigger] inputs[i]).1 != k.txid || inputs[i].2
                    != k.vout) ==> after[k] == before[k]
        }),
    decreases inputs.len(),
{
    if inputs.len() > 0 {
        let fewer = inputs.drop_last();
        let n = inputs.len() - 1;
        spends_mark_what_they_name(entries, fewer, block_height, k);
        let before = map_of(entries);
        let mid = with_spends(entries, fewer, block_height);
        lemma_spend_by_key(mid, input_outpoint(inputs.last()), inputs.last().0, block_height);
        let after = map_of(with_spends(entries, inputs, block_height));
        let last_names = inputs[n].1 == k.txid && inputs[n].2 == k.vout;
        assert(last_names == (input_outpoint(inputs.last()) == k));
        assert forall|i: int|
            before.contains_key(k) && 0 <= i < inputs.len() && (#[trigger] inputs[i]).1 == k.txid
                && inputs[i].2 == k.vout && (forall|l: int|
                i < l < inputs.len() ==> (#[trigger] inputs[l]).1 != k.txid || inputs[l].2
                    != k.vout) implies after[k].spent && after[k].spent_by == Some(
            SpentBy { txid: inputs[i].0, block_height },
        ) by {
            if i < n {
                assert(!last_names);
                assert(fewer[i] == inputs[i]);
                assert forall|l: int| i < l < fewer.len() implies (#[trigger] fewer[l]).1 != k.txid
                    || fewer[l].2 != k.vout by {
                    assert(fewer[l] == inputs[l]);
                }
            }
        }
        if forall|i: int|
            0 <= i < inputs.len() ==> (#[trigger] inputs[i]).1 != k.txid || inputs[i].2
                != k.vout {
            assert(!last_names);
            assert forall|i: int| 0 <= i < fewer.len() implies (#[trigger] fewer[i]).1 != k.txid
                || fewer[i].2 != k.vout by {
                assert(fewer[i] == inputs[i]);
            }
        }
    }
}

/// Each input that names an output of the wallet counts for one, and no other counts.
pub proof fn spends_are_counted_one_by_one(
    entries: Seq<(Outpoint, OwnedUtxo)>,
    inputs: Seq<([u8; 32], [u8; 32], u32)>,
    input: ([u8; 32], [u8; 32], u32),
)
    ensures
        spend_count(entries, Seq::empty()) == 0,
        spend_count(entries, inputs.push(input)) == spend_count(entries, inputs) + (if map_of(
            entries,
        ).contains_key((Outpoint { txid: input.1, vout: input.2 })) {
            1nat
        } else {
            0nat
        }),
{
    let pred = |input: ([u8; 32], [u8; 32], u32)|
        position_in(entries, input_outpoint(input)) is Some;
    inputs.lemma_filter_push(input, pred);
    reveal(Seq::filter);
}

/// The unspent outputs are those of the wallet's outputs that are not marked as spent, in
/// order.
pub proof fn unspent_outputs_are_not_spent(entries: Seq<(Outpoint, OwnedUtxo)>)
    ensures
        unspent(entries) == values(entries).filter(|u: OwnedUtxo| !u.spent),
    decreases entries.len(),
{
    reveal(Seq::filter);
    if entries.len() > 0 {
        unspent_outputs_are_not_spent(entries.drop_last());
        assert(values(entries).drop_last() =~= values(entries.drop_last()));
    }
}

/// The sum of amounts grows by an output's amount, and only by it, where the output comes
/// in, wherever it stands.
pub proof fn total_amount_grows_by_each(head: Seq<OwnedUtxo>, u: OwnedUtxo, tail: Seq<OwnedUtxo>)
    ensures
        total_amount(Seq::<OwnedUtxo>::empty()) == 0,
        total_amount(head + seq![u] + tail) == total_amount(head + tail) + u.amount,
    decreases tail.len(),
{
    let s = head + seq![u] + tail;
    if tail.len() == 0 {
        assert(s.drop_last() =~= head + tail);
    } else {
        total_amount_grows_by_each(head, u, tail.drop_last());
        assert(s.drop_last() =~= head + seq![u] + tail.drop_last());
        assert((head + tail).drop_last() =~= head + tail.drop_last());
    }
}

impl SilentPaymentWallet {
    /// The outputs of the wallet by outpoint, in the order in which they came.
    pub closed spec fn entries(&self) -> Seq<(Outpoint, OwnedUtxo)> {
        self.utxos.order()
    }

    /// The height of the last block that was scanned.
    pub closed spec fn height(&self) -> u32 {
        self.scan_height
    }

    /// Whether every output stands once, under its own outpoint.
    pub open spec fn wf(&self) -> bool {
        distinct_keys(self.entries()) && keyed(self.entries())
    }

    /// The height of the last block that was scanned.
    pub fn scan_height(&self) -> (r: u32)
        ensures
            r == self.height(),
    {
        self.scan_height
    }

    /// A wallet without outputs.
    pub fn new() -> (r: Self)
        ensures
            r.wf(),
            r.entries() == Seq::<(Outpoint, OwnedUtxo)>::empty(),
            r.height() == 0,
    {
        SilentPaymentWallet { utxos: OutpointMap::new(), scan_height: 0 }
    }

    /// Takes in the payments found in a block. A payment to an outpoint that the wallet
    /// has replaces what it had there.
    pub fn process_found_payments(&mut self, payments: &[FoundPayment], block_height: u32)
        requires
            old(self).wf(),
        ensures
            final(self).wf(),
            final(self).entries() == with_payments(old(self).entries(), payments@, block_height),
            final(self).height() == block_height,
            forall|k: Outpoint, i: int|
                #![trigger final(self)@[k], payments@[i]]
                0 <= i < payments@.len() && payments@[i].txid == k.txid && payments@[i].vout
                    == k.vout && (forall|l: int|
                    i < l < payments@.len() ==> (#[trigger] payments@[l]).txid != k.txid
                        || payments@[l].vout != k.vout) ==> final(self)@.contains_key(k)
                    && final(self)@[k].amount == payments@[i].amount
                    && final(self)@[k].x_only_pubkey == payments@[i].x_only_pubkey
                    && final(self)@[k].k == payments@[i].k && final(self)@[k].block_height
                    == block_height && !final(self)@[k].spent,
    {
        let ghost before = self.entries();
        let mut i: usize = 0;
        while i < payments.len()
            invariant
                i <= payments@.len(),
                distinct_keys(before),
                keyed(before),
                self.wf(),
                self.entries() == with_payments(before, payments@.take(i as int), block_height),
            decreases payments@.len() - i,
        {
            let p = &payments[i];
            let outpoint = Outpoint { txid: p.txid, vout: p.vout };
            self.utxos.insert(
                outpoint,
                OwnedUtxo {
                    outpoint,
                    x_only_pubkey: p.x_only_pubkey,
                    k: p.k,
                    amount: p.amount,
                    block_height,
                    spent: false,
                    spent_by: None,
                },
            );
            i = i + 1;
            proof {
                let done = payments@.take(i as int);
                assert(done.drop_last() =~= payments@.take(i - 1));
                assert(done.last() == *p);
                payments_keep_form(before, done, block_height);
            }
        }
        assert(payments@.take(i as int) =~= payments@);
        self.scan_height = block_height;
        proof {
            let now = self@;
            assert forall|k: Outpoint, i: int|
                #![trigger now[k], payments@[i]]
                0 <= i < payments@.len() && payments@[i].txid == k.txid && payments@[i].vout
                    == k.vout && (forall|l: int|
                    i < l < payments@.len() ==> (#[trigger] payments@[l]).txid != k.txid
                        || payments@[l].vout != k.vout) implies now.contains_key(k)
                && now[k].amount == payments@[i].amount && now[k].x_only_pubkey
                == payments@[i].x_only_pubkey && now[k].k == payments@[i].k
                && now[k].block_height == block_height && !now[k].spent by {
                payments_are_recorded(before, payments@, block_height, k);
            }
        }
    }

    /// Marks an output as spent, and says whether the wallet has it.
    pub fn mark_spent(
        &mut self,
        txid: &[u8; 32],
        vout: u32,
        spending_txid: &[u8; 32],
        block_height: u32,
    ) -> (r: bool)
        requires
            old(self).wf(),
        ensures
            final(self).wf(),
            r == old(self)@.contains_key((Outpoint { txid: *txid, vout })),
            final(self).entries() == with_spend(
                old(self).entries(),
                Outpoint { txid: *txid, vout },
                *spending_txid,
                block_height,
            ),
            final(self).height() == old(self).height(),
    {
        let outpoint = Outpoint { txid: *txid, vout };
        proof {
            lemma_with_spend(self.entries(), outpoint, *spending_txid, block_height);
            position_meaning(self.entries(), outpoint);
        }
        match self.utxos.position(&outpoint) {
            Some(i) => {
                let mut utxo = self.utxos.at(i).1;
                utxo.spent = true;
                utxo.spent_by = Some(SpentBy { txid: *spending_txid, block_height });
                self.utxos.insert(outpoint, utxo);
                true
            },
            None => false,
        }
    }

    /// The sum of the unspent amounts.
    pub fn balance(&self) -> (r: i64)
        requires
            i64::MIN <= total_amount(unspent(self.entries())) <= i64::MAX,
        ensures
            r == total_amount(unspent(self.entries())),
    {
        let mut total: i128 = 0;
        let mut i: usize = 0;
        while i < self.utxos.len()
            invariant
                i <= self.entries().len(),
                self.entries() == self.utxos.order(),
                total == total_amount(unspent(self.entries().take(i as int))),
                -0x8000_0000_0000_0000 * i <= total <= 0x8000_0000_0000_0000 * i,
            decreases self.entries().len() - i,
        {
            let u = self.utxos.at(i).1;
            proof {
                let done = self.entries().take(i + 1);
                assert(done.drop_last() =~= self.entries().take(i as int));
                let before = unspent(done.drop_last());
                assert(before.push(u).drop_last() =~= before);
            }
            if !u.spent {
                total = total + u.amount as i128;
            }
            i = i + 1;
        }
        assert(self.entries().take(i as int) =~= self.entries());
        total as i64
    }

    /// The unspent outputs.
    pub fn unspent_utxos(&self) -> (r: Vec<&OwnedUtxo>)
        ensures
            referents(r@) == unspent(self.entries()),
    {
        let mut r: Vec<&OwnedUtxo> = Vec::new();
        let mut i: usize = 0;
        while i < self.utxos.len()
            invariant
                i <= self.entries().len(),
                self.entries() == self.utxos.order(),
                referents(r@) == unspent(self.entries().take(i as int)),
            decreases self.entries().len() - i,
        {
            let ghost before = r@;
            let u = &self.utxos.at(i).1;
            if !u.spent {
                r.push(u);
            }
            i = i + 1;
            proof {
                let done = self.entries().take(i as int);
                assert(done.drop_last() =~= self.entries().take(i - 1));
                assert(referents(before.push(u)) =~= referents(before).push(*u));
            }
        }
        assert(self.entries().take(i as int) =~= self.entries());
        r
    }

    /// All outputs, spent or not.
    pub fn all_utxos(&self) -> (r: Vec<&OwnedUtxo>)
        ensures
            referents(r@) == values(self.entries()),
    {
        let mut r: Vec<&OwnedUtxo> = Vec::new();
        let mut i: usize = 0;
        while i < self.utxos.len()
            invariant
                i <= self.entries().len(),
                self.entries() == self.utxos.order(),
                r@.len() == i,
                forall|j: int| 0 <= j < i ==> *(#[trigger] r@[j]) == self.entries()[j].1,
            decreases self.entries().len() - i,
        {
            r.push(&self.utxos.at(i).1);
            i = i + 1;
        }
        assert(referents(r@) =~= values(self.entries()));
        r
    }

    /// The number of outputs, spent or not.
    pub fn total_outputs(&self) -> (r: usize)
        ensures
            r == self.entries().len(),
    {
        self.utxos.len()
    }

    /// The number of unspent outputs.
    pub fn unspent_count(&self) -> (r: usize)
        ensures
            r == unspent(self.entries()).len(),
    {
        let r = self.unspent_utxos();
        assert(referents(r@).len() == r@.len());
        r.len()
    }

    /// Marks the outputs that a block's inputs spend, and counts those inputs. An input is
    /// given as its transaction's hash and the outpoint that it spends.
    pub fn check_for_spends(
        &mut self,
        input_outpoints: &[([u8; 32], [u8; 32], u32)],
        block_height: u32,
    ) -> (r: usize)
        requires
            old(self).wf(),
        ensures
            final(self).wf(),
            r == spend_count(old(self).entries(), input_outpoints@),
            final(self).entries() == with_spends(
                old(self).entries(),
                input_outpoints@,
                block_height,
            ),
            final(self).height() == old(self).height(),
            forall|k: Outpoint, i: int|
                #![trigger final(self)@[k], input_outpoints@[i]]
                old(self)@.contains_key(k) && 0 <= i < input_outpoints@.len()
                    && input_outpoints@[i].1 == k.txid && input_outpoints@[i].2 == k.vout && (
                forall|l: int|
                    i < l < input_outpoints@.len() ==> (#[trigger] input_outpoints@[l]).1 != k.txid
                        || input_outpoints@[l].2 != k.vout) ==> final(self)@[k].spent
                    && final(self)@[k].spent_by == Some(
                    SpentBy { txid: input_outpoints@[i].0, block_height },
                ),
            forall|k: Outpoint|
                #![trigger final(self)@[k]]
                old(self)@.contains_key(k) && (forall|i: int|
                    0 <= i < input_outpoints@.len() ==> (#[trigger] input_outpoints@[i]).1 != k.txid
                        || input_outpoints@[i].2 != k.vout) ==> old(self)@.contains_pair(
                    k,
                    final(self)@[k],
                ),
    {
        let ghost before = self.entries();
        let mut count: usize = 0;
        let mut i: usize = 0;
        proof {
            assert(input_outpoints@.take(0) =~= Seq::empty());
            reveal(Seq::filter);
        }
        while i < input_outpoints.len()
            invariant
                i <= input_outpoints@.len(),
                count <= i,
                self.wf(),
                distinct_keys(before),
                keyed(before),
                count == spend_count(before, input_outpoints@.take(i as int)),
                self.entries() == with_spends(
                    before,
                    input_outpoints@.take(i as int),
                    block_height,
                ),
                self.height() == old(self).height(),
            decreases input_outpoints@.len() - i,
        {
            let input = &input_outpoints[i];
            proof {
                let done = input_outpoints@.take(i as int);
                assert(input_outpoints@.take(i + 1) =~= done.push(*input));
                assert(done.push(*input).drop_last() =~= done);
                spends_keep_outputs(before, done, block_height);
                done.lemma_filter_push(
                    *input,
                    |input: ([u8; 32], [u8; 32], u32)|
                        position_in(before, input_outpoint(input)) is Some,
                );
            }
            if self.mark_spent(&input.1, input.2, &input.0, block_height) {
                count = count + 1;
            }
            i = i + 1;
        }
        assert(input_outpoints@.take(i as int) =~= input_outpoints@);
        proof {
            let (was, now, inputs) = (old(self)@, self@, input_outpoints@);
            assert forall|k: Outpoint, i: int|
                #![trigger now[k], inputs[i]]
                was.contains_key(k) && 0 <= i < inputs.len() && inputs[i].1 == k.txid && inputs[i].2
                    == k.vout && (forall|l: int|
                    i < l < inputs.len() ==> (#[trigger] inputs[l]).1 != k.txid || inputs[l].2
                        != k.vout) implies now[k].spent && now[k].spent_by == Some(
                SpentBy { txid: inputs[i].0, block_height },
            ) by {
                spends_mark_what_they_name(before, inputs, block_height, k);
            }
            assert forall|k: Outpoint|
                #![trigger now[k]]
                was.contains_key(k) && (forall|i: int|
                    0 <= i < inputs.len() ==> (#[trigger] inputs[i]).1 != k.txid || inputs[i].2
                        != k.vout) implies was.contains_pair(k, now[k]) by {
                spends_mark_what_they_name(before, inputs, block_height, k);
            }
        }
        count
    }
}

/// The bytes with which a saved wallet begins.
pub open spec fn wallet_magic() -> Seq<u8> {
    seq![0x53u8, 0x50u8, 0x30u8, 0x31u8]
}

/// An output as it is saved.
#[verifier::opaque]
pub open spec fn utxo_bytes(u: OwnedUtxo) -> Seq<u8> {
    u.outpoint.txid@ + le32(u.outpoint.vout) + u.x_only_pubkey@ + le32(u.k) + le64(
        unsigned(u.amount),
    ) + le32(u.block_height) + seq![if u.spent {
        1u8
    } else {
        0u8
    }] + (match u.spent_by {
        Some(by) => seq![1u8] + by.txid@ + le32(by.block_height),
        None => seq![0u8],
    })
}

/// Outputs as they are saved, one after another.
pub open spec fn entries_bytes(entries: Seq<(Outpoint, OwnedUtxo)>) -> Seq<u8>
    decreases entries.len(),
{
    if entries.len() == 0 {
        Seq::empty()
    } else {
        utxo_bytes(entries[0].1) + entries_bytes(entries.skip(1))
    }
}

/// A wallet as it is saved. The number of outputs is kept in thirty-two bits.
pub open spec fn wallet_bytes(entries: Seq<(Outpoint, OwnedUtxo)>, height: u32) -> Seq<u8> {
    wallet_magic() + le32(height) + le32((entries.len() % 0x1_0000_0000) as u32) + entries_bytes(
        entries,
    )
}

/// The output at the beginning of `s` and the number of bytes that it takes.
#[verifier::opaque]
pub open spec fn parsed_utxo(s: Seq<u8>) -> Result<(OwnedUtxo, int), LoadError> {
    if s.len() < 68 {
        Err(LoadError::UnexpectedEof)
    } else if !is_x_coordinate(s.subrange(36, 68)) {
        Err(LoadError::BadKey)
    } else if s.len() < 86 {
        Err(LoadError::UnexpectedEof)
    } else if s[85] != 0 && s.len() < 122 {
        Err(LoadError::UnexpectedEof)
    } else {
        let u = OwnedUtxo {
            outpoint: Outpoint {
                txid: array_of(s.subrange(0, 32)),
                vout: le32_value(s.subrange(32, 36)),
            },
            x_only_pubkey: x_only_of(s.subrange(36, 68)),
            k: le32_value(s.subrange(68, 72)),
            amount: signed(le64_value(s.subrange(72, 80))),
            block_height: le32_value(s.subrange(80, 84)),
            spent: s[84] != 0,
            spent_by: if s[85] != 0 {
                Some(
                    SpentBy {
                        txid: array_of(s.subrange(86, 118)),
                        block_height: le32_value(s.subrange(118, 122)),
                    },
                )
            } else {
                None
            },
        };
        Ok((u, if s[85] != 0 {
            122int
        } else {
            86int
        }))
    }
}

/// The entries after `n` more outputs were read from `s`.
pub open spec fn parsed_entries(s: Seq<u8>, n: nat, before: Seq<(Outpoint, OwnedUtxo)>) -> Result<
    Seq<(Outpoint, OwnedUtxo)>,
    LoadError,
>
    decreases n,
{
    if n == 0 {
        Ok(before)
    } else {
        match parsed_utxo(s) {
            Ok((u, len)) => parsed_entries(
                s.skip(len),
                (n - 1) as nat,
                with_entry(before, u.outpoint, u),
            ),
            Err(e) => Err(e),
        }
    }
}

/// What the bytes of a saved wallet say: its entries and its height. Bytes behind the
/// last output are not read.
pub open spec fn parsed_wallet(s: Seq<u8>) -> Result<(Seq<(Outpoint, OwnedUtxo)>, u32), LoadError> {
    if s.len() < 4 {
        Err(LoadError::UnexpectedEof)
    } else if s.take(4) != wallet_magic() {
        Err(LoadError::BadMagic)
    } else if s.len() < 12 {
        Err(LoadError::UnexpectedEof)
    } else {
        let n = le32_value(s.subrange(8, 12)) as nat;
        match parsed_entries(s.skip(12), n, Seq::empty()) {
            Ok(entries) => Ok((entries, le32_value(s.subrange(4, 8)))),
            Err(e) => Err(e),
        }
    }
}

/// Whether every output's key is a point's x coordinate.
pub open spec fn good_keys(entries: Seq<(Outpoint, OwnedUtxo)>) -> bool {
    forall|i: int|
        0 <= i < entries.len() ==> is_x_coordinate((#[trigger] entries[i]).1.x_only_pubkey@)
            && entries[i].1.x_only_pubkey@.len() == 32
}

proof fn lemma_utxo_round_trip(u: OwnedUtxo, tail: Seq<u8>)
    requires
        is_x_coordinate(u.x_only_pubkey@),
        u.x_only_pubkey@.len() == 32,
    ensures
        parsed_utxo(utxo_bytes(u) + tail) == Ok::<_, LoadError>((u, utxo_bytes(u).len() as int)),
{
    broadcast use {crate::bytes::le32_round_trip, crate::bytes::le64_round_trip};
    broadcast use crate::bytes::signed_round_trip;

    reveal(utxo_bytes);
    reveal(parsed_utxo);

    let s = utxo_bytes(u) + tail;
    assert(s.subrange(0, 32) =~= u.outpoint.txid@);
    assert(s.subrange(32, 36) =~= le32(u.outpoint.vout));
    assert(s.subrange(36, 68) =~= u.x_only_pubkey@);
    assert(s.subrange(68, 72) =~= le32(u.k));
    assert(s.subrange(72, 80) =~= le64(unsigned(u.amount)));
    assert(s.subrange(80, 84) =~= le32(u.block_height));
    array_of_view(u.outpoint.txid);
    x_only_of_view(u.x_only_pubkey);
    if let Some(by) = u.spent_by {
        assert(s.subrange(86, 118) =~= by.txid@);
        assert(s.subrange(118, 122) =~= le32(by.block_height));
        array_of_view(by.txid);
    }
}

proof fn lemma_split(a: Seq<u8>, b: Seq<u8>, c: Seq<u8>)
    ensures
        a + b + c == a + (b + c),
        (a + (b + c)).skip(a.len() as int) == b + c,
{
    assert(a + b + c =~= a + (b + c));
    assert((a + (b + c)).skip(a.len() as int) =~= b + c);
}

proof fn lemma_entries_round_trip(
    before: Seq<(Outpoint, OwnedUtxo)>,
    rest: Seq<(Outpoint, OwnedUtxo)>,
    tail: Seq<u8>,
)
    requires
        distinct_keys(before + rest),
        keyed(rest),
        good_keys(rest),
    ensures
        parsed_entries(entries_bytes(rest) + tail, rest.len(), before) == Ok::<_, LoadError>(
            before + rest,
        ),
    decreases rest.len(),
{
    if rest.len() == 0 {
        assert(before + rest =~= before);
    } else {
        let u = rest[0].1;
        let len = utxo_bytes(u).len() as int;
        let more = entries_bytes(rest.skip(1)) + tail;
        let s = entries_bytes(rest) + tail;
        lemma_split(utxo_bytes(u), entries_bytes(rest.skip(1)), tail);
        assert(parsed_utxo(s) == Ok::<_, LoadError>((u, len))) by {
            lemma_utxo_round_trip(u, more);
        }
        assert(with_entry(before, u.outpoint, u) == before.push(rest[0])) by {
            position_meaning(before, u.outpoint);
            assert(rest[0].0 == u.outpoint);
            if let Some(i) = position_in(before, u.outpoint) {
                assert((before + rest)[i].0 == (before + rest)[before.len() as int].0);
            }
        }
        assert(parsed_entries(more, (rest.len() - 1) as nat, before.push(rest[0])) == Ok::<
            _,
            LoadError,
        >(before + rest)) by {
            assert(before.push(rest[0]) + rest.skip(1) =~= before + rest);
            lemma_entries_round_trip(before.push(rest[0]), rest.skip(1), tail);
        }
    }
}

proof fn lemma_header(a: Seq<u8>, b: Seq<u8>, c: Seq<u8>, d: Seq<u8>, tail: Seq<u8>)
    requires
        a.len() == 4,
        b.len() == 4,
        c.len() == 4,
    ensures
        (a + b + c + d + tail).take(4) == a,
        (a + b + c + d + tail).subrange(4, 8) == b,
        (a + b + c + d + tail).subrange(8, 12) == c,
        (a + b + c + d + tail).skip(12) == d + tail,
{
    let s = a + b + c + d + tail;
    assert(s.take(4) =~= a);
    assert(s.subrange(4, 8) =~= b);
    assert(s.subrange(8, 12) =~= c);
    assert(s.skip(12) =~= d + tail);
}

#[verifier::spinoff_prover]
proof fn lemma_wallet_round_trip(
    entries: Seq<(Outpoint, OwnedUtxo)>,
    height: u32,
    tail: Seq<u8>,
)
    requires
        distinct_keys(entries),
        keyed(entries),
        good_keys(entries),
        entries.len() <= u32::MAX,
    ensures
        parsed_wallet(wallet_bytes(entries, height) + tail) == Ok::<_, LoadError>(
            (entries, height),
        ),
{
    let n = (entries.len() % 0x1_0000_0000) as u32;
    let s = wallet_bytes(entries, height) + tail;
    assert({
        &&& s.len() >= 12
        &&& s.take(4) == wallet_magic()
        &&& s.subrange(4, 8) == le32(height)
        &&& s.subrange(8, 12) == le32(n)
        &&& s.skip(12) == entries_bytes(entries) + tail
    }) by {
        lemma_header(wallet_magic(), le32(height), le32(n), entries_bytes(entries), tail);
    }
    assert(le32_value(s.subrange(4, 8)) == height && le32_value(s.subrange(8, 12)) == n) by {
        crate::bytes::le32_round_trip(height);
        crate::bytes::le32_round_trip(n);
    }
    assert(parsed_entries(s.skip(12), n as nat, Seq::empty()) == Ok::<_, LoadError>(entries)) by {
        assert(Seq::<(Outpoint, OwnedUtxo)>::empty() + entries =~= entries);
        lemma_entries_round_trip(Seq::empty(), entries, tail);
    }
}

proof fn lemma_utxo_prefix(u: OwnedUtxo, n: int)
    requires
        is_x_coordinate(u.x_only_pubkey@),
        u.x_only_pubkey@.len() == 32,
        0 <= n < utxo_bytes(u).len(),
    ensures
        parsed_utxo(utxo_bytes(u).take(n)) == Err::<(OwnedUtxo, int), _>(LoadError::UnexpectedEof),
{
    broadcast use {crate::bytes::le32_round_trip, crate::bytes::le64_round_trip};

    reveal(utxo_bytes);
    reveal(parsed_utxo);

    let s = utxo_bytes(u);
    if n >= 68 {
        assert(s.take(n).subrange(36, 68) =~= u.x_only_pubkey@);
    }
    if n >= 86 {
        assert(s[85] == 1);
    }
}

proof fn lemma_entries_prefix(
    before: Seq<(Outpoint, OwnedUtxo)>,
    rest: Seq<(Outpoint, OwnedUtxo)>,
    n: int,
)
    requires
        good_keys(rest),
        0 <= n < entries_bytes(rest).len(),
    ensures
        parsed_entries(entries_bytes(rest).take(n), rest.len(), before) == Err::<
            Seq<(Outpoint, OwnedUtxo)>,
            _,
        >(LoadError::UnexpectedEof),
    decreases rest.len(),
{
    if rest.len() > 0 {
        let u = rest[0].1;
        let first = utxo_bytes(u);
        let more = entries_bytes(rest.skip(1));
        let s = entries_bytes(rest).take(n);
        if n < first.len() {
            assert(s =~= first.take(n));
            lemma_utxo_prefix(u, n);
        } else {
            let tail = more.take(n - first.len());
            assert(s =~= first + tail);
            lemma_utxo_round_trip(u, tail);
            assert(s.skip(first.len() as int) =~= tail);
            assert forall|i: int| 0 <= i < rest.skip(1).len() implies is_x_coordinate(
                (#[trigger] rest.skip(1)[i]).1.x_only_pubkey@,
            ) && rest.skip(1)[i].1.x_only_pubkey@.len() == 32 by {
                assert(rest.skip(1)[i] == rest[i + 1]);
            }
            lemma_entries_prefix(with_entry(before, u.outpoint, u), rest.skip(1), n - first.len());
        }
    }
}

/// No proper prefix of a saved wallet is read as a wallet: it ends too early.
pub proof fn wallet_prefixes_are_refused(
    entries: Seq<(Outpoint, OwnedUtxo)>,
    height: u32,
    n: int,
)
    requires
        good_keys(entries),
        entries.len() <= u32::MAX,
        0 <= n < wallet_bytes(entries, height).len(),
    ensures
        parsed_wallet(wallet_bytes(entries, height).take(n)) == Err::<
            (Seq<(Outpoint, OwnedUtxo)>, u32),
            _,
        >(LoadError::UnexpectedEof),
{
    let s = wallet_bytes(entries, height);
    let count = (entries.len() % 0x1_0000_0000) as u32;
    let t = s.take(n);
    crate::bytes::le32_round_trip(height);
    crate::bytes::le32_round_trip(count);
    if n >= 4 {
        assert(t.take(4) =~= wallet_magic());
    }
    if n >= 12 {
        assert(t.subrange(8, 12) =~= le32(count));
        assert(t.skip(12) =~= entries_bytes(entries).take(n - 12));
        lemma_entries_prefix(Seq::empty(), entries, n - 12);
    }
}

/// Where the parts of a saved output stand, and what their bytes spell; numbers have their
/// least significant byte first.
pub proof fn saved_outputs_have_their_layout(u: OwnedUtxo)
    requires
        u.x_only_pubkey@.len() == 32,
    ensures
        ({
            let s = utxo_bytes(u);
            &&& s.len() == if u.spent_by is Some { 122int } else { 86int }
            &&& s.subrange(0, 32) == u.outpoint.txid@
            &&& be_value(s.subrange(32, 36).reverse()) == u.outpoint.vout
            &&& s.subrange(36, 68) == u.x_only_pubkey@
            &&& be_value(s.subrange(68, 72).reverse()) == u.k
            &&& (be_value(s.subrange(72, 80).reverse()) - u.amount) % 0x1_0000_0000_0000_0000 == 0
            &&& be_value(s.subrange(80, 84).reverse()) == u.block_height
            &&& s[84] == if u.spent { 1int } else { 0int }
            &&& s[85] == if u.spent_by is Some { 1int } else { 0int }
            &&& u.spent_by matches Some(by) ==> s.subrange(86, 118) == by.txid@ && be_value(
                s.subrange(118, 122).reverse(),
            ) == by.block_height
        }),
{
    reveal(utxo_bytes);
    let s = utxo_bytes(u);
    le32_spells(u.outpoint.vout);
    le32_spells(u.k);
    le64_spells(unsigned(u.amount));
    le32_spells(u.block_height);
    signedness_keeps_bits(u.amount, 0);
    assert(s.subrange(0, 32) =~= u.outpoint.txid@);
    assert(s.subrange(32, 36) =~= le32(u.outpoint.vout));
    assert(s.subrange(36, 68) =~= u.x_only_pubkey@);
    assert(s.subrange(68, 72) =~= le32(u.k));
    assert(s.subrange(72, 80) =~= le64(unsigned(u.amount)));
    assert(s.subrange(80, 84) =~= le32(u.block_height));
    if let Some(by) = u.spent_by {
        le32_spells(by.block_height);
        assert(s.subrange(86, 118) =~= by.txid@);
        assert(s.subrange(118, 122) =~= le32(by.block_height));
    }
}

/// A saved wallet begins with the letters SP01, its height and the number of its outputs,
/// and goes on with the outputs, one behind another.
pub proof fn saved_wallets_have_their_layout(
    entries: Seq<(Outpoint, OwnedUtxo)>,
    height: u32,
    e: (Outpoint, OwnedUtxo),
)
    requires
        entries.len() < 0xffff_ffff,
    ensures
        ({
            let s = wallet_bytes(entries, height);
            let t = wallet_bytes(entries.push(e), height);
            &&& s.len() >= 12
            &&& s[0] == 'S' as u8 && s[1] == 'P' as u8 && s[2] == '0' as u8 && s[3] == '1' as u8
            &&& be_value(s.subrange(4, 8).reverse()) == height
            &&& be_value(s.subrange(8, 12).reverse()) == entries.len()
            &&& entries.len() == 0 ==> s.len() == 12
            &&& t.skip(12) == s.skip(12) + utxo_bytes(e.1)
        }),
{
    let s = wallet_bytes(entries, height);
    let t = wallet_bytes(entries.push(e), height);
    le32_spells(height);
    le32_spells(entries.len() as u32);
    le32_spells((entries.len() + 1) as u32);
    assert(s.subrange(4, 8) =~= le32(height));
    assert(s.subrange(8, 12) =~= le32(entries.len() as u32));
    assert(s.skip(12) =~= entries_bytes(entries));
    assert(t.skip(12) =~= entries_bytes(entries.push(e)));
    lemma_entries_bytes_push(entries, e);
}

proof fn lemma_entries_bytes_push(entries: Seq<(Outpoint, OwnedUtxo)>, e: (Outpoint, OwnedUtxo))
    ensures
        entries_bytes(entries.push(e)) == entries_bytes(entries) + utxo_bytes(e.1),
    decreases entries.len(),
{
    reveal_with_fuel(entries_bytes, 2);
    let all = entries.push(e);
    if entries.len() == 0 {
        assert(entries_bytes(all) =~= entries_bytes(entries) + utxo_bytes(e.1));
    } else {
        lemma_entries_bytes_push(entries.skip(1), e);
        assert(all.skip(1) =~= entries.skip(1).push(e));
        assert(entries_bytes(all) =~= entries_bytes(entries) + utxo_bytes(e.1));
    }
}

/// Any flag but zero is read as set.
pub proof fn set_flags_are_read(s: Seq<u8>)
    ensures
        parsed_utxo(s) matches Ok((u, len)) ==> {
            &&& u.spent == (s[84] != 0)
            &&& (u.spent_by is Some) == (s[85] != 0)
            &&& len == if s[85] != 0 { 122int } else { 86int }
            &&& len <= s.len()
        },
{
    reveal(parsed_utxo);
}

fn put_utxo(out: &mut Vec<u8>, utxo: &OwnedUtxo)
    ensures
        final(out)@ == old(out)@ + utxo_bytes(*utxo),
        is_x_coordinate(utxo.x_only_pubkey@),
        utxo.x_only_pubkey@.len() == 32,
{
    let ghost before = out@;
    put_bytes(out, &utxo.outpoint.txid);
    put_le32(out, utxo.outpoint.vout);
    put_bytes(out, &utxo.x_only_pubkey.serialize());
    put_le32(out, utxo.k);
    put_le64(out, to_unsigned(utxo.amount));
    put_le32(out, utxo.block_height);
    out.push(if utxo.spent {
        1u8
    } else {
        0u8
    });
    match &utxo.spent_by {
        Some(spent_by) => {
            out.push(1);
            put_bytes(out, &spent_by.txid);
            put_le32(out, spent_by.block_height);
        },
        None => {
            out.push(0);
        },
    }
    proof {
        reveal(utxo_bytes);
        assert(out@ =~= before + utxo_bytes(*utxo));
    }
}

fn get_utxo(s: &[u8], at: usize) -> (r: Result<(OwnedUtxo, usize), LoadError>)
    requires
        at <= s@.len(),
    ensures
        match r {
            Ok((u, next)) => at <= next <= s@.len() && parsed_utxo(s@.skip(at as int)) == Ok::<
                _,
                LoadError,
            >((u, next - at)),
            Err(e) => parsed_utxo(s@.skip(at as int)) == Err::<(OwnedUtxo, int), _>(e),
        },
{
    let len: usize = s.len();
    let ghost t = s@.skip(at as int);
    proof {
        reveal(parsed_utxo);
    }
    if len - at < 68 {
        return Err(LoadError::UnexpectedEof);
    }
    let key_bytes: [u8; 32] = get_array(s, at + 36);
    assert(key_bytes@ =~= t.subrange(36, 68));
    let x_only_pubkey = match XOnlyPublicKey::from_slice(&key_bytes) {
        Ok(k) => k,
        Err(_) => {
            return Err(LoadError::BadKey);
        },
    };
    if len - at < 86 {
        return Err(LoadError::UnexpectedEof);
    }
    let by_flag: u8 = s[at + 85];
    if by_flag != 0 && len - at < 122 {
        return Err(LoadError::UnexpectedEof);
    }
    let txid: [u8; 32] = get_array(s, at);
    let outpoint = Outpoint { txid, vout: get_le32(s, at + 32) };
    let spent_by = if by_flag != 0 {
        let by_txid: [u8; 32] = get_array(s, at + 86);
        proof {
            array_of_view(by_txid);
            assert(by_txid@ =~= t.subrange(86, 118));
            assert(s@.subrange(at + 118, at + 122) =~= t.subrange(118, 122));
        }
        Some(SpentBy { txid: by_txid, block_height: get_le32(s, at + 118) })
    } else {
        None
    };
    let utxo = OwnedUtxo {
        outpoint,
        x_only_pubkey,
        k: get_le32(s, at + 68),
        amount: to_signed(get_le64(s, at + 72)),
        block_height: get_le32(s, at + 80),
        spent: s[at + 84] != 0,
        spent_by,
    };
    proof {
        array_of_view(txid);
        x_only_of_view(x_only_pubkey);
        assert(txid@ =~= t.subrange(0, 32));
        assert(s@.subrange(at + 32, at + 36) =~= t.subrange(32, 36));
        assert(s@.subrange(at + 68, at + 72) =~= t.subrange(68, 72));
        assert(s@.subrange(at + 72, at + 80) =~= t.subrange(72, 80));
        assert(s@.subrange(at + 80, at + 84) =~= t.subrange(80, 84));
    }
    Ok((utxo, if by_flag != 0 {
        at + 122
    } else {
        at + 86
    }))
}

impl SilentPaymentWallet {
    /// The wallet as bytes. Reading them back, with anything behind them, gives the
    /// wallet, and no proper prefix of them is read as a wallet, unless it has more outputs
    /// than thirty-two bits can count.
    pub fn save(&self) -> (r: Vec<u8>)
        requires
            self.wf(),
        ensures
            r@ == wallet_bytes(self.entries(), self.height()),
            self.entries().len() <= u32::MAX ==> forall|tail: Seq<u8>| #[trigger]
                parsed_wallet(r@ + tail) == Ok::<_, LoadError>((self.entries(), self.height())),
            self.entries().len() <= u32::MAX ==> forall|n: int|
                0 <= n < r@.len() ==> #[trigger] parsed_wallet(r@.take(n)) == Err::<
                    (Seq<(Outpoint, OwnedUtxo)>, u32),
                    _,
                >(LoadError::UnexpectedEof),
    {
        let mut out: Vec<u8> = Vec::new();
        let magic: [u8; 4] = [0x53, 0x50, 0x30, 0x31];
        put_bytes(&mut out, &magic);
        put_le32(&mut out, self.scan_height);
        let count: usize = self.utxos.len();
        put_le32(&mut out, (count as u64 % 0x1_0000_0000) as u32);
        assert(magic@ =~= wallet_magic());
        let mut i: usize = 0;
        assert(self.entries().skip(0) =~= self.entries());
        assert(out@ + entries_bytes(self.entries()) =~= wallet_bytes(
            self.entries(),
            self.height(),
        ));
        while i < self.utxos.len()
            invariant
                i <= self.entries().len(),
                self.entries() == self.utxos.order(),
                out@ + entries_bytes(self.entries().skip(i as int)) == wallet_bytes(
                    self.entries(),
                    self.height(),
                ),
                good_keys(self.entries().take(i as int)),
            decreases self.entries().len() - i,
        {
            let ghost before = out@;
            let utxo = &self.utxos.at(i).1;
            put_utxo(&mut out, utxo);
            i = i + 1;
            proof {
                let rest = self.entries().skip(i - 1);
                assert(rest.skip(1) =~= self.entries().skip(i as int));
                assert(rest[0].1 == *utxo);
                assert(out@ + entries_bytes(rest.skip(1)) =~= before + entries_bytes(rest));
                assert forall|j: int| 0 <= j < i implies is_x_coordinate(
                    (#[trigger] self.entries().take(i as int)[j]).1.x_only_pubkey@,
                ) && self.entries().take(i as int)[j].1.x_only_pubkey@.len() == 32 by {
                    if j < i - 1 {
                        assert(self.entries().take(i - 1)[j] == self.entries().take(i as int)[j]);
                    }
                }
            }
        }
        proof {
            assert(self.entries().take(i as int) =~= self.entries());
            assert(entries_bytes(self.entries().skip(i as int)) =~= Seq::<u8>::empty());
            assert(out@ =~= wallet_bytes(self.entries(), self.height()));
            if self.entries().len() <= u32::MAX {
                assert forall|n: int| 0 <= n < out@.len() implies #[trigger] parsed_wallet(
                    out@.take(n),
                ) == Err::<(Seq<(Outpoint, OwnedUtxo)>, u32), _>(LoadError::UnexpectedEof) by {
                    wallet_prefixes_are_refused(self.entries(), self.height(), n);
                }
                assert forall|tail: Seq<u8>| #[trigger] parsed_wallet(out@ + tail) == Ok::<
                    _,
                    LoadError,
                >((self.entries(), self.height())) by {
                    lemma_wallet_round_trip(self.entries(), self.height(), tail);
                }
            }
        }
        out
    }

    /// Reads a wallet back from bytes.
    pub fn load(s: &[u8]) -> (r: Result<Self, LoadError>)
        ensures
            match r {
                Ok(w) => w.wf() && parsed_wallet(s@) == Ok::<_, LoadError>(
                    (w.entries(), w.height()),
                ),
                Err(e) => parsed_wallet(s@) == Err::<(Seq<(Outpoint, OwnedUtxo)>, u32), _>(e),
            },
    {
        if s.len() < 4 {
            return Err(LoadError::UnexpectedEof);
        }
        let magic: [u8; 4] = get_array(s, 0);
        let expected: [u8; 4] = [0x53, 0x50, 0x30, 0x31];
        assert(expected@ =~= wallet_magic());
        assert(magic@ =~= s@.take(4));
        if !bytes_equal(&magic, &expected) {
            return Err(LoadError::BadMagic);
        }
        if s.len() < 12 {
            return Err(LoadError::UnexpectedEof);
        }
        let scan_height: u32 = get_le32(s, 4);
        let count: u32 = get_le32(s, 8);
        let mut utxos: OutpointMap<OwnedUtxo> = OutpointMap::new();
        let mut at: usize = 12;
        let mut left: u32 = count;
        while left > 0
            invariant
                at <= s@.len(),
                utxos.wf(),
                keyed(utxos.order()),
                parsed_entries(s@.skip(12), count as nat, Seq::empty()) == parsed_entries(
                    s@.skip(at as int),
                    left as nat,
                    utxos.order(),
                ),
                parsed_wallet(s@) == (match parsed_entries(
                    s@.skip(12),
                    count as nat,
                    Seq::empty(),
                ) {
                    Ok(entries) => Ok((entries, scan_height)),
                    Err(e) => Err(e),
                }),
            decreases left,
        {
            match get_utxo(s, at) {
                Ok((utxo, next)) => {
                    proof {
                        assert(s@.skip(at as int).skip(next - at) =~= s@.skip(next as int));
                        position_meaning(utxos.order(), utxo.outpoint);
                    }
                    utxos.insert(utxo.outpoint, utxo);
                    at = next;
                },
                Err(e) => {
                    return Err(e);
                },
            }
            left = left - 1;
        }
        Ok(SilentPaymentWallet { utxos, scan_height })
    }
}

impl Default for SilentPaymentWallet {
    fn default() -> (r: Self)
        ensures
            r.wf(),
            r.entries() == Seq::<(Outpoint, OwnedUtxo)>::empty(),
            r.height() == 0,
    {
        SilentPaymentWallet::new()
    }
}

/// An event in the history of a wallet.
#[derive(Clone, Copy, Debug, PartialEq, Eq)]
pub enum HistoryEntry {
    Received { outpoint: Outpoint, amount: i64, block_height: u32 },
    Spent { outpoint: Outpoint, amount: i64, spending_txid: [u8; 32], block_height: u32 },
}

impl HistoryEntry {
    /// The height of the entry's block.
    pub open spec fn height(&self) -> u32 {
        match *self {
            HistoryEntry::Received { block_height, .. } => block_height,
            HistoryEntry::Spent { block_height, .. } => block_height,
        }
    }

    /// What the entry adds to the balance.
    pub open spec fn change(&self) -> int {
        match *self {
            HistoryEntry::Received { amount, .. } => amount as int,
            HistoryEntry::Spent { amount, .. } => -amount,
        }
    }

    /// The height of the entry's block.
    pub fn block_height(&self) -> (r: u32)
        ensures
            r == self.height(),
    {
        match self {
            HistoryEntry::Received { block_height, .. } => *block_height,
            HistoryEntry::Spent { block_height, .. } => *block_height,
        }
    }

    /// What the entry adds to the balance.
    pub fn signed_amount(&self) -> (r: i64)
        requires
            self.change() <= i64::MAX,
        ensures
            r == self.change(),
    {
        match self {
            HistoryEntry::Received { amount, .. } => *amount,
            HistoryEntry::Spent { amount, .. } => -(*amount),
        }
    }
}

impl Ranked for HistoryEntry {
    /// Entries are ordered by height, and in one block what was received comes first.
    open spec fn rank_of(&self) -> int {
        2 * self.height() + if *self is Spent {
            1int
        } else {
            0int
        }
    }

    fn rank(&self) -> (r: u64) {
        match self {
            HistoryEntry::Received { block_height, .. } => 2 * (*block_height as u64),
            HistoryEntry::Spent { block_height, .. } => 2 * (*block_height as u64) + 1,
        }
    }
}

/// The entry of an output's receipt.
pub open spec fn receipt(u: OwnedUtxo) -> HistoryEntry {
    HistoryEntry::Received { outpoint: u.outpoint, amount: u.amount, block_height: u.block_height }
}

/// The entry of an output's spend.
pub open spec fn spend(u: OwnedUtxo, by: SpentBy) -> HistoryEntry {
    HistoryEntry::Spent {
        outpoint: u.outpoint,
        amount: u.amount,
        spending_txid: by.txid,
        block_height: by.block_height,
    }
}

/// The events of outputs, output by output.
pub open spec fn events(utxos: Seq<OwnedUtxo>) -> Seq<HistoryEntry>
    decreases utxos.len(),
{
    if utxos.len() == 0 {
        Seq::empty()
    } else {
        let u = utxos.last();
        let received = events(utxos.drop_last()).push(receipt(u));
        match u.spent_by {
            Some(by) => received.push(spend(u, by)),
            None => received,
        }
    }
}

/// The history of a wallet by height, with what a block brought before what it took.
pub fn build_history(wallet: &SilentPaymentWallet) -> (r: Vec<HistoryEntry>)
    ensures
        stably_sorted(r@, events(values(wallet.entries()))),
        forall|i: int|
            0 <= i < wallet.entries().len() ==> {
                let u = (#[trigger] wallet.entries()[i]).1;
                &&& r@.contains(
                    HistoryEntry::Received {
                        outpoint: u.outpoint,
                        amount: u.amount,
                        block_height: u.block_height,
                    },
                )
                &&& u.spent_by matches Some(by) ==> r@.contains(
                    HistoryEntry::Spent {
                        outpoint: u.outpoint,
                        amount: u.amount,
                        spending_txid: by.txid,
                        block_height: by.block_height,
                    },
                )
            },
{
    let mut entries: Vec<HistoryEntry> = Vec::new();
    let utxos = wallet.all_utxos();
    let ghost all = values(wallet.entries());
    let mut i: usize = 0;
    while i < utxos.len()
        invariant
            i <= utxos@.len(),
            all == referents(utxos@),
            entries@ == events(all.take(i as int)),
        decreases utxos@.len() - i,
    {
        let utxo = utxos[i];
        entries.push(
            HistoryEntry::Received {
                outpoint: utxo.outpoint,
                amount: utxo.amount,
                block_height: utxo.block_height,
            },
        );
        if let Some(spent_by) = &utxo.spent_by {
            entries.push(
                HistoryEntry::Spent {
                    outpoint: utxo.outpoint,
                    amount: utxo.amount,
                    spending_txid: spent_by.txid,
                    block_height: spent_by.block_height,
                },
            );
        }
        i = i + 1;
        proof {
            let done = all.take(i as int);
            assert(done.drop_last() =~= all.take(i - 1));
            assert(done.last() == *utxo);
        }
    }
    assert(all.take(i as int) =~= all);
    let r = stable_sort(entries);
    proof {
        assert forall|i: int| 0 <= i < wallet.entries().len() implies {
            let u = (#[trigger] wallet.entries()[i]).1;
            &&& r@.contains(
                HistoryEntry::Received {
                    outpoint: u.outpoint,
                    amount: u.amount,
                    block_height: u.block_height,
                },
            )
            &&& u.spent_by matches Some(by) ==> r@.contains(
                HistoryEntry::Spent {
                    outpoint: u.outpoint,
                    amount: u.amount,
                    spending_txid: by.txid,
                    block_height: by.block_height,
                },
            )
        } by {
            assert(all[i] == wallet.entries()[i].1);
            history_is_complete(r@, all, i);
        }
    }
    r
}

/// A history holds the receipt of every output and the spend of every output that has
/// one.
pub proof fn history_is_complete(history: Seq<HistoryEntry>, utxos: Seq<OwnedUtxo>, i: int)
    requires
        stably_sorted(history, events(utxos)),
        0 <= i < utxos.len(),
    ensures
        history.contains(receipt(utxos[i])),
        utxos[i].spent_by matches Some(by) ==> history.contains(spend(utxos[i], by)),
{
    lemma_events_hold(utxos, i);
    stably_sorted_same_items(history, events(utxos), receipt(utxos[i]));
    if let Some(by) = utxos[i].spent_by {
        stably_sorted_same_items(history, events(utxos), spend(utxos[i], by));
    }
}

proof fn lemma_events_hold(utxos: Seq<OwnedUtxo>, i: int)
    requires
        0 <= i < utxos.len(),
    ensures
        events(utxos).contains(receipt(utxos[i])),
        utxos[i].spent_by matches Some(by) ==> events(utxos).contains(spend(utxos[i], by)),
    decreases utxos.len(),
{
    let before = events(utxos.drop_last());
    let all = events(utxos);
    assert forall|e: HistoryEntry| before.contains(e) implies all.contains(e) by {
        let j = choose|j: int| 0 <= j < before.len() && before[j] == e;
        assert(all[j] == e);
    }
    if i < utxos.len() - 1 {
        lemma_events_hold(utxos.drop_last(), i);
    } else {
        assert(all[before.len() as int] == receipt(utxos[i]));
        if let Some(by) = utxos[i].spent_by {
            assert(all[before.len() as int + 1] == spend(utxos[i], by));
        }
    }
}

/// A history holds nothing but the receipts and spends of the outputs.
pub proof fn history_is_sound(history: Seq<HistoryEntry>, utxos: Seq<OwnedUtxo>, e: HistoryEntry)
    requires
        stably_sorted(history, events(utxos)),
        history.contains(e),
    ensures
        exists|u: OwnedUtxo| #[trigger]
            utxos.contains(u) && (e == receipt(u) || u.spent_by is Some && e == spend(
                u,
                u.spent_by.unwrap(),
            )),
{
    stably_sorted_same_items(history, events(utxos), e);
    lemma_events_only(utxos, e);
}

proof fn lemma_events_only(utxos: Seq<OwnedUtxo>, e: HistoryEntry)
    requires
        events(utxos).contains(e),
    ensures
        exists|u: OwnedUtxo| #[trigger]
            utxos.contains(u) && (e == receipt(u) || u.spent_by is Some && e == spend(
                u,
                u.spent_by.unwrap(),
            )),
    decreases utxos.len(),
{
    if utxos.len() > 0 {
        let before = events(utxos.drop_last());
        let u = utxos.last();
        if before.contains(e) {
            lemma_events_only(utxos.drop_last(), e);
            let v = choose|v: OwnedUtxo| #[trigger]
                utxos.drop_last().contains(v) && (e == receipt(v) || v.spent_by is Some && e
                    == spend(v, v.spent_by.unwrap()));
            let j = choose|j: int| 0 <= j < utxos.drop_last().len() && utxos.drop_last()[j] == v;
            assert(utxos[j] == v);
            assert(utxos.contains(v));
        } else {
            assert(utxos.contains(u));
            let j = choose|j: int| 0 <= j < events(utxos).len() && events(utxos)[j] == e;
            if j < before.len() {
                assert(before[j] == e);
            }
        }
    }
}

/// A history holds, for each output, its receipt, with its amount, at the height at which it
/// came, and, where it says what spent it, its spend, with the same amount, by that
/// transaction and at that height; and nothing else.
pub proof fn history_tells_of_each_output(
    history: Seq<HistoryEntry>,
    utxos: Seq<OwnedUtxo>,
    x: HistoryEntry,
)
    requires
        stably_sorted(history, events(utxos)),
    ensures
        history.contains(x) <==> match x {
            HistoryEntry::Received { outpoint, amount, block_height } => exists|i: int|
                0 <= i < utxos.len() && (#[trigger] utxos[i]).outpoint == outpoint
                    && utxos[i].amount == amount && utxos[i].block_height == block_height,
            HistoryEntry::Spent { outpoint, amount, spending_txid, block_height } => exists|i: int|
                0 <= i < utxos.len() && (#[trigger] utxos[i]).outpoint == outpoint
                    && utxos[i].amount == amount && utxos[i].spent_by is Some
                    && utxos[i].spent_by.unwrap().txid == spending_txid
                    && utxos[i].spent_by.unwrap().block_height == block_height,
        },
{
    if history.contains(x) {
        history_is_sound(history, utxos, x);
        let u = choose|u: OwnedUtxo| #[trigger]
            utxos.contains(u) && (x == receipt(u) || u.spent_by is Some && x == spend(
                u,
                u.spent_by.unwrap(),
            ));
        let i = choose|i: int| 0 <= i < utxos.len() && utxos[i] == u;
        assert(utxos[i] == u);
    }
    match x {
        HistoryEntry::Received { outpoint, amount, block_height } => {
            if exists|i: int|
                0 <= i < utxos.len() && (#[trigger] utxos[i]).outpoint == outpoint
                    && utxos[i].amount == amount && utxos[i].block_height == block_height {
                let i = choose|i: int|
                    0 <= i < utxos.len() && (#[trigger] utxos[i]).outpoint == outpoint
                        && utxos[i].amount == amount && utxos[i].block_height == block_height;
                history_is_complete(history, utxos, i);
            }
        },
        HistoryEntry::Spent { outpoint, amount, spending_txid, block_height } => {
            if exists|i: int|
                0 <= i < utxos.len() && (#[trigger] utxos[i]).outpoint == outpoint
                    && utxos[i].amount == amount && utxos[i].spent_by is Some
                    && utxos[i].spent_by.unwrap().txid == spending_txid
                    && utxos[i].spent_by.unwrap().block_height == block_height {
                let i = choose|i: int|
                    0 <= i < utxos.len() && (#[trigger] utxos[i]).outpoint == outpoint
                        && utxos[i].amount == amount && utxos[i].spent_by is Some
                        && utxos[i].spent_by.unwrap().txid == spending_txid
                        && utxos[i].spent_by.unwrap().block_height == block_height;
                history_is_complete(history, utxos, i);
            }
        },
    }
}

/// The heights of a history never fall, and of what happened at one height the receipts come
/// before the spends.
pub proof fn history_is_in_order(history: Seq<HistoryEntry>, utxos: Seq<OwnedUtxo>, i: int, j: int)
    requires
        stably_sorted(history, events(utxos)),
        0 <= i < j < history.len(),
    ensures
        match (history[i], history[j]) {
            (
                HistoryEntry::Received { block_height: a, .. },
                HistoryEntry::Received { block_height: b, .. },
            ) => a <= b,
            (
                HistoryEntry::Received { block_height: a, .. },
                HistoryEntry::Spent { block_height: b, .. },
            ) => a <= b,
            (
                HistoryEntry::Spent { block_height: a, .. },
                HistoryEntry::Received { block_height: b, .. },
            ) => a < b,
            (
                HistoryEntry::Spent { block_height: a, .. },
                HistoryEntry::Spent { block_height: b, .. },
            ) => a <= b,
        },
{
    assert(history[i].rank_of() <= history[j].rank_of());
}

/// Whether exactly the outputs that are marked as spent say what spent them.
pub open spec fn spends_explained(entries: Seq<(Outpoint, OwnedUtxo)>) -> bool {
    forall|i: int|
        0 <= i < entries.len() ==> (#[trigger] entries[i]).1.spent == (entries[i].1.spent_by is Some)
}

/// Payments and spends keep it true that exactly the spent outputs say what spent them.
pub proof fn spends_stay_explained(
    entries: Seq<(Outpoint, OwnedUtxo)>,
    payments: Seq<FoundPayment>,
    inputs: Seq<([u8; 32], [u8; 32], u32)>,
    block_height: u32,
)
    requires
        spends_explained(entries),
    ensures
        spends_explained(with_payments(entries, payments, block_height)),
        spends_explained(with_spends(entries, inputs, block_height)),
    decreases payments.len() + inputs.len(),
{
    if payments.len() > 0 {
        spends_stay_explained(entries, payments.drop_last(), Seq::empty(), block_height);
        let p = payments.last();
        let before = with_payments(entries, payments.drop_last(), block_height);
        position_meaning(before, payment_outpoint(p));
    }
    if inputs.len() > 0 {
        spends_stay_explained(entries, Seq::empty(), inputs.drop_last(), block_height);
        let before = with_spends(entries, inputs.drop_last(), block_height);
        position_meaning(before, input_outpoint(inputs.last()));
    }
}

/// What an entry adds to the balance.
pub open spec fn change_of() -> spec_fn(HistoryEntry) -> int {
    |e: HistoryEntry| e.change()
}

/// The sum of what history entries add to the balance.
pub open spec fn total_change(history: Seq<HistoryEntry>) -> int {
    total_by(history, change_of())
}

/// Where exactly the spent outputs say what spent them, the history of a wallet adds up to
/// its balance.
pub proof fn history_adds_up(history: Seq<HistoryEntry>, entries: Seq<(Outpoint, OwnedUtxo)>)
    requires
        spends_explained(entries),
        stably_sorted(history, events(values(entries))),
    ensures
        total_change(history) == total_amount(unspent(entries)),
{
    events_add_up(entries);
    stably_sorted_same_counts(history, events(values(entries)));
    same_counts_same_total(history, events(values(entries)), change_of());
}

/// Where exactly the spent outputs say what spent them, the events of a wallet add up to
/// its balance.
pub proof fn events_add_up(entries: Seq<(Outpoint, OwnedUtxo)>)
    requires
        spends_explained(entries),
    ensures
        total_change(events(values(entries))) == total_amount(unspent(entries)),
    decreases entries.len(),
{
    if entries.len() > 0 {
        let u = entries.last().1;
        events_add_up(entries.drop_last());
        assert(values(entries).drop_last() =~= values(entries.drop_last()));
        assert(values(entries).last() == u);
        assert(entries[entries.len() - 1].1 == u);
        let before = events(values(entries.drop_last()));
        let received = before.push(receipt(u));
        assert(received.drop_last() =~= before);
        assert(total_change(received) == total_change(before) + u.amount);
        if let Some(by) = u.spent_by {
            assert(received.push(spend(u, by)).drop_last() =~= received);
        }
        let kept = unspent(entries.drop_last());
        assert(kept.push(u).drop_last() =~= kept);
    }
}

/// A receipt adds its amount to the balance and a spend takes its amount away, each at its
/// own height.
pub proof fn entries_say_their_height_and_change(
    outpoint: Outpoint,
    amount: i64,
    txid: [u8; 32],
    height: u32,
)
    ensures
        ({
            let received = HistoryEntry::Received { outpoint, amount, block_height: height };
            let spent = HistoryEntry::Spent {
                outpoint,
                amount,
                spending_txid: txid,
                block_height: height,
            };
            &&& received.height() == height && spent.height() == height
            &&& received.change() == amount && spent.change() == 0 - amount
        }),
{
}

} // verus!
