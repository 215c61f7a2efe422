//! Scanning the blocks that the node takes in.

use vstd::prelude::*;
use crate::bytes::to_vec;
use crate::chain::{
    block_of_bytes, compute_txid, decode_block, item_views, signed_views, txid_of, Block,
    Transaction, TxIn,
};
use crate::outpoints::Outpoint;
use crate::secp::{PublicKey, SecretKey};
use crate::silentpayments::scanning::is_p2tr;
use crate::text::{hex, hex_round_trip, unhex};
use crate::wallet::account::{receive_with, receiver_of, ImportError};
use crate::wallet::bip352::input_readable;
use crate::wallet::scanning::{
    block_data, block_readable, block_result, block_usable, block_values, checked_scan_block,
    data_views, inputs_readable, FoundPayment, InputData, InputDataView,
};
use crate::wallet::sending::shown_txid;
use crate::wallet::utxos::{last_found, with_found, with_transactions, SilentPaymentWallet};
use crate::wallet::Network;

verus! {

/// The scripts of spent outputs, transaction by transaction, as values.
pub open spec fn spent_views(spent: Seq<Vec<Vec<u8>>>) -> Seq<Seq<Seq<u8>>> {
    spent.map_values(|scripts: Vec<Vec<u8>>| item_views(scripts@))
}

/// An input with the script of the output that it spends.
pub open spec fn paired_input(input: TxIn, script: Seq<u8>) -> InputDataView {
    InputDataView {
        script_sig: input.script_sig@,
        witness: item_views(input.witness@),
        prevout_script: script,
        txid: hex(input.previous_output.txid@.reverse()),
        vout: input.previous_output.vout,
    }
}

/// The inputs of a transaction with the scripts of the outputs that they spend. An input
/// whose spent output is not known is left out.
pub open spec fn paired_inputs(inputs: Seq<TxIn>, scripts: Seq<Seq<u8>>) -> Seq<InputDataView> {
    let n = if inputs.len() <= scripts.len() {
        inputs.len()
    } else {
        scripts.len()
    };
    Seq::new(n, |j: int| paired_input(inputs[j], scripts[j]))
}

/// The inputs of a block's transactions with the scripts of the outputs that they spend.
/// The coinbase spends nothing, so the first entry of `spent` belongs to the transaction
/// behind it.
pub open spec fn paired_block(txs: Seq<Transaction>, spent: Seq<Seq<Seq<u8>>>) -> Seq<
    Seq<InputDataView>,
> {
    let n = if txs.len() == 0 {
        0
    } else if spent.len() <= txs.len() - 1 {
        spent.len()
    } else {
        (txs.len() - 1) as nat
    };
    Seq::new(n, |i: int| paired_inputs(txs[i + 1].input@, spent[i]))
}

fn copy_items(items: &Vec<Vec<u8>>) -> (r: Vec<Vec<u8>>)
    ensures
        item_views(r@) == item_views(items@),
{
    let mut r: Vec<Vec<u8>> = Vec::new();
    let mut i: usize = 0;
    while i < items.len()
        invariant
            i <= items@.len(),
            item_views(r@) == item_views(items@).take(i as int),
        decreases items@.len() - i,
    {
        let ghost before = r@;
        r.push(to_vec(items[i].as_slice()));
        assert(item_views(r@) =~= item_views(before).push(items@[i as int]@));
        i = i + 1;
        assert(item_views(r@) =~= item_views(items@).take(i as int));
    }
    assert(item_views(items@).take(i as int) =~= item_views(items@));
    r
}

fn pair_transaction(inputs: &Vec<TxIn>, scripts: &Vec<Vec<u8>>) -> (r: Vec<InputData>)
    ensures
        data_views(r@) == paired_inputs(inputs@, item_views(scripts@)),
{
    let ghost all = paired_inputs(inputs@, item_views(scripts@));
    let mut r: Vec<InputData> = Vec::new();
    let mut j: usize = 0;
    assert(data_views(r@) =~= all.take(0));
    while j < inputs.len() && j < scripts.len()
        invariant
            j <= all.len(),
            all == paired_inputs(inputs@, item_views(scripts@)),
            data_views(r@) == all.take(j as int),
        decreases inputs@.len() - j,
    {
        let ghost before = r@;
        let input = &inputs[j];
        let data = InputData {
            script_sig: to_vec(input.script_sig.as_slice()),
            witness: copy_items(&input.witness),
            prevout_script: to_vec(scripts[j].as_slice()),
            txid: shown_txid(&input.previous_output.txid),
            vout: input.previous_output.vout,
        };
        assert(data@ =~= all[j as int]);
        r.push(data);
        assert(data_views(r@) =~= data_views(before).push(data@));
        j = j + 1;
        assert(data_views(r@) =~= all.take(j as int));
    }
    assert(all.take(j as int) =~= all);
    r
}

/// Pairs the inputs of a block's transactions with the scripts of the outputs that they
/// spend.
pub fn pair_inputs(block: &Block, spent: &Vec<Vec<Vec<u8>>>) -> (r: Vec<Vec<InputData>>)
    ensures
        block_data(r@) == paired_block(block.txdata@, spent_views(spent@)),
{
    let ghost all = paired_block(block.txdata@, spent_views(spent@));
    let mut r: Vec<Vec<InputData>> = Vec::new();
    let mut i: usize = 0;
    assert(block_data(r@) =~= all.take(0));
    while i < spent.len() && i < block.txdata.len() && i + 1 < block.txdata.len()
        invariant
            i <= all.len(),
            all == paired_block(block.txdata@, spent_views(spent@)),
            block_data(r@) == all.take(i as int),
        decreases spent@.len() - i,
    {
        let ghost before = r@;
        let data = pair_transaction(&block.txdata[i + 1].input, &spent[i]);
        assert(data_views(data@) == all[i as int]);
        r.push(data);
        assert(block_data(r@) =~= block_data(before).push(data_views(data@)));
        i = i + 1;
        assert(block_data(r@) =~= all.take(i as int));
    }
    assert(all.take(i as int) =~= all);
    r
}

/// The first transaction with a hash, from the `i`-th on.
pub open spec fn transaction_with(txs: Seq<Transaction>, txid: [u8; 32], i: int) -> Option<int>
    decreases txs.len() - i,
{
    if i < 0 || i >= txs.len() {
        None
    } else if txid_of(txs[i]@) == txid {
        Some(i)
    } else {
        transaction_with(txs, txid, i + 1)
    }
}

/// The value of an output of a block.
pub open spec fn output_value(txs: Seq<Transaction>, txid: [u8; 32], index: usize) -> Option<u64> {
    match transaction_with(txs, txid, 0) {
        Some(i) => if index < txs[i].output@.len() {
            Some(txs[i].output@[index as int].value)
        } else {
            None
        },
        None => None,
    }
}

/// The outputs that payments name, with their values; a payment without an output is
/// passed over.
pub open spec fn paid_outputs(
    txs: Seq<Transaction>,
    payments: Seq<([u8; 32], (usize, Seq<u8>))>,
) -> Seq<([u8; 32], usize, u64)>
    decreases payments.len(),
{
    if payments.len() == 0 {
        Seq::empty()
    } else {
        let before = paid_outputs(txs, payments.drop_last());
        let (txid, (index, _)) = payments.last();
        match output_value(txs, txid, index) {
            Some(value) => before.push((txid, index, value)),
            None => before,
        }
    }
}

proof fn lemma_transaction_with(txs: Seq<Transaction>, txid: [u8; 32], from: int)
    requires
        0 <= from,
    ensures
        match transaction_with(txs, txid, from) {
            Some(t) => {
                &&& from <= t < txs.len()
                &&& txid_of(txs[t]@) == txid
                &&& forall|u: int| from <= u < t ==> txid_of((#[trigger] txs[u])@) != txid
            },
            None => forall|u: int|
                from <= u < txs.len() ==> txid_of((#[trigger] txs[u])@) != txid,
        },
    decreases txs.len() - from,
{
    if from < txs.len() && txid_of(txs[from]@) != txid {
        lemma_transaction_with(txs, txid, from + 1);
    }
}

/// The value that is recorded for an output of a block is that very output's: the one with
/// its number, of the first transaction of the block with its transaction's hash.
pub proof fn output_values_are_of_the_output(
    txs: Seq<Transaction>,
    txid: [u8; 32],
    index: usize,
    t: int,
)
    requires
        0 <= t < txs.len(),
        txid_of(txs[t]@) == txid,
        forall|u: int| 0 <= u < t ==> txid_of((#[trigger] txs[u])@) != txid,
    ensures
        index < txs[t].output@.len() ==> output_value(txs, txid, index) == Some(
            txs[t].output@[index as int].value,
        ),
        index >= txs[t].output@.len() ==> output_value(txs, txid, index) is None,
{
    lemma_transaction_with(txs, txid, 0);
    if let Some(u) = transaction_with(txs, txid, 0) {
        assert(txid_of(txs[u]@) == txid);
    }
}

/// Each output that is taken in from a block is one that a payment names, and carries the
/// value of that very output: of an output of a transaction of the block, with the
/// transaction's hash and the output's number.
pub proof fn paid_outputs_are_outputs_of_the_block(
    txs: Seq<Transaction>,
    payments: Seq<([u8; 32], (usize, Seq<u8>))>,
    i: int,
)
    requires
        0 <= i < paid_outputs(txs, payments).len(),
    ensures
        ({
            let (txid, index, value) = paid_outputs(txs, payments)[i];
            &&& exists|t: int|
                0 <= t < txs.len() && txid_of((#[trigger] txs[t])@) == txid && index
                    < txs[t].output@.len() && txs[t].output@[index as int].value == value
            &&& exists|p: int|
                0 <= p < payments.len() && (#[trigger] payments[p]).0 == txid && payments[p].1.0
                    == index
        }),
    decreases payments.len(),
{
    let fewer = payments.drop_last();
    let before = paid_outputs(txs, fewer);
    if i < before.len() {
        paid_outputs_are_outputs_of_the_block(txs, fewer, i);
        let p = choose|p: int|
            0 <= p < fewer.len() && (#[trigger] fewer[p]).0 == before[i].0 && fewer[p].1.0
                == before[i].1;
        assert(payments[p] == fewer[p]);
    } else {
        let txid = payments.last().0;
        lemma_transaction_with(txs, txid, 0);
        let t = transaction_with(txs, txid, 0).unwrap();
        output_values_are_of_the_output(txs, txid, payments.last().1.0, t);
        assert(payments[payments.len() - 1] == payments.last());
        assert(txid_of(txs[t]@) == txid);
    }
}

/// Every payment that names an output of a block is taken in, with the value of that output.
pub proof fn payments_of_outputs_are_taken_in(
    txs: Seq<Transaction>,
    payments: Seq<([u8; 32], (usize, Seq<u8>))>,
    p: int,
    t: int,
)
    requires
        0 <= p < payments.len(),
        0 <= t < txs.len(),
        txid_of(txs[t]@) == payments[p].0,
        forall|u: int| 0 <= u < t ==> txid_of((#[trigger] txs[u])@) != payments[p].0,
        payments[p].1.0 < txs[t].output@.len(),
    ensures
        paid_outputs(txs, payments).contains(
            (
                payments[p].0,
                payments[p].1.0,
                txs[t].output@[payments[p].1.0 as int].value,
            ),
        ),
    decreases payments.len(),
{
    let fewer = payments.drop_last();
    let before = paid_outputs(txs, fewer);
    let after = paid_outputs(txs, payments);
    let x = (payments[p].0, payments[p].1.0, txs[t].output@[payments[p].1.0 as int].value);
    if p < fewer.len() {
        assert(fewer[p] == payments[p]);
        payments_of_outputs_are_taken_in(txs, fewer, p, t);
        let i = choose|i: int| 0 <= i < before.len() && before[i] == x;
        assert(after[i] == x);
    } else {
        output_values_are_of_the_output(txs, payments[p].0, payments[p].1.0, t);
        assert(after[before.len() as int] == x);
    }
}

/// Where every payment names an output of the block, as many outputs are taken in as there
/// are payments, in their order.
pub proof fn paid_outputs_follow_payments(
    txs: Seq<Transaction>,
    payments: Seq<([u8; 32], (usize, Seq<u8>))>,
    p: int,
)
    requires
        0 <= p < payments.len(),
        forall|q: int|
            0 <= q < payments.len() ==> exists|t: int|
                0 <= t < txs.len() && txid_of((#[trigger] txs[t])@) == (
                #[trigger] payments[q]).0 && payments[q].1.0 < txs[t].output@.len() && forall|
                    u: int,
                |
                    0 <= u < t ==> txid_of((#[trigger] txs[u])@) != payments[q].0,
    ensures
        paid_outputs(txs, payments).len() == payments.len(),
        paid_outputs(txs, payments)[p].0 == payments[p].0,
        paid_outputs(txs, payments)[p].1 == payments[p].1.0,
    decreases payments.len(),
{
    let fewer = payments.drop_last();
    let n = payments.len() - 1;
    assert forall|q: int| 0 <= q < fewer.len() implies exists|t: int|
        0 <= t < txs.len() && txid_of((#[trigger] txs[t])@) == (#[trigger] fewer[q]).0
            && fewer[q].1.0 < txs[t].output@.len() && forall|u: int|
            0 <= u < t ==> txid_of((#[trigger] txs[u])@) != fewer[q].0 by {
        assert(fewer[q] == payments[q]);
    }
    assert(payments.last() == payments[n]);
    let t = choose|t: int|
        0 <= t < txs.len() && txid_of((#[trigger] txs[t])@) == payments[n].0 && payments[n].1.0
            < txs[t].output@.len() && forall|u: int|
            0 <= u < t ==> txid_of((#[trigger] txs[u])@) != payments[n].0;
    output_values_are_of_the_output(txs, payments[n].0, payments[n].1.0, t);
    if p < n {
        paid_outputs_follow_payments(txs, fewer, p);
        assert(fewer[p] == payments[p]);
    } else if n > 0 {
        paid_outputs_follow_payments(txs, fewer, 0);
    } else {
        assert(paid_outputs(txs, fewer).len() == 0);
    }
    assert(output_value(txs, payments[n].0, payments[n].1.0) is Some);
    assert(paid_outputs(txs, fewer).len() == n);
}

/// The inputs of the transaction behind the coinbase are paired with the scripts that the
/// first entry holds, and so on; each input keeps what it has, and gets the script at its
/// own place.
pub proof fn inputs_are_paired_in_place(
    txs: Seq<Transaction>,
    spent: Seq<Seq<Seq<u8>>>,
    i: int,
    j: int,
)
    requires
        0 <= i < spent.len(),
        i + 1 < txs.len(),
        0 <= j < spent[i].len(),
        j < txs[i + 1].input@.len(),
    ensures
        ({
            let d = paired_block(txs, spent)[i][j];
            let input = txs[i + 1].input@[j];
            &&& i < paired_block(txs, spent).len() < txs.len()
            &&& j < paired_block(txs, spent)[i].len()
            &&& d.prevout_script == spent[i][j]
            &&& d.script_sig == input.script_sig@
            &&& d.witness.len() == input.witness@.len()
            &&& forall|w: int|
                0 <= w < input.witness@.len() ==> #[trigger] d.witness[w] == input.witness@[w]@
            &&& d.vout == input.previous_output.vout
            &&& unhex(d.txid) == Some(input.previous_output.txid@.reverse())
        }),
{
    hex_round_trip(txs[i + 1].input@[j].previous_output.txid@.reverse());
}

fn value_of_output(block: &Block, txid: &[u8; 32], index: usize) -> (r: Option<u64>)
    ensures
        r == output_value(block.txdata@, *txid, index),
{
    let mut i: usize = 0;
    while i < block.txdata.len()
        invariant
            i <= block.txdata@.len(),
            transaction_with(block.txdata@, *txid, 0) == transaction_with(
                block.txdata@,
                *txid,
                i as int,
            ),
        decreases block.txdata@.len() - i,
    {
        let tx = &block.txdata[i];
        let id = compute_txid(tx);
        let same = crate::bytes::bytes_equal(&id, txid);
        proof {
            if same {
                crate::bytes::array_ext(id, *txid);
            }
        }
        if same {
            return if index < tx.output.len() {
                Some(tx.output[index].value)
            } else {
                None
            };
        }
        i = i + 1;
    }
    None
}

/// Whether a wallet took in a block: the payments that were found in it, then what its
/// transactions spend. A block without payments is not taken in.
pub open spec fn taken_in(
    before: &SilentPaymentWallet,
    after: &SilentPaymentWallet,
    txs: Seq<Transaction>,
    block_height: u32,
    payments: Seq<([u8; 32], (usize, Seq<u8>))>,
) -> bool {
    if payments.len() == 0 {
        *after == *before
    } else {
        &&& after.entries() == with_transactions(
            with_found(before.entries(), paid_outputs(txs, payments), block_height),
            txs,
            block_height,
        )
        &&& after.height() == block_height
    }
}

/// Takes in a block in which payments were found, and tells how many outputs they are.
pub fn record_payments(
    block: &Block,
    block_height: u32,
    payments: &Vec<([u8; 32], FoundPayment)>,
    wallet: &mut SilentPaymentWallet,
) -> (r: usize)
    requires
        old(wallet).wf(),
    ensures
        final(wallet).wf(),
        taken_in(
            old(wallet),
            final(wallet),
            block.txdata@,
            block_height,
            block_values(payments@),
        ),
        r == paid_outputs(block.txdata@, block_values(payments@)).len(),
        forall|k: Outpoint| #[trigger]
            final(wallet)@.contains_key(k) && !old(wallet)@.contains_key(k) ==> exists|
                t: int,
                i: int,
            |
                0 <= t < block.txdata@.len() && 0 <= i < block.txdata@[t].output@.len() && txid_of(
                    block.txdata@[t]@,
                ) == k.txid && i % 0x1_0000_0000 == k.vout && final(wallet)@[k].value == (
                #[trigger] block.txdata@[t].output@[i]).value && final(wallet)@[k].block_height
                    == block_height,
{
    let ghost values = block_values(payments@);
    assert(values.len() == payments@.len());
    if payments.len() == 0 {
        return 0;
    }
    let mut found: Vec<([u8; 32], usize, u64)> = Vec::new();
    let mut i: usize = 0;
    while i < payments.len()
        invariant
            i <= payments@.len(),
            values == block_values(payments@),
            found@ == paid_outputs(block.txdata@, values.take(i as int)),
        decreases payments@.len() - i,
    {
        let (txid, payment) = payments[i];
        proof {
            let done = values.take(i + 1);
            assert(done.drop_last() =~= values.take(i as int));
            assert(done.last() == (txid, (payment.output_index, payment.pubkey@)));
        }
        if let Some(value) = value_of_output(block, &txid, payment.output_index) {
            found.push((txid, payment.output_index, value));
        }
        i = i + 1;
    }
    assert(values.take(i as int) =~= values);
    wallet.process_block(block, block_height, found.as_slice());
    proof {
        let (was, now, txs) = (old(wallet)@, wallet@, block.txdata@);
        assert forall|k: Outpoint| #[trigger] now.contains_key(k) && !was.contains_key(k) implies exists|
            t: int,
            i: int,
        |
            0 <= t < txs.len() && 0 <= i < txs[t].output@.len() && txid_of(txs[t]@) == k.txid && i
                % 0x1_0000_0000 == k.vout && now[k].value == (#[trigger] txs[t].output@[i]).value
                && now[k].block_height == block_height by {
            let i = choose|i: int|
                0 <= i < found@.len() && (#[trigger] found@[i]).0 == k.txid && found@[i].1 as int
                    % 0x1_0000_0000 == k.vout;
            let l = last_found(found@, k, i);
            let f = found@[l];
            assert(now[k].value == f.2);
            paid_outputs_are_outputs_of_the_block(txs, values, l);
            let t = choose|t: int|
                0 <= t < txs.len() && txid_of((#[trigger] txs[t])@) == f.0 && f.1
                    < txs[t].output@.len() && txs[t].output@[f.1 as int].value == f.2;
            assert(now[k].value == txs[t].output@[f.1 as int].value);
        }
    }
    found.len()
}

/// What came of a block that was handed to the wallet.
#[derive(Clone, Copy, Debug, PartialEq, Eq)]
pub enum BlockScan {
    /// The wallet has no keys.
    NoKeys,
    /// The wallet's keys make no receiver.
    InvalidKeys(ImportError),
    /// The bytes are no block.
    InvalidBlock,
    /// An input cannot be looked at, or an input hash is no scalar.
    Unscannable,
    /// The block was scanned; the number of outputs that were found.
    Scanned(usize),
}

fn input_is_readable(input: &InputData) -> (r: bool)
    ensures
        r == input_readable(input@.script_sig, input@.witness, input@.prevout_script),
{
    let n: usize = input.witness.len();
    assert(item_views(input.witness@).len() == n);
    if !is_p2tr(input.prevout_script.as_slice()) || input.script_sig.len() > 0 || n == 0 {
        return true;
    }
    assert(item_views(input.witness@).last() == input.witness@[n - 1]@);
    if input.witness[n - 1].len() == 0 {
        return true;
    }
    let annex: usize = if input.witness[n - 1][0] == 0x50 {
        1
    } else {
        0
    };
    if n <= annex {
        return true;
    }
    assert(item_views(input.witness@)[n - annex - 1] == input.witness@[n - annex - 1]@);
    input.witness[n - annex - 1].len() >= 33
}

fn inputs_are_readable(inputs: &Vec<InputData>) -> (r: bool)
    ensures
        r == inputs_readable(data_views(inputs@)),
{
    let mut i: usize = 0;
    while i < inputs.len()
        invariant
            i <= inputs@.len(),
            forall|j: int|
                0 <= j < i ==> input_readable(
                    (#[trigger] data_views(inputs@)[j]).script_sig,
                    data_views(inputs@)[j].witness,
                    data_views(inputs@)[j].prevout_script,
                ),
        decreases inputs@.len() - i,
    {
        assert(data_views(inputs@)[i as int] == inputs@[i as int]@);
        if !input_is_readable(&inputs[i]) {
            return false;
        }
        i = i + 1;
    }
    true
}

fn block_is_readable(data: &Vec<Vec<InputData>>) -> (r: bool)
    ensures
        r == block_readable(block_data(data@)),
{
    let mut i: usize = 0;
    while i < data.len()
        invariant
            i <= data@.len(),
            forall|j: int| 0 <= j < i ==> inputs_readable(#[trigger] block_data(data@)[j]),
        decreases data@.len() - i,
    {
        assert(block_data(data@)[i as int] == data_views(data@[i as int]@));
        if !inputs_are_readable(&data[i]) {
            return false;
        }
        i = i + 1;
    }
    true
}

/// Whether `block` is the block that `raw` holds.
pub open spec fn holds_block(raw: Seq<u8>, block: Block) -> bool {
    block_of_bytes(raw) == Some(signed_views(block.txdata@))
}

/// Whether a block can be scanned.
pub open spec fn scannable(block: Block, spent: Seq<Seq<Seq<u8>>>) -> bool {
    let data = paired_block(block.txdata@, spent);
    block_readable(data) && block_usable(block, data)
}

/// Hands a block of the chain to the wallet: scans it for payments to the wallet's keys,
/// and takes them in. `spent` holds the scripts of the outputs that the transactions
/// behind the coinbase spend.
pub fn scan_kernel_block(
    scan_key: Option<SecretKey>,
    spend_key: Option<PublicKey>,
    network: Network,
    raw: &[u8],
    block_height: u32,
    spent: &Vec<Vec<Vec<u8>>>,
    wallet: &mut SilentPaymentWallet,
) -> (r: BlockScan)
    requires
        old(wallet).wf(),
    ensures
        final(wallet).wf(),
        (r is NoKeys) == (scan_key is None || spend_key is None),
        r !is Scanned ==> *final(wallet) == *old(wallet),
        scan_key is Some && spend_key is Some ==> {
            let receiver = receiver_of(scan_key.unwrap()@, spend_key.unwrap()@, network);
            match receiver {
                Err(e) => r == BlockScan::InvalidKeys(e),
                Ok(receiver) => match r {
                    BlockScan::InvalidBlock => block_of_bytes(raw@) is None,
                    BlockScan::Unscannable => exists|block: Block|
                        #[trigger] holds_block(raw@, block) && !scannable(
                            block,
                            spent_views(spent@),
                        ),
                    BlockScan::Scanned(n) => exists|
                        block: Block,
                        payments: Seq<([u8; 32], (usize, Seq<u8>))>,
                    |
                        {
                            &&& #[trigger] holds_block(raw@, block)
                            &&& scannable(block, spent_views(spent@))
                            &&& #[trigger] block_result(
                                payments,
                                receiver,
                                scan_key.unwrap()@,
                                block,
                                paired_block(block.txdata@, spent_views(spent@)),
                            )
                            &&& taken_in(
                                old(wallet),
                                final(wallet),
                                block.txdata@,
                                block_height,
                                payments,
                            )
                            &&& n == paid_outputs(block.txdata@, payments).len()
                            &&& forall|k: Outpoint| #[trigger]
                                final(wallet)@.contains_key(k) && !old(wallet)@.contains_key(k)
                                    ==> exists|t: int, i: int|
                                    0 <= t < block.txdata@.len() && 0 <= i
                                        < block.txdata@[t].output@.len() && txid_of(
                                        block.txdata@[t]@,
                                    ) == k.txid && i % 0x1_0000_0000 == k.vout
                                        && final(wallet)@[k].value == (
                                    #[trigger] block.txdata@[t].output@[i]).value
                                        && final(wallet)@[k].block_height == block_height
                        },
                    _ => false,
                },
            }
        },
{
    let (scan_key, spend_key) = match (scan_key, spend_key) {
        (Some(scan), Some(spend)) => (scan, spend),
        _ => {
            return BlockScan::NoKeys;
        },
    };
    let receiver = match receive_with(&scan_key, spend_key, network) {
        Ok(keys) => keys.receiver,
        Err(e) => {
            return BlockScan::InvalidKeys(e);
        },
    };
    let block = match decode_block(raw) {
        Some(block) => block,
        None => {
            return BlockScan::InvalidBlock;
        },
    };
    assert(holds_block(raw@, block));
    let data = pair_inputs(&block, spent);
    if !block_is_readable(&data) {
        return BlockScan::Unscannable;
    }
    match checked_scan_block(&receiver, &scan_key, &block, data) {
        Some(payments) => BlockScan::Scanned(
            record_payments(&block, block_height, &payments, wallet),
        ),
        None => BlockScan::Unscannable,
    }
}

} // verus!
