//! Finding the outputs of a block that pay the wallet.

use vstd::prelude::*;
use vstd::multiset::Multiset;
use crate::bytes::{be_value, get_array};
use crate::chain::{compute_txid, item_views, txid_of, Block, Transaction, TxOut};
use crate::secp::{is_x_coordinate, point_times, point_views, PublicKey, SecretKey, XOnlyPublicKey};
use crate::silentpayments::scanning::{is_p2tr, p2tr};
use crate::wallet::bip352::{
    ecdh_shared_secret, found_keys_of, input_hash_fits, input_pubkey_of, input_readable,
    outpoint_texts, paid_key, paid_up_to, pays, pubkey_from_input, received_keys, scan_rank,
    sent_key, sent_key_pays_receiver, tweak_data, tweak_data_of, tweak_usable, x_only_views,
    AddressView, Receiver, ReceiverView,
};

verus! {

/// An input of a transaction with the script of the output that it spends. The hash of
/// that output's transaction is given as text.
pub struct InputData {
    pub script_sig: Vec<u8>,
    pub witness: Vec<Vec<u8>>,
    pub prevout_script: Vec<u8>,
    pub txid: String,
    pub vout: u32,
}

/// An output that pays the wallet.
#[derive(Clone, Copy, Debug, PartialEq, Eq)]
pub struct FoundPayment {
    pub output_index: usize,
    pub pubkey: XOnlyPublicKey,
}

/// What an input with the script that it spends says.
#[verifier::ext_equal]
pub struct InputDataView {
    pub script_sig: Seq<u8>,
    pub witness: Seq<Seq<u8>>,
    pub prevout_script: Seq<u8>,
    pub txid: Seq<char>,
    pub vout: u32,
}

impl View for InputData {
    type V = InputDataView;

    open spec fn view(&self) -> InputDataView {
        InputDataView {
            script_sig: self.script_sig@,
            witness: item_views(self.witness@),
            prevout_script: self.prevout_script@,
            txid: self.txid@,
            vout: self.vout,
        }
    }
}

/// Inputs as values.
pub open spec fn data_views(inputs: Seq<InputData>) -> Seq<InputDataView> {
    inputs.map_values(|i: InputData| i@)
}

/// The inputs of a block's transactions, as values.
pub open spec fn block_data(data: Seq<Vec<InputData>>) -> Seq<Seq<InputDataView>> {
    data.map_values(|inputs: Vec<InputData>| data_views(inputs@))
}

/// The key by which an input takes part, if it does.
pub open spec fn data_key(input: InputDataView) -> Option<Seq<u8>> {
    input_pubkey_of(input.script_sig, input.witness, input.prevout_script)
}

/// Whether the inputs can be looked at.
pub open spec fn inputs_readable(inputs: Seq<InputDataView>) -> bool {
    forall|i: int|
        0 <= i < inputs.len() ==> input_readable(
            (#[trigger] inputs[i]).script_sig,
            inputs[i].witness,
            inputs[i].prevout_script,
        )
}

/// The inputs that take part, in order.
pub open spec fn taking_part(inputs: Seq<InputDataView>) -> Seq<InputDataView>
    decreases inputs.len(),
{
    if inputs.len() == 0 {
        Seq::empty()
    } else {
        let before = taking_part(inputs.drop_last());
        if data_key(inputs.last()) is Some {
            before.push(inputs.last())
        } else {
            before
        }
    }
}

/// The keys of inputs that take part.
pub open spec fn data_keys(inputs: Seq<InputDataView>) -> Seq<Seq<u8>> {
    taking_part(inputs).map_values(|i: InputDataView| data_key(i).unwrap())
}

/// The outpoints of inputs that take part, with the transaction's hash as text.
pub open spec fn data_outpoints(inputs: Seq<InputDataView>) -> Seq<(Seq<char>, u32)> {
    taking_part(inputs).map_values(|i: InputDataView| (i.txid, i.vout))
}

/// The taproot outputs among the first `n`: the number and the key of each.
pub open spec fn taproot_outputs_of(outputs: Seq<TxOut>, n: nat) -> Seq<(usize, Seq<u8>)>
    decreases n,
{
    if n == 0 {
        Seq::empty()
    } else {
        let before = taproot_outputs_of(outputs, (n - 1) as nat);
        let script = outputs[n - 1].script_pubkey@;
        if p2tr(script) && is_x_coordinate(script.subrange(2, 34)) {
            before.push(((n - 1) as usize, script.subrange(2, 34)))
        } else {
            before
        }
    }
}

/// The keys of taproot outputs.
pub open spec fn keys_only(outputs: Seq<(usize, Seq<u8>)>) -> Seq<Seq<u8>> {
    outputs.map_values(|o: (usize, Seq<u8>)| o.1)
}

/// The number of the first output with a key, from `i` on.
pub open spec fn first_with_key(outputs: Seq<(usize, Seq<u8>)>, key: Seq<u8>, i: int) -> Option<
    usize,
>
    decreases outputs.len() - i,
{
    if i < 0 || i >= outputs.len() {
        None
    } else if outputs[i].1 == key {
        Some(outputs[i].0)
    } else {
        first_with_key(outputs, key, i + 1)
    }
}

/// What a payment says: the output's number and its key.
pub open spec fn payment_values(payments: Seq<FoundPayment>) -> Seq<(usize, Seq<u8>)> {
    payments.map_values(|p: FoundPayment| (p.output_index, p.pubkey@))
}

/// The outputs with the keys `found`, in that order; a key without an output is passed
/// over.
pub open spec fn located(found: Seq<Seq<u8>>, outputs: Seq<(usize, Seq<u8>)>) -> Seq<
    (usize, Seq<u8>),
>
    decreases found.len(),
{
    if found.len() == 0 {
        Seq::empty()
    } else {
        let before = located(found.drop_last(), outputs);
        match first_with_key(outputs, found.last(), 0) {
            Some(n) => before.push((n, found.last())),
            None => before,
        }
    }
}

/// The keys that a scan of a transaction finds, each as often as it pays.
pub open spec fn scan_finds(
    receiver: ReceiverView,
    b_scan: Seq<u8>,
    inputs: Seq<InputDataView>,
    outputs: Seq<TxOut>,
) -> Multiset<Seq<u8>> {
    let keys = data_keys(inputs);
    let taproot = taproot_outputs_of(outputs, outputs.len());
    if keys.len() == 0 || taproot.len() == 0 {
        Multiset::empty()
    } else {
        match tweak_data_of(keys, data_outpoints(inputs)) {
            Some(tweak) => {
                let secret = point_times(tweak, be_value(b_scan));
                match found_keys_of(
                    receiver.spend,
                    receiver.change_label,
                    secret,
                    keys_only(taproot),
                ) {
                    Some(found) => found,
                    None => Multiset::empty(),
                }
            },
            None => Multiset::empty(),
        }
    }
}

/// Whether `payments` leaves out no payment: where the outputs pay the receiver under every
/// counter up to some number, the payment under that number is among them.
pub open spec fn none_missing(
    payments: Seq<(usize, Seq<u8>)>,
    receiver: ReceiverView,
    b_scan: Seq<u8>,
    inputs: Seq<InputDataView>,
    outputs: Seq<TxOut>,
) -> bool {
    let taproot = keys_only(taproot_outputs_of(outputs, outputs.len()));
    data_keys(inputs).len() > 0 ==> match tweak_data_of(
        data_keys(inputs),
        data_outpoints(inputs),
    ) {
        Some(tweak) => {
            let secret = point_times(tweak, be_value(b_scan));
            found_keys_of(receiver.spend, receiver.change_label, secret, taproot) is Some
                ==> forall|m: u32| #[trigger]
                paid_up_to(receiver.spend, receiver.change_label, secret, taproot, m)
                    ==> keys_only(payments).contains(
                    paid_key(receiver.spend, receiver.change_label, secret, taproot, m).unwrap(),
                )
        },
        None => true,
    }
}

/// Whether `payments` holds nothing but payments: each is by the key of a payment to the
/// receiver.
pub open spec fn none_wrong(
    payments: Seq<(usize, Seq<u8>)>,
    receiver: ReceiverView,
    b_scan: Seq<u8>,
    inputs: Seq<InputDataView>,
    outputs: Seq<TxOut>,
) -> bool {
    let taproot = keys_only(taproot_outputs_of(outputs, outputs.len()));
    payments.len() > 0 ==> match tweak_data_of(data_keys(inputs), data_outpoints(inputs)) {
        Some(tweak) => {
            let secret = point_times(tweak, be_value(b_scan));
            forall|i: int|
                0 <= i < payments.len() ==> pays(
                    receiver.spend,
                    receiver.change_label,
                    secret,
                    taproot,
                    (#[trigger] payments[i]).1,
                )
        },
        None => false,
    }
}

/// Whether `payments` is what a scan of a transaction hands out: an entry for every key
/// that it finds, with the first taproot output of that key, in any order.
pub open spec fn scan_result(
    payments: Seq<(usize, Seq<u8>)>,
    receiver: ReceiverView,
    b_scan: Seq<u8>,
    inputs: Seq<InputDataView>,
    outputs: Seq<TxOut>,
) -> bool {
    &&& keys_only(payments).to_multiset() == scan_finds(receiver, b_scan, inputs, outputs)
    &&& forall|i: int|
        0 <= i < payments.len() ==> first_with_key(
            taproot_outputs_of(outputs, outputs.len()),
            (#[trigger] payments[i]).1,
            0,
        ) == Some(payments[i].0)
    &&& none_missing(payments, receiver, b_scan, inputs, outputs)
    &&& none_wrong(payments, receiver, b_scan, inputs, outputs)
}

/// Whether the input hash of a transaction, if a scan computes it, can be used as a
/// scalar.
pub open spec fn scan_usable(inputs: Seq<InputDataView>, outputs: Seq<TxOut>) -> bool {
    data_keys(inputs).len() > 0 && taproot_outputs_of(outputs, outputs.len()).len() > 0
        ==> tweak_usable(data_keys(inputs), data_outpoints(inputs))
}

fn text_copy(s: &String) -> (r: String)
    ensures
        r@ == s@,
{
    s.clone()
}

fn collect_inputs(inputs: &[InputData]) -> (r: (Vec<PublicKey>, Vec<(String, u32)>))
    requires
        inputs_readable(data_views(inputs@)),
    ensures
        point_views(r.0@) == data_keys(data_views(inputs@)),
        outpoint_texts(r.1@) == data_outpoints(data_views(inputs@)),
{
    let mut keys: Vec<PublicKey> = Vec::new();
    let mut outpoints: Vec<(String, u32)> = Vec::new();
    let mut i: usize = 0;
    assert(point_views(keys@) =~= data_keys(data_views(inputs@).take(0)));
    assert(outpoint_texts(outpoints@) =~= data_outpoints(data_views(inputs@).take(0)));
    while i < inputs.len()
        invariant
            i <= inputs@.len(),
            inputs_readable(data_views(inputs@)),
            point_views(keys@) == data_keys(data_views(inputs@).take(i as int)),
            outpoint_texts(outpoints@) == data_outpoints(data_views(inputs@).take(i as int)),
        decreases inputs@.len() - i,
    {
        let input = &inputs[i];
        let ghost keys_before = keys@;
        let ghost outpoints_before = outpoints@;
        let ghost done = data_views(inputs@).take(i + 1);
        assert(done.drop_last() =~= data_views(inputs@).take(i as int));
        assert(done.last() == input@);
        if let Some(pk) = pubkey_from_input(
            &input.script_sig,
            &input.witness,
            &input.prevout_script,
        ) {
            keys.push(pk);
            outpoints.push((text_copy(&input.txid), input.vout));
            assert(point_views(keys@) =~= point_views(keys_before).push(pk@));
            assert(outpoint_texts(outpoints@) =~= outpoint_texts(outpoints_before).push(
                (input.txid@, input.vout),
            ));
        }
        assert(point_views(keys@) =~= data_keys(done));
        assert(outpoint_texts(outpoints@) =~= data_outpoints(done));
        i = i + 1;
    }
    assert(data_views(inputs@).take(i as int) =~= data_views(inputs@));
    (keys, outpoints)
}

/// Taproot outputs as values.
pub open spec fn taproot_views(outputs: Seq<(usize, XOnlyPublicKey)>) -> Seq<(usize, Seq<u8>)> {
    outputs.map_values(|o: (usize, XOnlyPublicKey)| (o.0, o.1@))
}

/// The taproot outputs of a transaction.
fn collect_taproot_outputs(outputs: &[TxOut]) -> (r: Vec<(usize, XOnlyPublicKey)>)
    ensures
        taproot_views(r@) == taproot_outputs_of(outputs@, outputs@.len()),
{
    let mut r: Vec<(usize, XOnlyPublicKey)> = Vec::new();
    let mut i: usize = 0;
    assert(taproot_views(r@) =~= taproot_outputs_of(outputs@, 0));
    while i < outputs.len()
        invariant
            i <= outputs@.len(),
            taproot_views(r@) == taproot_outputs_of(outputs@, i as nat),
        decreases outputs@.len() - i,
    {
        let script = outputs[i].script_pubkey.as_slice();
        let ghost before = r@;
        if is_p2tr(script) {
            let key_bytes: [u8; 32] = get_array(script, 2);
            if let Ok(pk) = XOnlyPublicKey::from_slice(&key_bytes) {
                r.push((i, pk));
                assert(taproot_views(r@) =~= taproot_views(before).push((i, pk@)));
            }
        }
        i = i + 1;
    }
    r
}

/// The outputs that have the found keys: the first one of each key.
pub fn locate_payments(
    found: &[XOnlyPublicKey],
    taproot_outputs: &[(usize, XOnlyPublicKey)],
) -> (r: Vec<FoundPayment>)
    ensures
        payment_values(r@) == located(x_only_views(found@), taproot_views(taproot_outputs@)),
{
    let mut r: Vec<FoundPayment> = Vec::new();
    let ghost keys = x_only_views(found@);
    let ghost outputs = taproot_views(taproot_outputs@);
    let mut i: usize = 0;
    assert(payment_values(r@) =~= located(keys.take(0), outputs));
    while i < found.len()
        invariant
            i <= found@.len(),
            keys == x_only_views(found@),
            outputs == taproot_views(taproot_outputs@),
            payment_values(r@) == located(keys.take(i as int), outputs),
        decreases found@.len() - i,
    {
        let ghost before = r@;
        proof {
            let done = keys.take(i + 1);
            assert(done.drop_last() =~= keys.take(i as int));
            assert(done.last() == found@[i as int]@);
        }
        if let Some(output_index) = output_with_key(taproot_outputs, &found[i]) {
            r.push(FoundPayment { output_index, pubkey: found[i] });
            assert(payment_values(r@) =~= payment_values(before).push(
                (output_index, found@[i as int]@),
            ));
        }
        i = i + 1;
    }
    assert(keys.take(i as int) =~= keys);
    r
}

fn output_with_key(outputs: &[(usize, XOnlyPublicKey)], key: &XOnlyPublicKey) -> (r: Option<usize>)
    ensures
        r == first_with_key(taproot_views(outputs@), key@, 0),
{
    let mut i: usize = 0;
    while i < outputs.len()
        invariant
            i <= outputs@.len(),
            first_with_key(taproot_views(outputs@), key@, 0) == first_with_key(
                taproot_views(outputs@),
                key@,
                i as int,
            ),
        decreases outputs@.len() - i,
    {
        if outputs[i].1.same(key) {
            return Some(outputs[i].0);
        }
        i = i + 1;
    }
    None
}

proof fn lemma_located_all(found: Seq<Seq<u8>>, outputs: Seq<(usize, Seq<u8>)>)
    requires
        forall|i: int|
            0 <= i < found.len() ==> keys_only(outputs).contains(#[trigger] found[i]),
    ensures
        keys_only(located(found, outputs)) == found,
        forall|i: int|
            0 <= i < located(found, outputs).len() ==> first_with_key(
                outputs,
                (#[trigger] located(found, outputs)[i]).1,
                0,
            ) == Some(located(found, outputs)[i].0),
    decreases found.len(),
{
    if found.len() > 0 {
        let rest = found.drop_last();
        assert forall|i: int| 0 <= i < rest.len() implies keys_only(outputs).contains(
            #[trigger] rest[i],
        ) by {
            assert(rest[i] == found[i]);
        }
        lemma_located_all(rest, outputs);
        let key = found.last();
        assert(found[found.len() - 1] == key);
        assert(keys_only(outputs).contains(key));
        let k = choose|k: int| 0 <= k < keys_only(outputs).len() && keys_only(outputs)[k] == key;
        lemma_first_found(outputs, key, 0, k);
        let before = located(rest, outputs);
        let n = first_with_key(outputs, key, 0).unwrap();
        assert(keys_only(before.push((n, key))) =~= keys_only(before).push(key));
        assert(rest.push(key) =~= found);
    } else {
        assert(keys_only(located(found, outputs)) =~= found);
    }
}

proof fn lemma_first_found(outputs: Seq<(usize, Seq<u8>)>, key: Seq<u8>, i: int, k: int)
    requires
        0 <= i <= k < outputs.len(),
        outputs[k].1 == key,
    ensures
        first_with_key(outputs, key, i) is Some,
    decreases k - i,
{
    if outputs[i].1 != key {
        lemma_first_found(outputs, key, i + 1, k);
    }
}

proof fn lemma_nothing_found(
    receiver: ReceiverView,
    b_scan: Seq<u8>,
    inputs: Seq<InputDataView>,
    outputs: Seq<TxOut>,
)
    requires
        scan_finds(receiver, b_scan, inputs, outputs) == Multiset::<Seq<u8>>::empty(),
        none_missing(payment_values(Seq::empty()), receiver, b_scan, inputs, outputs),
    ensures
        scan_result(
            payment_values(Seq::<FoundPayment>::empty()),
            receiver,
            b_scan,
            inputs,
            outputs,
        ),
{
    broadcast use vstd::seq_lib::group_to_multiset_ensures;

    let none = payment_values(Seq::<FoundPayment>::empty());
    assert(keys_only(none).len() == 0);
    assert(keys_only(none).to_multiset() =~= Multiset::<Seq<u8>>::empty());
}

/// Scans a transaction for outputs that pay a receiver. Silent payments always make
/// taproot outputs, so a transaction without any is passed over.
pub fn scan_transaction(
    receiver: &Receiver,
    b_scan: &SecretKey,
    inputs: &[InputData],
    tx: &Transaction,
) -> (r: Vec<FoundPayment>)
    requires
        inputs_readable(data_views(inputs@)),
        scan_usable(data_views(inputs@), tx.output@),
    ensures
        scan_result(payment_values(r@), receiver@, b_scan@, data_views(inputs@), tx.output@),
{
    let none: Vec<FoundPayment> = Vec::new();
    let (input_pub_keys, outpoints) = collect_inputs(inputs);
    assert(data_keys(data_views(inputs@)).len() == input_pub_keys@.len());
    if input_pub_keys.len() == 0 {
        proof {
            lemma_nothing_found(receiver@, b_scan@, data_views(inputs@), tx.output@);
            assert(none@ =~= Seq::empty());
        }
        return none;
    }
    let taproot_outputs = collect_taproot_outputs(tx.output.as_slice());
    let ghost taproot = taproot_outputs_of(tx.output@, tx.output@.len());
    assert(taproot.len() == taproot_outputs@.len());
    if taproot_outputs.len() == 0 {
        proof {
            lemma_nothing_found(receiver@, b_scan@, data_views(inputs@), tx.output@);
            assert(none@ =~= Seq::empty());
        }
        return none;
    }
    let tweak = match tweak_data(&input_pub_keys, &outpoints) {
        Some(t) => t,
        None => {
            proof {
                lemma_nothing_found(receiver@, b_scan@, data_views(inputs@), tx.output@);
                assert(none@ =~= Seq::empty());
            }
            return none;
        },
    };
    let shared_secret = ecdh_shared_secret(&tweak, b_scan);
    let mut xonly_outputs: Vec<XOnlyPublicKey> = Vec::new();
    let mut i: usize = 0;
    while i < taproot_outputs.len()
        invariant
            i <= taproot_outputs@.len(),
            taproot == taproot_views(taproot_outputs@),
            x_only_views(xonly_outputs@) == keys_only(taproot).take(i as int),
        decreases taproot_outputs@.len() - i,
    {
        let ghost before = xonly_outputs@;
        xonly_outputs.push(taproot_outputs[i].1);
        assert(x_only_views(xonly_outputs@) =~= x_only_views(before).push(taproot[i as int].1));
        i = i + 1;
        assert(x_only_views(xonly_outputs@) =~= keys_only(taproot).take(i as int));
    }
    assert(keys_only(taproot).take(i as int) =~= keys_only(taproot));
    match received_keys(receiver, &shared_secret, &xonly_outputs) {
        Some(found) => {
            let r = locate_payments(found.as_slice(), taproot_outputs.as_slice());
            proof {
                let keys = x_only_views(found@);
                assert forall|i: int| 0 <= i < keys.len() implies keys_only(taproot).contains(
                    #[trigger] keys[i],
                ) by {
                    assert(x_only_views(xonly_outputs@).contains(found@[i]@));
                }
                lemma_located_all(keys, taproot);
                let payments = payment_values(r@);
                assert forall|i: int| 0 <= i < payments.len() implies pays(
                    receiver@.spend,
                    receiver@.change_label,
                    shared_secret@,
                    keys_only(taproot),
                    (#[trigger] payments[i]).1,
                ) by {
                    assert(keys_only(payments)[i] == found@[i]@);
                }
            }
            r
        },
        None => {
            proof {
                lemma_nothing_found(receiver@, b_scan@, data_views(inputs@), tx.output@);
                assert(none@ =~= Seq::empty());
            }
            none
        },
    }
}

/// Whether the input hash of a transaction, if a scan computes it, can be used as a
/// scalar.
fn transaction_usable(inputs: &[InputData], tx: &Transaction) -> (r: bool)
    requires
        inputs_readable(data_views(inputs@)),
    ensures
        r == scan_usable(data_views(inputs@), tx.output@),
{
    let (input_pub_keys, outpoints) = collect_inputs(inputs);
    let taproot_outputs = collect_taproot_outputs(tx.output.as_slice());
    assert(data_keys(data_views(inputs@)).len() == input_pub_keys@.len());
    assert(taproot_outputs_of(tx.output@, tx.output@.len()).len() == taproot_outputs@.len());
    input_pub_keys.len() == 0 || taproot_outputs.len() == 0 || input_hash_fits(
        &input_pub_keys,
        &outpoints,
    )
}

/// Scans a transaction for outputs that pay a receiver, unless its input hash is no
/// scalar.
pub fn checked_scan_transaction(
    receiver: &Receiver,
    b_scan: &SecretKey,
    inputs: &[InputData],
    tx: &Transaction,
) -> (r: Option<Vec<FoundPayment>>)
    requires
        inputs_readable(data_views(inputs@)),
    ensures
        match r {
            Some(payments) => {
                &&& scan_usable(data_views(inputs@), tx.output@)
                &&& scan_result(
                    payment_values(payments@),
                    receiver@,
                    b_scan@,
                    data_views(inputs@),
                    tx.output@,
                )
            },
            None => !scan_usable(data_views(inputs@), tx.output@),
        },
{
    if !transaction_usable(inputs, tx) {
        return None;
    }
    Some(scan_transaction(receiver, b_scan, inputs, tx))
}

/// Payments under the hash of their transaction, as values.
pub open spec fn block_values(found: Seq<([u8; 32], FoundPayment)>) -> Seq<
    ([u8; 32], (usize, Seq<u8>)),
> {
    found.map_values(
        |f: ([u8; 32], FoundPayment)| (f.0, (f.1.output_index, f.1.pubkey@)),
    )
}

/// Payments of one transaction under its hash.
pub open spec fn under_txid(txid: [u8; 32], payments: Seq<(usize, Seq<u8>)>) -> Seq<
    ([u8; 32], (usize, Seq<u8>)),
> {
    payments.map_values(|p: (usize, Seq<u8>)| (txid, p))
}

/// The number of transactions that a scan of a block looks at: those behind the coinbase
/// that have input data.
pub open spec fn scanned_count(block: Block, data: Seq<Seq<InputDataView>>) -> nat {
    let n: int = block.txdata@.len() - 1;
    if n < 0 {
        0
    } else if data.len() < n {
        data.len()
    } else {
        n as nat
    }
}

/// The payments of the first `n` transactions behind the coinbase, given transaction by
/// transaction, each under its transaction's hash.
pub open spec fn joined(block: Block, parts: Seq<Seq<(usize, Seq<u8>)>>, n: nat) -> Seq<
    ([u8; 32], (usize, Seq<u8>)),
>
    decreases n,
{
    if n == 0 {
        Seq::empty()
    } else {
        joined(block, parts, (n - 1) as nat) + under_txid(
            txid_of(block.txdata@[n as int]@),
            parts[n - 1],
        )
    }
}

/// Whether `parts` holds what a scan of each transaction behind the coinbase hands out.
pub open spec fn block_parts(
    parts: Seq<Seq<(usize, Seq<u8>)>>,
    receiver: ReceiverView,
    b_scan: Seq<u8>,
    block: Block,
    data: Seq<Seq<InputDataView>>,
) -> bool {
    forall|i: int|
        0 <= i < parts.len() ==> scan_result(
            #[trigger] parts[i],
            receiver,
            b_scan,
            data[i],
            block.txdata@[i + 1].output@,
        )
}

/// Whether `found` is what a scan of a block hands out: the payments of its transactions
/// behind the coinbase, in the order of the transactions.
pub open spec fn block_result(
    found: Seq<([u8; 32], (usize, Seq<u8>))>,
    receiver: ReceiverView,
    b_scan: Seq<u8>,
    block: Block,
    data: Seq<Seq<InputDataView>>,
) -> bool {
    exists|parts: Seq<Seq<(usize, Seq<u8>)>>|
        {
            &&& parts.len() == scanned_count(block, data)
            &&& #[trigger] block_parts(parts, receiver, b_scan, block, data)
            &&& found == joined(block, parts, parts.len())
        }
}

/// Whether the inputs of a block can be looked at.
pub open spec fn block_readable(data: Seq<Seq<InputDataView>>) -> bool {
    forall|i: int| 0 <= i < data.len() ==> inputs_readable(#[trigger] data[i])
}

/// Whether the input hashes of a block's transactions can be used.
pub open spec fn block_usable(block: Block, data: Seq<Seq<InputDataView>>) -> bool {
    forall|i: int|
        0 <= i < scanned_count(block, data) ==> scan_usable(
            #[trigger] data[i],
            block.txdata@[i + 1].output@,
        )
}

fn push_payments(
    out: &mut Vec<([u8; 32], FoundPayment)>,
    txid: [u8; 32],
    payments: &Vec<FoundPayment>,
)
    ensures
        block_values(final(out)@) == block_values(old(out)@) + under_txid(
            txid,
            payment_values(payments@),
        ),
{
    let ghost before = out@;
    let ghost all = under_txid(txid, payment_values(payments@));
    let mut i: usize = 0;
    assert(block_values(out@) =~= block_values(before) + all.take(0));
    while i < payments.len()
        invariant
            i <= payments@.len(),
            all == under_txid(txid, payment_values(payments@)),
            block_values(out@) == block_values(before) + all.take(i as int),
        decreases payments@.len() - i,
    {
        let ghost old_out = out@;
        out.push((txid, payments[i]));
        assert(block_values(out@) =~= block_values(old_out).push(all[i as int]));
        i = i + 1;
        assert(block_values(out@) =~= block_values(before) + all.take(i as int));
    }
    assert(all.take(i as int) =~= all);
}

/// Scans the transactions of a block behind the coinbase. The input data of the first of
/// them comes first.
pub fn scan_block(
    receiver: &Receiver,
    b_scan: &SecretKey,
    block: &Block,
    tx_input_data: Vec<Vec<InputData>>,
) -> (r: Vec<([u8; 32], FoundPayment)>)
    requires
        block_readable(block_data(tx_input_data@)),
        block_usable(*block, block_data(tx_input_data@)),
    ensures
        block_result(block_values(r@), receiver@, b_scan@, *block, block_data(tx_input_data@)),
{
    let mut all_found: Vec<([u8; 32], FoundPayment)> = Vec::new();
    let ghost mut parts: Seq<Seq<(usize, Seq<u8>)>> = Seq::empty();
    let mut i: usize = 0;
    assert(block_values(all_found@) =~= Seq::empty());
    while i < tx_input_data.len() && i + 1 < block.txdata.len()
        invariant
            i <= scanned_count(*block, block_data(tx_input_data@)),
            parts.len() == i,
            block_readable(block_data(tx_input_data@)),
            block_usable(*block, block_data(tx_input_data@)),
            block_parts(parts, receiver@, b_scan@, *block, block_data(tx_input_data@)),
            block_values(all_found@) == joined(*block, parts, i as nat),
        decreases tx_input_data@.len() - i,
    {
        let tx = &block.txdata[i + 1];
        assert(block_data(tx_input_data@)[i as int] == data_views(tx_input_data@[i as int]@));
        let payments = scan_transaction(receiver, b_scan, tx_input_data[i].as_slice(), tx);
        let txid = compute_txid(tx);
        push_payments(&mut all_found, txid, &payments);
        proof {
            let before = parts;
            parts = parts.push(payment_values(payments@));
            lemma_joined_prefix(*block, before, parts, i as nat);
        }
        i = i + 1;
    }
    all_found
}

proof fn lemma_joined_prefix(
    block: Block,
    a: Seq<Seq<(usize, Seq<u8>)>>,
    b: Seq<Seq<(usize, Seq<u8>)>>,
    n: nat,
)
    requires
        n <= a.len(),
        n <= b.len(),
        forall|i: int| 0 <= i < n ==> a[i] == b[i],
    ensures
        joined(block, a, n) == joined(block, b, n),
    decreases n,
{
    if n > 0 {
        lemma_joined_prefix(block, a, b, (n - 1) as nat);
    }
}

/// Scans the transactions of a block behind the coinbase, unless an input hash is no
/// scalar.
pub fn checked_scan_block(
    receiver: &Receiver,
    b_scan: &SecretKey,
    block: &Block,
    tx_input_data: Vec<Vec<InputData>>,
) -> (r: Option<Vec<([u8; 32], FoundPayment)>>)
    requires
        block_readable(block_data(tx_input_data@)),
    ensures
        match r {
            Some(found) => {
                &&& block_usable(*block, block_data(tx_input_data@))
                &&& block_result(
                    block_values(found@),
                    receiver@,
                    b_scan@,
                    *block,
                    block_data(tx_input_data@),
                )
            },
            None => !block_usable(*block, block_data(tx_input_data@)),
        },
{
    let mut i: usize = 0;
    while i < tx_input_data.len() && i + 1 < block.txdata.len()
        invariant
            i <= scanned_count(*block, block_data(tx_input_data@)),
            block_readable(block_data(tx_input_data@)),
            forall|j: int|
                0 <= j < i ==> scan_usable(
                    #[trigger] block_data(tx_input_data@)[j],
                    block.txdata@[j + 1].output@,
                ),
        decreases tx_input_data@.len() - i,
    {
        let tx = &block.txdata[i + 1];
        assert(block_data(tx_input_data@)[i as int] == data_views(tx_input_data@[i as int]@));
        if !transaction_usable(tx_input_data[i].as_slice(), tx) {
            assert(!scan_usable(block_data(tx_input_data@)[i as int], block.txdata@[i + 1].output@));
            return None;
        }
        i = i + 1;
    }
    Some(scan_block(receiver, b_scan, block, tx_input_data))
}

proof fn lemma_taproot_listed(outputs: Seq<TxOut>, n: nat, i: int)
    requires
        0 <= i < n <= outputs.len(),
        p2tr(outputs[i].script_pubkey@),
        is_x_coordinate(outputs[i].script_pubkey@.subrange(2, 34)),
    ensures
        keys_only(taproot_outputs_of(outputs, n)).contains(
            outputs[i].script_pubkey@.subrange(2, 34),
        ),
    decreases n,
{
    let key = outputs[i].script_pubkey@.subrange(2, 34);
    let all = taproot_outputs_of(outputs, n);
    if i == n - 1 {
        assert(keys_only(all)[all.len() - 1] == key);
    } else {
        lemma_taproot_listed(outputs, (n - 1) as nat, i);
        let before = taproot_outputs_of(outputs, (n - 1) as nat);
        let k = choose|k: int| 0 <= k < keys_only(before).len() && keys_only(before)[k] == key;
        assert(all[k] == before[k]);
        assert(keys_only(all)[k] == key);
    }
}

/// What a sender pays to a receiver is found. The sender's outputs hold the key that is
/// derived under its partial secret for the receiver's address, which is the first with
/// its scan key; the shared secret of the receiver's scan is the one that the sender
/// arrived at, and the curve arithmetic of the scan has a result. What the scan hands out
/// then holds that key.
pub proof fn sent_payment_is_found(
    payments: Seq<(usize, Seq<u8>)>,
    receiver: ReceiverView,
    b_scan: Seq<u8>,
    inputs: Seq<InputDataView>,
    outputs: Seq<TxOut>,
    recipients: Seq<AddressView>,
    i: int,
    partial: nat,
    j: int,
)
    requires
        scan_result(payments, receiver, b_scan, inputs, outputs),
        data_keys(inputs).len() > 0,
        ({
            let taproot = keys_only(taproot_outputs_of(outputs, outputs.len()));
            let secret = point_times(receiver.scan, partial);
            &&& tweak_data_of(data_keys(inputs), data_outpoints(inputs)) matches Some(tweak)
                && point_times(tweak, be_value(b_scan)) == secret
            &&& found_keys_of(receiver.spend, receiver.change_label, secret, taproot) is Some
        }),
        0 <= i < recipients.len(),
        scan_rank(recipients, i) == 0,
        recipients[i].scan == receiver.scan,
        recipients[i].spend == receiver.spend,
        sent_key(recipients, i, partial) is Some,
        0 <= j < outputs.len(),
        ({
            let key = sent_key(recipients, i, partial).unwrap();
            &&& is_x_coordinate(key)
            &&& key.len() == 32
            &&& outputs[j].script_pubkey@ == seq![0x51u8, 0x20u8] + key
        }),
    ensures
        keys_only(payments).contains(sent_key(recipients, i, partial).unwrap()),
{
    let key = sent_key(recipients, i, partial).unwrap();
    let taproot = keys_only(taproot_outputs_of(outputs, outputs.len()));
    let script = outputs[j].script_pubkey@;
    assert(script.subrange(2, 34) =~= key);
    lemma_taproot_listed(outputs, outputs.len(), j);
    sent_key_pays_receiver(recipients, i, partial, receiver, taproot);
    let secret = point_times(receiver.scan, partial);
    assert(paid_up_to(receiver.spend, receiver.change_label, secret, taproot, 0));
}

/// The inputs that take part are those that have a key, in order, and the keys and the
/// outpoints that a scan uses are theirs, side by side.
pub proof fn keys_and_outpoints_go_together(inputs: Seq<InputDataView>, i: int)
    ensures
        taking_part(inputs) == inputs.filter(|d: InputDataView| data_key(d) is Some),
        data_keys(inputs).len() == data_outpoints(inputs).len(),
        0 <= i < data_keys(inputs).len() ==> exists|j: int|
            0 <= j < inputs.len() && data_key(#[trigger] inputs[j]) == Some(data_keys(inputs)[i])
                && data_outpoints(inputs)[i] == (inputs[j].txid, inputs[j].vout),
    decreases inputs.len(),
{
    reveal(Seq::filter);
    if inputs.len() > 0 {
        let fewer = inputs.drop_last();
        let n = inputs.len() - 1;
        keys_and_outpoints_go_together(fewer, i);
        if 0 <= i < data_keys(inputs).len() {
            if i < taking_part(fewer).len() {
                assert(data_keys(inputs)[i] == data_keys(fewer)[i]);
                assert(data_outpoints(inputs)[i] == data_outpoints(fewer)[i]);
                let j = choose|j: int|
                    0 <= j < fewer.len() && data_key(#[trigger] fewer[j]) == Some(
                        data_keys(fewer)[i],
                    ) && data_outpoints(fewer)[i] == (fewer[j].txid, fewer[j].vout);
                assert(inputs[j] == fewer[j]);
            } else {
                assert(data_key(inputs[n]) == Some(data_keys(inputs)[i]));
            }
        }
    }
}

/// The taproot outputs of a transaction are its outputs that pay to a key on the curve, each
/// with its own number.
pub proof fn taproot_outputs_are_outputs(outputs: Seq<TxOut>, n: nat, index: usize, key: Seq<u8>)
    requires
        n <= outputs.len(),
        n <= usize::MAX,
    ensures
        taproot_outputs_of(outputs, n).contains((index, key)) <==> {
            &&& index < n
            &&& key.len() == 32
            &&& outputs[index as int].script_pubkey@ == seq![0x51u8, 0x20u8] + key
            &&& is_x_coordinate(key)
        },
    decreases n,
{
    if n > 0 {
        let m = (n - 1) as nat;
        taproot_outputs_are_outputs(outputs, m, index, key);
        let before = taproot_outputs_of(outputs, m);
        let all = taproot_outputs_of(outputs, n);
        let script = outputs[n - 1].script_pubkey@;
        if before.contains((index, key)) {
            let k = choose|k: int| 0 <= k < before.len() && before[k] == (index, key);
            assert(all[k] == (index, key));
        }
        if all.contains((index, key)) {
            let k = choose|k: int| 0 <= k < all.len() && all[k] == (index, key);
            if k < before.len() {
                assert(before[k] == (index, key));
            } else {
                assert(script =~= seq![0x51u8, 0x20u8] + script.subrange(2, 34));
            }
        }
        if index == n - 1 && key.len() == 32 && script == seq![0x51u8, 0x20u8] + key
            && is_x_coordinate(key) {
            assert(script.subrange(2, 34) =~= key);
            assert(all[before.len() as int] == (index, key));
        }
    }
}

proof fn lemma_taproot_ascending(outputs: Seq<TxOut>, n: nat, a: int, b: int)
    requires
        n <= outputs.len(),
        n <= usize::MAX,
        0 <= a < b < taproot_outputs_of(outputs, n).len(),
    ensures
        taproot_outputs_of(outputs, n)[a].0 < taproot_outputs_of(outputs, n)[b].0,
    decreases n,
{
    if n > 0 {
        let m = (n - 1) as nat;
        let before = taproot_outputs_of(outputs, m);
        if b < before.len() {
            lemma_taproot_ascending(outputs, m, a, b);
        } else {
            let (index, key) = before[a];
            assert(before.contains((index, key)));
            taproot_outputs_are_outputs(outputs, m, index, key);
        }
    }
}

proof fn lemma_first_with_key(outputs: Seq<(usize, Seq<u8>)>, key: Seq<u8>, from: int)
    requires
        0 <= from,
    ensures
        match first_with_key(outputs, key, from) {
            Some(n) => exists|p: int|
                from <= p < outputs.len() && #[trigger] outputs[p] == (n, key) && forall|q: int|
                    from <= q < p ==> (#[trigger] outputs[q]).1 != key,
            None => forall|q: int| from <= q < outputs.len() ==> (#[trigger] outputs[q]).1 != key,
        },
    decreases outputs.len() - from,
{
    if from < outputs.len() {
        if outputs[from].1 == key {
            assert(outputs[from] == (outputs[from].0, key));
        } else {
            lemma_first_with_key(outputs, key, from + 1);
            if let Some(n) = first_with_key(outputs, key, from + 1) {
                let p = choose|p: int|
                    from + 1 <= p < outputs.len() && #[trigger] outputs[p] == (n, key) && forall|
                        q: int,
                    |
                        from + 1 <= q < p ==> (#[trigger] outputs[q]).1 != key;
                assert(outputs[p] == (n, key));
            }
        }
    }
}

/// Every payment that a scan of a transaction hands out is one of its outputs: the first one
/// whose script pays to the payment's key.
pub proof fn payments_are_outputs_of_the_transaction(
    payments: Seq<(usize, Seq<u8>)>,
    receiver: ReceiverView,
    b_scan: Seq<u8>,
    inputs: Seq<InputDataView>,
    outputs: Seq<TxOut>,
    i: int,
)
    requires
        scan_result(payments, receiver, b_scan, inputs, outputs),
        outputs.len() <= usize::MAX,
        0 <= i < payments.len(),
    ensures
        payments[i].1.len() == 32,
        payments[i].0 < outputs.len(),
        outputs[payments[i].0 as int].script_pubkey@ == seq![0x51u8, 0x20u8] + payments[i].1,
        forall|q: int|
            0 <= q < payments[i].0 ==> (#[trigger] outputs[q]).script_pubkey@ != seq![
                0x51u8,
                0x20u8,
            ] + payments[i].1,
{
    let taproot = taproot_outputs_of(outputs, outputs.len());
    let (index, key) = payments[i];
    lemma_first_with_key(taproot, key, 0);
    let p = choose|p: int|
        0 <= p < taproot.len() && #[trigger] taproot[p] == (index, key) && forall|q: int|
            0 <= q < p ==> (#[trigger] taproot[q]).1 != key;
    assert(taproot.contains((index, key)));
    taproot_outputs_are_outputs(outputs, outputs.len(), index, key);
    assert forall|q: int| 0 <= q < index implies (#[trigger] outputs[q]).script_pubkey@ != seq![
        0x51u8,
        0x20u8,
    ] + key by {
        if outputs[q].script_pubkey@ == seq![0x51u8, 0x20u8] + key {
            taproot_outputs_are_outputs(outputs, outputs.len(), q as usize, key);
            let r = choose|r: int| 0 <= r < taproot.len() && taproot[r] == (q as usize, key);
            if r > p {
                lemma_taproot_ascending(outputs, outputs.len(), p, r);
            } else if r < p {
                assert(taproot[r].1 != key);
            }
        }
    }
}

/// The outputs that are located for found keys are, for each key that an output has, the
/// first output with that key, and nothing else.
pub proof fn located_outputs_have_the_keys(
    found: Seq<Seq<u8>>,
    outputs: Seq<(usize, Seq<u8>)>,
    index: usize,
    key: Seq<u8>,
)
    ensures
        located(found, outputs).contains((index, key)) <==> found.contains(key) && exists|p: int|
            0 <= p < outputs.len() && #[trigger] outputs[p] == (index, key) && forall|q: int|
                0 <= q < p ==> (#[trigger] outputs[q]).1 != key,
    decreases found.len(),
{
    if found.len() > 0 {
        let rest = found.drop_last();
        let n = found.len() - 1;
        located_outputs_have_the_keys(rest, outputs, index, key);
        let before = located(rest, outputs);
        let all = located(found, outputs);
        lemma_first_with_key(outputs, found.last(), 0);
        if before.contains((index, key)) {
            let k = choose|k: int| 0 <= k < before.len() && before[k] == (index, key);
            assert(all[k] == (index, key));
        }
        if rest.contains(key) {
            let k = choose|k: int| 0 <= k < rest.len() && rest[k] == key;
            assert(found[k] == key);
        }
        if all.contains((index, key)) {
            let k = choose|k: int| 0 <= k < all.len() && all[k] == (index, key);
            if k < before.len() {
                assert(before[k] == (index, key));
            } else {
                assert(found[n] == key);
            }
        }
        if found.contains(key) && exists|p: int|
            0 <= p < outputs.len() && #[trigger] outputs[p] == (index, key) && forall|q: int|
                0 <= q < p ==> (#[trigger] outputs[q]).1 != key {
            let p = choose|p: int|
                0 <= p < outputs.len() && #[trigger] outputs[p] == (index, key) && forall|q: int|
                    0 <= q < p ==> (#[trigger] outputs[q]).1 != key;
            let k = choose|k: int| 0 <= k < found.len() && found[k] == key;
            if k < n {
                assert(rest[k] == key);
            } else {
                let m = first_with_key(outputs, key, 0).unwrap();
                let r = choose|r: int|
                    0 <= r < outputs.len() && #[trigger] outputs[r] == (m, key) && forall|q: int|
                        0 <= q < r ==> (#[trigger] outputs[q]).1 != key;
                assert(r == p) by {
                    if r < p {
                        assert(outputs[r].1 != key);
                    } else if p < r {
                        assert(outputs[p].1 != key);
                    }
                }
                assert(all[before.len() as int] == (index, key));
            }
        }
    }
}

proof fn lemma_joined(
    block: Block,
    parts: Seq<Seq<(usize, Seq<u8>)>>,
    n: nat,
    f: ([u8; 32], (usize, Seq<u8>)),
)
    ensures
        joined(block, parts, n).contains(f) <==> exists|t: int, p: int|
            0 <= t < n && 0 <= p < parts[t].len() && f.0 == txid_of(block.txdata@[t + 1]@) && f.1
                == #[trigger] parts[t][p],
    decreases n,
{
    let all = joined(block, parts, n);
    if n > 0 {
        let m = (n - 1) as nat;
        lemma_joined(block, parts, m, f);
        let before = joined(block, parts, m);
        let last = under_txid(txid_of(block.txdata@[n as int]@), parts[n - 1]);
        assert(all == before + last);
        if all.contains(f) {
            let k = choose|k: int| 0 <= k < all.len() && all[k] == f;
            if k < before.len() {
                assert(before[k] == f);
                let (t, p) = choose|t: int, p: int|
                    0 <= t < m && 0 <= p < parts[t].len() && f.0 == txid_of(block.txdata@[t + 1]@)
                        && f.1 == #[trigger] parts[t][p];
                assert(f.1 == parts[t][p]);
            } else {
                assert(last[k - before.len()] == f);
                assert(f.1 == parts[n - 1][k - before.len()]);
            }
        }
        if exists|t: int, p: int|
            0 <= t < n && 0 <= p < parts[t].len() && f.0 == txid_of(block.txdata@[t + 1]@) && f.1
                == #[trigger] parts[t][p] {
            let (t, p) = choose|t: int, p: int|
                0 <= t < n && 0 <= p < parts[t].len() && f.0 == txid_of(block.txdata@[t + 1]@)
                    && f.1 == #[trigger] parts[t][p];
            if t < m {
                assert(f.1 == parts[t][p]);
                let k = choose|k: int| 0 <= k < before.len() && before[k] == f;
                assert(all[k] == f);
            } else {
                assert(last[p] == f);
                assert(all[before.len() + p] == f);
            }
        }
    }
}

/// Every payment that a scan of a block hands out stands under the hash of a transaction
/// behind the coinbase, and is an output of that transaction whose script pays to the
/// payment's key.
pub proof fn block_payments_are_outputs(
    found: Seq<([u8; 32], (usize, Seq<u8>))>,
    receiver: ReceiverView,
    b_scan: Seq<u8>,
    block: Block,
    data: Seq<Seq<InputDataView>>,
    i: int,
)
    requires
        block_result(found, receiver, b_scan, block, data),
        0 <= i < found.len(),
        forall|t: int|
            0 <= t < block.txdata@.len() ==> (#[trigger] block.txdata@[t]).output@.len()
                <= usize::MAX,
    ensures
        exists|t: int|
            1 <= t < block.txdata@.len() && t <= data.len() && found[i].0 == txid_of(
                (#[trigger] block.txdata@[t])@,
            ) && found[i].1.0 < block.txdata@[t].output@.len()
                && block.txdata@[t].output@[found[i].1.0 as int].script_pubkey@ == seq![
                0x51u8,
                0x20u8,
            ] + found[i].1.1,
{
    let parts = choose|parts: Seq<Seq<(usize, Seq<u8>)>>|
        {
            &&& parts.len() == scanned_count(block, data)
            &&& #[trigger] block_parts(parts, receiver, b_scan, block, data)
            &&& found == joined(block, parts, parts.len())
        };
    assert(found.contains(found[i]));
    lemma_joined(block, parts, parts.len(), found[i]);
    let (t, p) = choose|t: int, p: int|
        0 <= t < parts.len() && 0 <= p < parts[t].len() && found[i].0 == txid_of(
            block.txdata@[t + 1]@,
        ) && found[i].1 == #[trigger] parts[t][p];
    let outputs = block.txdata@[t + 1].output@;
    assert(scan_result(parts[t], receiver, b_scan, data[t], outputs));
    payments_are_outputs_of_the_transaction(parts[t], receiver, b_scan, data[t], outputs, p);
    assert(found[i].0 == txid_of(block.txdata@[t + 1]@));
}

/// Every transaction behind the coinbase that has input data is scanned: what a scan of it
/// hands out is handed out for the block, under the transaction's hash.
pub proof fn every_transaction_is_scanned(
    found: Seq<([u8; 32], (usize, Seq<u8>))>,
    receiver: ReceiverView,
    b_scan: Seq<u8>,
    block: Block,
    data: Seq<Seq<InputDataView>>,
    t: int,
)
    requires
        block_result(found, receiver, b_scan, block, data),
        1 <= t < block.txdata@.len(),
        t <= data.len(),
    ensures
        exists|part: Seq<(usize, Seq<u8>)>| #[trigger]
            scan_result(part, receiver, b_scan, data[t - 1], block.txdata@[t].output@) && forall|
                p: int,
            |
                0 <= p < part.len() ==> found.contains(
                    (txid_of(block.txdata@[t]@), #[trigger] part[p]),
                ),
{
    let parts = choose|parts: Seq<Seq<(usize, Seq<u8>)>>|
        {
            &&& parts.len() == scanned_count(block, data)
            &&& #[trigger] block_parts(parts, receiver, b_scan, block, data)
            &&& found == joined(block, parts, parts.len())
        };
    let part = parts[t - 1];
    assert(scan_result(part, receiver, b_scan, data[t - 1], block.txdata@[t].output@));
    assert forall|p: int| 0 <= p < part.len() implies found.contains(
        (txid_of(block.txdata@[t]@), #[trigger] part[p]),
    ) by {
        assert(parts[t - 1][p] == part[p]);
        lemma_joined(block, parts, parts.len(), (txid_of(block.txdata@[t]@), part[p]));
    }
}

} // verus!
