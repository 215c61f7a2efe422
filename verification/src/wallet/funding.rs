//! Choosing coins for a payment and putting the transaction together.
//!
//! Coins are chosen by the `bdk_tx` crate; the unsigned transaction is held in a
//! `bitcoin::Psbt`. The functions marked as trusted are the only places that call them.

use vstd::prelude::*;
use bitcoin::{psbt, Amount, FeeRate, OutPoint, ScriptBuf, Sequence, Weight};
use crate::chain::{
    item_views, txout_views, witness_views, Transaction, TransactionView, TxIn, TxInView, TxOut,
    TxOutView,
};
use crate::outpoints::{distinct_keys, Outpoint};

verus! {

/// The candidates among which coins are chosen.
#[verifier::external_type_specification]
#[verifier::external_body]
pub struct ExInputCandidates(bdk_tx::InputCandidates);

/// Chosen coins and the outputs that they pay.
#[verifier::external_type_specification]
#[verifier::external_body]
pub struct ExSelection(bdk_tx::Selection);

/// A transaction that is being put together.
#[verifier::external_type_specification]
#[verifier::external_body]
pub struct ExPsbt(bitcoin::Psbt);

/// A coin that may be chosen.
#[verifier::ext_equal]
pub struct CandidateView {
    pub outpoint: Outpoint,
    pub prevout: TxOutView,
    pub sequence: u32,
    pub weight: usize,
}

/// An input of a transaction that is being put together.
#[verifier::ext_equal]
pub struct PsbtInputView {
    pub outpoint: Outpoint,
    pub prevout: TxOutView,
    pub sequence: u32,
    pub script_sig: Seq<u8>,
    pub witness: Seq<Seq<u8>>,
}

/// The candidates that a collection of them holds, in order.
pub uninterp spec fn candidates_of(c: bdk_tx::InputCandidates) -> Seq<CandidateView>;

/// The chosen coins that a selection holds, in order.
pub uninterp spec fn selected_inputs(s: bdk_tx::Selection) -> Seq<CandidateView>;

/// The outputs that a selection holds, in order.
pub uninterp spec fn selected_outputs(s: bdk_tx::Selection) -> Seq<TxOutView>;

/// The inputs that an unfinished transaction holds, in order.
pub uninterp spec fn psbt_inputs(p: bitcoin::Psbt) -> Seq<PsbtInputView>;

/// The outputs that an unfinished transaction holds, in order.
pub uninterp spec fn psbt_outputs(p: bitcoin::Psbt) -> Seq<TxOutView>;

/// The version of an unfinished transaction.
pub uninterp spec fn psbt_version(p: bitcoin::Psbt) -> i32;

/// The lock time of an unfinished transaction.
pub uninterp spec fn psbt_lock_time(p: bitcoin::Psbt) -> u32;

/// The candidates that coins make.
pub open spec fn candidate_views(
    coins: Seq<(Outpoint, TxOut)>,
    sequence: u32,
    weight: usize,
) -> Seq<CandidateView> {
    coins.map_values(
        |c: (Outpoint, TxOut)| CandidateView { outpoint: c.0, prevout: c.1@, sequence, weight },
    )
}

/// Trusted: `bdk_tx::InputCandidates::new` holds the given inputs, in order, where no
/// outpoint occurs twice. `bdk_tx::Input::from_psbt_input` makes such an input of an
/// outpoint, a sequence number, the output that is spent and the weight of the spend; with
/// that output and without a time lock it does not fail. The weight is added up, so it is
/// bounded by that of a taproot key spend.
#[verifier::external_body]
pub(crate) fn candidates(coins: &Vec<(Outpoint, TxOut)>, sequence: u32, weight: usize) -> (r:
    bdk_tx::InputCandidates)
    requires
        distinct_keys(coins@),
        weight <= 66,
    ensures
        candidates_of(r) == candidate_views(coins@, sequence, weight),
{
    bdk_tx::InputCandidates::new([], coins.iter().map(|c| {
        let witness_utxo = Some(bitcoin::TxOut {
            value: Amount::from_sat(c.1.value),
            script_pubkey: c.1.script_pubkey.clone().into() });
        let txid = bitcoin::hashes::Hash::from_byte_array(c.0.txid);
        let input = psbt::Input { witness_utxo, ..Default::default() };
        bdk_tx::Input::from_psbt_input(OutPoint::new(txid, c.0.vout), Sequence(sequence), input,
            weight, None, false, None).unwrap()
    }))
}

/// The outcome of choosing coins: those chosen and the outputs that they pay, or nothing
/// when they do not suffice.
pub uninterp spec fn selection_of(
    candidates: Seq<CandidateView>,
    target: TxOutView,
    change_script: Seq<u8>,
    change_weight: u64,
    fee_rate: u64,
    long_term_rate: u64,
    rounds: usize,
) -> Option<(Seq<CandidateView>, Seq<TxOutView>)>;

/// The sum of the values of candidates.
pub open spec fn candidate_total(candidates: Seq<CandidateView>) -> nat
    decreases candidates.len(),
{
    if candidates.len() == 0 {
        0
    } else {
        candidate_total(candidates.drop_last()) + candidates.last().prevout.value as nat
    }
}

/// The sum of the values of outputs.
pub open spec fn output_total(outputs: Seq<TxOutView>) -> nat
    decreases outputs.len(),
{
    if outputs.len() == 0 {
        0
    } else {
        output_total(outputs.drop_last()) + outputs.last().value as nat
    }
}

/// The least fee of a transaction that pays one taproot output: its weight without inputs,
/// at a rate in satoshis per thousand weight units, rounded up.
pub open spec fn least_fee(fee_rate: u64) -> int {
    (212 * fee_rate + 999) / 1000
}

/// Whether coins can be chosen without leaving the range of the arithmetic, part of which
/// is in single precision. Where the coins are worth the amount, they and the fee of
/// spending them all fit in sixty-two bits, and the amount, which is rounded to twenty-four
/// bits in up to five steps, is rounded by less than the least fee.
pub open spec fn amounts_in_range(total: nat, count: nat, amount: u64, fee_rate: u64) -> bool {
    &&& total <= u64::MAX
    &&& amount <= total ==> {
        &&& total <= 0x2000_0000_0000_0000
        &&& fee_rate * (230 * count + 1000) <= 1000 * 0x4000_0000_0000_0000
        &&& amount <= 3_300_000 * least_fee(fee_rate)
    }
}

/// Whether coins can be chosen without leaving the range of the arithmetic.
pub fn are_amounts_in_range(total: u64, count: usize, amount: u64, fee_rate: u64) -> (r: bool)
    ensures
        r == amounts_in_range(total as nat, count as nat, amount, fee_rate),
{
    if amount > total {
        return true;
    }
    let least: u128 = (212 * (fee_rate as u128) + 999) / 1000;
    if total > 0x2000_0000_0000_0000 || amount as u128 > 3_300_000 * least {
        return false;
    }
    let weight: u128 = 230 * (count as u128) + 1000;
    match (fee_rate as u128).checked_mul(weight) {
        Some(fee) => fee <= 1000 * 0x4000_0000_0000_0000,
        None => false,
    }
}

/// Whether `inputs` are chosen from `candidates`, none twice.
pub open spec fn chosen_from(
    inputs: Seq<CandidateView>,
    candidates: Seq<CandidateView>,
) -> bool {
    &&& forall|i: int| 0 <= i < inputs.len() ==> candidates.contains(#[trigger] inputs[i])
    &&& forall|i: int, j: int|
        0 <= i < j < inputs.len() ==> (#[trigger] inputs[i]).outpoint != (
        #[trigger] inputs[j]).outpoint
}

/// Whether `outputs` pay the target and then, perhaps, change.
pub open spec fn target_then_change(
    outputs: Seq<TxOutView>,
    target: TxOutView,
    change_script: Seq<u8>,
) -> bool {
    ||| outputs == seq![target]
    ||| outputs.len() == 2 && outputs[0] == target && outputs[1].script_pubkey == change_script
}

/// Trusted: what `bdk_tx::InputCandidates::into_selection` chooses with
/// `bdk_tx::selection_algorithm_lowest_fee_bnb` is a function of the candidates and the
/// parameters, named `selection_of`. It chooses among the candidates; the outputs are the
/// target and then, if the rest is worth it, change; and the coins are worth at least the
/// outputs. Its arithmetic is in part in single precision and stops on an assertion where
/// rounding outweighs the fee; such amounts are left out. Weights are added up as well, so
/// the scripts are taproot ones, and no coin is heavier than a taproot key spend.
#[verifier::external_body]
pub(crate) fn select(
    candidates: bdk_tx::InputCandidates,
    target: &TxOut,
    change_script: &Vec<u8>,
    change_weight: u64,
    fee_rate: u64,
    long_term_rate: u64,
    rounds: usize,
) -> (r: Option<bdk_tx::Selection>)
    requires
        forall|i: int|
            0 <= i < candidates_of(candidates).len() ==> (#[trigger] candidates_of(
                candidates,
            )[i]).weight <= 66,
        change_weight <= 66,
        target.script_pubkey@.len() == 34,
        change_script@.len() == 34,
        amounts_in_range(
            candidate_total(candidates_of(candidates)),
            candidates_of(candidates).len(),
            target.value,
            fee_rate,
        ),
    ensures
        r is Some <==> selection_of(
            candidates_of(candidates),
            target@,
            change_script@,
            change_weight,
            fee_rate,
            long_term_rate,
            rounds,
        ) is Some,
        r matches Some(s) ==> selection_of(
            candidates_of(candidates),
            target@,
            change_script@,
            change_weight,
            fee_rate,
            long_term_rate,
            rounds,
        ) == Some((selected_inputs(s), selected_outputs(s))),
        r matches Some(s) ==> chosen_from(selected_inputs(s), candidates_of(candidates)),
        r matches Some(s) ==> target_then_change(selected_outputs(s), target@, change_script@),
        r matches Some(s) ==> candidate_total(selected_inputs(s)) >= output_total(
            selected_outputs(s),
        ),
{
    let script = target.script_pubkey.clone().into();
    let outputs = vec![bdk_tx::Output::with_script(script, Amount::from_sat(target.value))];
    let weight = Weight::from_wu(change_weight);
    let change = bdk_tx::ChangeScript::from_script(change_script.clone().into(), weight);
    let rate = FeeRate::from_sat_per_kwu(fee_rate);
    let params = bdk_tx::SelectorParams::new(rate, outputs, change);
    let rate = FeeRate::from_sat_per_kwu(long_term_rate);
    let algorithm = bdk_tx::selection_algorithm_lowest_fee_bnb(rate, rounds);
    candidates.into_selection(algorithm, params).ok()
}

/// The inputs of an unfinished transaction as they are when coins were chosen.
pub open spec fn fresh_inputs(selected: Seq<CandidateView>) -> Seq<PsbtInputView> {
    selected.map_values(
        |c: CandidateView|
            PsbtInputView {
                outpoint: c.outpoint,
                prevout: c.prevout,
                sequence: c.sequence,
                script_sig: Seq::empty(),
                witness: Seq::empty(),
            },
    )
}

/// Trusted: `bdk_tx::Selection::create_psbt` with the parameters that are its default makes
/// an unfinished transaction of version two, without a lock time, with the chosen inputs
/// and the outputs in order. It draws no random numbers and does not fail on inputs that
/// were made of an output that is spent.
#[verifier::external_body]
pub(crate) fn create_psbt(selection: &bdk_tx::Selection) -> (r: bitcoin::Psbt)
    ensures
        psbt_version(r) == 2,
        psbt_lock_time(r) == 0,
        psbt_inputs(r) == fresh_inputs(selected_inputs(*selection)),
        psbt_outputs(r) == selected_outputs(*selection),
{
    selection.create_psbt(bdk_tx::PsbtParams::default()).unwrap()
}

/// Trusted: the outpoints of the inputs in a `bitcoin::Psbt`.
#[verifier::external_body]
pub(crate) fn psbt_outpoints(p: &bitcoin::Psbt) -> (r: Vec<Outpoint>)
    ensures
        r@ == psbt_inputs(*p).map_values(|i: PsbtInputView| i.outpoint),
{
    p.unsigned_tx.input.iter().map(|i| Outpoint {
        txid: bitcoin::hashes::Hash::to_byte_array(i.previous_output.txid),
        vout: i.previous_output.vout }).collect()
}

/// The scripts of outputs.
pub open spec fn output_scripts(outputs: Seq<TxOutView>) -> Seq<Seq<u8>> {
    outputs.map_values(|o: TxOutView| o.script_pubkey)
}

/// Trusted: the scripts of the outputs in a `bitcoin::Psbt`.
#[verifier::external_body]
pub(crate) fn psbt_scripts(p: &bitcoin::Psbt) -> (r: Vec<Vec<u8>>)
    ensures
        item_views(r@) == output_scripts(psbt_outputs(*p)),
{
    p.unsigned_tx.output.iter().map(|o| o.script_pubkey.to_bytes()).collect()
}

/// Trusted: writing the script of an output in a `bitcoin::Psbt`.
#[verifier::external_body]
pub(crate) fn set_psbt_script(p: &mut bitcoin::Psbt, i: usize, script: &Vec<u8>)
    requires
        i < psbt_outputs(*old(p)).len(),
    ensures
        psbt_outputs(*final(p)) == psbt_outputs(*old(p)).update(
            i as int,
            TxOutView {
                value: psbt_outputs(*old(p))[i as int].value,
                script_pubkey: script@,
            },
        ),
        psbt_inputs(*final(p)) == psbt_inputs(*old(p)),
        psbt_version(*final(p)) == psbt_version(*old(p)),
        psbt_lock_time(*final(p)) == psbt_lock_time(*old(p)),
{
    p.unsigned_tx.output[i].script_pubkey = ScriptBuf::from(script.clone());
}

/// Trusted: writing the witness of an input, of one item, in a `bitcoin::Psbt`.
#[verifier::external_body]
pub(crate) fn set_psbt_witness(p: &mut bitcoin::Psbt, i: usize, item: &Vec<u8>)
    requires
        i < psbt_inputs(*old(p)).len(),
    ensures
        psbt_inputs(*final(p)) == psbt_inputs(*old(p)).update(
            i as int,
            PsbtInputView { witness: seq![item@], ..psbt_inputs(*old(p))[i as int] },
        ),
        psbt_outputs(*final(p)) == psbt_outputs(*old(p)),
        psbt_version(*final(p)) == psbt_version(*old(p)),
        psbt_lock_time(*final(p)) == psbt_lock_time(*old(p)),
{
    p.inputs[i].final_script_witness = Some(bitcoin::Witness::from_slice(&[item]));
}

/// What is signed of an input: its outpoint and its sequence number.
pub open spec fn signed_inputs(inputs: Seq<PsbtInputView>) -> Seq<(Outpoint, u32)> {
    inputs.map_values(|i: PsbtInputView| (i.outpoint, i.sequence))
}

/// The hash that a taproot key signs to spend an input: of a transaction with a version, a
/// lock time, inputs and outputs that spends the outputs `prevouts`, for the input with
/// number `i`.
pub uninterp spec fn key_spend_hash_of(
    version: i32,
    lock_time: u32,
    inputs: Seq<(Outpoint, u32)>,
    outputs: Seq<TxOutView>,
    prevouts: Seq<TxOutView>,
    i: nat,
) -> Seq<u8>;

/// Trusted: the result of
/// `bitcoin::sighash::SighashCache::taproot_key_spend_signature_hash` for all previous
/// outputs and the default type is a function of the unsigned transaction, the previous
/// outputs and the input's number, named `key_spend_hash_of`. It does not fail when there
/// is one previous output to each input.
#[verifier::external_body]
pub(crate) fn key_spend_hash(p: &bitcoin::Psbt, i: usize, prevouts: &Vec<TxOut>) -> (r: [u8; 32])
    requires
        i < psbt_inputs(*p).len(),
        prevouts@.len() == psbt_inputs(*p).len(),
    ensures
        r@ == key_spend_hash_of(
            psbt_version(*p),
            psbt_lock_time(*p),
            signed_inputs(psbt_inputs(*p)),
            psbt_outputs(*p),
            txout_views(prevouts@),
            i as nat,
        ),
{
    let prevouts: Vec<bitcoin::TxOut> = prevouts.iter().map(|o| bitcoin::TxOut {
        value: Amount::from_sat(o.value),
        script_pubkey: o.script_pubkey.clone().into() }).collect();
    let all = bitcoin::sighash::Prevouts::All(&prevouts);
    let mut cache = bitcoin::sighash::SighashCache::new(&p.unsigned_tx);
    let kind = bitcoin::sighash::TapSighashType::Default;
    let hash = cache.taproot_key_spend_signature_hash(i, &all, kind).unwrap();
    bitcoin::hashes::Hash::to_byte_array(hash)
}

/// Why an unfinished transaction is not let out, in words, if it is not.
pub uninterp spec fn extraction_error(
    inputs: Seq<PsbtInputView>,
    outputs: Seq<TxOutView>,
) -> Option<Seq<char>>;

/// The transaction that an unfinished one becomes.
pub open spec fn finished(p: bitcoin::Psbt) -> TransactionView {
    TransactionView {
        version: psbt_version(p),
        lock_time: psbt_lock_time(p),
        input: psbt_inputs(p).map_values(
            |i: PsbtInputView|
                TxInView {
                    previous_output: i.outpoint,
                    script_sig: i.script_sig,
                    sequence: i.sequence,
                },
        ),
        output: psbt_outputs(p),
    }
}

/// Trusted: whether `bitcoin::Psbt::extract_tx` lets a transaction out, and what it says
/// otherwise, is a function of the inputs and the outputs, named `extraction_error`: it
/// holds back a transaction whose fee is absurdly high. What it lets out has the version,
/// the lock time, the inputs with their script signatures and witnesses, and the outputs
/// of the unfinished transaction.
#[verifier::external_body]
pub(crate) fn extract_tx(p: bitcoin::Psbt) -> (r: Result<Transaction, String>)
    ensures
        match r {
            Ok(tx) => {
                &&& extraction_error(psbt_inputs(p), psbt_outputs(p)) is None
                &&& tx@ == finished(p)
                &&& witness_views(tx.input@) == psbt_inputs(p).map_values(
                    |i: PsbtInputView| i.witness,
                )
            },
            Err(text) => extraction_error(psbt_inputs(p), psbt_outputs(p)) == Some(text@),
        },
{
    let tx = p.extract_tx().map_err(|e| e.to_string())?;
    let input = tx.input.iter().map(|i| TxIn {
        previous_output: Outpoint {
            txid: bitcoin::hashes::Hash::to_byte_array(i.previous_output.txid),
            vout: i.previous_output.vout },
        script_sig: i.script_sig.to_bytes(),
        sequence: i.sequence.0,
        witness: i.witness.to_vec() }).collect();
    let output = tx.output.iter().map(|o| TxOut {
        value: o.value.to_sat(),
        script_pubkey: o.script_pubkey.to_bytes() }).collect();
    let lock_time = tx.lock_time.to_consensus_u32();
    Ok(Transaction { version: tx.version.0, lock_time, input, output })
}

} // verus!
