//! Transactions and blocks, as far as the wallet reads and writes them.

use vstd::prelude::*;
use bitcoin::consensus::encode::Error;
use bitcoin::consensus::{deserialize, Decodable};
use bitcoin::{absolute, Amount, OutPoint, Sequence};
use crate::outpoints::Outpoint;

verus! {

/// An input of a transaction.
#[derive(Clone, Debug, PartialEq, Eq)]
pub struct TxIn {
    pub previous_output: Outpoint,
    pub script_sig: Vec<u8>,
    pub sequence: u32,
    pub witness: Vec<Vec<u8>>,
}

/// An output of a transaction.
#[derive(Clone, Debug, PartialEq, Eq)]
pub struct TxOut {
    /// The amount, in satoshis.
    pub value: u64,
    pub script_pubkey: Vec<u8>,
}

/// A transaction.
#[derive(Clone, Debug, PartialEq, Eq)]
pub struct Transaction {
    pub version: i32,
    pub lock_time: u32,
    pub input: Vec<TxIn>,
    pub output: Vec<TxOut>,
}

/// A block's transactions, the coinbase first.
#[derive(Clone, Debug, PartialEq, Eq)]
pub struct Block {
    pub txdata: Vec<Transaction>,
}

/// What an input says, but for its witness.
#[verifier::ext_equal]
pub struct TxInView {
    pub previous_output: Outpoint,
    pub script_sig: Seq<u8>,
    pub sequence: u32,
}

impl View for TxIn {
    type V = TxInView;

    open spec fn view(&self) -> TxInView {
        TxInView {
            previous_output: self.previous_output,
            script_sig: self.script_sig@,
            sequence: self.sequence,
        }
    }
}

/// What an output says.
#[verifier::ext_equal]
pub struct TxOutView {
    pub value: u64,
    pub script_pubkey: Seq<u8>,
}

impl View for TxOut {
    type V = TxOutView;

    open spec fn view(&self) -> TxOutView {
        TxOutView { value: self.value, script_pubkey: self.script_pubkey@ }
    }
}

/// What a transaction says, but for its witnesses.
#[verifier::ext_equal]
pub struct TransactionView {
    pub version: i32,
    pub lock_time: u32,
    pub input: Seq<TxInView>,
    pub output: Seq<TxOutView>,
}

/// Inputs as values.
pub open spec fn input_views(input: Seq<TxIn>) -> Seq<TxInView> {
    input.map_values(|i: TxIn| i@)
}

/// Outputs as values.
pub open spec fn txout_views(output: Seq<TxOut>) -> Seq<TxOutView> {
    output.map_values(|o: TxOut| o@)
}

impl View for Transaction {
    type V = TransactionView;

    open spec fn view(&self) -> TransactionView {
        TransactionView {
            version: self.version,
            lock_time: self.lock_time,
            input: input_views(self.input@),
            output: txout_views(self.output@),
        }
    }
}

/// Byte strings as values.
pub open spec fn item_views(items: Seq<Vec<u8>>) -> Seq<Seq<u8>> {
    items.map_values(|item: Vec<u8>| item@)
}

/// The witnesses of inputs.
pub open spec fn witness_views(inputs: Seq<TxIn>) -> Seq<Seq<Seq<u8>>> {
    inputs.map_values(|i: TxIn| item_views(i.witness@))
}

/// A transaction with its witnesses, as a value.
#[verifier::ext_equal]
pub struct SignedView {
    pub tx: TransactionView,
    pub witnesses: Seq<Seq<Seq<u8>>>,
}

/// A transaction with its witnesses, as a value.
pub open spec fn signed_view(tx: Transaction) -> SignedView {
    SignedView { tx: tx@, witnesses: witness_views(tx.input@) }
}

/// The hash by which a transaction is known. Witnesses have no part in it.
pub uninterp spec fn txid_of(tx: TransactionView) -> [u8; 32];

/// The hash by which a transaction is known. Trusted: the result of
/// `bitcoin::Transaction::compute_txid` is a function of everything in the transaction but
/// the witnesses, named `txid_of`.
#[verifier::external_body]
pub(crate) fn compute_txid(tx: &Transaction) -> (r: [u8; 32])
    ensures
        r == txid_of(tx@),
{
    let input = tx.input.iter().map(|i| bitcoin::TxIn {
        previous_output: OutPoint::new(
            bitcoin::hashes::Hash::from_byte_array(i.previous_output.txid),
            i.previous_output.vout),
        script_sig: i.script_sig.clone().into(),
        sequence: Sequence(i.sequence),
        witness: Default::default() }).collect();
    let output = tx.output.iter().map(|o| bitcoin::TxOut {
        value: Amount::from_sat(o.value),
        script_pubkey: o.script_pubkey.clone().into() }).collect();
    let version = bitcoin::transaction::Version(tx.version);
    let lock_time = absolute::LockTime::from_consensus(tx.lock_time);
    let tx = bitcoin::Transaction { version, lock_time, input, output };
    bitcoin::hashes::Hash::to_byte_array(tx.compute_txid())
}

/// Transactions with their witnesses, as values.
pub open spec fn signed_views(txs: Seq<Transaction>) -> Seq<SignedView> {
    txs.map_values(|tx: Transaction| signed_view(tx))
}

/// The transactions of a block that is given as bytes, if the bytes are a block.
pub uninterp spec fn block_of_bytes(raw: Seq<u8>) -> Option<Seq<SignedView>>;

/// Reads a block. Trusted: what `bitcoin::consensus::deserialize` makes of bytes as a block
/// is a function of the bytes, of which the transactions are named `block_of_bytes`.
#[verifier::external_body]
pub(crate) fn decode_block(raw: &[u8]) -> (r: Option<Block>)
    ensures
        match r {
            Some(b) => block_of_bytes(raw@) == Some(signed_views(b.txdata@)),
            None => block_of_bytes(raw@) is None,
        },
{
    let block: bitcoin::Block = deserialize(raw).ok()?;
    let txdata = block.txdata.iter().map(|tx| Transaction {
        version: tx.version.0,
        lock_time: tx.lock_time.to_consensus_u32(),
        input: tx.input.iter().map(|i| TxIn {
            previous_output: Outpoint {
                txid: bitcoin::hashes::Hash::to_byte_array(i.previous_output.txid),
                vout: i.previous_output.vout },
            script_sig: i.script_sig.to_bytes(), sequence: i.sequence.0,
            witness: i.witness.to_vec() }).collect(),
        output: tx.output.iter().map(|o| TxOut {
            value: o.value.to_sat(),
            script_pubkey: o.script_pubkey.to_bytes() }).collect() });
    Some(Block { txdata: txdata.collect() })
}

/// The transaction at the start of bytes, or why there is none.
pub uninterp spec fn transaction_of_bytes(raw: Seq<u8>) -> Result<SignedView, Seq<char>>;

/// Reads the transaction at the start of bytes. Trusted: what
/// `<bitcoin::Transaction as bitcoin::consensus::Decodable>::consensus_decode` makes of
/// bytes, and the text of its error, are a function of the bytes, named
/// `transaction_of_bytes`.
#[verifier::external_body]
pub(crate) fn decode_transaction(raw: &[u8]) -> (r: Result<Transaction, String>)
    ensures
        match r {
            Ok(tx) => transaction_of_bytes(raw@) == Ok::<_, Seq<char>>(signed_view(tx)),
            Err(text) => transaction_of_bytes(raw@) == Err::<SignedView, _>(text@),
        },
{
    let tx = Decodable::consensus_decode(&mut &*raw);
    let tx: bitcoin::Transaction = tx.map_err(|e: Error| e.to_string())?;
    let lock_time = tx.lock_time.to_consensus_u32();
    let input = tx.input.iter().map(|i| TxIn {
        previous_output: Outpoint {
            txid: bitcoin::hashes::Hash::to_byte_array(i.previous_output.txid),
            vout: i.previous_output.vout },
        script_sig: i.script_sig.to_bytes(), sequence: i.sequence.0,
        witness: i.witness.to_vec() }).collect();
    let output = tx.output.iter().map(|o| TxOut {
        value: o.value.to_sat(),
        script_pubkey: o.script_pubkey.to_bytes() }).collect();
    Ok(Transaction { version: tx.version.0, lock_time, input, output })
}

} // verus!
