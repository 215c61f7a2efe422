//! What the node answers to the requests of the command line client.

use vstd::prelude::*;
use vstd::string::StringExecFns;
use crate::bytes::be_value;
use crate::chain::{
    compute_txid, decode_transaction, signed_view, transaction_of_bytes, txid_of, Transaction,
};
use crate::secp::{is_exponent, point_parsed, KeyError, PublicKey, SecretKey, XOnlyPublicKey};
use crate::state::{attachable, new_store_of, store_of, WalletState};
use crate::text::hex;
use crate::wallet::account::{receiver_of, total_value, unspent_coins, ImportError};
use crate::wallet::bip352::{address_text_of, network_number, ReceiverView};
use crate::wallet::sending::{key_error_message, key_error_text, shown_txid};
use crate::wallet::Network;

verus! {

/// The text of an import error.
pub open spec fn import_error_text(e: ImportError) -> Seq<char> {
    match e {
        ImportError::Key(e) => key_error_text(e),
        ImportError::ChangeLabel => "the change label is out of range"@,
    }
}

impl ImportError {
    /// The error in words.
    pub fn message(&self) -> (r: &'static str)
        ensures
            r@ == import_error_text(*self),
    {
        match self {
            ImportError::Key(e) => key_error_message(e),
            ImportError::ChangeLabel => "the change label is out of range",
        }
    }
}

fn two_parts(first: &str, second: &str) -> (r: String)
    ensures
        r@ == first@ + second@,
{
    let mut r = String::from_str(first);
    r.append(second);
    r
}

/// The point that a spend key encodes: in its compressed form, or by its x coordinate alone,
/// with an even second one.
pub open spec fn spend_point_of(spend: Seq<u8>) -> Option<Seq<u8>> {
    if spend.len() == 33 {
        point_parsed(spend)
    } else if spend.len() == 32 {
        point_parsed(seq![0x02u8] + spend)
    } else {
        None
    }
}

/// Reads a spend key: in its compressed form, or by its x coordinate alone, with an even
/// second one.
pub fn read_spend_key(bytes: &[u8]) -> (r: Result<PublicKey, KeyError>)
    ensures
        match r {
            Ok(p) => spend_point_of(bytes@) == Some(p@),
            Err(e) => spend_point_of(bytes@) is None && e == KeyError::InvalidPublicKey,
        },
{
    if bytes.len() == 33 {
        PublicKey::from_slice(bytes)
    } else {
        match XOnlyPublicKey::from_slice(bytes) {
            Ok(x) => Ok(x.even_point()),
            Err(e) => Err(e),
        }
    }
}

/// The receiver that a request to import keys makes, or the answer that refuses it.
pub open spec fn imported(scan: Seq<u8>, spend: Seq<u8>, network: Network) -> Result<
    ReceiverView,
    Seq<char>,
> {
    if !(scan.len() == 32 && is_exponent(be_value(scan))) {
        Err("invalid scan key: "@ + "malformed or out-of-range secret key"@)
    } else {
        match spend_point_of(spend) {
            None => Err("invalid spend key: "@ + "malformed public key"@),
            Some(p) => match receiver_of(scan, p, network) {
                Ok(receiver) => Ok(receiver),
                Err(e) => Err("invalid key pair: "@ + import_error_text(e)),
            },
        }
    }
}

/// A spend key in compressed form is taken as it is, with its parity, and so is one that is
/// given by its x coordinate alone, as the even key.
pub proof fn spend_keys_are_imported(
    scan: Seq<u8>,
    spend: Seq<u8>,
    network: Network,
    p: Seq<u8>,
)
    requires
        scan.len() == 32,
        is_exponent(be_value(scan)),
        spend.len() == 33 && point_parsed(spend) == Some(p) || spend.len() == 32 && point_parsed(
            seq![0x02u8] + spend,
        ) == Some(p),
    ensures
        match receiver_of(scan, p, network) {
            Ok(receiver) => imported(scan, spend, network) == Ok::<_, Seq<char>>(receiver),
            Err(e) => imported(scan, spend, network) == Err::<ReceiverView, _>(
                "invalid key pair: "@ + import_error_text(e),
            ),
        },
{
}

/// Imports the keys of a wallet that only watches, and sees to it that the wallet has a
/// store. `file` holds the store's file if there is one. A request that is refused changes
/// nothing.
pub fn import_keys(
    state: &mut WalletState,
    scan_bytes: &[u8],
    spend_bytes: &[u8],
    file: Option<&[u8]>,
) -> (r: Result<&'static str, String>)
    ensures
        match r {
            Ok(message) => {
                &&& message@ == "keys imported"@
                &&& final(state).wallet.keys is Some
                &&& imported(scan_bytes@, spend_bytes@, old(state).wallet.network) == Ok::<
                    _,
                    Seq<char>,
                >(final(state).wallet.keys.unwrap().receiver@)
                &&& final(state).wallet.keys.unwrap().scan_secret@ == scan_bytes@
                &&& final(state).wallet.spend_secret is None
                &&& final(state).wallet.network == old(state).wallet.network
                &&& final(state).wallet.scan_height == old(state).wallet.scan_height
                &&& final(state).wallet.utxos == old(state).wallet.utxos
                &&& final(state).wallet.reserved == old(state).wallet.reserved
                &&& final(state).store_path == old(state).store_path
                &&& match (old(state).store, file) {
                    (Some(_), _) => final(state).store == old(state).store,
                    (None, Some(bytes)) => match attachable(bytes@, old(state).wallet.network) {
                        Some(v) => {
                            &&& final(state).store is Some
                            &&& store_of(&final(state).store.unwrap(), v, bytes@)
                        },
                        None => final(state).store is None,
                    },
                    (None, None) => {
                        &&& final(state).store is Some
                        &&& new_store_of(&final(state).store.unwrap(), old(state).wallet.network)
                    },
                }
            },
            Err(text) => {
                &&& imported(scan_bytes@, spend_bytes@, old(state).wallet.network) == Err::<
                    ReceiverView,
                    _,
                >(text@)
                &&& *final(state) == *old(state)
            },
        },
{
    let scan_key = match SecretKey::from_slice(scan_bytes) {
        Ok(k) => k,
        Err(e) => {
            return Err(two_parts("invalid scan key: ", key_error_message(&e)));
        },
    };
    let spend_key = match read_spend_key(spend_bytes) {
        Ok(k) => k,
        Err(e) => {
            return Err(two_parts("invalid spend key: ", key_error_message(&e)));
        },
    };
    match state.wallet.import_public_keys(scan_key, spend_key) {
        Ok(()) => {},
        Err(e) => {
            return Err(two_parts("invalid key pair: ", e.message()));
        },
    }
    state.ensure_store(file);
    Ok("keys imported")
}

/// The state of the wallet's money.
#[derive(Clone, Copy, Debug, PartialEq, Eq)]
pub struct Balance {
    pub sats: u64,
    pub scan_height: u32,
    pub utxo_count: u32,
}

/// The state of the wallet's money.
pub fn get_balance(state: &WalletState) -> (r: Balance)
    requires
        total_value(unspent_coins(state.wallet.coins())) <= u64::MAX,
    ensures
        r.sats == total_value(unspent_coins(state.wallet.coins())),
        r.scan_height == state.wallet.scan_height,
        r.utxo_count == unspent_coins(state.wallet.coins()).len() as int % 0x1_0000_0000,
{
    let count: u64 = state.wallet.utxo_count() as u64;
    Balance {
        sats: state.wallet.balance(),
        scan_height: state.wallet.scan_height,
        utxo_count: (count % 0x1_0000_0000) as u32,
    }
}

/// Lines in one text, with a line feed between each and the next.
pub open spec fn joined_lines(lines: Seq<Seq<char>>) -> Seq<char>
    decreases lines.len(),
{
    if lines.len() == 0 {
        Seq::empty()
    } else if lines.len() == 1 {
        lines[0]
    } else {
        joined_lines(lines.drop_last()) + "\n"@ + lines.last()
    }
}

/// Lines in one text, with a line feed between each and the next.
pub fn join_lines(lines: &Vec<String>) -> (r: String)
    ensures
        r@ == joined_lines(lines@.map_values(|l: String| l@)),
{
    let ghost texts = lines@.map_values(|l: String| l@);
    let mut r = String::new();
    let mut i: usize = 0;
    while i < lines.len()
        invariant
            i <= lines@.len(),
            texts == lines@.map_values(|l: String| l@),
            r@ == joined_lines(texts.take(i as int)),
        decreases lines@.len() - i,
    {
        if i > 0 {
            r.append("\n");
        }
        r.append(lines[i].as_str());
        i = i + 1;
        proof {
            let done = texts.take(i as int);
            assert(done.drop_last() =~= texts.take(i - 1));
            assert(done.last() == lines@[i - 1]@);
            assert(r@ =~= joined_lines(done));
        }
    }
    assert(texts.take(i as int) =~= texts);
    r
}

/// The address that is handed out.
pub fn receive(state: &WalletState) -> (r: Result<String, String>)
    ensures
        match r {
            Ok(address) => {
                &&& state.wallet.keys is Some
                &&& address@ == address_text_of(
                    state.wallet.keys.unwrap().receiver@.scan,
                    state.wallet.keys.unwrap().receiver@.spend,
                    network_number(state.wallet.keys.unwrap().receiver@.network),
                )
            },
            Err(text) => state.wallet.keys is None && text@ == "no keys imported"@,
        },
{
    match state.wallet.receive_address() {
        Some(address) => Ok(address),
        None => Err(String::from_str("no keys imported")),
    }
}

/// The transaction of a request to broadcast one, with its hash as it is shown, or the
/// answer that refuses it.
pub fn read_broadcast(raw: &[u8]) -> (r: Result<(Transaction, String), String>)
    ensures
        match transaction_of_bytes(raw@) {
            Ok(tx) => {
                &&& r is Ok
                &&& signed_view(r->Ok_0.0) == tx
                &&& r->Ok_0.1@ == hex(txid_of(tx.tx)@.reverse())
            },
            Err(text) => r is Err && r->Err_0@ == "invalid transaction: "@ + text,
        },
{
    match decode_transaction(raw) {
        Ok(tx) => {
            let txid = shown_txid(&compute_txid(&tx));
            Ok((tx, txid))
        },
        Err(text) => Err(two_parts("invalid transaction: ", text.as_str())),
    }
}

/// The answer to a request to broadcast a transaction, once it was handed to the peers or
/// could not be.
pub fn broadcast_answer(txid: String, sent: Result<(), String>) -> (r: Result<String, String>)
    ensures
        match sent {
            Ok(()) => r == Ok::<String, String>(txid),
            Err(text) => r is Err && r->Err_0@ == "broadcast unavailable: "@ + text@,
        },
{
    match sent {
        Ok(()) => Ok(txid),
        Err(text) => Err(two_parts("broadcast unavailable: ", text.as_str())),
    }
}

/// Lines that follow others come behind them, after one line feed; a line alone is as it is.
pub proof fn lines_are_joined_by_line_feeds(a: Seq<Seq<char>>, b: Seq<Seq<char>>, line: Seq<char>)
    requires
        a.len() > 0,
        b.len() > 0,
    ensures
        joined_lines(a + b) == joined_lines(a).push('\n') + joined_lines(b),
        joined_lines(seq![line]) == line,
        joined_lines(Seq::empty()).len() == 0,
    decreases b.len(),
{
    reveal_strlit("\n");
    assert("\n"@ =~= seq!['\n']);
    assert((a + b).drop_last() =~= a + b.drop_last());
    if b.len() == 1 {
        assert(a + b.drop_last() =~= a);
        assert(joined_lines(a + b) =~= joined_lines(a).push('\n') + joined_lines(b));
    } else {
        lines_are_joined_by_line_feeds(a, b.drop_last(), line);
        assert(joined_lines(a + b) =~= joined_lines(a).push('\n') + joined_lines(b));
    }
}

} // verus!
