//! What the command line client sends and shows.

use vstd::prelude::*;
use vstd::string::{StrSliceExecFns, StringExecFns};
use crate::requests::Balance;
use crate::text::{decimal, push_decimal, unhex};
use crate::wallet::bip352::hex_decode;

verus! {

/// The keys of a request to import them, from their hexadecimal forms, or what is wrong
/// with the first that is none.
pub fn import_request(scan_key: &String, spend_key: &String) -> (r: Result<
    (Vec<u8>, Vec<u8>),
    &'static str,
>)
    ensures
        match (unhex(scan_key@), unhex(spend_key@)) {
            (Some(scan), Some(spend)) => {
                &&& r is Ok
                &&& r->Ok_0.0@ == scan
                &&& r->Ok_0.1@ == spend
            },
            (None, _) => r is Err && r->Err_0@ == "scan_key must be valid hex"@,
            (_, None) => r is Err && r->Err_0@ == "spend_key must be valid hex"@,
        },
{
    match hex_decode(scan_key) {
        None => Err("scan_key must be valid hex"),
        Some(scan) => match hex_decode(spend_key) {
            None => Err("spend_key must be valid hex"),
            Some(spend) => Ok((scan, spend)),
        },
    }
}

/// The line that shows a balance.
pub fn balance_line(balance: &Balance) -> (r: String)
    ensures
        r@ == "Balance: "@ + decimal(balance.sats as nat) + " sats | scan height: "@ + decimal(
            balance.scan_height as nat,
        ) + " | UTXOs: "@ + decimal(balance.utxo_count as nat),
{
    let mut r = String::from_str("Balance: ");
    push_decimal(&mut r, balance.sats);
    r.append(" sats | scan height: ");
    push_decimal(&mut r, balance.scan_height as u64);
    r.append(" | UTXOs: ");
    push_decimal(&mut r, balance.utxo_count as u64);
    assert(r@ =~= "Balance: "@ + decimal(balance.sats as nat) + " sats | scan height: "@ + decimal(
        balance.scan_height as nat,
    ) + " | UTXOs: "@ + decimal(balance.utxo_count as nat));
    r
}

/// The text that shows a history.
pub fn history_text(entries: &str) -> (r: &str)
    ensures
        r@ == (if entries@.len() == 0 {
            "No history yet."@
        } else {
            entries@
        }),
{
    if entries.unicode_len() == 0 {
        "No history yet."
    } else {
        entries
    }
}

} // verus!
