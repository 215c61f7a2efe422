//! Coins: silent payment outputs with what is needed to spend them.

use vstd::prelude::*;
use crate::outpoints::Outpoint;
use crate::secp::Scalar;

pub use crate::silentpayments::wallet::SpentBy;

verus! {

/// An output that the wallet can spend once it has the spend key.
#[derive(Clone, Debug, PartialEq, Eq)]
pub struct Coin {
    /// The amount, in satoshis.
    pub value: u64,
    pub script_pubkey: Vec<u8>,
    /// What is added to the spend key to get the output's key.
    pub tweak: Scalar,
    pub label: Option<Scalar>,
    pub block_height: u32,
    pub spent_by: Option<SpentBy>,
}

/// What a coin says.
#[verifier::ext_equal]
pub struct CoinView {
    pub value: u64,
    pub script_pubkey: Seq<u8>,
    pub tweak: Seq<u8>,
    pub label: Option<Seq<u8>>,
    pub block_height: u32,
    pub spent_by: Option<SpentBy>,
}

/// A label's scalar as bytes.
pub open spec fn label_view(label: Option<Scalar>) -> Option<Seq<u8>> {
    match label {
        Some(s) => Some(s@),
        None => None,
    }
}

impl View for Coin {
    type V = CoinView;

    open spec fn view(&self) -> CoinView {
        CoinView {
            value: self.value,
            script_pubkey: self.script_pubkey@,
            tweak: self.tweak@,
            label: label_view(self.label),
            block_height: self.block_height,
            spent_by: self.spent_by,
        }
    }
}

/// Coins under their outpoints, as values.
pub open spec fn coin_views(coins: Seq<(Outpoint, Coin)>) -> Seq<(Outpoint, CoinView)> {
    coins.map_values(|c: (Outpoint, Coin)| (c.0, c.1@))
}

} // verus!
