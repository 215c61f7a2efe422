//! The silent payment wallet: scanning, coins, their store, and spending them.

use vstd::prelude::*;

pub mod account;
pub mod bip352;
pub mod coins;
pub mod funding;
pub mod persistence;
pub mod reopening;
pub mod scanning;
pub mod sending;
pub mod store;
pub mod utxos;

verus! {

/// A network of silent payment addresses.
#[derive(Clone, Copy, Debug, PartialEq, Eq, Structural)]
pub enum Network {
    Mainnet,
    Testnet,
    Regtest,
}

} // verus!
