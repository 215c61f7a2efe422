//! A silent payment (BIP-352) wallet and the decisions of the node around it.
//!
//! The library holds the wallet's rules as verified code. Reading files, talking to
//! peers and serving requests is left to the program that uses it.

use vstd::prelude::*;

pub mod blocks;
pub mod bytes;
pub mod chain;
pub mod client;
pub mod logging;
pub mod node;
pub mod outpoints;
pub mod peers;
pub mod requests;
pub mod secp;
pub mod shutdown;
pub mod sorting;
pub mod silentpayments;
pub mod state;
pub mod text;
pub mod wallet;

verus! {

} // verus!
