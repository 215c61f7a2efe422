//! A wallet together with its store.

use kernel_node::outpoints::Outpoint;
use kernel_node::secp::Scalar;
use kernel_node::state::WalletState;
use kernel_node::wallet::account::Wallet;
use kernel_node::wallet::coins::{Coin, SpentBy};
use kernel_node::wallet::store::WalletStore;
use kernel_node::wallet::Network;

fn fresh_wallet(network: Network) -> Wallet {
    Wallet::new(network)
}

fn path() -> String {
    String::from("wallet.bin")
}

/// Makes the writes that a store hands out.
fn flush(file: &mut Vec<u8>, store: &mut WalletStore) {
    for write in store.take_writes() {
        let at = write.offset as usize;
        let end = at + write.data.len();
        if file.len() < end {
            file.resize(end, 0);
        }
        file[at..end].copy_from_slice(&write.data);
    }
}

fn new_file(network: Network) -> Vec<u8> {
    let mut file = Vec::new();
    flush(&mut file, &mut WalletStore::create(false, network).unwrap());
    file
}

#[test]
fn ensure_store_creates_new_file() {
    let mut wallet_state = WalletState::new(fresh_wallet(Network::Regtest), None, path());
    wallet_state.ensure_store(None);

    assert!(wallet_state.store.is_some(), "store should be set");
    let mut file = Vec::new();
    flush(&mut file, wallet_state.store.as_mut().unwrap());
    assert!(!file.is_empty(), "file should exist on disk");
    assert_eq!(file, b"SPWF\x01\x02\x00\x00\x00\x00\x00\x00\x00\x00");
}

#[test]
fn ensure_store_opens_existing_file() {
    let file = new_file(Network::Regtest);

    let mut wallet_state = WalletState::new(fresh_wallet(Network::Regtest), None, path());
    wallet_state.ensure_store(Some(&file));
    assert!(wallet_state.store.is_some());
}

#[test]
fn ensure_store_is_noop_when_already_set() {
    let mut wallet_state = WalletState::new(fresh_wallet(Network::Regtest), None, path());
    wallet_state.ensure_store(None);
    let first = wallet_state.store.as_mut().unwrap();
    assert_eq!(first.take_writes().len(), 1);

    wallet_state.ensure_store(None);
    let second = wallet_state.store.as_mut().unwrap();
    assert_eq!(second.take_writes().len(), 0, "store should not be replaced");
}

#[test]
fn ensure_store_refuses_mismatched_network() {
    let file = new_file(Network::Regtest);

    let mut wallet_state = WalletState::new(fresh_wallet(Network::Mainnet), None, path());
    wallet_state.ensure_store(Some(&file));

    assert!(
        wallet_state.store.is_none(),
        "store should not attach on network mismatch"
    );
}

#[test]
fn open_or_new_fresh_when_no_file() {
    let wallet_state = WalletState::open_or_new(Network::Regtest, path(), None);
    assert!(
        wallet_state.store.is_none(),
        "no file → store should be None"
    );
    assert_eq!(wallet_state.wallet.scan_height, 0);
}

fn stored_coin(value: u64) -> (Outpoint, Coin) {
    let outpoint = Outpoint {
        txid: [1u8; 32],
        vout: 0,
    };
    let mut p2tr = vec![0x51u8, 0x20];
    p2tr.extend_from_slice(&[0u8; 32]);
    let coin = Coin {
        value,
        script_pubkey: p2tr,
        tweak: Scalar::from_be_bytes([7u8; 32]).unwrap(),
        label: None,
        block_height: 100,
        spent_by: None::<SpentBy>,
    };
    (outpoint, coin)
}

#[test]
fn open_or_new_restores_from_existing_file() {
    let (outpoint, coin) = stored_coin(50_000);
    let mut file = Vec::new();
    {
        let mut s = WalletStore::create(false, Network::Regtest).unwrap();
        s.apply_scan(100, &[(outpoint, coin.clone())], &[]).unwrap();
        flush(&mut file, &mut s);
    }

    let wallet_state = WalletState::open_or_new(Network::Regtest, path(), Some(&file));
    assert!(wallet_state.store.is_some(), "store should attach");
    assert_eq!(wallet_state.wallet.scan_height, 100);
    assert_eq!(wallet_state.wallet.balance(), 50_000);
    assert_eq!(wallet_state.wallet.utxo_count(), 1);
}

#[test]
fn open_or_new_falls_back_when_file_corrupt() {
    let wallet_state = WalletState::open_or_new(Network::Regtest, path(), Some(b"GARBAGE"));
    assert!(
        wallet_state.store.is_none(),
        "corrupt file → store should be None"
    );
    assert_eq!(wallet_state.wallet.scan_height, 0);
}

#[test]
fn open_or_new_falls_back_on_network_mismatch() {
    let file = new_file(Network::Regtest);

    let wallet_state = WalletState::open_or_new(Network::Mainnet, path(), Some(&file));
    assert!(
        wallet_state.store.is_none(),
        "network mismatch should leave store detached"
    );
}

#[test]
fn open_or_new_falls_back_when_a_record_is_corrupt() {
    let (outpoint, coin) = stored_coin(50_000);
    let mut file = Vec::new();
    let mut s = WalletStore::create(false, Network::Regtest).unwrap();
    s.apply_scan(100, &[(outpoint, coin)], &[]).unwrap();
    flush(&mut file, &mut s);
    file[14] = 7;

    let wallet_state = WalletState::open_or_new(Network::Regtest, path(), Some(&file));
    assert!(wallet_state.store.is_none());
    assert_eq!(wallet_state.wallet.scan_height, 0);
    assert_eq!(wallet_state.wallet.utxo_count(), 0);
}
