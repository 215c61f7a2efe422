//! The store of coins and its file.

use kernel_node::outpoints::Outpoint;
use kernel_node::secp::Scalar;
use kernel_node::wallet::coins::{Coin, SpentBy};
use kernel_node::wallet::store::{
    encode_record, StoreIoError, WalletStore, WalletStoreError,
};
use kernel_node::wallet::Network;

/// A file that may not be there yet.
struct Disk {
    bytes: Option<Vec<u8>>,
}

impl Disk {
    fn new() -> Self {
        Disk { bytes: None }
    }

    fn put(&mut self, bytes: &[u8]) {
        self.bytes = Some(bytes.to_vec());
    }

    fn create(&self, network: Network) -> Result<WalletStore, WalletStoreError> {
        WalletStore::create(self.bytes.is_some(), network)
    }

    fn open(&self) -> Result<WalletStore, WalletStoreError> {
        WalletStore::open(self.bytes.as_ref().unwrap())
    }

    /// Makes the writes that a store hands out.
    fn write(&mut self, store: &mut WalletStore) {
        let file = self.bytes.get_or_insert_with(Vec::new);
        for write in store.take_writes() {
            let at = write.offset as usize;
            let end = at + write.data.len();
            if file.len() < end {
                file.resize(end, 0);
            }
            file[at..end].copy_from_slice(&write.data);
        }
    }
}

fn outpoint_n(n: u8) -> Outpoint {
    Outpoint {
        txid: [n; 32],
        vout: n as u32,
    }
}

fn p2tr_script() -> Vec<u8> {
    let mut bytes = vec![0x51u8, 0x20];
    bytes.extend_from_slice(&[0u8; 32]);
    bytes
}

fn dummy_coin() -> Coin {
    Coin {
        value: 100_000,
        script_pubkey: p2tr_script(),
        tweak: Scalar::from_be_bytes([7u8; 32]).unwrap(),
        label: None,
        block_height: 800_000,
        spent_by: None,
    }
}

#[test]
fn create_then_open_empty() {
    let mut disk = Disk::new();

    let mut store = disk.create(Network::Regtest).unwrap();
    assert_eq!(store.scan_height, 0);
    assert_eq!(store.total_records, 0);
    disk.write(&mut store);

    let store = disk.open().unwrap();
    assert_eq!(store.scan_height, 0);
    assert!(matches!(store.network, Network::Regtest));
}

#[test]
fn create_refuses_to_overwrite() {
    let mut disk = Disk::new();
    let mut store = disk.create(Network::Regtest).unwrap();
    disk.write(&mut store);
    let result = disk.create(Network::Regtest);
    assert!(matches!(
        result,
        Err(WalletStoreError::Io(StoreIoError::AlreadyExists))
    ));
}

#[test]
fn new_coins_persist_across_open() {
    let mut disk = Disk::new();

    let op = outpoint_n(1);
    let coin = dummy_coin();

    let mut store = disk.create(Network::Regtest).unwrap();
    store.apply_scan(100, &[(op, coin.clone())], &[]).unwrap();
    disk.write(&mut store);

    let store = disk.open().unwrap();
    assert_eq!(store.scan_height, 100);
    let coins = store.coins().unwrap();
    assert_eq!(coins.len(), 1);
    assert_eq!(coins[0].0, op);
    assert_eq!(coins[0].1.value, coin.value);
    assert_eq!(coins[0].1.block_height, coin.block_height);
    assert_eq!(coins[0].1.tweak.to_be_bytes(), coin.tweak.to_be_bytes());
    assert_eq!(coins[0].1.script_pubkey, coin.script_pubkey);
    assert!(coins[0].1.spent_by.is_none());
}

#[test]
fn mark_spent_persists_across_open() {
    let mut disk = Disk::new();

    let op = outpoint_n(1);
    let spending_txid = [9u8; 32];

    let mut store = disk.create(Network::Regtest).unwrap();
    store.apply_scan(100, &[(op, dummy_coin())], &[]).unwrap();
    store
        .apply_scan(
            101,
            &[],
            &[(
                op,
                SpentBy {
                    txid: spending_txid,
                    block_height: 101,
                },
            )],
        )
        .unwrap();
    disk.write(&mut store);

    let store = disk.open().unwrap();
    let coins = store.coins().unwrap();
    assert_eq!(coins.len(), 1);
    let s = coins[0].1.spent_by.as_ref().unwrap();
    assert_eq!(s.txid, spending_txid);
    assert_eq!(s.block_height, 101);
}

#[test]
fn same_block_receive_and_spend() {
    let mut disk = Disk::new();

    let op = outpoint_n(1);
    let spending_txid = [9u8; 32];

    let mut store = disk.create(Network::Regtest).unwrap();
    store
        .apply_scan(
            100,
            &[(op, dummy_coin())],
            &[(
                op,
                SpentBy {
                    txid: spending_txid,
                    block_height: 100,
                },
            )],
        )
        .unwrap();
    disk.write(&mut store);

    let store = disk.open().unwrap();
    let coins = store.coins().unwrap();
    assert_eq!(coins.len(), 1);
    assert!(coins[0].1.spent_by.is_some());
}

#[test]
fn disconnect_tombstones_coin() {
    let mut disk = Disk::new();

    let op = outpoint_n(1);
    let mut store = disk.create(Network::Regtest).unwrap();
    store.apply_scan(100, &[(op, dummy_coin())], &[]).unwrap();
    store.apply_disconnect(99, &[op], &[]);
    disk.write(&mut store);

    let store = disk.open().unwrap();
    assert_eq!(store.scan_height, 99);
    assert!(store.coins().unwrap().is_empty());
}

#[test]
fn disconnect_clears_spent_state() {
    let mut disk = Disk::new();

    let op = outpoint_n(1);
    let mut store = disk.create(Network::Regtest).unwrap();
    store.apply_scan(100, &[(op, dummy_coin())], &[]).unwrap();
    store
        .apply_scan(
            101,
            &[],
            &[(
                op,
                SpentBy {
                    txid: [9u8; 32],
                    block_height: 101,
                },
            )],
        )
        .unwrap();
    store.apply_disconnect(100, &[], &[op]);
    disk.write(&mut store);

    let store = disk.open().unwrap();
    let coins = store.coins().unwrap();
    assert_eq!(coins.len(), 1);
    assert!(coins[0].1.spent_by.is_none());
}

#[test]
fn label_scalar_roundtrip() {
    let mut disk = Disk::new();

    let op = outpoint_n(1);
    let label_scalar = Scalar::from_be_bytes([3u8; 32]).unwrap();
    let coin = Coin {
        label: Some(label_scalar),
        ..dummy_coin()
    };

    let mut store = disk.create(Network::Regtest).unwrap();
    store.apply_scan(100, &[(op, coin)], &[]).unwrap();
    disk.write(&mut store);

    let store = disk.open().unwrap();
    let coins = store.coins().unwrap();
    let loaded_label = coins[0].1.label.as_ref().unwrap();
    assert_eq!(loaded_label.to_be_bytes(), label_scalar.to_be_bytes());
}

#[test]
fn open_rejects_bad_magic() {
    let mut disk = Disk::new();
    disk.put(&b"XXXX\x01\x00\x00\x00\x00\x00\x00\x00\x00\x00"[..]);
    assert!(matches!(
        disk.open(),
        Err(WalletStoreError::BadMagic)
    ));
}

#[test]
fn open_rejects_wrong_version() {
    let mut disk = Disk::new();
    let mut bytes = b"SPWF".to_vec();
    bytes.push(99); // version
    bytes.push(2);
    bytes.extend_from_slice(&[0u8; 8]); // scan_height + total_records
    disk.put(&bytes[..]);
    assert!(matches!(
        disk.open(),
        Err(WalletStoreError::WrongVersion(99))
    ));
}

#[test]
fn apply_scan_is_idempotent_for_duplicate_coins() {
    let mut disk = Disk::new();

    let op = outpoint_n(1);
    let mut store = disk.create(Network::Regtest).unwrap();
    store.apply_scan(100, &[(op, dummy_coin())], &[]).unwrap();
    store.apply_scan(100, &[(op, dummy_coin())], &[]).unwrap();
    disk.write(&mut store);

    let store = disk.open().unwrap();
    assert_eq!(store.coins().unwrap().len(), 1);
}

#[test]
fn non_p2tr_script_is_rejected_at_encode() {
    let coin = Coin {
        script_pubkey: vec![0u8; 25], // not 34 bytes
        ..dummy_coin()
    };
    assert!(matches!(
        encode_record(&outpoint_n(1), &coin),
        Err(WalletStoreError::NonP2trScript { got: 25 })
    ));
}

#[test]
fn multi_record_indexing() {
    let mut disk = Disk::new();

    let op_a = outpoint_n(1);
    let op_b = outpoint_n(2);
    let spending_txid = [9u8; 32];

    let mut store = disk.create(Network::Regtest).unwrap();
    store
        .apply_scan(100, &[(op_a, dummy_coin()), (op_b, dummy_coin())], &[])
        .unwrap();
    store
        .apply_scan(
            101,
            &[],
            &[(
                op_b,
                SpentBy {
                    txid: spending_txid,
                    block_height: 101,
                },
            )],
        )
        .unwrap();
    disk.write(&mut store);

    let store = disk.open().unwrap();
    let coins = store.coins().unwrap();
    assert_eq!(coins.len(), 2);

    assert_eq!(coins[0].0, op_a);
    assert_eq!(coins[1].0, op_b);

    assert!(coins[0].1.spent_by.is_none());
    let b_spent = coins[1].1.spent_by.as_ref().unwrap();
    assert_eq!(b_spent.txid, spending_txid);
    assert_eq!(b_spent.block_height, 101);
}

#[test]
fn disconnect_is_idempotent_for_already_removed_coins() {
    let mut disk = Disk::new();

    let op = outpoint_n(1);
    let mut store = disk.create(Network::Regtest).unwrap();
    store.apply_scan(100, &[(op, dummy_coin())], &[]).unwrap();
    store.apply_disconnect(99, &[op], &[]);
    store.apply_disconnect(99, &[op], &[]);
    disk.write(&mut store);

    let store = disk.open().unwrap();
    assert_eq!(store.scan_height, 99);
    assert!(store.coins().unwrap().is_empty());
}

#[test]
fn open_rejects_truncated_header() {
    let mut disk = Disk::new();
    disk.put(&b"SPWF\x01"[..]);
    assert!(matches!(
        disk.open(),
        Err(WalletStoreError::Io(_))
    ));
}

#[test]
fn open_rejects_truncated_record() {
    let mut disk = Disk::new();

    let mut store = disk.create(Network::Regtest).unwrap();
    store
        .apply_scan(100, &[(outpoint_n(1), dummy_coin())], &[])
        .unwrap();
    disk.write(&mut store);

    let truncated_len = 14 + 184 / 2;
    disk.bytes.as_mut().unwrap().truncate(truncated_len);

    assert!(matches!(
        disk.open(),
        Err(WalletStoreError::Io(_))
    ));
}

#[test]
fn coins_rejects_unknown_status_byte() {
    let mut disk = Disk::new();

    let mut store = disk.create(Network::Regtest).unwrap();
    store
        .apply_scan(100, &[(outpoint_n(1), dummy_coin())], &[])
        .unwrap();
    disk.write(&mut store);

    disk.bytes.as_mut().unwrap()[14] = 99;

    let store = disk.open().unwrap();
    assert!(matches!(
        store.coins(),
        Err(WalletStoreError::UnknownStatus(99))
    ));
}
