//! Stored forms, error cases and small containers.

use kernel_node::chain::{Block, Transaction, TxIn, TxOut};
use kernel_node::outpoints::{Outpoint, OutpointMap};
use kernel_node::secp::{KeyError, PublicKey, Scalar, SecretKey, XOnlyPublicKey};
use kernel_node::silentpayments::scanning::FoundPayment;
use kernel_node::silentpayments::wallet as found;
use kernel_node::silentpayments::{ScanKey, SpendKey};
use kernel_node::text::{push_decimal, push_hex};
use kernel_node::wallet::coins::{Coin, SpentBy};
use kernel_node::wallet::store::{
    decode_network, decode_record, encode_network, encode_record, StoreIoError, WalletStore,
    WalletStoreError,
};
use kernel_node::wallet::utxos;
use kernel_node::wallet::Network;

fn outpoint(n: u8) -> Outpoint {
    Outpoint { txid: [n; 32], vout: n as u32 }
}

fn coin() -> Coin {
    let mut script_pubkey = vec![0x51, 0x20];
    script_pubkey.extend_from_slice(&[3; 32]);
    Coin {
        value: 100_000,
        script_pubkey,
        tweak: Scalar::from_be_bytes([7; 32]).unwrap(),
        label: Some(Scalar::from_be_bytes([8; 32]).unwrap()),
        block_height: 800_000,
        spent_by: None,
    }
}

#[test]
fn record_has_its_layout() {
    let rec = encode_record(&outpoint(1), &coin()).unwrap();
    assert_eq!(rec.len(), 184);
    assert_eq!(rec[0], 0);
    assert_eq!(rec[1..33], [1; 32]);
    assert_eq!(rec[33..37], [1, 0, 0, 0]);
    assert_eq!(rec[37..45], [0xa0, 0x86, 1, 0, 0, 0, 0, 0]);
    assert_eq!(rec[45..79], coin().script_pubkey[..]);
    assert_eq!(rec[79..111], [7; 32]);
    assert_eq!(rec[111], 1);
    assert_eq!(rec[112..144], [8; 32]);
    assert_eq!(rec[144..148], [0x00, 0x35, 0x0c, 0x00]);
    assert_eq!(rec[148..], [0; 36]);
    assert_eq!(decode_record(&rec), Ok((outpoint(1), coin())));
}

#[test]
fn damaged_records_are_refused() {
    let rec = encode_record(&outpoint(1), &coin()).unwrap();
    let mut bad = rec;
    bad[111] = 2;
    assert_eq!(decode_record(&bad), Err(WalletStoreError::UnknownLabelTag(2)));
    let mut bad = rec;
    bad[79..111].copy_from_slice(&[0xff; 32]);
    assert_eq!(decode_record(&bad), Err(WalletStoreError::InvalidScalar));
    let mut bad = rec;
    bad[112..144].copy_from_slice(&[0xff; 32]);
    assert_eq!(decode_record(&bad), Err(WalletStoreError::InvalidScalar));
}

#[test]
fn networks_have_their_bytes() {
    for (network, byte) in
        [(Network::Mainnet, 0), (Network::Testnet, 1), (Network::Regtest, 2)]
    {
        assert_eq!(encode_network(network), byte);
        assert_eq!(decode_network(byte), Ok(network));
    }
    assert_eq!(decode_network(3), Err(WalletStoreError::UnknownNetwork(3)));
    let file = b"SPWF\x01\x03\x00\x00\x00\x00\x00\x00\x00\x00";
    assert!(matches!(WalletStore::open(file), Err(WalletStoreError::UnknownNetwork(3))));
}

#[test]
fn store_errors_have_their_words() {
    let words = |e: WalletStoreError| e.message();
    assert_eq!(
        words(WalletStoreError::Io(StoreIoError::Other("disk full".to_string()))),
        "i/o: disk full"
    );
    assert_eq!(
        words(WalletStoreError::Io(StoreIoError::UnexpectedEof)),
        "i/o: failed to fill whole buffer"
    );
    assert_eq!(
        words(WalletStoreError::Io(StoreIoError::AlreadyExists)),
        "i/o: File exists (os error 17)"
    );
    assert_eq!(words(WalletStoreError::BadMagic), "bad magic bytes");
    assert_eq!(words(WalletStoreError::WrongVersion(9)), "unsupported version: 9");
    assert_eq!(words(WalletStoreError::UnknownNetwork(9)), "unknown network byte: 9");
    assert_eq!(words(WalletStoreError::UnknownStatus(9)), "unknown record status byte: 9");
    assert_eq!(words(WalletStoreError::UnknownLabelTag(9)), "unknown label tag byte: 9");
    assert_eq!(words(WalletStoreError::InvalidScalar), "invalid scalar in record");
    assert_eq!(
        words(WalletStoreError::NonP2trScript { got: 25 }),
        "script_pubkey is 25 bytes, expected 34"
    );
}

#[test]
fn coin_that_cannot_be_recorded_stops_the_scan() {
    let mut store = WalletStore::create(false, Network::Regtest).unwrap();
    let mut bad = coin();
    bad.script_pubkey.pop();
    let new = [(outpoint(1), coin()), (outpoint(2), bad), (outpoint(3), coin())];
    assert_eq!(
        store.apply_scan(50, &new, &[]),
        Err(WalletStoreError::NonP2trScript { got: 33 })
    );
    assert_eq!(store.scan_height(), 0);
    assert_eq!(store.network(), Network::Regtest);
}

fn block(input: Outpoint) -> Block {
    Block {
        txdata: vec![Transaction {
            version: 2,
            lock_time: 0,
            input: vec![TxIn {
                previous_output: input,
                script_sig: vec![],
                sequence: 0,
                witness: vec![],
            }],
            output: vec![TxOut { value: 1, script_pubkey: vec![] }],
        }],
    }
}

#[test]
fn outputs_are_found_and_spent() {
    let mut wallet = utxos::SilentPaymentWallet::new();
    wallet.process_block(&block(outpoint(9)), 10, &[([1; 32], 1, 500), ([2; 32], 2, 700)]);
    assert_eq!(wallet.balance(), 1_200);
    assert_eq!(wallet.utxo_count(), 2);
    wallet.process_block(&block(outpoint(1)), 12, &[]);
    assert_eq!(wallet.balance(), 700);
    assert_eq!(wallet.utxo_count(), 1);
    assert_eq!(wallet.scan_height, 12);
    let history = wallet.history();
    assert_eq!(history.len(), 3);
    assert_eq!(
        history[2],
        utxos::HistoryEntry::Spent { outpoint: outpoint(1), value: 500, spent_at: 12 }
    );

    let saved = wallet.save();
    assert_eq!(saved[..4], *b"SP02");
    let loaded = utxos::SilentPaymentWallet::load(&saved).unwrap();
    assert_eq!(loaded.balance(), 700);
    assert_eq!(loaded.history(), history);
    assert_eq!(loaded.scan_height, 12);
    assert!(matches!(
        utxos::SilentPaymentWallet::load(&saved[..saved.len() - 1]),
        Err(utxos::LoadError::UnexpectedEof)
    ));
    assert!(matches!(
        utxos::SilentPaymentWallet::load(b"SP01\0\0\0\0\0\0\0\0"),
        Err(utxos::LoadError::BadMagic)
    ));
    assert_eq!(utxos::LoadError::BadMagic.message(), "bad magic");
}

#[test]
fn same_block_can_find_and_spend() {
    let mut wallet = utxos::SilentPaymentWallet::new();
    wallet.process_block(&block(outpoint(1)), 10, &[([1; 32], 1, 500)]);
    assert_eq!(wallet.balance(), 0);
    assert_eq!(wallet.history().len(), 2);
}

fn x_only() -> XOnlyPublicKey {
    PublicKey::from_secret_key(&SecretKey::from_slice(&[0x42; 32]).unwrap()).x_only_public_key()
}

#[test]
fn damaged_wallets_are_refused() {
    let mut wallet = found::SilentPaymentWallet::default();
    let payment =
        FoundPayment { txid: [1; 32], vout: 2, x_only_pubkey: x_only(), k: 0, amount: -5 };
    wallet.process_found_payments(&[payment], 7);
    let saved = wallet.save();
    assert_eq!(saved[..4], *b"SP01");
    let loaded = found::SilentPaymentWallet::load(&saved).unwrap();
    assert_eq!(loaded.balance(), -5);

    let key_at = saved.windows(32).position(|w| w == x_only().serialize()).unwrap();
    let mut bad = saved.clone();
    bad[key_at..key_at + 32].copy_from_slice(&[0xff; 32]);
    let refused = found::SilentPaymentWallet::load(&bad).err().unwrap();
    assert_eq!(refused, found::LoadError::BadKey);
    assert_eq!(refused.kind(), found::ErrorKind::InvalidData);
    assert_eq!(refused.message(), "bad x-only key: malformed public key");
    let refused = found::SilentPaymentWallet::load(&saved[..20]).err().unwrap();
    assert_eq!(refused.kind(), found::ErrorKind::UnexpectedEof);
    assert_eq!(refused.message(), "failed to fill whole buffer");
    assert_eq!(
        found::LoadError::BadMagic.message(),
        "not a silent payment wallet file (bad magic)"
    );
}

#[test]
fn history_adds_up_to_the_balance() {
    let mut wallet = found::SilentPaymentWallet::new();
    for n in 0..4u8 {
        let payment = FoundPayment {
            txid: [n; 32],
            vout: 0,
            x_only_pubkey: x_only(),
            k: 0,
            amount: 1_000 + n as i64,
        };
        wallet.process_found_payments(&[payment], 100 - n as u32);
    }
    wallet.check_for_spends(&[([9; 32], [2; 32], 0), ([9; 32], [7; 32], 0)], 150);
    let history = found::build_history(&wallet);
    let sum: i64 = history.iter().map(|e| e.signed_amount()).sum();
    assert_eq!(sum, wallet.balance());
    assert!(history.windows(2).all(|w| w[0].block_height() <= w[1].block_height()));
}

#[test]
fn map_keeps_the_order_of_its_keys() {
    let mut map: OutpointMap<u8> = OutpointMap::new();
    map.insert(outpoint(3), 30);
    map.insert(outpoint(1), 10);
    map.insert(outpoint(3), 31);
    assert_eq!(map.len(), 2);
    assert_eq!(*map.at(0), (outpoint(3), 31));
    assert_eq!(map.position(&outpoint(1)), Some(1));
    assert_eq!(map.get(&outpoint(2)), None);
    assert!(map.contains_key(&outpoint(1)));
    assert_eq!(map.remove(&outpoint(3)), Some(31));
    assert_eq!(map.remove(&outpoint(3)), None);
    assert_eq!(map.position(&outpoint(1)), Some(0));
    assert!(outpoint(1).same(&outpoint(1)));
    assert!(!outpoint(1).same(&outpoint(2)));
}

#[test]
fn outpoint_has_a_short_form() {
    let mut txid = [0u8; 32];
    txid[28..].copy_from_slice(&[0x0d, 0xc0, 0xb0, 0xa0]);
    assert_eq!(Outpoint { txid, vout: 12 }.short_form(), "a0b0c00d…:12");
}

#[test]
fn numbers_and_bytes_have_their_digits() {
    let mut text = String::new();
    push_decimal(&mut text, 0);
    text.push(' ');
    push_decimal(&mut text, u64::MAX);
    text.push(' ');
    push_hex(&mut text, &[0x00, 0x1f, 0xff]);
    assert_eq!(text, "0 18446744073709551615 001fff");
}

#[test]
fn bad_keys_have_their_errors() {
    assert!(matches!(SecretKey::from_slice(&[0; 32]), Err(KeyError::InvalidSecretKey)));
    assert!(matches!(SecretKey::from_slice(&[0xff; 32]), Err(KeyError::InvalidSecretKey)));
    assert!(matches!(ScanKey::from_slice(&[1; 33]), Err(KeyError::InvalidSecretKey)));
    assert!(matches!(SpendKey::from_slice(&[2; 32]), Err(KeyError::InvalidPublicKey)));
    assert!(matches!(PublicKey::from_slice(&[5; 33]), Err(KeyError::InvalidPublicKey)));
    assert!(matches!(XOnlyPublicKey::from_slice(&[0; 32]), Err(KeyError::InvalidPublicKey)));
    assert!(Scalar::from_be_bytes([0xff; 32]).is_none());
    let zero = Scalar::from_be_bytes([0; 32]).unwrap();
    let one = SecretKey::from_slice(&[1; 32]).unwrap();
    let point = PublicKey::from_secret_key(&one);
    assert_eq!(point.mul_tweak(&zero), Err(KeyError::InvalidTweak));
    assert_eq!(point.add_exp_tweak(&zero), Ok(point));
    assert!(one.add_tweak(&zero).unwrap() == one);
}

#[test]
fn keys_add_and_multiply() {
    let mut two = [0u8; 32];
    two[31] = 2;
    let mut three = [0u8; 32];
    three[31] = 3;
    let mut five = [0u8; 32];
    five[31] = 5;
    let mut six = [0u8; 32];
    six[31] = 6;
    let public = |b: [u8; 32]| PublicKey::from_secret_key(&SecretKey::from_slice(&b).unwrap());
    let scalar = |b: [u8; 32]| Scalar::from_be_bytes(b).unwrap();
    assert_eq!(public(two).add_exp_tweak(&scalar(three)), Ok(public(five)));
    assert_eq!(public(two).mul_tweak(&scalar(three)), Ok(public(six)));
    assert_eq!(PublicKey::combine_keys(&vec![public(two), public(three)]), Some(public(five)));
    let negated = SecretKey::from_slice(&two).unwrap().negate();
    let negated_public = PublicKey::from_secret_key(&negated);
    assert_eq!(PublicKey::combine_keys(&vec![public(two), negated_public]), None);
    assert_eq!(negated_public.x_only_public_key(), public(two).x_only_public_key());
    let tweak = Scalar::from_be_bytes(negated.secret_bytes()).unwrap();
    assert!(SecretKey::from_slice(&two).unwrap().add_tweak(&tweak).is_err());
    assert_eq!(public(two).add_exp_tweak(&tweak), Err(KeyError::InvalidTweak));
    // Twice the generator.
    assert_eq!(
        hex::encode(public(two).serialize()),
        "02c6047f9441ed7d6d3045406e95c07cd85c778e4b8cef3ca7abac09b95c709ee5"
    );
}

#[test]
fn store_marks_and_unmarks() {
    let mut store = WalletStore::create(false, Network::Regtest).unwrap();
    store.apply_scan(5, &[(outpoint(1), coin()), (outpoint(2), coin())], &[]).unwrap();
    let by = SpentBy { txid: [4; 32], block_height: 6 };
    store.apply_scan(6, &[], &[(outpoint(2), by), (outpoint(3), by)]).unwrap();
    assert_eq!(store.coins().unwrap()[1].1.spent_by, Some(by));
    store.apply_disconnect(5, &[outpoint(1)], &[outpoint(2)]);
    let coins = store.coins().unwrap();
    assert_eq!(coins.len(), 1);
    assert_eq!(coins[0], (outpoint(2), coin()));
    assert_eq!(store.scan_height, 5);
    // A coin that was removed can be recorded anew.
    store.apply_scan(6, &[(outpoint(1), coin())], &[]).unwrap();
    assert_eq!(store.coins().unwrap().len(), 2);
    assert_eq!(store.total_records, 3);
}

#[test]
fn disconnected_block_is_undone() {
    let mut store = WalletStore::create(false, Network::Regtest).unwrap();
    store.apply_scan(5, &[(outpoint(1), coin()), (outpoint(2), coin())], &[]).unwrap();
    let before = store.coins().unwrap();
    let by = SpentBy { txid: [4; 32], block_height: 6 };
    let new = [(outpoint(3), coin()), (outpoint(4), coin())];
    store.apply_scan(6, &new, &[(outpoint(1), by), (outpoint(3), by)]).unwrap();
    assert_ne!(store.coins().unwrap(), before);
    store.apply_disconnect(5, &[outpoint(3), outpoint(4)], &[outpoint(1), outpoint(3)]);
    assert_eq!(store.coins().unwrap(), before);
    assert_eq!(store.scan_height, 5);
}

/// The file that writes make.
fn written(file: &[u8], store: &mut WalletStore) -> Vec<u8> {
    let mut file = file.to_vec();
    for write in store.take_writes() {
        let end = write.offset as usize + write.data.len();
        if file.len() < end {
            file.resize(end, 0);
        }
        file[write.offset as usize..end].copy_from_slice(&write.data);
    }
    file
}

/// A store's file in which one outpoint has two records.
fn doubled_file() -> Vec<u8> {
    let mut store = WalletStore::create(false, Network::Testnet).unwrap();
    store.apply_scan(5, &[(outpoint(1), coin()), (outpoint(2), coin())], &[]).unwrap();
    let mut file = written(&[], &mut store);
    let first = file[14..14 + 184].to_vec();
    file.extend_from_slice(&first);
    file[10] = 3;
    file
}

#[test]
fn changed_store_opens_again() {
    let by = SpentBy { txid: [4; 32], block_height: 6 };
    for start in [Vec::new(), doubled_file()] {
        let mut store = if start.is_empty() {
            WalletStore::create(false, Network::Testnet).unwrap()
        } else {
            WalletStore::open(&start).unwrap()
        };
        store.apply_scan(6, &[(outpoint(3), coin())], &[(outpoint(1), by)]).unwrap();
        store.apply_disconnect(5, &[outpoint(1)], &[outpoint(3)]);
        store.apply_scan(7, &[(outpoint(4), coin())], &[(outpoint(3), by)]).unwrap();
        let file = written(&start, &mut store);
        let again = WalletStore::open(&file).unwrap();
        assert_eq!(again.network(), Network::Testnet);
        assert_eq!(again.scan_height(), 7);
        assert_eq!(again.coins(), store.coins());
    }
}

#[test]
fn known_coins_are_not_recorded_again() {
    let mut store = WalletStore::open(&doubled_file()).unwrap();
    let before = store.coins().unwrap();
    assert_eq!(before.len(), 3);
    let mut other = coin();
    other.value = 1;
    store.apply_scan(9, &[(outpoint(1), other.clone()), (outpoint(2), other)], &[]).unwrap();
    assert_eq!(store.coins().unwrap(), before);
    assert_eq!(store.scan_height(), 9);
}

#[test]
fn scan_is_taken_back_whatever_the_file() {
    let mut store = WalletStore::open(&doubled_file()).unwrap();
    let before = store.coins().unwrap();
    let by = SpentBy { txid: [4; 32], block_height: 6 };
    let new = [(outpoint(3), coin()), (outpoint(4), coin())];
    let spent = [(outpoint(1), by), (outpoint(4), by)];
    store.apply_scan(6, &new, &spent).unwrap();
    store.apply_disconnect(5, &[outpoint(3), outpoint(4)], &[outpoint(1), outpoint(4)]);
    assert_eq!(store.coins().unwrap(), before);
    store.apply_scan(6, &new, &spent).unwrap();
    let keys: Vec<Outpoint> = store.coins().unwrap().iter().map(|c| c.0).collect();
    assert_eq!(keys, [outpoint(1), outpoint(2), outpoint(1), outpoint(3), outpoint(4)]);
}

#[test]
fn prefixes_of_wallets_are_refused() {
    let mut wallet = found::SilentPaymentWallet::new();
    for vout in 0..2 {
        let payment =
            FoundPayment { txid: [1; 32], vout, x_only_pubkey: x_only(), k: 0, amount: 5 };
        wallet.process_found_payments(&[payment], 7);
    }
    wallet.check_for_spends(&[([3; 32], [1; 32], 0)], 8);
    assert_eq!(wallet.scan_height(), wallet.scan_height);
    let saved = wallet.save();
    for n in 0..saved.len() {
        let refused = found::SilentPaymentWallet::load(&saved[..n]).err().unwrap();
        assert_eq!(refused.kind(), found::ErrorKind::UnexpectedEof);
    }
    let mut more = saved.clone();
    more.extend_from_slice(&[9; 50]);
    assert_eq!(found::SilentPaymentWallet::load(&more).unwrap().save(), saved);

    let mut wallet = utxos::SilentPaymentWallet::new();
    wallet.process_block(&block(outpoint(9)), 3, &[([1; 32], 1, 500), ([2; 32], 2, 700)]);
    wallet.process_block(&block(outpoint(1)), 4, &[]);
    assert_eq!(wallet.scan_height(), 4);
    let saved = wallet.save();
    for n in 0..saved.len() {
        let refused = utxos::SilentPaymentWallet::load(&saved[..n]).err().unwrap();
        assert_eq!(refused.kind(), found::ErrorKind::UnexpectedEof);
    }
    assert_eq!(utxos::LoadError::BadMagic.kind(), found::ErrorKind::InvalidData);
}

/// A store after a scan that was refused at its second coin.
fn refused_store() -> WalletStore {
    let mut store = WalletStore::create(false, Network::Regtest).unwrap();
    store.apply_scan(5, &[(outpoint(1), coin())], &[]).unwrap();
    let mut bad = coin();
    bad.script_pubkey.pop();
    let new = [(outpoint(2), coin()), (outpoint(3), bad)];
    assert!(store.apply_scan(6, &new, &[]).is_err());
    assert_eq!(store.scan_height(), 5);
    store
}

#[test]
fn known_coins_are_passed_over_after_a_refused_scan() {
    let mut store = refused_store();
    let before = store.coins().unwrap();
    assert_eq!(before.len(), 2);
    let mut other = coin();
    other.value = 1;
    store.apply_scan(6, &[(outpoint(1), other.clone()), (outpoint(2), other)], &[]).unwrap();
    assert_eq!(store.coins().unwrap(), before);
    assert_eq!(store.total_records, 2);
    assert_eq!(store.scan_height(), 6);
}

#[test]
fn scan_is_taken_back_and_made_again_after_a_refused_scan() {
    let mut store = refused_store();
    let before = store.coins().unwrap();
    let by = SpentBy { txid: [4; 32], block_height: 6 };
    let new = [(outpoint(3), coin()), (outpoint(4), coin())];
    let spent = [(outpoint(2), by), (outpoint(3), by)];
    store.apply_scan(6, &new, &spent).unwrap();
    store.apply_disconnect(5, &[outpoint(3), outpoint(4)], &[outpoint(2), outpoint(3)]);
    assert_eq!(store.coins().unwrap(), before);
    assert_eq!(store.scan_height(), 5);
    store.apply_scan(6, &new, &spent).unwrap();
    let keys: Vec<Outpoint> = store.coins().unwrap().iter().map(|c| c.0).collect();
    assert_eq!(keys, [outpoint(1), outpoint(2), outpoint(3), outpoint(4)]);
}

#[test]
fn doubled_record_can_drop_out_of_the_index() {
    let mut store = WalletStore::open(&doubled_file()).unwrap();
    store.apply_disconnect(4, &[outpoint(1)], &[]);
    // The first record of the outpoint is left, but the index knows it no more.
    assert_eq!(store.coins().unwrap().len(), 2);
    store.apply_scan(5, &[(outpoint(1), coin())], &[]).unwrap();
    assert_eq!(store.coins().unwrap().len(), 3);
}
