//! Spending coins.

use bitcoin::secp256k1::{self, Message, Secp256k1};
use bitcoin::sighash::{Prevouts, SighashCache, TapSighashType};
use bitcoin::{Amount, ScriptBuf};
use kernel_node::chain::Transaction;
use kernel_node::outpoints::Outpoint;
use kernel_node::secp::{PublicKey, Scalar, SecretKey};
use kernel_node::wallet::account::Wallet;
use kernel_node::wallet::bip352::{build_receiver, SilentPaymentAddress};
use kernel_node::wallet::coins::Coin;
use kernel_node::wallet::sending::{build_transaction, p2tr_script, SendError, SpendableCoin};
use kernel_node::wallet::Network;

/// Two satoshis for each virtual byte, in satoshis for each thousand weight units.
const SAT_PER_KWU: u64 = 500;

fn outside_transaction(tx: &Transaction) -> bitcoin::Transaction {
    bitcoin::Transaction {
        version: bitcoin::transaction::Version(tx.version),
        lock_time: bitcoin::absolute::LockTime::from_consensus(tx.lock_time),
        input: tx
            .input
            .iter()
            .map(|i| bitcoin::TxIn {
                previous_output: bitcoin::OutPoint::new(
                    bitcoin::hashes::Hash::from_byte_array(i.previous_output.txid),
                    i.previous_output.vout,
                ),
                script_sig: ScriptBuf::from(i.script_sig.clone()),
                sequence: bitcoin::Sequence(i.sequence),
                witness: bitcoin::Witness::from_slice(&i.witness),
            })
            .collect(),
        output: tx
            .output
            .iter()
            .map(|o| bitcoin::TxOut {
                value: Amount::from_sat(o.value),
                script_pubkey: ScriptBuf::from(o.script_pubkey.clone()),
            })
            .collect(),
    }
}

fn even_secret(bytes: [u8; 32]) -> SecretKey {
    let key = SecretKey::from_slice(&bytes).unwrap();
    match PublicKey::from_secret_key(&key).serialize()[0] {
        0x03 => key.negate(),
        _ => key,
    }
}

fn address(scan: SecretKey, spend: SecretKey) -> SilentPaymentAddress {
    let spend_pub = PublicKey::from_secret_key(&spend);
    build_receiver(&scan, spend_pub, Network::Regtest)
        .unwrap()
        .get_receiving_address()
}

fn owned_coin(spend_secret: &SecretKey, tweak: Scalar, value: u64) -> Coin {
    let output_key = PublicKey::from_secret_key(&spend_secret.add_tweak(&tweak).unwrap()).x_only_public_key();
    Coin {
        value,
        script_pubkey: p2tr_script(&output_key),
        tweak,
        label: None,
        block_height: 1,
        spent_by: None,
    }
}

#[test]
fn signs_a_spendable_taproot_input() {
    let scan_secret = even_secret([0x01; 32]);
    let spend_secret = even_secret([0x02; 32]);
    let change_address = build_receiver(
        &scan_secret,
        PublicKey::from_secret_key(&spend_secret),
        Network::Regtest,
    )
    .unwrap()
    .get_change_address();

    let recipient = address(even_secret([0x03; 32]), even_secret([0x04; 32]));

    let tweak = Scalar::from_be_bytes([0x05; 32]).unwrap();
    let coin = owned_coin(&spend_secret, tweak, 100_000);
    let outpoint = Outpoint {
        txid: [0xab; 32],
        vout: 0,
    };
    let coins = [SpendableCoin {
        outpoint,
        coin: &coin,
    }];

    let fee_rate = SAT_PER_KWU;
    let amount = 50_000;
    let tx = build_transaction(
        &spend_secret,
        recipient,
        amount,
        fee_rate,
        change_address,
        &coins,
    )
    .unwrap();

    assert_eq!(tx.input.len(), 1);
    assert_eq!(tx.output.len(), 2);
    assert_eq!(tx.output[0].value, amount);

    let fee = coin.value - tx.output.iter().map(|o| o.value).sum::<u64>();
    assert!(fee > 0);

    let prevouts = [bitcoin::TxOut {
        value: Amount::from_sat(coin.value),
        script_pubkey: ScriptBuf::from(coin.script_pubkey.clone()),
    }];
    let outside = outside_transaction(&tx);
    let mut cache = SighashCache::new(&outside);
    let sighash = cache
        .taproot_key_spend_signature_hash(0, &Prevouts::All(&prevouts), TapSighashType::Default)
        .unwrap();
    let message = Message::from_digest(bitcoin::hashes::Hash::to_byte_array(sighash));
    let witness = &tx.input[0].witness;
    let sig = secp256k1::schnorr::Signature::from_slice(&witness[0][..64]).unwrap();
    let output_key = spend_secret.add_tweak(&tweak).unwrap();
    let output_key = PublicKey::from_secret_key(&output_key).x_only_public_key();
    let output_key = secp256k1::XOnlyPublicKey::from_slice(&output_key.serialize()).unwrap();
    Secp256k1::new()
        .verify_schnorr(&sig, &message, &output_key)
        .expect("signature must verify against the output key");
}

#[test]
fn rejects_amount_over_balance() {
    let spend_secret = even_secret([0x02; 32]);
    let change_address = address(even_secret([0x01; 32]), spend_secret);
    let recipient = address(even_secret([0x03; 32]), even_secret([0x04; 32]));
    let tweak = Scalar::from_be_bytes([0x05; 32]).unwrap();
    let coin = owned_coin(&spend_secret, tweak, 10_000);
    let coins = [SpendableCoin {
        outpoint: Outpoint {
            txid: [0xab; 32],
            vout: 0,
        },
        coin: &coin,
    }];

    let err = build_transaction(
        &spend_secret,
        recipient,
        20_000,
        SAT_PER_KWU,
        change_address,
        &coins,
    )
    .unwrap_err();
    assert!(matches!(err, SendError::InsufficientFunds { .. }));
}

#[test]
fn reserved_coins_are_not_reselected() {
    let scan_secret = even_secret([0x01; 32]);
    let spend_secret = even_secret([0x02; 32]);
    let mut wallet = Wallet::new(Network::Regtest);
    wallet.import_signing_keys(scan_secret, spend_secret).unwrap();

    let tweak = Scalar::from_be_bytes([0x05; 32]).unwrap();
    let coin = owned_coin(&spend_secret, tweak, 100_000);
    let outpoint = Outpoint {
        txid: [0xab; 32],
        vout: 0,
    };
    wallet.utxos.insert(outpoint, coin);

    let recipient = address(even_secret([0x03; 32]), even_secret([0x04; 32]));
    let fee_rate = SAT_PER_KWU;
    let amount = 50_000;

    let tx = wallet
        .build_transaction(recipient, amount, fee_rate)
        .unwrap();
    let outpoints: Vec<_> = tx.input.iter().map(|i| i.previous_output).collect();
    wallet.reserve_coins(&outpoints);

    let err = wallet
        .build_transaction(recipient, amount, fee_rate)
        .unwrap_err();
    assert!(matches!(err, SendError::NoSpendableCoins));
}

#[test]
fn released_coins_are_selectable_again() {
    let scan_secret = even_secret([0x01; 32]);
    let spend_secret = even_secret([0x02; 32]);
    let mut wallet = Wallet::new(Network::Regtest);
    wallet.import_signing_keys(scan_secret, spend_secret).unwrap();

    let tweak = Scalar::from_be_bytes([0x05; 32]).unwrap();
    let coin = owned_coin(&spend_secret, tweak, 100_000);
    let outpoint = Outpoint {
        txid: [0xab; 32],
        vout: 0,
    };
    wallet.utxos.insert(outpoint, coin);

    let recipient = address(even_secret([0x03; 32]), even_secret([0x04; 32]));
    let fee_rate = SAT_PER_KWU;
    let amount = 50_000;

    let tx = wallet.build_transaction(recipient, amount, fee_rate).unwrap();
    let outpoints: Vec<_> = tx.input.iter().map(|i| i.previous_output).collect();

    wallet.reserve_coins(&outpoints);
    assert!(matches!(
        wallet.build_transaction(recipient, amount, fee_rate),
        Err(SendError::NoSpendableCoins)
    ));

    wallet.release_coins(&outpoints);
    assert!(wallet.build_transaction(recipient, amount, fee_rate).is_ok());
}

#[test]
fn rejects_empty_wallet() {
    let spend_secret = even_secret([0x02; 32]);
    let change_address = address(even_secret([0x01; 32]), spend_secret);
    let recipient = address(even_secret([0x03; 32]), even_secret([0x04; 32]));
    let err = build_transaction(
        &spend_secret,
        recipient,
        1_000,
        SAT_PER_KWU,
        change_address,
        &[],
    )
    .unwrap_err();
    assert!(matches!(err, SendError::NoSpendableCoins));
}
