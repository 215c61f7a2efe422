//! Payments from one wallet to another, and the blocks that carry them.

use kernel_node::blocks::{pair_inputs, record_payments, scan_kernel_block, BlockScan};
use kernel_node::chain::{Block, Transaction, TxIn, TxOut};
use kernel_node::outpoints::Outpoint;
use kernel_node::secp::{KeyError, PublicKey, Scalar, SecretKey, XOnlyPublicKey};
use kernel_node::wallet::account::Wallet;
use kernel_node::wallet::bip352::{build_receiver, checked_build_receiver, SilentPaymentAddress};
use kernel_node::wallet::coins::{Coin, SpentBy};
use kernel_node::wallet::scanning::{checked_scan_block, scan_transaction, FoundPayment, InputData};
use kernel_node::wallet::sending::{
    checked_build_transaction, fee_wu, is_sendable, key_error_message, p2tr_dust, p2tr_script,
    probe_key, replace_placeholder, shown_txid, sp_output_script, DerivationError, SendError,
    SpendableCoin,
};
use kernel_node::wallet::utxos::SilentPaymentWallet;
use kernel_node::wallet::Network;

fn secret(byte: u8) -> SecretKey {
    SecretKey::from_slice(&[byte; 32]).unwrap()
}

fn public(byte: u8) -> PublicKey {
    PublicKey::from_secret_key(&secret(byte))
}

fn address(scan: u8, spend: u8, network: Network) -> SilentPaymentAddress {
    build_receiver(&secret(scan), public(spend), network)
        .unwrap()
        .get_receiving_address()
}

/// A coin that the spend key with a tweak owns.
fn coin(spend: u8, tweak: u8, value: u64) -> Coin {
    let tweak = Scalar::from_be_bytes([tweak; 32]).unwrap();
    let key = secret(spend).add_tweak(&tweak).unwrap();
    Coin {
        value,
        script_pubkey: p2tr_script(&PublicKey::from_secret_key(&key).x_only_public_key()),
        tweak,
        label: None,
        block_height: 1,
        spent_by: None,
    }
}

fn outpoint(n: u8) -> Outpoint {
    Outpoint { txid: [n; 32], vout: n as u32 }
}

fn signing_wallet(coins: &[(Outpoint, Coin)]) -> Wallet {
    let mut wallet = Wallet::new(Network::Regtest);
    wallet.import_signing_keys(secret(1), secret(2)).unwrap();
    wallet.restore(1, coins.to_vec());
    wallet
}

/// The inputs of a transaction with the scripts of the coins that they spend.
fn spent_inputs(tx: &Transaction, coins: &[(Outpoint, Coin)]) -> Vec<InputData> {
    tx.input
        .iter()
        .map(|i| InputData {
            script_sig: vec![],
            witness: i.witness.clone(),
            prevout_script: coins
                .iter()
                .find(|c| c.0 == i.previous_output)
                .map(|c| c.1.script_pubkey.clone())
                .unwrap(),
            txid: shown_txid(&i.previous_output.txid),
            vout: i.previous_output.vout,
        })
        .collect()
}

#[test]
fn recipient_finds_the_payment_and_sender_the_change() {
    let coins = [(outpoint(1), coin(2, 5, 60_000)), (outpoint(2), coin(2, 6, 70_000))];
    let wallet = signing_wallet(&coins);
    let tx = wallet
        .checked_build_transaction(address(3, 4, Network::Regtest), 100_000, 500)
        .unwrap()
        .unwrap();
    assert_eq!(tx.version, 2);
    assert_eq!(tx.lock_time, 0);
    assert_eq!(tx.input.len(), 2);
    assert_ne!(tx.input[0].previous_output, tx.input[1].previous_output);
    assert_eq!(tx.input[0].sequence, 0xffff_fffd);
    assert_eq!(tx.input[0].witness.len(), 1);
    assert_eq!(tx.input[0].witness[0].len(), 64);
    assert_eq!(tx.output.len(), 2);
    assert_eq!(tx.output[0].value, 100_000);
    assert!(tx.output[0].value + tx.output[1].value < 130_000);

    let inputs = spent_inputs(&tx, &coins);
    let recipient = build_receiver(&secret(3), public(4), Network::Regtest).unwrap();
    let found = scan_transaction(&recipient, &secret(3), &inputs, &tx);
    assert_eq!(found.len(), 1);
    assert_eq!(found[0].output_index, 0);

    let sender = build_receiver(&secret(1), public(2), Network::Regtest).unwrap();
    let found = scan_transaction(&sender, &secret(1), &inputs, &tx);
    assert_eq!(found.len(), 1);
    assert_eq!(found[0].output_index, 1);
}

#[test]
fn payment_to_oneself_is_found_twice() {
    let coins = [(outpoint(1), coin(2, 5, 100_000))];
    let wallet = signing_wallet(&coins);
    let tx = wallet.build_transaction(address(1, 2, Network::Regtest), 50_000, 500).unwrap();
    assert_eq!(tx.output.len(), 2);
    let sender = build_receiver(&secret(1), public(2), Network::Regtest).unwrap();
    let found = scan_transaction(&sender, &secret(1), &spent_inputs(&tx, &coins), &tx);
    let mut numbers: Vec<usize> = found.iter().map(|f| f.output_index).collect();
    numbers.sort();
    assert_eq!(numbers, [0, 1]);
}

#[test]
fn wallet_refuses_what_it_cannot_pay() {
    let coins = [(outpoint(1), coin(2, 5, 10_000))];
    let wallet = signing_wallet(&coins);
    assert_eq!(
        wallet.build_transaction(address(3, 4, Network::Mainnet), 5_000, 500),
        Err(SendError::NetworkMismatch)
    );
    assert_eq!(
        wallet.build_transaction(address(3, 4, Network::Regtest), 329, 500),
        Err(SendError::DustAmount { amount: 329, dust: 330 })
    );
    assert!(wallet.build_transaction(address(3, 4, Network::Regtest), 330, 500).is_ok());
    // One input and two outputs weigh 616 units: 308 satoshis at this rate.
    assert_eq!(
        wallet.build_transaction(address(3, 4, Network::Regtest), 20_000, 500),
        Err(SendError::InsufficientFunds { needed: 20_308, available: 10_000 })
    );

    let mut watching = Wallet::new(Network::Regtest);
    let recipient = address(3, 4, Network::Regtest);
    assert_eq!(watching.build_transaction(recipient, 5_000, 500), Err(SendError::WatchOnly));
    watching.import_keys(secret(1), public(2).x_only_public_key()).unwrap();
    assert_eq!(watching.build_transaction(recipient, 5_000, 500), Err(SendError::WatchOnly));
}

#[test]
fn spent_coins_are_not_spendable() {
    let mut spent = coin(2, 5, 100_000);
    spent.spent_by = Some(SpentBy { txid: [7; 32], block_height: 3 });
    let wallet = signing_wallet(&[(outpoint(1), spent)]);
    assert_eq!(
        wallet.build_transaction(address(3, 4, Network::Regtest), 50_000, 500),
        Err(SendError::NoSpendableCoins)
    );
    assert_eq!(wallet.balance(), 0);
    assert_eq!(wallet.utxo_count(), 0);
    assert_eq!(wallet.history().len(), 2);
}

#[test]
fn tweak_that_cancels_the_spend_key_is_refused() {
    let negated = secret(2).negate();
    let tweak = Scalar::from_be_bytes(negated.secret_bytes()).unwrap();
    let mut bad = coin(2, 5, 100_000);
    bad.tweak = tweak;
    let coins = [SpendableCoin { outpoint: outpoint(1), coin: &bad }];
    let r = checked_build_transaction(
        &secret(2),
        address(3, 4, Network::Regtest),
        50_000,
        500,
        address(1, 2, Network::Regtest),
        &coins,
    );
    assert_eq!(r, Some(Err(SendError::Secp(KeyError::InvalidTweak))));
}

#[test]
fn absurd_fee_is_held_back() {
    let coins = [(outpoint(1), coin(2, 5, 100_000_000))];
    let wallet = signing_wallet(&coins);
    // Fifty thousand satoshis for each virtual byte.
    let r = wallet.build_transaction(address(3, 4, Network::Regtest), 50_000_000, 12_500_000);
    assert!(matches!(r, Err(SendError::TxBuild(_))));
}

#[test]
fn send_errors_have_their_words() {
    let words = |e: SendError| e.message();
    assert_eq!(
        words(SendError::WatchOnly),
        "wallet is watch-only: no spend secret to sign with"
    );
    assert_eq!(words(SendError::NoSpendableCoins), "no spendable coins");
    assert_eq!(
        words(SendError::DustAmount { amount: 7, dust: 330 }),
        "amount 7 sats is below the dust limit of 330 sats"
    );
    assert_eq!(
        words(SendError::InsufficientFunds { needed: 20_308, available: 0 }),
        "insufficient funds: need 20308 sats, have 0 sats"
    );
    assert_eq!(
        words(SendError::NetworkMismatch),
        "recipient address is for a different network"
    );
    assert_eq!(words(SendError::OutputDerivation), "recipient output key was not derived");
    assert_eq!(words(SendError::TxBuild("x".to_string())), "transaction build error: x");
    assert_eq!(words(SendError::Secp(KeyError::InvalidTweak)), "secp256k1 error: bad tweak");
    assert_eq!(
        words(SendError::SilentPayments(DerivationError::PartialSecret)),
        "silent payments error: bad tweak"
    );
    assert_eq!(
        words(SendError::SilentPayments(DerivationError::RecipientKeys(
            KeyError::InvalidPublicKeySum
        ))),
        format!("silent payments error: {}", secp256k1::Error::InvalidPublicKeySum)
    );
    assert_eq!(
        words(SendError::SilentPayments(DerivationError::RecipientKeys(
            KeyError::InvalidSecretKey
        ))),
        "silent payments error: malformed or out-of-range secret key"
    );
    assert_eq!(
        key_error_message(&KeyError::InvalidSecretKey),
        secp256k1::Error::InvalidSecretKey.to_string()
    );
    assert_eq!(
        key_error_message(&KeyError::InvalidPublicKey),
        secp256k1::Error::InvalidPublicKey.to_string()
    );
    assert_eq!(
        key_error_message(&KeyError::InvalidPublicKeySum),
        secp256k1::Error::InvalidPublicKeySum.to_string()
    );
    assert_eq!(
        key_error_message(&KeyError::InvalidTweak),
        secp256k1::Error::InvalidTweak.to_string()
    );
}

#[test]
fn small_formulas_have_exact_values() {
    assert_eq!(p2tr_dust(&secret(2)), 330);
    assert_eq!(fee_wu(500, 616), Some(308));
    assert_eq!(fee_wu(250, 3), Some(1));
    assert_eq!(fee_wu(0, 616), Some(0));
    assert_eq!(fee_wu(u64::MAX, 2), None);
    assert_eq!(probe_key(1), public(1).x_only_public_key());
    let script = p2tr_script(&probe_key(1));
    assert_eq!(script.len(), 34);
    assert_eq!(script[..2], [0x51, 0x20]);
    assert_eq!(script[2..], probe_key(1).serialize());
    assert_eq!(sp_output_script(&vec![probe_key(1), probe_key(2)]), Ok(script.clone()));
    assert_eq!(sp_output_script(&vec![]), Err(SendError::OutputDerivation));
    let mut id = [0u8; 32];
    id[31] = 0xab;
    assert_eq!(shown_txid(&id), format!("ab{}", "00".repeat(31)));
}

#[test]
fn placeholders_are_replaced_one_by_one() {
    let recipient = p2tr_script(&probe_key(1));
    let change = p2tr_script(&probe_key(2));
    let other = p2tr_script(&probe_key(3));
    let a = p2tr_script(&probe_key(4));
    let b = p2tr_script(&probe_key(5));
    assert_eq!(replace_placeholder(&recipient, &recipient, &change, &a, &b), a);
    assert_eq!(replace_placeholder(&change, &recipient, &change, &a, &b), b);
    assert_eq!(replace_placeholder(&other, &recipient, &change, &a, &b), other);
}

#[test]
fn checked_receiver_is_the_receiver() {
    let r = checked_build_receiver(&secret(1), public(2), Network::Testnet).unwrap().unwrap();
    assert_eq!(r.get_receiving_address(), address(1, 2, Network::Testnet));
}

/// A block with a coinbase and one transaction, and its bytes.
fn block_with(tx: &Transaction) -> (Block, Vec<u8>) {
    let coinbase = Transaction {
        version: 1,
        lock_time: 0,
        input: vec![TxIn {
            previous_output: Outpoint { txid: [0; 32], vout: 0xffff_ffff },
            script_sig: vec![1, 2],
            sequence: 0xffff_ffff,
            witness: vec![vec![0; 32]],
        }],
        output: vec![TxOut { value: 5_000_000_000, script_pubkey: vec![0x51] }],
    };
    let block = Block { txdata: vec![coinbase, tx.clone()] };
    let txdata: Vec<bitcoin::Transaction> = block
        .txdata
        .iter()
        .map(|tx| bitcoin::Transaction {
            version: bitcoin::transaction::Version(tx.version),
            lock_time: bitcoin::absolute::LockTime::from_consensus(tx.lock_time),
            input: tx
                .input
                .iter()
                .map(|i| bitcoin::TxIn {
                    previous_output: bitcoin::OutPoint::new(
                        bitcoin::hashes::Hash::from_byte_array(i.previous_output.txid),
                        i.previous_output.vout,
                    ),
                    script_sig: bitcoin::ScriptBuf::from(i.script_sig.clone()),
                    sequence: bitcoin::Sequence(i.sequence),
                    witness: bitcoin::Witness::from_slice(&i.witness),
                })
                .collect(),
            output: tx
                .output
                .iter()
                .map(|o| bitcoin::TxOut {
                    value: bitcoin::Amount::from_sat(o.value),
                    script_pubkey: bitcoin::ScriptBuf::from(o.script_pubkey.clone()),
                })
                .collect(),
        })
        .collect();
    let header = bitcoin::block::Header {
        version: bitcoin::block::Version::ONE,
        prev_blockhash: bitcoin::hashes::Hash::all_zeros(),
        merkle_root: bitcoin::hashes::Hash::all_zeros(),
        time: 0,
        bits: bitcoin::CompactTarget::from_consensus(0),
        nonce: 0,
    };
    let raw = bitcoin::consensus::serialize(&bitcoin::Block { header, txdata });
    (block, raw)
}

fn payment_block() -> (Block, Vec<u8>, Vec<Vec<Vec<u8>>>) {
    let coins = [(outpoint(1), coin(2, 5, 100_000))];
    let wallet = signing_wallet(&coins);
    let tx = wallet.build_transaction(address(3, 4, Network::Regtest), 50_000, 500).unwrap();
    let (block, raw) = block_with(&tx);
    (block, raw, vec![vec![coins[0].1.script_pubkey.clone()]])
}

#[test]
fn block_is_scanned_and_taken_in() {
    let (_, raw, spent) = payment_block();
    let mut wallet = SilentPaymentWallet::new();
    let keys = (Some(secret(3)), Some(public(4)));
    let r = scan_kernel_block(keys.0, keys.1, Network::Regtest, &raw, 120, &spent, &mut wallet);
    assert_eq!(r, BlockScan::Scanned(1));
    assert_eq!(wallet.balance(), 50_000);
    assert_eq!(wallet.utxo_count(), 1);
    assert_eq!(wallet.scan_height, 120);
}

#[test]
fn block_without_payments_is_not_taken_in() {
    let (_, raw, spent) = payment_block();
    let mut wallet = SilentPaymentWallet::new();
    let keys = (Some(secret(5)), Some(public(6)));
    let r = scan_kernel_block(keys.0, keys.1, Network::Regtest, &raw, 120, &spent, &mut wallet);
    assert_eq!(r, BlockScan::Scanned(0));
    assert_eq!(wallet.scan_height, 0);
    assert_eq!(wallet.utxo_count(), 0);
}

#[test]
fn block_that_cannot_be_scanned_is_left_alone() {
    let (_, raw, spent) = payment_block();
    let mut wallet = SilentPaymentWallet::new();
    let mut scan = |scan_key: Option<SecretKey>, raw: &[u8], spent: &Vec<Vec<Vec<u8>>>| {
        scan_kernel_block(scan_key, Some(public(4)), Network::Regtest, raw, 9, spent, &mut wallet)
    };
    assert_eq!(scan(None, &raw, &spent), BlockScan::NoKeys);
    assert_eq!(scan(Some(secret(3)), &raw[1..], &spent), BlockScan::InvalidBlock);
    assert_eq!(scan(Some(secret(3)), &raw, &vec![]), BlockScan::Scanned(0));
}

#[test]
fn inputs_are_paired_behind_the_coinbase() {
    let (block, _, mut spent) = payment_block();
    let data = pair_inputs(&block, &spent);
    assert_eq!(data.len(), 1);
    assert_eq!(data[0].len(), 1);
    assert_eq!(data[0][0].txid, "01".repeat(32));
    assert_eq!(data[0][0].vout, 1);
    assert_eq!(data[0][0].prevout_script, spent[0][0]);
    assert_eq!(data[0][0].witness, block.txdata[1].input[0].witness);
    assert!(data[0][0].script_sig.is_empty());

    // Data for a transaction that is not there, and inputs without data, are passed over.
    spent.push(vec![vec![]]);
    assert_eq!(pair_inputs(&block, &spent).len(), 1);
    spent[0].clear();
    assert_eq!(pair_inputs(&block, &spent)[0].len(), 0);
    assert_eq!(pair_inputs(&Block { txdata: vec![] }, &spent).len(), 0);
}

#[test]
fn payments_without_an_output_are_passed_over() {
    let (block, _, spent) = payment_block();
    let receiver = build_receiver(&secret(3), public(4), Network::Regtest).unwrap();
    let data = pair_inputs(&block, &spent);
    let mut payments = checked_scan_block(&receiver, &secret(3), &block, data).unwrap();
    assert_eq!(payments.len(), 1);
    let pubkey: XOnlyPublicKey = payments[0].1.pubkey;
    payments.push(([0xcd; 32], FoundPayment { output_index: 0, pubkey }));
    payments.push((payments[0].0, FoundPayment { output_index: 5, pubkey }));
    let mut wallet = SilentPaymentWallet::new();
    assert_eq!(record_payments(&block, 77, &payments, &mut wallet), 1);
    assert_eq!(wallet.balance(), 50_000);
    assert_eq!(wallet.scan_height, 77);
    assert_eq!(record_payments(&block, 78, &vec![], &mut wallet), 0);
    assert_eq!(wallet.scan_height, 77);
}

#[test]
fn second_output_pays_the_change_address() {
    let coins = [(outpoint(1), coin(2, 5, 100_000))];
    let change = build_receiver(&secret(8), public(9), Network::Regtest).unwrap();
    let list = [SpendableCoin { outpoint: outpoint(1), coin: &coins[0].1 }];
    let tx = checked_build_transaction(
        &secret(2),
        address(3, 4, Network::Regtest),
        50_000,
        500,
        change.get_receiving_address(),
        &list,
    )
    .unwrap()
    .unwrap();
    assert_eq!(tx.output.len(), 2);
    for placeholder in [probe_key(1), probe_key(2)] {
        assert!(tx.output.iter().all(|o| o.script_pubkey != p2tr_script(&placeholder)));
    }
    let found = scan_transaction(&change, &secret(8), &spent_inputs(&tx, &coins), &tx);
    assert_eq!(found.len(), 1);
    assert_eq!(found[0].output_index, 1);
}

#[test]
fn one_address_for_both_outputs_is_paid_to_one_key() {
    let coins = [(outpoint(1), coin(2, 5, 100_000))];
    let list = [SpendableCoin { outpoint: outpoint(1), coin: &coins[0].1 }];
    let both = address(3, 4, Network::Regtest);
    let tx = checked_build_transaction(&secret(2), both, 50_000, 500, both, &list)
        .unwrap()
        .unwrap();
    assert_eq!(tx.output.len(), 2);
    assert_eq!(tx.output[0].script_pubkey, tx.output[1].script_pubkey);
}

#[test]
fn network_and_keys_are_looked_at_first() {
    let coins =
        [(outpoint(1), coin(2, 5, u64::MAX)), (outpoint(2), coin(2, 6, u64::MAX))];
    let wallet = signing_wallet(&coins);
    assert_eq!(
        wallet.checked_build_transaction(address(3, 4, Network::Mainnet), 1, u64::MAX),
        Some(Err(SendError::NetworkMismatch))
    );
    let mut watching = Wallet::new(Network::Regtest);
    watching.restore(1, coins.to_vec());
    assert_eq!(
        watching.checked_build_transaction(address(3, 4, Network::Regtest), 1, u64::MAX),
        Some(Err(SendError::WatchOnly))
    );
    // Coins whose values cannot be added up are not paid with.
    assert_eq!(
        wallet.checked_build_transaction(address(3, 4, Network::Regtest), 1_000, 500),
        None
    );
}

#[test]
fn range_of_a_payment_is_tested() {
    let big = coin(2, 5, 1_000_000_000);
    let list = [SpendableCoin { outpoint: outpoint(1), coin: &big }];
    // The least fee at this rate is fifty-three satoshis.
    assert!(is_sendable(&list, 174_900_000, 250));
    assert!(!is_sendable(&list, 174_900_001, 250));
    // An amount that the coins do not reach is only found wanting.
    assert!(is_sendable(&list, 1_000_000_001, 250));
    assert!(is_sendable(&list, 3_300_000, 1));
    assert!(!is_sendable(&list, 1_000, 0));
    // What is refused before coins are chosen needs no range.
    assert!(is_sendable(&list, 329, 0));
    assert!(is_sendable(&[], 174_900_001, 250));
    assert!(!is_sendable(&list, u64::MAX, 1_000_000));

    let wallet = signing_wallet(&[(outpoint(1), big)]);
    let recipient = address(3, 4, Network::Regtest);
    let tx = wallet.checked_build_transaction(recipient, 174_900_000, 250).unwrap().unwrap();
    assert_eq!(tx.output[0].value, 174_900_000);
    assert_eq!(wallet.checked_build_transaction(recipient, 174_900_001, 250), None);
    assert!(matches!(
        wallet.checked_build_transaction(recipient, 1_000_000_001, 250),
        Some(Err(SendError::InsufficientFunds { available: 1_000_000_000, .. }))
    ));
}
