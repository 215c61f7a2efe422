//! A payment of the public test vectors: two inputs that spend public key hashes.

use kernel_node::chain::{Transaction, TxIn, TxOut};
use kernel_node::outpoints::Outpoint;
use kernel_node::secp::{PublicKey, SecretKey, XOnlyPublicKey};
use kernel_node::silentpayments::scanning as node;
use kernel_node::silentpayments::{
    checked_derive_labeled_spend_key, checked_derive_output_pubkey, compute_input_hash,
    tagged_hash, ScanKey, SpendKey,
};
use kernel_node::wallet::bip352::build_receiver;
use kernel_node::wallet::scanning as wallet;
use kernel_node::wallet::Network;

const SCAN: &str = "0f694e068028a717f8af6b9411f9a133dd3565258714cc226594b34db90c1f2c";
const SPEND: &str = "9d6ad855ce3417ef84e836892e5a56392bfba05fa5d97ccea30e266f540e08b3";
const ADDRESS: &str = "sp1qqgste7k9hx0qftg6qmwlkqtwuy6cycyavzmzj85c6qdfhjdpdjtdgqjuexzk6murw56suy3e0rd2cgqvycxttddwsvgxe2usfpxumr70xc9pkqwv";
const OUTPUT: &str = "3e9fce73d4e77a4809908e3c3a2e54ee147b9312dc5044a193d1fc85de46e3c1";
const TXIDS: [&str; 2] = [
    "f4184fc596403b9d638783cf57adfe4c75c605f6356fbc91338530e9831e9e16",
    "a1075db55d416d3ca199f55b6084e2115b9345e16c5cf302fc80e9d5fbf5d48d",
];
const SCRIPT_SIGS: [&str; 2] = [
    "483046022100ad79e6801dd9a8727f342f31c71c4912866f59dc6e7981878e92c5844a0ce929022100fb0d2393e813968648b9753b7e9871d90ab3d815ebf91820d704b19f4ed224d621025a1e61f898173040e20616d43e9f496fba90338a39faa1ed98fcbaeee4dd9be5",
    "48304602210086783ded73e961037e77d49d9deee4edc2b23136e9728d56e4491c80015c3a63022100fda4c0f21ea18de29edbce57f7134d613e044ee150a89e2e64700de2d4e83d4e2103bd85685d03d111699b15d046319febe77f8de5286e9e512703cdee1bf3be3792",
];
const PREVOUTS: [&str; 2] = [
    "76a91419c2f3ae0ca3b642bd3e49598b8da89f50c1416188ac",
    "76a914d9317c66f54ff0a152ec50b1d19c25be50c8e15988ac",
];

fn bytes(text: &str) -> Vec<u8> {
    hex::decode(text).unwrap()
}

fn outpoint(txid: &str, vout: u32) -> [u8; 36] {
    let mut r = [0u8; 36];
    for (i, b) in bytes(txid).iter().rev().enumerate() {
        r[i] = *b;
    }
    r[32..].copy_from_slice(&vout.to_le_bytes());
    r
}

fn keys() -> (ScanKey, SpendKey) {
    let scan = ScanKey::from_slice(&bytes(SCAN)).unwrap();
    let spend = SecretKey::from_slice(&bytes(SPEND)).unwrap();
    let spend = SpendKey::from_slice(&PublicKey::from_secret_key(&spend).serialize()).unwrap();
    (scan, spend)
}

#[test]
fn node_scan_finds_the_output() {
    let (scan_key, spend_key) = keys();
    let prevouts: Vec<Vec<u8>> = PREVOUTS.iter().map(|s| bytes(s)).collect();
    let script_sigs: Vec<Vec<u8>> = SCRIPT_SIGS.iter().map(|s| bytes(s)).collect();
    let inputs: Vec<node::InputData> = (0..2)
        .map(|i| node::InputData {
            prevout_script: &prevouts[i],
            script_sig: &script_sigs[i],
            witness: vec![],
            outpoint: outpoint(TXIDS[i], 0),
        })
        .collect();
    let key = XOnlyPublicKey::from_slice(&bytes(OUTPUT)).unwrap();
    let found = node::scan_transaction(&scan_key, &spend_key, &inputs, &[(0, key)], &[]);
    assert_eq!(found.len(), 1);
    assert_eq!(found[0].x_only_pubkey, key);
    assert_eq!((found[0].vout, found[0].k), (0, 0));

    let checked =
        node::checked_scan_transaction(&scan_key, &spend_key, &inputs, &[(7, key)], &[]).unwrap();
    assert_eq!(checked.len(), 1);
    assert_eq!(checked[0].vout, 7);
}

fn payment() -> (Vec<wallet::InputData>, Transaction) {
    let inputs = (0..2)
        .map(|i| wallet::InputData {
            script_sig: bytes(SCRIPT_SIGS[i]),
            witness: vec![],
            prevout_script: bytes(PREVOUTS[i]),
            txid: TXIDS[i].to_string(),
            vout: 0,
        })
        .collect();
    let mut script_pubkey = vec![0x51, 0x20];
    script_pubkey.extend_from_slice(&bytes(OUTPUT));
    let tx = Transaction {
        version: 2,
        lock_time: 0,
        input: vec![TxIn {
            previous_output: Outpoint { txid: [9; 32], vout: 0 },
            script_sig: vec![],
            sequence: 0xffff_ffff,
            witness: vec![],
        }],
        output: vec![
            TxOut { value: 1, script_pubkey: vec![0x6a] },
            TxOut { value: 50_000, script_pubkey },
        ],
    };
    (inputs, tx)
}

#[test]
fn wallet_scan_finds_the_output() {
    let scan = SecretKey::from_slice(&bytes(SCAN)).unwrap();
    let spend = SecretKey::from_slice(&bytes(SPEND)).unwrap();
    let spend = PublicKey::from_secret_key(&spend);
    let receiver = build_receiver(&scan, spend, Network::Mainnet).unwrap();
    let (inputs, tx) = payment();
    let found = wallet::scan_transaction(&receiver, &scan, &inputs, &tx);
    assert_eq!(found.len(), 1);
    assert_eq!(found[0].output_index, 1);
    assert_eq!(found[0].pubkey.serialize().to_vec(), bytes(OUTPUT));

    let other = SecretKey::from_slice(&[0x11; 32]).unwrap();
    let other_receiver = build_receiver(&other, spend, Network::Mainnet).unwrap();
    assert!(wallet::scan_transaction(&other_receiver, &other, &inputs, &tx).is_empty());
}

#[test]
fn wallet_scan_passes_over_what_cannot_pay() {
    let scan = SecretKey::from_slice(&bytes(SCAN)).unwrap();
    let spend = SecretKey::from_slice(&bytes(SPEND)).unwrap();
    let spend = PublicKey::from_secret_key(&spend);
    let receiver = build_receiver(&scan, spend, Network::Mainnet).unwrap();
    let (inputs, mut tx) = payment();
    assert!(wallet::scan_transaction(&receiver, &scan, &[], &tx).is_empty());
    tx.output.pop();
    assert!(wallet::scan_transaction(&receiver, &scan, &inputs, &tx).is_empty());
    let (mut inputs, tx) = payment();
    inputs[0].txid = "no hash".to_string();
    let r = wallet::checked_scan_transaction(&receiver, &scan, &inputs, &tx);
    assert!(r.unwrap().is_empty());
}

#[test]
fn address_has_its_text() {
    let scan = SecretKey::from_slice(&bytes(SCAN)).unwrap();
    let spend = SecretKey::from_slice(&bytes(SPEND)).unwrap();
    let spend = PublicKey::from_secret_key(&spend);
    let receiver = build_receiver(&scan, spend, Network::Mainnet).unwrap();
    let address = receiver.get_receiving_address();
    assert_eq!(address.to_text(), ADDRESS);
    assert_eq!(address.get_scan_key(), PublicKey::from_secret_key(&scan));
    assert_eq!(address.get_spend_key(), spend);
    assert_eq!(address.get_network(), Network::Mainnet);

    let regtest = build_receiver(&scan, spend, Network::Regtest).unwrap();
    assert!(regtest.get_receiving_address().to_text().starts_with("sprt1q"));
    let testnet = build_receiver(&scan, spend, Network::Testnet).unwrap();
    assert!(testnet.get_receiving_address().to_text().starts_with("tsp1q"));
}

#[test]
fn change_key_is_the_labeled_spend_key() {
    let (scan_key, spend_key) = keys();
    let labeled = checked_derive_labeled_spend_key(scan_key, spend_key, 0).unwrap().unwrap();
    let receiver =
        build_receiver(&scan_key.secret_key(), spend_key.public_key(), Network::Mainnet).unwrap();
    assert_eq!(receiver.get_change_address().get_spend_key(), labeled.public_key());
    assert_ne!(labeled.public_key(), spend_key.public_key());
    let other = checked_derive_labeled_spend_key(scan_key, spend_key, 1).unwrap().unwrap();
    assert_ne!(other, labeled);
}

#[test]
fn tagged_hashes_have_known_values() {
    let one = tagged_hash("BIP0340/challenge", &[]);
    let tag = <bitcoin::hashes::sha256::Hash as bitcoin::hashes::Hash>::hash(b"BIP0340/challenge");
    let tag: [u8; 32] = bitcoin::hashes::Hash::to_byte_array(tag);
    let twice = [tag, tag].concat();
    let expected = <bitcoin::hashes::sha256::Hash as bitcoin::hashes::Hash>::hash(&twice);
    assert_eq!(one, bitcoin::hashes::Hash::to_byte_array(expected));

    let (scan_key, spend_key) = keys();
    let a = compute_input_hash([0; 36], scan_key.public_key());
    let b = compute_input_hash([1; 36], scan_key.public_key());
    assert_ne!(a, b);
    let first = checked_derive_output_pubkey(scan_key.public_key(), spend_key, 0).unwrap();
    let second = checked_derive_output_pubkey(scan_key.public_key(), spend_key, 1).unwrap();
    assert_ne!(first.unwrap(), second.unwrap());
}
