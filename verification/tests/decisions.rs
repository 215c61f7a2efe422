//! The node's decisions, its answers and its client.

use kernel_node::client::{balance_line, history_text, import_request};
use kernel_node::logging::{kernel_line, tip_is_news, Category, SyncState};
use kernel_node::node::{
    initial_peers, next_for_peer, path_in, seed_hosts, tip_after, to_wallet_network,
    worker_threads,
    BlockAction, BlockEvent, BlockWatch, ChainNetwork, IpAddress, PeerAction, PeerEvent,
    SeedLists, STALE_BLOCK_NANOS,
};
use kernel_node::peers::{
    choice_of, first_book, AddressBook, NetAddress, PeerAddress, PeerChoice,
};
use kernel_node::requests::{
    broadcast_answer, get_balance, import_keys, join_lines, read_broadcast, read_spend_key,
    receive, Balance,
};
use kernel_node::secp::{KeyError, PublicKey, SecretKey};
use kernel_node::shutdown::FatalShutdown;
use kernel_node::state::WalletState;
use kernel_node::wallet::account::{ImportError, Wallet};
use kernel_node::wallet::Network;

#[test]
fn test_chains_share_a_wallet_network() {
    assert_eq!(to_wallet_network(ChainNetwork::Bitcoin), Network::Mainnet);
    assert_eq!(to_wallet_network(ChainNetwork::Regtest), Network::Regtest);
    assert_eq!(to_wallet_network(ChainNetwork::Testnet), Network::Testnet);
    assert_eq!(to_wallet_network(ChainNetwork::Testnet4), Network::Testnet);
    assert_eq!(to_wallet_network(ChainNetwork::Signet), Network::Testnet);
}

fn lists() -> SeedLists<'static> {
    SeedLists {
        bitcoin: &["seed.one", "seed.two"],
        signet: &["signet.one"],
        testnet3: &["testnet.one"],
        testnet4: &["testnet4.one"],
    }
}

#[test]
fn seeds_are_looked_up_on_the_name_port() {
    assert_eq!(seed_hosts(ChainNetwork::Bitcoin, lists()), ["seed.one:53", "seed.two:53"]);
    assert_eq!(seed_hosts(ChainNetwork::Signet, lists()), ["signet.one:53"]);
    assert_eq!(seed_hosts(ChainNetwork::Testnet, lists()), ["testnet.one:53"]);
    assert_eq!(seed_hosts(ChainNetwork::Testnet4, lists()), ["testnet4.one:53"]);
    assert!(seed_hosts(ChainNetwork::Regtest, lists()).is_empty());
}

#[test]
fn given_peer_comes_before_resolved_ones() {
    let a = IpAddress::V4([127, 0, 0, 1]);
    let b = IpAddress::V6([1; 16]);
    assert_eq!(initial_peers(Some((a, 18444)), &[b], 8333), [(a, 18444)]);
    assert_eq!(initial_peers(None, &[a, b], 8333), [(a, 8333), (b, 8333)]);
    assert!(initial_peers(None, &[], 8333).is_empty());
}

#[test]
fn peer_events_have_their_actions() {
    assert_eq!(next_for_peer(PeerEvent::Connected), PeerAction::Receive);
    assert_eq!(next_for_peer(PeerEvent::Message), PeerAction::Receive);
    assert_eq!(next_for_peer(PeerEvent::Unsupported), PeerAction::Choose);
    assert_eq!(next_for_peer(PeerEvent::Closed), PeerAction::Choose);
    assert_eq!(next_for_peer(PeerEvent::Unreachable), PeerAction::Report { wait_ms: 500 });
    assert_eq!(next_for_peer(PeerEvent::IoFailed), PeerAction::Report { wait_ms: 0 });
    assert_eq!(next_for_peer(PeerEvent::Failed), PeerAction::Report { wait_ms: 0 });
}

#[test]
fn silent_peer_is_replaced_once_in_twenty_minutes() {
    let minute: u64 = 60_000_000_000;
    assert_eq!(STALE_BLOCK_NANOS, 20 * minute);
    let mut watch = BlockWatch::new(0);
    assert_eq!(watch.step(20 * minute, BlockEvent::Timeout), BlockAction::Wait);
    assert_eq!(watch.step(20 * minute + 1, BlockEvent::Timeout), BlockAction::ReplacePeer);
    assert_eq!(watch.step(21 * minute, BlockEvent::Timeout), BlockAction::Wait);
    assert_eq!(watch.step(30 * minute, BlockEvent::Block), BlockAction::Process);
    assert_eq!(watch.step(50 * minute, BlockEvent::Timeout), BlockAction::Wait);
    assert_eq!(watch.step(51 * minute, BlockEvent::Timeout), BlockAction::ReplacePeer);
    assert_eq!(watch.step(52 * minute, BlockEvent::Disconnected), BlockAction::Stop);
    assert_eq!(watch.step(1, BlockEvent::Timeout), BlockAction::Wait);
}

#[test]
fn small_numbers_and_paths() {
    assert_eq!(worker_threads(1), Some(1));
    assert_eq!(worker_threads(8), Some(5));
    assert_eq!(worker_threads(usize::MAX), None);
    assert_eq!(path_in("/data", "node.sock"), "/data/node.sock");
}

#[test]
fn kernel_lines_lose_their_end() {
    assert_eq!(kernel_line("ready\n"), "ready");
    assert_eq!(kernel_line("ready\r\n"), "ready");
    assert_eq!(kernel_line("ready"), "ready");
    assert_eq!(kernel_line("ready\n\n"), "ready\n");
    assert_eq!(kernel_line("ready\r"), "ready\r");
    assert_eq!(kernel_line("é\n"), "é");
    assert_eq!(kernel_line("\n"), "");
    assert_eq!(kernel_line(""), "");
}

#[test]
fn tips_are_news_once_the_chain_caught_up() {
    assert!(tip_is_news(SyncState::PostInit));
    assert!(!tip_is_news(SyncState::InitDownload));
    assert!(!tip_is_news(SyncState::InitReindex));
}

#[test]
fn log_targets_have_their_names() {
    assert_eq!(Category::KERNEL, "kernel");
    assert_eq!(Category::NET, "net");
    assert_eq!(Category::WALLET, "wallet");
    assert_eq!(Category::IPC, "ipc");
    assert_eq!(Category::NODE, "node");
}

#[test]
fn shutdown_is_signalled_once() {
    let mut shutdown = FatalShutdown::new();
    assert!(shutdown.trigger());
    assert!(!shutdown.trigger());
    assert!(!shutdown.trigger());
}

fn state() -> WalletState {
    WalletState::new(Wallet::new(Network::Regtest), None, String::from("wallet.bin"))
}

fn spend_x() -> [u8; 32] {
    let key = SecretKey::from_slice(&[7; 32]).unwrap();
    PublicKey::from_secret_key(&key).x_only_public_key().serialize()
}

#[test]
fn keys_are_imported_and_a_store_attached() {
    let mut state = state();
    assert_eq!(receive(&state), Err("no keys imported".to_string()));
    assert_eq!(import_keys(&mut state, &[5; 32], &spend_x(), None), Ok("keys imported"));
    assert!(state.store.is_some());
    assert!(state.wallet.spend_secret.is_none());
    let address = receive(&state).unwrap();
    assert!(address.starts_with("sprt1q"));
    assert_eq!(state.wallet.receive_address(), Some(address));
}

#[test]
fn bad_keys_are_refused() {
    let mut state = state();
    assert_eq!(
        import_keys(&mut state, &[0; 32], &spend_x(), None),
        Err("invalid scan key: malformed or out-of-range secret key".to_string())
    );
    assert_eq!(
        import_keys(&mut state, &[5; 31], &spend_x(), None),
        Err("invalid scan key: malformed or out-of-range secret key".to_string())
    );
    assert_eq!(
        import_keys(&mut state, &[5; 32], &[0xff; 32], None),
        Err("invalid spend key: malformed public key".to_string())
    );
    assert!(state.store.is_none());
    assert!(state.wallet.keys.is_none());
    assert_eq!(
        ImportError::Key(KeyError::InvalidPublicKeySum).message(),
        "the sum of public keys was invalid or the input vector lengths was less than 1"
    );
    assert_eq!(ImportError::ChangeLabel.message(), "the change label is out of range");
}

#[test]
fn change_label_that_cancels_the_spend_key_is_refused() {
    let scan = kernel_node::silentpayments::ScanKey::from_slice(&[5; 32]).unwrap();
    let label = kernel_node::silentpayments::tagged_hash(
        "BIP0352/Label",
        &[&scan.secret_key().secret_bytes()[..], &[0, 0, 0, 0]].concat(),
    );
    let negated = SecretKey::from_slice(&label).unwrap().negate();
    let mut wallet = Wallet::new(Network::Regtest);
    assert_eq!(
        wallet.import_signing_keys(scan.secret_key(), negated),
        Err(ImportError::Key(KeyError::InvalidPublicKeySum))
    );
    assert!(wallet.keys.is_none());
}

#[test]
fn balance_is_answered_and_shown() {
    let balance = get_balance(&state());
    assert_eq!(balance, Balance { sats: 0, scan_height: 0, utxo_count: 0 });
    let shown = Balance { sats: 1_250_000, scan_height: 840_000, utxo_count: 3 };
    assert_eq!(
        balance_line(&shown),
        "Balance: 1250000 sats | scan height: 840000 | UTXOs: 3"
    );
}

#[test]
fn lines_are_joined() {
    assert_eq!(join_lines(&vec![]), "");
    assert_eq!(join_lines(&vec!["a".to_string()]), "a");
    assert_eq!(join_lines(&vec!["a".to_string(), "".to_string(), "b".to_string()]), "a\n\nb");
    assert_eq!(history_text(""), "No history yet.");
    assert_eq!(history_text("a\nb"), "a\nb");
}

#[test]
fn raw_transactions_are_read() {
    // The first transaction of the chain.
    let raw = hex::decode("01000000010000000000000000000000000000000000000000000000000000000000000000ffffffff4d04ffff001d0104455468652054696d65732030332f4a616e2f32303039204368616e63656c6c6f72206f6e206272696e6b206f66207365636f6e64206261696c6f757420666f722062616e6b73ffffffff0100f2052a01000000434104678afdb0fe5548271967f1a67130b7105cd6a828e03909a67962e0ea1f61deb649f6bc3f4cef38c4f35504e51ec112de5c384df7ba0b8d578a4c702b6bf11d5fac00000000").unwrap();
    let (tx, txid) = read_broadcast(&raw).unwrap();
    assert_eq!(txid, "4a5e1e4baab89f3a32518a88c31bc87f618f76673e2cc77ab2127b7afdeda33b");
    assert_eq!(tx.version, 1);
    assert_eq!(tx.output[0].value, 5_000_000_000);
    assert_eq!(tx.input[0].previous_output.vout, 0xffff_ffff);
    let refused = read_broadcast(&raw[..10]).unwrap_err();
    assert!(refused.starts_with("invalid transaction: "));

    // What follows the transaction is not looked at.
    let longer = [&raw[..], &[1, 2, 3]].concat();
    assert_eq!(read_broadcast(&longer).unwrap().1, txid);
}

#[test]
fn broadcasts_are_answered() {
    assert_eq!(broadcast_answer("ab".to_string(), Ok(())), Ok("ab".to_string()));
    assert_eq!(
        broadcast_answer("ab".to_string(), Err("channel is full".to_string())),
        Err("broadcast unavailable: channel is full".to_string())
    );
}

#[test]
fn import_request_wants_hexadecimal_digits() {
    let good = "0aFF".to_string();
    let odd = "0af".to_string();
    assert_eq!(import_request(&good, &good), Ok((vec![10, 255], vec![10, 255])));
    assert_eq!(import_request(&odd, &odd), Err("scan_key must be valid hex"));
    assert_eq!(import_request(&good, &"0g".to_string()), Err("spend_key must be valid hex"));
}

fn peer(addr: NetAddress) -> PeerAddress {
    PeerAddress { addr, port: 8333, services: 1 }
}

#[test]
fn book_hands_out_what_it_was_told() {
    let mut book = AddressBook::new();
    assert_eq!(book.choose_peer(), PeerChoice::Nobody);
    assert!(book.add(&peer(NetAddress::Ipv4([10, 0, 0, 7]))));
    let chosen = PeerChoice::Connect(IpAddress::V4([10, 0, 0, 7]), 8333);
    for _ in 0..50 {
        assert_eq!(book.choose_peer(), chosen);
    }
    // The address stands in the book already.
    assert!(!book.add(&peer(NetAddress::Ipv4([10, 0, 0, 7]))));
}

#[test]
fn book_takes_every_kind_of_address() {
    let kinds = [
        NetAddress::Ipv4([1; 4]),
        NetAddress::Ipv6([2; 16]),
        NetAddress::TorV2([3; 10]),
        NetAddress::TorV3([4; 32]),
        NetAddress::I2p([5; 32]),
        NetAddress::Cjdns([6; 16]),
        NetAddress::Unknown(200, vec![7, 8]),
    ];
    for addr in kinds {
        let mut book = AddressBook::new();
        let reached = matches!(addr, NetAddress::Ipv4(_) | NetAddress::Ipv6(_));
        let expected = choice_of(&addr, 8333);
        assert_eq!(book.add_all(&vec![peer(addr.clone()), peer(addr)]), [true, false]);
        assert_eq!(book.choose_peer(), expected);
        assert_eq!(matches!(expected, PeerChoice::Connect(..)), reached);
    }
}

#[test]
fn book_starts_with_the_first_peers() {
    let a = IpAddress::V4([127, 0, 0, 1]);
    let b = IpAddress::V6([9; 16]);
    assert_eq!(first_book(Some((a, 18444)), &[b], 1).choose_peer(), PeerChoice::Connect(a, 18444));
    assert_eq!(first_book(None, &[b], 8333).choose_peer(), PeerChoice::Connect(b, 8333));
    assert_eq!(first_book(None, &[], 8333).choose_peer(), PeerChoice::Nobody);
    let both = first_book(None, &[a, b], 8333);
    for _ in 0..50 {
        let choice = both.choose_peer();
        assert!(choice == PeerChoice::Connect(a, 8333) || choice == PeerChoice::Connect(b, 8333));
    }
}

#[test]
fn only_a_valid_block_moves_the_tip() {
    assert_eq!(tip_after([1; 32], [2; 32], true), [2; 32]);
    assert_eq!(tip_after([1; 32], [2; 32], false), [1; 32]);
}

#[test]
fn compressed_spend_keys_keep_their_parity() {
    // Keys of both parities are among these.
    let mut tags = [0; 2];
    for byte in 1..20 {
        let key = PublicKey::from_secret_key(&SecretKey::from_slice(&[byte; 32]).unwrap());
        let bytes = key.serialize();
        tags[bytes[0] as usize - 2] += 1;
        assert_eq!(read_spend_key(&bytes), Ok(key));

        let mut state = state();
        assert_eq!(import_keys(&mut state, &[5; 32], &bytes, None), Ok("keys imported"));
        assert!(state.store.is_some());
        let mut signing = Wallet::new(Network::Regtest);
        let scan = SecretKey::from_slice(&[5; 32]).unwrap();
        let spend = SecretKey::from_slice(&[byte; 32]).unwrap();
        signing.import_signing_keys(scan, spend).unwrap();
        assert_eq!(state.wallet.receive_address(), signing.receive_address());

        // The x coordinate alone stands for the even key.
        let even = read_spend_key(&bytes[1..]).unwrap().serialize();
        assert_eq!(even[0], 2);
        assert_eq!(even[1..], bytes[1..]);
    }
    assert!(tags[0] > 0 && tags[1] > 0);
}

#[test]
fn other_forms_of_spend_keys_are_refused() {
    let key = secp256k1::PublicKey::from_slice(
        &PublicKey::from_secret_key(&SecretKey::from_slice(&[7; 32]).unwrap()).serialize(),
    )
    .unwrap();
    assert_eq!(read_spend_key(&key.serialize_uncompressed()), Err(KeyError::InvalidPublicKey));
    let mut bad = key.serialize();
    bad[0] = 5;
    assert_eq!(read_spend_key(&bad), Err(KeyError::InvalidPublicKey));
    let mut state = state();
    assert_eq!(
        import_keys(&mut state, &[5; 32], &bad, None),
        Err("invalid spend key: malformed public key".to_string())
    );
    // An invalid scan key is refused first, and nothing changes.
    assert_eq!(
        import_keys(&mut state, &[0; 32], &key.serialize(), None),
        Err("invalid scan key: malformed or out-of-range secret key".to_string())
    );
    assert!(state.wallet.keys.is_none() && state.store.is_none());
}

#[test]
fn told_peers_stay_taken() {
    let told: Vec<PeerAddress> =
        (0..40u8).map(|n| peer(NetAddress::Ipv4([n, 1, 2, 3]))).collect();
    let mut book = AddressBook::new();
    let kept = book.add_all(&told);
    assert!(kept[0]);
    // Whether it was taken note of or not, the place of each is taken now.
    assert_eq!(book.add_all(&told), vec![false; told.len()]);
}
