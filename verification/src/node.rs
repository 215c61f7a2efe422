//! The decisions of the running node: which peers to look for, when to give one up, and
//! which blocks go to the wallet.

use vstd::prelude::*;
use vstd::string::StringExecFns;
use crate::wallet::Network;

verus! {

/// A network of the chain.
#[derive(Clone, Copy, Debug, PartialEq, Eq, Structural)]
pub enum ChainNetwork {
    Bitcoin,
    Testnet,
    Testnet4,
    Signet,
    Regtest,
}

/// The network of the addresses of a chain's wallet. All test networks share one.
pub open spec fn wallet_network(network: ChainNetwork) -> Network {
    match network {
        ChainNetwork::Bitcoin => Network::Mainnet,
        ChainNetwork::Regtest => Network::Regtest,
        _ => Network::Testnet,
    }
}

/// The network of the addresses of a chain's wallet.
pub fn to_wallet_network(network: ChainNetwork) -> (r: Network)
    ensures
        r == wallet_network(network),
{
    match network {
        ChainNetwork::Bitcoin => Network::Mainnet,
        ChainNetwork::Regtest => Network::Regtest,
        _ => Network::Testnet,
    }
}

/// A block that joined or left the chain, as the wallet is told of it. `spent` holds the
/// scripts of the outputs that the transactions behind the coinbase spend.
pub enum ScanEvent {
    Connected { block_height: u32, raw: Vec<u8>, spent: Vec<Vec<Vec<u8>>> },
    Disconnected { raw: Vec<u8>, block_height: u32 },
}

/// The names of the hosts that know peers, network by network.
pub struct SeedLists<'a> {
    pub bitcoin: &'a [&'a str],
    pub signet: &'a [&'a str],
    pub testnet3: &'a [&'a str],
    pub testnet4: &'a [&'a str],
}

/// The names of the hosts that know peers of a network. A regression test network has
/// none.
pub open spec fn seeds_of(lists: SeedLists, network: ChainNetwork) -> Seq<&str> {
    match network {
        ChainNetwork::Bitcoin => lists.bitcoin@,
        ChainNetwork::Signet => lists.signet@,
        ChainNetwork::Testnet => lists.testnet3@,
        ChainNetwork::Testnet4 => lists.testnet4@,
        ChainNetwork::Regtest => Seq::empty(),
    }
}

/// Names as texts.
pub open spec fn name_texts(names: Seq<String>) -> Seq<Seq<char>> {
    names.map_values(|s: String| s@)
}

/// Hosts with the port of the name service.
pub open spec fn with_name_port(hosts: Seq<&str>) -> Seq<Seq<char>> {
    hosts.map_values(|h: &str| h@ + ":53"@)
}

fn add_name_port(hosts: &[&str]) -> (r: Vec<String>)
    ensures
        name_texts(r@) == with_name_port(hosts@),
{
    let mut r: Vec<String> = Vec::new();
    let mut i: usize = 0;
    assert(name_texts(r@) =~= with_name_port(hosts@).take(0));
    while i < hosts.len()
        invariant
            i <= hosts@.len(),
            name_texts(r@) == with_name_port(hosts@).take(i as int),
        decreases hosts@.len() - i,
    {
        let ghost before = r@;
        let mut name = String::from_str(hosts[i]);
        name.append(":53");
        r.push(name);
        assert(name_texts(r@) =~= name_texts(before).push(hosts@[i as int]@ + ":53"@));
        i = i + 1;
        assert(name_texts(r@) =~= with_name_port(hosts@).take(i as int));
    }
    assert(with_name_port(hosts@).take(i as int) =~= with_name_port(hosts@));
    r
}

/// The names to look up for peers of a network.
pub fn seed_hosts(network: ChainNetwork, lists: SeedLists) -> (r: Vec<String>)
    ensures
        name_texts(r@) == with_name_port(seeds_of(lists, network)),
{
    match network {
        ChainNetwork::Bitcoin => add_name_port(lists.bitcoin),
        ChainNetwork::Signet => add_name_port(lists.signet),
        ChainNetwork::Testnet => add_name_port(lists.testnet3),
        ChainNetwork::Testnet4 => add_name_port(lists.testnet4),
        ChainNetwork::Regtest => {
            let none: Vec<String> = Vec::new();
            assert(name_texts(none@) =~= with_name_port(Seq::empty()));
            none
        },
    }
}

/// An address of a machine.
#[derive(Clone, Copy, Debug, PartialEq, Eq)]
pub enum IpAddress {
    V4([u8; 4]),
    V6([u8; 16]),
}

/// The peers that are known at the start: the one to connect to, if one is given, else
/// those that were looked up, all on the network's port.
pub open spec fn first_peers(
    connect: Option<(IpAddress, u16)>,
    resolved: Seq<IpAddress>,
    default_port: u16,
) -> Seq<(IpAddress, u16)> {
    match connect {
        Some(peer) => seq![peer],
        None => resolved.map_values(|a: IpAddress| (a, default_port)),
    }
}

/// The peers that are known at the start.
pub fn initial_peers(
    connect: Option<(IpAddress, u16)>,
    resolved: &[IpAddress],
    default_port: u16,
) -> (r: Vec<(IpAddress, u16)>)
    ensures
        r@ == first_peers(connect, resolved@, default_port),
{
    let mut r: Vec<(IpAddress, u16)> = Vec::new();
    if let Some(peer) = connect {
        r.push(peer);
        assert(r@ =~= seq![peer]);
        return r;
    }
    let ghost all = first_peers(connect, resolved@, default_port);
    let mut i: usize = 0;
    while i < resolved.len()
        invariant
            i <= resolved@.len(),
            all == resolved@.map_values(|a: IpAddress| (a, default_port)),
            r@ == all.take(i as int),
        decreases resolved@.len() - i,
    {
        r.push((resolved[i], default_port));
        i = i + 1;
        assert(r@ =~= all.take(i as int));
    }
    assert(all.take(i as int) =~= all);
    r
}

/// What happened to the connection to a peer.
#[derive(Clone, Copy, Debug, PartialEq, Eq, Structural)]
pub enum PeerEvent {
    /// The chosen peer's address is of a kind that cannot be connected to.
    Unsupported,
    /// No connection came about.
    Unreachable,
    /// The connection stands.
    Connected,
    /// A message was received and processed.
    Message,
    /// The peer closed the connection.
    Closed,
    /// Reading from or writing to the connection failed otherwise.
    IoFailed,
    /// A message could not be processed.
    Failed,
}

/// What the node does about a peer.
#[derive(Clone, Copy, Debug, PartialEq, Eq, Structural)]
pub enum PeerAction {
    /// Receive the next message.
    Receive,
    /// Choose another peer at once.
    Choose,
    /// Report the error, and choose another peer after so many milliseconds.
    Report { wait_ms: u64 },
}

/// What the node does about a peer when something happens to the connection. That a peer
/// closes the connection is no error.
pub fn next_for_peer(event: PeerEvent) -> (r: PeerAction)
    ensures
        r == (match event {
            PeerEvent::Connected | PeerEvent::Message => PeerAction::Receive,
            PeerEvent::Unsupported | PeerEvent::Closed => PeerAction::Choose,
            PeerEvent::Unreachable => PeerAction::Report { wait_ms: 500 },
            PeerEvent::IoFailed | PeerEvent::Failed => PeerAction::Report { wait_ms: 0 },
        }),
{
    match event {
        PeerEvent::Connected => PeerAction::Receive,
        PeerEvent::Message => PeerAction::Receive,
        PeerEvent::Unsupported => PeerAction::Choose,
        PeerEvent::Closed => PeerAction::Choose,
        PeerEvent::Unreachable => PeerAction::Report { wait_ms: 500 },
        PeerEvent::IoFailed => PeerAction::Report { wait_ms: 0 },
        PeerEvent::Failed => PeerAction::Report { wait_ms: 0 },
    }
}

/// The nanoseconds without a block after which the peer is given up: those of twenty
/// minutes.
pub const STALE_BLOCK_NANOS: u64 = 1_200_000_000_000;

/// What came in while the node waited for a block.
#[derive(Clone, Copy, Debug, PartialEq, Eq, Structural)]
pub enum BlockEvent {
    /// A block.
    Block,
    /// Nothing, for as long as the node waits at a time.
    Timeout,
    /// The news that no more blocks will come.
    Disconnected,
}

/// What the node does then.
#[derive(Clone, Copy, Debug, PartialEq, Eq, Structural)]
pub enum BlockAction {
    /// Validate the block.
    Process,
    /// Wait on.
    Wait,
    /// Close the connection to the peer, so that another one is chosen.
    ReplacePeer,
    /// Stop waiting.
    Stop,
}

/// What the node does when something comes in at `now`, with the last block, or the last
/// change of the peer, at `last`.
pub open spec fn block_action(last: u64, now: u64, event: BlockEvent) -> BlockAction {
    match event {
        BlockEvent::Block => BlockAction::Process,
        BlockEvent::Timeout => if now - last > STALE_BLOCK_NANOS {
            BlockAction::ReplacePeer
        } else {
            BlockAction::Wait
        },
        BlockEvent::Disconnected => BlockAction::Stop,
    }
}

/// The time that counts as that of the last block after something came in.
pub open spec fn last_after(last: u64, now: u64, event: BlockEvent) -> u64 {
    match block_action(last, now, event) {
        BlockAction::Process | BlockAction::ReplacePeer => now,
        _ => last,
    }
}

/// Watches over the time since the last block. Times are in nanoseconds of one clock.
#[derive(Clone, Copy, Debug)]
pub struct BlockWatch {
    last_block: u64,
}

impl BlockWatch {
    /// The time of the last block, or of the last change of the peer.
    pub closed spec fn last(&self) -> u64 {
        self.last_block
    }

    /// A watch that starts at `now`.
    pub fn new(now: u64) -> (r: Self)
        ensures
            r.last() == now,
    {
        BlockWatch { last_block: now }
    }

    /// Takes note of what came in at `now`, and says what to do.
    pub fn step(&mut self, now: u64, event: BlockEvent) -> (r: BlockAction)
        ensures
            r == block_action(old(self).last(), now, event),
            final(self).last() == last_after(old(self).last(), now, event),
    {
        match event {
            BlockEvent::Block => {
                self.last_block = now;
                BlockAction::Process
            },
            BlockEvent::Timeout => {
                if now > self.last_block && now - self.last_block > STALE_BLOCK_NANOS {
                    self.last_block = now;
                    BlockAction::ReplacePeer
                } else {
                    BlockAction::Wait
                }
            },
            BlockEvent::Disconnected => BlockAction::Stop,
        }
    }
}

/// Whether times never go back.
pub open spec fn in_time(start: u64, steps: Seq<(u64, BlockEvent)>) -> bool {
    &&& forall|i: int| 0 <= i < steps.len() ==> start <= (#[trigger] steps[i]).0
    &&& forall|i: int, j: int|
        0 <= i <= j < steps.len() ==> (#[trigger] steps[i]).0 <= (#[trigger] steps[j]).0
}

/// The time that counts as that of the last block after some steps of a watch that started
/// at `start`.
pub open spec fn last_of(start: u64, steps: Seq<(u64, BlockEvent)>) -> u64
    decreases steps.len(),
{
    if steps.len() == 0 {
        start
    } else {
        last_after(last_of(start, steps.drop_last()), steps.last().0, steps.last().1)
    }
}

/// What the `i`-th step of a watch that started at `start` does.
pub open spec fn action_at(start: u64, steps: Seq<(u64, BlockEvent)>, i: int) -> BlockAction {
    block_action(last_of(start, steps.take(i)), steps[i].0, steps[i].1)
}

proof fn lemma_last_bounds(start: u64, steps: Seq<(u64, BlockEvent)>, n: int, i: int)
    requires
        in_time(start, steps),
        0 <= i < n <= steps.len(),
    ensures
        action_at(start, steps, i) == BlockAction::Process || action_at(start, steps, i)
            == BlockAction::ReplacePeer ==> last_of(start, steps.take(n)) >= steps[i].0,
        last_of(start, steps.take(n)) >= start,
        last_of(start, steps.take(n)) <= steps[n - 1].0,
    decreases n,
{
    let some = steps.take(n);
    assert(some.drop_last() =~= steps.take(n - 1));
    assert(some.last() == steps[n - 1]);
    if n - 1 > i {
        lemma_last_bounds(start, steps, n - 1, i);
        assert(steps[n - 2].0 <= steps[n - 1].0);
    } else if n - 1 > 0 {
        lemma_last_bounds(start, steps, n - 1, 0);
        assert(steps[n - 2].0 <= steps[n - 1].0);
    } else {
        assert(steps.take(0) =~= Seq::empty());
        assert(start <= steps[0].0);
    }
}

/// A peer is given up only after twenty minutes without a block and without a change of
/// the peer.
pub proof fn peer_kept_while_blocks_come(
    start: u64,
    steps: Seq<(u64, BlockEvent)>,
    i: int,
    j: int,
)
    requires
        in_time(start, steps),
        0 <= i < j < steps.len(),
        steps[i].1 == BlockEvent::Block || action_at(start, steps, i) == BlockAction::ReplacePeer,
        action_at(start, steps, j) == BlockAction::ReplacePeer,
    ensures
        steps[j].0 - steps[i].0 > STALE_BLOCK_NANOS,
{
    lemma_last_bounds(start, steps, j, i);
}

/// A peer that sends no block is given up: at the first idle moment more than twenty
/// minutes after the start, the last block and the last change of the peer.
pub proof fn silent_peer_is_replaced(start: u64, steps: Seq<(u64, BlockEvent)>, j: int)
    requires
        in_time(start, steps),
        0 <= j < steps.len(),
        steps[j].1 == BlockEvent::Timeout,
        steps[j].0 - start > STALE_BLOCK_NANOS,
        forall|i: int|
            0 <= i < j && (steps[i].1 == BlockEvent::Block || action_at(start, steps, i)
                == BlockAction::ReplacePeer) ==> steps[j].0 - (#[trigger] steps[i]).0
                > STALE_BLOCK_NANOS,
    ensures
        action_at(start, steps, j) == BlockAction::ReplacePeer,
{
    lemma_last_witness(start, steps, j);
}

proof fn lemma_last_witness(start: u64, steps: Seq<(u64, BlockEvent)>, n: int)
    requires
        0 <= n <= steps.len(),
    ensures
        last_of(start, steps.take(n)) == start || exists|i: int|
            0 <= i < n && (steps[i].1 == BlockEvent::Block || action_at(start, steps, i)
                == BlockAction::ReplacePeer) && last_of(start, steps.take(n)) == (
            #[trigger] steps[i]).0,
    decreases n,
{
    let some = steps.take(n);
    if n > 0 {
        lemma_last_witness(start, steps, n - 1);
        assert(some.drop_last() =~= steps.take(n - 1));
        assert(some.last() == steps[n - 1]);
    } else {
        assert(some =~= Seq::empty());
    }
}

/// The tip of the chain once a block was checked: a valid block is the new tip.
pub fn tip_after(tip: [u8; 32], hash: [u8; 32], valid: bool) -> (r: [u8; 32])
    ensures
        r == (if valid {
            hash
        } else {
            tip
        }),
{
    if valid {
        hash
    } else {
        tip
    }
}

/// The number of threads that validate blocks on a machine that runs `parallelism` at a
/// time, unless it is out of range.
pub fn worker_threads(parallelism: usize) -> (r: Option<i32>)
    ensures
        match r {
            Some(n) => n == parallelism / 2 + 1,
            None => parallelism / 2 + 1 > i32::MAX,
        },
{
    let n: usize = parallelism / 2 + 1;
    if n <= 0x7fff_ffff {
        Some(n as i32)
    } else {
        None
    }
}

/// The place of a file of the data directory.
pub fn path_in(data_dir: &str, name: &str) -> (r: String)
    ensures
        r@ == data_dir@ + "/"@ + name@,
{
    let mut r = String::from_str(data_dir);
    r.append("/");
    r.append(name);
    r
}

/// The main chain alone has the main network's addresses, and the regression test chain alone
/// those of its own; all other chains share one network of addresses.
pub proof fn test_chains_share_addresses(network: ChainNetwork)
    ensures
        wallet_network(network) is Mainnet <==> network is Bitcoin,
        wallet_network(network) is Regtest <==> network is Regtest,
        wallet_network(network) is Testnet <==> network is Testnet || network is Testnet4
            || network is Signet,
{
}

/// The names that are looked up are the hosts' own, in order, each with a colon and the number
/// 53 behind it.
pub proof fn names_are_hosts_with_a_port(hosts: Seq<&str>, i: int)
    requires
        0 <= i < hosts.len(),
    ensures
        ({
            let name = with_name_port(hosts)[i];
            let n = hosts[i]@.len() as int;
            &&& with_name_port(hosts).len() == hosts.len()
            &&& name.len() == n + 3
            &&& name.take(n) == hosts[i]@
            &&& name[n] == ':' && name[n + 1] == '5' && name[n + 2] == '3'
        }),
{
    reveal_strlit(":53");
    let name = with_name_port(hosts)[i];
    assert(name.take(hosts[i]@.len() as int) =~= hosts[i]@);
}

/// A peer that is given is the only one at the start; else every address that was looked up
/// is one, in order, on the network's port.
pub proof fn first_peers_are_given_or_resolved(
    connect: Option<(IpAddress, u16)>,
    resolved: Seq<IpAddress>,
    default_port: u16,
    i: int,
)
    ensures
        ({
            let first = first_peers(connect, resolved, default_port);
            &&& connect matches Some(peer) ==> first.len() == 1 && first[0] == peer
            &&& connect is None ==> first.len() == resolved.len() && (0 <= i < resolved.len()
                ==> first[i].0 == resolved[i] && first[i].1 == default_port)
        }),
{
}

/// A block is always validated, and nothing else is; the node stops waiting when no more
/// blocks will come, and only then; and an idle moment has a peer given up just where more
/// than twenty minutes have gone by.
pub proof fn every_event_has_its_action(last: u64, now: u64, event: BlockEvent)
    ensures
        block_action(last, now, event) is Process <==> event is Block,
        block_action(last, now, event) is Stop <==> event is Disconnected,
        block_action(last, now, event) is ReplacePeer <==> event is Timeout && now - last > 20 * 60
            * 1_000_000_000,
        event is Block ==> last_after(last, now, event) == now,
        block_action(last, now, event) is ReplacePeer ==> last_after(last, now, event) == now,
        block_action(last, now, event) is Wait ==> last_after(last, now, event) == last,
{
}

/// Every chain has seeds of its own, and the regression test chain has none.
pub proof fn chains_have_their_own_seeds(lists: SeedLists)
    ensures
        seeds_of(lists, ChainNetwork::Bitcoin) == lists.bitcoin@,
        seeds_of(lists, ChainNetwork::Testnet) == lists.testnet3@,
        seeds_of(lists, ChainNetwork::Testnet4) == lists.testnet4@,
        seeds_of(lists, ChainNetwork::Signet) == lists.signet@,
        seeds_of(lists, ChainNetwork::Regtest).len() == 0,
{
}

} // verus!
