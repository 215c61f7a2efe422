//! The address book: the peers that the node may connect to.
//!
//! The book is kept by the `bitcoin_address_book` crate, the address manager that also goes
//! by the name `addrman`; the functions marked as trusted are the only places that call it.

use vstd::prelude::*;
use vstd::multiset::Multiset;
use bitcoin::p2p::address::AddrV2;
use bitcoin_address_book::{Record, Table};
use crate::node::{first_peers, initial_peers, IpAddress};

verus! {

/// A table of peers.
#[verifier::external_type_specification]
#[verifier::external_body]
pub struct ExTable<const B: usize, const S: usize, const W: usize>(
    bitcoin_address_book::Table<B, S, W>,
);

/// An address on one of the networks that peers are reached through.
#[derive(Clone, Debug, PartialEq, Eq)]
pub enum NetAddress {
    Ipv4([u8; 4]),
    Ipv6([u8; 16]),
    TorV2([u8; 10]),
    TorV3([u8; 32]),
    I2p([u8; 32]),
    Cjdns([u8; 16]),
    Unknown(u8, Vec<u8>),
}

/// What an address says.
#[verifier::ext_equal]
pub enum NetAddressView {
    Ipv4(Seq<u8>),
    Ipv6(Seq<u8>),
    TorV2(Seq<u8>),
    TorV3(Seq<u8>),
    I2p(Seq<u8>),
    Cjdns(Seq<u8>),
    Unknown(u8, Seq<u8>),
}

impl View for NetAddress {
    type V = NetAddressView;

    open spec fn view(&self) -> NetAddressView {
        match *self {
            NetAddress::Ipv4(b) => NetAddressView::Ipv4(b@),
            NetAddress::Ipv6(b) => NetAddressView::Ipv6(b@),
            NetAddress::TorV2(b) => NetAddressView::TorV2(b@),
            NetAddress::TorV3(b) => NetAddressView::TorV3(b@),
            NetAddress::I2p(b) => NetAddressView::I2p(b@),
            NetAddress::Cjdns(b) => NetAddressView::Cjdns(b@),
            NetAddress::Unknown(n, b) => NetAddressView::Unknown(n, b@),
        }
    }
}

/// A peer as it is told of: where it is and what it offers.
#[derive(Clone, Debug, PartialEq, Eq)]
pub struct PeerAddress {
    pub addr: NetAddress,
    pub port: u16,
    pub services: u64,
}

/// What is known of a peer.
#[verifier::ext_equal]
pub struct PeerView {
    pub addr: NetAddressView,
    pub port: u16,
    pub services: u64,
}

impl View for PeerAddress {
    type V = PeerView;

    open spec fn view(&self) -> PeerView {
        PeerView { addr: self.addr@, port: self.port, services: self.services }
    }
}

/// The address of the resolver that seeds are looked up with. It counts as the source of
/// all peers.
pub const DNS_RESOLVER: [u8; 4] = [1, 1, 1, 1];

/// The service that a peer offers which holds the whole chain.
pub const NETWORK_SERVICE: u64 = 1;

/// The peers in a table.
pub uninterp spec fn peers_of(t: bitcoin_address_book::Table<16, 16, 4>) -> Multiset<PeerView>;

/// The addresses whose place in a table is taken, for peers that the resolver is the source
/// of.
pub uninterp spec fn taken_in(t: bitcoin_address_book::Table<16, 16, 4>) -> Set<NetAddressView>;

/// Trusted: `bitcoin_address_book::Table::new` makes a table without peers, in which no place
/// is taken.
#[verifier::external_body]
fn new_table() -> (r: bitcoin_address_book::Table<16, 16, 4>)
    ensures
        peers_of(r) == Multiset::<PeerView>::empty(),
        taken_in(r) == Set::<NetAddressView>::empty(),
{
    Table::new()
}

/// Trusted: `bitcoin_address_book::Table::add` puts a peer into the place that its address
/// leads to, and leaves the table as it is when the place is taken. The answer says whether
/// the peer was added. Which other addresses lead to the same place is left unsaid: that
/// rests on a hash that std leaves open.
#[verifier::external_body]
fn add_to_table(
    t: &mut bitcoin_address_book::Table<16, 16, 4>,
    peer: &PeerAddress,
    source: [u8; 4],
) -> (added: bool)
    requires
        source@ == DNS_RESOLVER@,
    ensures
        added <==> !taken_in(*old(t)).contains(peer.addr@),
        added ==> peers_of(*final(t)) == peers_of(*old(t)).insert(peer@),
        added ==> taken_in(*old(t)).insert(peer.addr@).subset_of(taken_in(*final(t))),
        !added ==> peers_of(*final(t)) == peers_of(*old(t)),
        !added ==> taken_in(*final(t)) == taken_in(*old(t)),
{
    let addr = match &peer.addr {
        NetAddress::Ipv4(b) => AddrV2::Ipv4((*b).into()),
        NetAddress::Ipv6(b) => AddrV2::Ipv6((*b).into()),
        NetAddress::TorV2(b) => AddrV2::TorV2(*b),
        NetAddress::TorV3(b) => AddrV2::TorV3(*b),
        NetAddress::I2p(b) => AddrV2::I2p(*b),
        NetAddress::Cjdns(b) => AddrV2::Cjdns((*b).into()),
        NetAddress::Unknown(n, b) => AddrV2::Unknown(*n, b.clone()) };
    t.add(&Record::new(addr, peer.port, peer.services.into(), &source.into())).is_none()
}

/// Trusted: `bitcoin_address_book::Table::select` hands out one of the peers in the table, and
/// none only when there is none. Which one it is depends on the time.
#[verifier::external_body]
fn select_from_table(t: &bitcoin_address_book::Table<16, 16, 4>) -> (r: Option<(NetAddress, u16)>)
    ensures
        r is None <==> peers_of(*t).len() == 0,
        r matches Some(p) ==> exists|q: PeerView| #[trigger]
            peers_of(*t).contains(q) && q.addr == p.0@ && q.port == p.1,
{
    let (addr, port) = t.select()?.network_addr();
    let addr = match addr {
        AddrV2::Ipv4(b) => NetAddress::Ipv4(b.octets()),
        AddrV2::Ipv6(b) => NetAddress::Ipv6(b.octets()),
        AddrV2::TorV2(b) => NetAddress::TorV2(b),
        AddrV2::TorV3(b) => NetAddress::TorV3(b),
        AddrV2::I2p(b) => NetAddress::I2p(b),
        AddrV2::Cjdns(b) => NetAddress::Cjdns(b.octets()),
        AddrV2::Unknown(n, b) => NetAddress::Unknown(n, b) };
    Some((addr, port))
}

/// The peers that the node may connect to.
pub struct AddressBook {
    table: bitcoin_address_book::Table<16, 16, 4>,
}

/// What is known of peers that the node was told of.
pub open spec fn told_views(told: Seq<PeerAddress>) -> Seq<PeerView> {
    told.map_values(|p: PeerAddress| p@)
}

/// The peers of a book after the node was told of some, where `kept` says of which of them
/// the book took note.
pub open spec fn with_told(
    known: Multiset<PeerView>,
    told: Seq<PeerView>,
    kept: Seq<bool>,
) -> Multiset<PeerView>
    decreases told.len(),
{
    if told.len() == 0 {
        known
    } else {
        let before = with_told(known, told.drop_last(), kept.drop_last());
        if kept.last() {
            before.insert(told.last())
        } else {
            before
        }
    }
}

/// Whether every address stands in a book once, in a place that is taken.
pub open spec fn one_each(known: Multiset<PeerView>, taken: Set<NetAddressView>) -> bool {
    &&& forall|p: PeerView| #[trigger] known.contains(p) ==> known.count(p) == 1
    &&& forall|p: PeerView| #[trigger] known.contains(p) ==> taken.contains(p.addr)
    &&& forall|p: PeerView, q: PeerView| #[trigger]
        known.contains(p) && #[trigger] known.contains(q) && p.addr == q.addr ==> p == q
    &&& known.len() == 0 ==> taken == Set::<NetAddressView>::empty()
}

/// The peer that is to be connected to next.
#[derive(Clone, Copy, Debug, PartialEq, Eq)]
pub enum PeerChoice {
    /// No peer is known.
    Nobody,
    /// The chosen peer is on a network that the node does not reach.
    Unsupported,
    /// A peer to connect to.
    Connect(IpAddress, u16),
}

impl AddressBook {
    /// The peers in the book.
    pub closed spec fn peers(&self) -> Multiset<PeerView> {
        peers_of(self.table)
    }

    /// The addresses whose place in the book is taken.
    pub closed spec fn taken(&self) -> Set<NetAddressView> {
        taken_in(self.table)
    }

    /// Whether every address stands in the book once, in a place that is taken.
    pub open spec fn wf(&self) -> bool {
        one_each(self.peers(), self.taken())
    }

    /// A book without peers.
    pub fn new() -> (r: Self)
        ensures
            r.wf(),
            r.peers() == Multiset::<PeerView>::empty(),
            r.taken() == Set::<NetAddressView>::empty(),
    {
        AddressBook { table: new_table() }
    }

    /// Takes note of a peer, unless its place in the book is taken, as it is when its
    /// address stands there already. The answer says whether the peer was taken note of.
    pub fn add(&mut self, peer: &PeerAddress) -> (added: bool)
        requires
            old(self).wf(),
        ensures
            final(self).wf(),
            added <==> !old(self).taken().contains(peer.addr@),
            final(self).peers() == (if added {
                old(self).peers().insert(peer@)
            } else {
                old(self).peers()
            }),
            final(self).taken().contains(peer.addr@),
            old(self).taken().subset_of(final(self).taken()),
            old(self).peers().len() == 0 ==> added,
            (exists|q: PeerView| #[trigger]
                old(self).peers().contains(q) && q.addr == peer.addr@) ==> !added,
    {
        let ghost before = self.peers();
        let ghost taken = self.taken();
        let added = add_to_table(&mut self.table, peer, DNS_RESOLVER);
        proof {
            let p = peer@;
            let after = self.peers();
            if added {
                assert(taken.insert(p.addr).contains(p.addr));
                assert forall|a: NetAddressView| taken.contains(a) implies #[trigger] self
                    .taken().contains(a) by {
                    assert(taken.insert(p.addr).contains(a));
                }
                assert(!before.contains(p));
                assert forall|q: PeerView| #[trigger] after.contains(q) implies after.count(q)
                    == 1 && self.taken().contains(q.addr) by {
                    if q != p {
                        assert(before.contains(q));
                        assert(taken.contains(q.addr));
                    }
                }
                assert forall|q: PeerView, s: PeerView| #[trigger]
                    after.contains(q) && #[trigger] after.contains(s) && q.addr
                        == s.addr implies q == s by {
                    if q != p {
                        assert(before.contains(q));
                    }
                    if s != p {
                        assert(before.contains(s));
                    }
                }
            }
        }
        added
    }

    /// Takes note of the peers that the node was told of, one after another. The place of
    /// each of them is taken in the end.
    pub fn add_all(&mut self, told: &Vec<PeerAddress>) -> (kept: Vec<bool>)
        requires
            old(self).wf(),
        ensures
            final(self).wf(),
            kept@.len() == told@.len(),
            final(self).peers() == with_told(old(self).peers(), told_views(told@), kept@),
            forall|i: int|
                0 <= i < told@.len() ==> final(self).taken().contains((#[trigger] told@[i])@.addr),
            old(self).taken().subset_of(final(self).taken()),
            told@.len() > 0 ==> kept@[0] == !old(self).taken().contains(told@[0]@.addr),
    {
        let ghost before = self.peers();
        let ghost taken = self.taken();
        let mut kept: Vec<bool> = Vec::new();
        let mut i: usize = 0;
        while i < told.len()
            invariant
                i <= told@.len(),
                kept@.len() == i,
                self.wf(),
                self.peers() == with_told(before, told_views(told@).take(i as int), kept@),
                i == 0 ==> self.peers() == before && self.taken() == taken,
                i > 0 ==> kept@[0] == !taken.contains(told@[0]@.addr),
                taken.subset_of(self.taken()),
                forall|j: int|
                    0 <= j < i ==> self.taken().contains((#[trigger] told@[j])@.addr),
            decreases told@.len() - i,
        {
            let ghost kept_before = kept@;
            let ghost taken_before = self.taken();
            let added = self.add(&told[i]);
            kept.push(added);
            i = i + 1;
            proof {
                let done = told_views(told@).take(i as int);
                assert(done.drop_last() =~= told_views(told@).take(i - 1));
                assert(kept@.drop_last() =~= kept_before);
                assert(done.last() == told@[i - 1]@);
                assert forall|j: int| 0 <= j < i implies self.taken().contains(
                    (#[trigger] told@[j])@.addr,
                ) by {
                    if j < i - 1 {
                        assert(taken_before.contains(told@[j]@.addr));
                    }
                }
            }
        }
        assert(told_views(told@).take(i as int) =~= told_views(told@));
        kept
    }

    /// Chooses a peer to connect to. Which one it is is left open.
    pub fn choose_peer(&self) -> (r: PeerChoice)
        ensures
            match r {
                PeerChoice::Nobody => self.peers().len() == 0,
                PeerChoice::Unsupported => exists|q: PeerView| #[trigger]
                    self.peers().contains(q) && !(q.addr is Ipv4) && !(q.addr is Ipv6),
                PeerChoice::Connect(ip, port) => exists|q: PeerView| #[trigger]
                    self.peers().contains(q) && q.addr == address_view(ip) && q.port == port,
            },
            self.peers().len() > 0 ==> r !is Nobody,
    {
        match select_from_table(&self.table) {
            None => PeerChoice::Nobody,
            Some((addr, port)) => {
                let r = choice_of(&addr, port);
                proof {
                    let q = choose|q: PeerView| #[trigger]
                        self.peers().contains(q) && q.addr == addr@ && q.port == port;
                    assert(self.peers().contains(q));
                    if let NetAddress::Ipv4(b) = addr {
                        assert(q.addr == address_view(IpAddress::V4(b)));
                    }
                    if let NetAddress::Ipv6(b) = addr {
                        assert(q.addr == address_view(IpAddress::V6(b)));
                    }
                }
                r
            },
        }
    }
}

/// An address of a machine as an address of a network.
pub open spec fn address_view(ip: IpAddress) -> NetAddressView {
    match ip {
        IpAddress::V4(b) => NetAddressView::Ipv4(b@),
        IpAddress::V6(b) => NetAddressView::Ipv6(b@),
    }
}

/// What is known of a peer at the start.
pub open spec fn first_view(peer: (IpAddress, u16)) -> PeerView {
    PeerView {
        addr: address_view(peer.0),
        port: peer.1,
        services: NETWORK_SERVICE,
    }
}

/// The peers at the start, as values.
pub open spec fn first_views(peers: Seq<(IpAddress, u16)>) -> Seq<PeerView> {
    peers.map_values(|p: (IpAddress, u16)| first_view(p))
}

/// Whether a book holds what it was told at the start: it took note of the first peer, and
/// of those of the others whose place was not taken.
pub open spec fn first_told(book: &AddressBook, told: Seq<PeerView>) -> bool {
    &&& forall|i: int| 0 <= i < told.len() ==> book.taken().contains((#[trigger] told[i]).addr)
    &&& exists|kept: Seq<bool>|
        {
            &&& kept.len() == told.len()
            &&& book.peers() == #[trigger] with_told(Multiset::empty(), told, kept)
            &&& told.len() > 0 ==> kept[0]
        }
}

/// The book at the start: the peer to connect to, if one is given, else those that were
/// looked up, as far as there is a place for them.
pub fn first_book(
    connect: Option<(IpAddress, u16)>,
    resolved: &[IpAddress],
    default_port: u16,
) -> (r: AddressBook)
    ensures
        r.wf(),
        first_told(&r, first_views(first_peers(connect, resolved@, default_port))),
{
    let first = initial_peers(connect, resolved, default_port);
    let ghost all = first_views(first@);
    let mut told: Vec<PeerAddress> = Vec::new();
    let mut i: usize = 0;
    assert(told_views(told@) =~= all.take(0));
    while i < first.len()
        invariant
            i <= first@.len(),
            all == first_views(first@),
            told_views(told@) == all.take(i as int),
        decreases first@.len() - i,
    {
        let ghost before = told@;
        let addr = match first[i].0 {
            IpAddress::V4(b) => NetAddress::Ipv4(b),
            IpAddress::V6(b) => NetAddress::Ipv6(b),
        };
        let peer = PeerAddress { addr, port: first[i].1, services: NETWORK_SERVICE };
        assert(peer@ == all[i as int]);
        told.push(peer);
        assert(told_views(told@) =~= told_views(before).push(peer@));
        i = i + 1;
        assert(told_views(told@) =~= all.take(i as int));
    }
    assert(all.take(i as int) =~= all);
    let mut book = AddressBook::new();
    let kept = book.add_all(&told);
    proof {
        assert(told@.len() == told_views(told@).len());
        assert(book.peers() == with_told(Multiset::empty(), all, kept@));
        assert forall|i: int| 0 <= i < all.len() implies book.taken().contains(
            (#[trigger] all[i]).addr,
        ) by {
            assert(told_views(told@)[i] == told@[i]@);
        }
    }
    book
}

/// A book forgets nobody, and takes note of nobody but those that it was told of.
pub proof fn book_grows_by_what_it_is_told(
    known: Multiset<PeerView>,
    told: Seq<PeerView>,
    kept: Seq<bool>,
)
    requires
        kept.len() == told.len(),
    ensures
        known.subset_of(with_told(known, told, kept)),
        forall|p: PeerView| #[trigger]
            with_told(known, told, kept).contains(p) ==> known.contains(p) || told.contains(p),
    decreases told.len(),
{
    if told.len() > 0 {
        let fewer = told.drop_last();
        book_grows_by_what_it_is_told(known, fewer, kept.drop_last());
        let before = with_told(known, fewer, kept.drop_last());
        let after = with_told(known, told, kept);
        assert(told[told.len() - 1] == told.last());
        assert forall|p: PeerView| #[trigger] after.contains(p) implies known.contains(p)
            || told.contains(p) by {
            if before.contains(p) && fewer.contains(p) {
                let i = choose|i: int| 0 <= i < fewer.len() && fewer[i] == p;
                assert(told[i] == p);
            }
        }
    }
}

/// What becomes of a chosen peer: the node reaches those that have an address of a machine.
pub fn choice_of(addr: &NetAddress, port: u16) -> (r: PeerChoice)
    ensures
        r == (match *addr {
            NetAddress::Ipv4(b) => PeerChoice::Connect(IpAddress::V4(b), port),
            NetAddress::Ipv6(b) => PeerChoice::Connect(IpAddress::V6(b), port),
            _ => PeerChoice::Unsupported,
        }),
{
    match addr {
        NetAddress::Ipv4(b) => PeerChoice::Connect(IpAddress::V4(*b), port),
        NetAddress::Ipv6(b) => PeerChoice::Connect(IpAddress::V6(*b), port),
        _ => PeerChoice::Unsupported,
    }
}

/// A book takes note of those of the peers that it keeps, each once more than before, and of
/// no other.
pub proof fn kept_peers_are_in_the_book(
    known: Multiset<PeerView>,
    told: Seq<PeerView>,
    kept: Seq<bool>,
    p: PeerView,
)
    requires
        kept.len() == told.len(),
    ensures
        with_told(known, Seq::empty(), Seq::empty()) == known,
        forall|i: int|
            0 <= i < told.len() && #[trigger] kept[i] ==> with_told(known, told, kept).contains(
                told[i],
            ),
        (forall|i: int|
            0 <= i < told.len() && #[trigger] kept[i] ==> told[i] != p) ==> with_told(
            known,
            told,
            kept,
        ).count(p) == known.count(p),
        with_told(known, told, kept).len() == known.len() + kept.filter(|k: bool| k).len(),
    decreases told.len(),
{
    reveal(Seq::filter);
    if told.len() > 0 {
        let fewer = told.drop_last();
        let flags = kept.drop_last();
        let n = told.len() - 1;
        kept_peers_are_in_the_book(known, fewer, flags, p);
        let before = with_told(known, fewer, flags);
        let after = with_told(known, told, kept);
        assert forall|i: int| 0 <= i < told.len() && #[trigger] kept[i] implies after.contains(
            told[i],
        ) by {
            if i < n {
                assert(flags[i] == kept[i] && fewer[i] == told[i]);
                assert(before.contains(fewer[i]));
            }
        }
        if forall|i: int| 0 <= i < told.len() && #[trigger] kept[i] ==> told[i] != p {
            assert forall|i: int| 0 <= i < fewer.len() && #[trigger] flags[i] implies fewer[i]
                != p by {
                assert(flags[i] == kept[i] && fewer[i] == told[i]);
            }
            assert(kept[n] ==> told[n] != p);
        }
    }
}

/// A peer at the start is known by its own address and port, and counts as one that holds the
/// whole chain.
pub proof fn first_peers_are_known_as_given(peers: Seq<(IpAddress, u16)>, i: int)
    requires
        0 <= i < peers.len(),
    ensures
        ({
            let v = first_views(peers)[i];
            &&& first_views(peers).len() == peers.len()
            &&& v.port == peers[i].1
            &&& v.services == 1
            &&& peers[i].0 matches IpAddress::V4(b) ==> v.addr == NetAddressView::Ipv4(b@)
            &&& peers[i].0 matches IpAddress::V6(b) ==> v.addr == NetAddressView::Ipv6(b@)
        }),
{
}

} // verus!
