//! The wallet together with the store that keeps it.

use vstd::prelude::*;
use crate::outpoints::Outpoint;
use crate::wallet::account::{with_coins, Wallet};
use crate::wallet::coins::CoinView;
use crate::wallet::store::{
    header_bytes, parsed_store, record_coins, records, StoreView, WalletStore, WalletStoreError,
    WriteView,
};
use crate::wallet::Network;

verus! {

/// A wallet, the store that keeps it if one is attached, and where the store's file lies.
pub struct WalletState {
    pub wallet: Wallet,
    pub store: Option<WalletStore>,
    pub store_path: String,
}

/// What a file gives to a wallet of a network: the store's state and its coins. A file
/// that cannot be read, or is of another network, gives nothing.
pub open spec fn restorable(file: Seq<u8>, network: Network) -> Option<
    (StoreView, Seq<(Outpoint, CoinView)>),
> {
    match attachable(file, network) {
        Some(v) => match record_coins(records(file, v.total)) {
            Ok(coins) => Some((v, coins)),
            Err(_) => None,
        },
        None => None,
    }
}

/// The state of the store in a file, if it is a store of the network.
pub open spec fn attachable(file: Seq<u8>, network: Network) -> Option<StoreView> {
    match parsed_store(file) {
        Ok(v) => if v.network == network {
            Some(v)
        } else {
            None
        },
        Err(_) => None,
    }
}

/// Whether a store is that of a file, with nothing left to write.
pub open spec fn store_of(s: &WalletStore, v: StoreView, file: Seq<u8>) -> bool {
    &&& s.wf()
    &&& s@ == v
    &&& s.file() == file
    &&& s.pending() == Seq::<WriteView>::empty()
}

/// Whether a store is a new one, whose header is still to be written.
pub open spec fn new_store_of(s: &WalletStore, network: Network) -> bool {
    &&& s.wf()
    &&& s@ == StoreView { network, height: 0, index: Seq::empty(), total: 0 }
    &&& s.file() == header_bytes(network, 0, 0)
    &&& s.pending() == seq![WriteView { offset: 0, data: s.file() }]
}

impl WalletState {
    /// A wallet with its store.
    pub fn new(wallet: Wallet, store: Option<WalletStore>, store_path: String) -> (r: Self)
        ensures
            r.wallet == wallet,
            r.store == store,
            r.store_path == store_path,
    {
        WalletState { wallet, store, store_path }
    }

    /// The wallet of a network as the store's file, if there is one, keeps it. Where the
    /// file cannot be used the wallet is new and the store stays detached.
    pub fn open_or_new(network: Network, store_path: String, file: Option<&[u8]>) -> (r: Self)
        ensures
            r.store_path == store_path,
            r.wallet.wf(),
            r.wallet.network == network,
            r.wallet.spend_secret is None,
            r.wallet.keys is None,
            r.wallet.reserved.order() == Seq::<(Outpoint, ())>::empty(),
            ({
                let found = match file {
                    Some(bytes) => restorable(bytes@, network),
                    None => None,
                };
                match found {
                    Some((v, coins)) => {
                        &&& r.store is Some
                        &&& store_of(&r.store.unwrap(), v, file.unwrap()@)
                        &&& r.wallet.scan_height == v.height
                        &&& r.wallet.coins() == with_coins(Seq::empty(), coins)
                    },
                    None => {
                        &&& r.store is None
                        &&& r.wallet.scan_height == 0
                        &&& r.wallet.coins() == Seq::<(Outpoint, CoinView)>::empty()
                    },
                }
            }),
    {
        let mut wallet = Wallet::new(network);
        assert(wallet.coins() =~= Seq::<(Outpoint, CoinView)>::empty());
        let bytes = match file {
            Some(bytes) => bytes,
            None => {
                return WalletState::new(wallet, None, store_path);
            },
        };
        let store = match WalletStore::open(bytes) {
            Ok(s) => {
                if s.network() != wallet.network {
                    None
                } else {
                    match s.coins() {
                        Ok(coins) => {
                            wallet.restore(s.scan_height(), coins);
                            Some(s)
                        },
                        Err(_) => None,
                    }
                }
            },
            Err(_) => None,
        };
        WalletState::new(wallet, store, store_path)
    }

    /// Attaches a store, unless one is attached: the one in the file if there is a file,
    /// else a new one. A file that cannot be used, or is of another network, leaves the
    /// store detached.
    pub fn ensure_store(&mut self, file: Option<&[u8]>)
        ensures
            final(self).wallet == old(self).wallet,
            final(self).store_path == old(self).store_path,
            match (old(self).store, file) {
                (Some(_), _) => final(self).store == old(self).store,
                (None, Some(bytes)) => match attachable(bytes@, old(self).wallet.network) {
                    Some(v) => {
                        &&& final(self).store is Some
                        &&& store_of(&final(self).store.unwrap(), v, bytes@)
                    },
                    None => final(self).store is None,
                },
                (None, None) => {
                    &&& final(self).store is Some
                    &&& new_store_of(&final(self).store.unwrap(), old(self).wallet.network)
                },
            },
    {
        if self.store.is_some() {
            return;
        }
        let result = match file {
            Some(bytes) => WalletStore::open(bytes),
            None => WalletStore::create(false, self.wallet.network),
        };
        if let Ok(s) = result {
            if s.network() == self.wallet.network {
                self.store = Some(s);
            }
        }
    }
}

/// A wallet's state survives a restart: what was written to the file of a store comes
/// back when the file is opened for the same network.
pub proof fn restart_restores(v: StoreView, file: Seq<u8>, coins: Seq<(Outpoint, CoinView)>)
    requires
        crate::wallet::persistence::faithful(v, file),
        record_coins(records(file, v.total)) == Ok::<_, WalletStoreError>(coins),
    ensures
        restorable(file, v.network) == Some((v, coins)),
        attachable(file, v.network) == Some(v),
{
    crate::wallet::persistence::faithful_store_reopens(v, file);
}

/// A store of one network is never attached to a wallet of another.
pub proof fn other_network_stays_detached(file: Seq<u8>, network: Network)
    requires
        parsed_store(file) is Ok,
        parsed_store(file)->Ok_0.network != network,
    ensures
        attachable(file, network) is None,
        restorable(file, network) is None,
{
}

/// What is restored from a file is what the file says: it is a store of the network, and the
/// coins are those of its records.
pub proof fn restored_is_what_the_file_says(file: Seq<u8>, network: Network)
    ensures
        restorable(file, network) matches Some((v, coins)) ==> {
            &&& parsed_store(file) == Ok::<_, WalletStoreError>(v)
            &&& v.network == network
            &&& record_coins(records(file, v.total)) == Ok::<_, WalletStoreError>(coins)
        },
        restorable(file, network) is None ==> parsed_store(file) is Err
            || parsed_store(file)->Ok_0.network != network || record_coins(
            records(file, parsed_store(file)->Ok_0.total),
        ) is Err,
{
}

} // verus!
