//! The wallet: its keys, its coins, and which of them are set aside.

use vstd::prelude::*;
use crate::bytes::be_value;
use crate::chain::{signed_view, SignedView, Transaction};
use crate::outpoints::{
    distinct_keys, map_of, position_by_keys, position_in, position_meaning, with_entry,
    with_entry_inserts, without_entry, without_entry_removes, Outpoint, OutpointMap,
};
use crate::secp::{point_of, point_parsed, KeyError, PublicKey, SecretKey, XOnlyPublicKey};
use crate::silentpayments::{
    is_scalar, label_tweak_covers_key_and_label, label_tweak_of, tagged_hash_of,
};
use crate::sorting::{
    same_counts_same_total, stable_sort, stably_sorted, stably_sorted_keeps_order,
    stably_sorted_same_counts, stably_sorted_same_items, total_by,
};
use crate::wallet::bip352::{
    address_text_of, checked_build_receiver, label_key, network_number, AddressView, Receiver,
    ReceiverView, SilentPaymentAddress,
};
use crate::wallet::coins::{coin_views, Coin, CoinView};
use crate::wallet::sending::{
    build_transaction, coin_total, fair_payment, is_sendable, payment_usable, sendable, sending,
    sending_usable, spendable_views, underivable, DerivationError, SendError, SendErrorView,
    SpendableCoin,
};
use crate::wallet::utxos::{change_of, height_of, pushed_contains, HistoryEntry};
use crate::wallet::Network;

verus! {

/// The keys with which the wallet receives.
#[derive(Clone, Copy)]
pub struct WalletKeys {
    pub scan_secret: SecretKey,
    pub receiver: Receiver,
}

/// A wallet of coins.
pub struct Wallet {
    pub network: Network,
    pub scan_height: u32,
    /// The key that signs; a wallet without it can only watch.
    pub spend_secret: Option<SecretKey>,
    pub keys: Option<WalletKeys>,
    pub utxos: OutpointMap<Coin>,
    /// The coins that are set aside for a payment on its way.
    pub reserved: OutpointMap<()>,
}

/// Why keys were not taken in.
#[derive(Clone, Copy, Debug, PartialEq, Eq, Structural)]
pub enum ImportError {
    Key(KeyError),
    /// The hash of the change label is no scalar.
    ChangeLabel,
}

/// The unspent coins among `coins`, in order.
pub open spec fn unspent_coins(coins: Seq<(Outpoint, CoinView)>) -> Seq<(Outpoint, CoinView)>
    decreases coins.len(),
{
    if coins.len() == 0 {
        Seq::empty()
    } else {
        let before = unspent_coins(coins.drop_last());
        if coins.last().1.spent_by is None {
            before.push(coins.last())
        } else {
            before
        }
    }
}

/// The coins that can be spent, in order: the unspent ones that are not set aside.
pub open spec fn spendable_coins(
    coins: Seq<(Outpoint, CoinView)>,
    reserved: Seq<(Outpoint, ())>,
) -> Seq<(Outpoint, CoinView)>
    decreases coins.len(),
{
    if coins.len() == 0 {
        Seq::empty()
    } else {
        let before = spendable_coins(coins.drop_last(), reserved);
        let (outpoint, c) = coins.last();
        if c.spent_by is None && position_in(reserved, outpoint) is None {
            before.push((outpoint, c))
        } else {
            before
        }
    }
}

/// The set-aside coins after more were set aside.
pub open spec fn with_reserved(reserved: Seq<(Outpoint, ())>, outpoints: Seq<Outpoint>) -> Seq<
    (Outpoint, ()),
>
    decreases outpoints.len(),
{
    if outpoints.len() == 0 {
        reserved
    } else {
        with_entry(with_reserved(reserved, outpoints.drop_last()), outpoints.last(), ())
    }
}

/// The set-aside coins after some were given back.
pub open spec fn without_reserved(reserved: Seq<(Outpoint, ())>, outpoints: Seq<Outpoint>) -> Seq<
    (Outpoint, ()),
>
    decreases outpoints.len(),
{
    if outpoints.len() == 0 {
        reserved
    } else {
        without_entry(without_reserved(reserved, outpoints.drop_last()), outpoints.last())
    }
}

/// The coins of a wallet after it was given coins, in order.
pub open spec fn with_coins<V>(coins: Seq<(Outpoint, V)>, more: Seq<(Outpoint, V)>) -> Seq<
    (Outpoint, V),
>
    decreases more.len(),
{
    if more.len() == 0 {
        coins
    } else {
        with_entry(with_coins(coins, more.drop_last()), more.last().0, more.last().1)
    }
}

/// The sum of the values of coins.
pub open spec fn total_value(coins: Seq<(Outpoint, CoinView)>) -> nat
    decreases coins.len(),
{
    if coins.len() == 0 {
        0
    } else {
        total_value(coins.drop_last()) + coins.last().1.value as nat
    }
}

/// The events of coins, coin by coin.
pub open spec fn coin_events(coins: Seq<(Outpoint, CoinView)>) -> Seq<HistoryEntry>
    decreases coins.len(),
{
    if coins.len() == 0 {
        Seq::empty()
    } else {
        let (outpoint, c) = coins.last();
        let received = coin_events(coins.drop_last()).push(
            HistoryEntry::Received { outpoint, value: c.value, block_height: c.block_height },
        );
        match c.spent_by {
            Some(by) => received.push(
                HistoryEntry::Spent { outpoint, value: c.value, spent_at: by.block_height },
            ),
            None => received,
        }
    }
}

/// The receiver that keys make, if they make one.
pub open spec fn receiver_of(scan: Seq<u8>, spend: Seq<u8>, network: Network) -> Result<
    ReceiverView,
    ImportError,
> {
    let label = label_tweak_of(scan, 0);
    if !is_scalar(label) {
        Err(ImportError::ChangeLabel)
    } else if be_value(label) == 0 {
        Err(ImportError::Key(KeyError::InvalidSecretKey))
    } else if label_key(label, spend) is None {
        Err(ImportError::Key(KeyError::InvalidPublicKeySum))
    } else {
        Ok(
            ReceiverView {
                scan: point_of(be_value(scan)),
                spend,
                change_label: label,
                network,
            },
        )
    }
}

/// The address to which a receiver's change is sent.
pub open spec fn change_address_of(receiver: ReceiverView) -> AddressView {
    AddressView {
        scan: receiver.scan,
        spend: label_key(receiver.change_label, receiver.spend).unwrap(),
        network: receiver.network,
    }
}

/// The wallet's keys from a scan key and a spend key.
pub(crate) fn receive_with(scan: &SecretKey, spend: PublicKey, network: Network) -> (r: Result<
    WalletKeys,
    ImportError,
>)
    ensures
        match r {
            Ok(k) => k.scan_secret == *scan && receiver_of(scan@, spend@, network) == Ok::<
                _,
                ImportError,
            >(k.receiver@),
            Err(e) => receiver_of(scan@, spend@, network) == Err::<ReceiverView, _>(e),
        },
{
    match checked_build_receiver(scan, spend, network) {
        Some(Ok(receiver)) => Ok(WalletKeys { scan_secret: *scan, receiver }),
        Some(Err(e)) => Err(ImportError::Key(e)),
        None => Err(ImportError::ChangeLabel),
    }
}

impl Wallet {
    /// The coins of the wallet, in the order in which they came.
    pub open spec fn coins(&self) -> Seq<(Outpoint, CoinView)> {
        coin_views(self.utxos.order())
    }

    /// The coins that can be spent.
    pub open spec fn spendable(&self) -> Seq<(Outpoint, CoinView)> {
        spendable_coins(self.coins(), self.reserved.order())
    }

    /// Whether every coin stands once.
    pub open spec fn wf(&self) -> bool {
        self.utxos.wf() && self.reserved.wf()
    }

    /// A wallet without keys and coins.
    pub fn new(network: Network) -> (r: Self)
        ensures
            r.wf(),
            r.network == network,
            r.scan_height == 0,
            r.spend_secret is None,
            r.keys is None,
            r.utxos.order() == Seq::<(Outpoint, Coin)>::empty(),
            r.reserved.order() == Seq::<(Outpoint, ())>::empty(),
    {
        Wallet {
            network,
            scan_height: 0,
            spend_secret: None,
            keys: None,
            utxos: OutpointMap::new(),
            reserved: OutpointMap::new(),
        }
    }

    /// Takes in the keys of a wallet that only watches.
    pub fn import_public_keys(&mut self, scan_key: SecretKey, spend_key: PublicKey) -> (r: Result<
        (),
        ImportError,
    >)
        ensures
            final(self).network == old(self).network,
            final(self).scan_height == old(self).scan_height,
            final(self).utxos == old(self).utxos,
            final(self).reserved == old(self).reserved,
            ({
                let expected = receiver_of(scan_key@, spend_key@, old(self).network);
                match r {
                    Ok(()) => {
                        &&& final(self).keys is Some
                        &&& final(self).keys.unwrap().scan_secret == scan_key
                        &&& expected == Ok::<_, ImportError>(final(self).keys.unwrap().receiver@)
                        &&& final(self).spend_secret is None
                    },
                    Err(e) => {
                        &&& *final(self) == *old(self)
                        &&& expected == Err::<ReceiverView, _>(e)
                    },
                }
            }),
    {
        match receive_with(&scan_key, spend_key, self.network) {
            Ok(keys) => {
                self.keys = Some(keys);
                self.spend_secret = None;
                Ok(())
            },
            Err(e) => Err(e),
        }
    }

    /// Takes in the keys of a wallet that only watches. The spend key is given by its x
    /// coordinate and has an even second one.
    pub fn import_keys(&mut self, scan_key: SecretKey, spend_key: XOnlyPublicKey) -> (r: Result<
        (),
        ImportError,
    >)
        ensures
            final(self).network == old(self).network,
            final(self).scan_height == old(self).scan_height,
            final(self).utxos == old(self).utxos,
            final(self).reserved == old(self).reserved,
            ({
                let spend = point_parsed(seq![0x02u8] + spend_key@);
                let expected = receiver_of(scan_key@, spend.unwrap(), old(self).network);
                &&& spend is Some
                &&& match r {
                    Ok(()) => {
                        &&& final(self).keys is Some
                        &&& final(self).keys.unwrap().scan_secret == scan_key
                        &&& expected == Ok::<_, ImportError>(final(self).keys.unwrap().receiver@)
                        &&& final(self).spend_secret is None
                    },
                    Err(e) => {
                        &&& *final(self) == *old(self)
                        &&& expected == Err::<ReceiverView, _>(e)
                    },
                }
            }),
    {
        let spend = spend_key.even_point();
        self.import_public_keys(scan_key, spend)
    }

    /// Takes in the keys of a wallet that signs.
    pub fn import_signing_keys(&mut self, scan_key: SecretKey, spend_secret: SecretKey) -> (r:
        Result<(), ImportError>)
        ensures
            final(self).network == old(self).network,
            final(self).scan_height == old(self).scan_height,
            final(self).utxos == old(self).utxos,
            final(self).reserved == old(self).reserved,
            ({
                let expected = receiver_of(
                    scan_key@,
                    point_of(be_value(spend_secret@)),
                    old(self).network,
                );
                match r {
                    Ok(()) => {
                        &&& final(self).keys is Some
                        &&& final(self).keys.unwrap().scan_secret == scan_key
                        &&& expected == Ok::<_, ImportError>(final(self).keys.unwrap().receiver@)
                        &&& final(self).spend_secret == Some(spend_secret)
                    },
                    Err(e) => {
                        &&& *final(self) == *old(self)
                        &&& expected == Err::<ReceiverView, _>(e)
                    },
                }
            }),
    {
        let spend = PublicKey::from_secret_key(&spend_secret);
        match receive_with(&scan_key, spend, self.network) {
            Ok(keys) => {
                self.keys = Some(keys);
                self.spend_secret = Some(spend_secret);
                Ok(())
            },
            Err(e) => Err(e),
        }
    }

    /// Puts the wallet in the state that a store holds.
    pub fn restore(&mut self, scan_height: u32, coins: Vec<(Outpoint, Coin)>)
        requires
            old(self).wf(),
        ensures
            final(self).wf(),
            final(self).scan_height == scan_height,
            final(self).coins() == with_coins(Seq::empty(), coin_views(coins@)),
            final(self).network == old(self).network,
            final(self).spend_secret == old(self).spend_secret,
            final(self).keys == old(self).keys,
            final(self).reserved == old(self).reserved,
    {
        let ghost all = coins@;
        let mut utxos: OutpointMap<Coin> = OutpointMap::new();
        let mut left = coins;
        let ghost mut done: int = 0;
        assert(coin_views(utxos.order()) =~= Seq::empty());
        while left.len() > 0
            invariant
                0 <= done <= all.len(),
                left@ == all.skip(done),
                utxos.wf(),
                coin_views(utxos.order()) == with_coins(
                    Seq::empty(),
                    coin_views(all).take(done),
                ),
            decreases left@.len(),
        {
            let (outpoint, coin) = left.remove(0);
            let ghost before = utxos.order();
            utxos.insert(outpoint, coin);
            proof {
                let next = coin_views(all).take(done + 1);
                assert(next.drop_last() =~= coin_views(all).take(done));
                assert(next.last() == (outpoint, coin@));
                position_by_keys(before, coin_views(before), outpoint);
                position_meaning(before, outpoint);
                assert(coin_views(utxos.order()) =~= with_entry(
                    coin_views(before),
                    outpoint,
                    coin@,
                ));
                assert(left@ =~= all.skip(done + 1));
                done = done + 1;
            }
        }
        assert(coin_views(all).take(done) =~= coin_views(all));
        self.scan_height = scan_height;
        self.utxos = utxos;
    }

    /// The sum of the values of the unspent coins.
    pub fn balance(&self) -> (r: u64)
        requires
            total_value(unspent_coins(self.coins())) <= u64::MAX,
        ensures
            r == total_value(unspent_coins(self.coins())),
    {
        let ghost coins = self.coins();
        let mut total: u64 = 0;
        let mut i: usize = 0;
        while i < self.utxos.len()
            invariant
                i <= self.utxos.order().len(),
                coins == coin_views(self.utxos.order()),
                total == total_value(unspent_coins(coins.take(i as int))),
                total_value(unspent_coins(coins)) <= u64::MAX,
            decreases self.utxos.order().len() - i,
        {
            let coin = &self.utxos.at(i).1;
            proof {
                let done = coins.take(i + 1);
                assert(done.drop_last() =~= coins.take(i as int));
                assert(done.last().1 == coin@);
                let before = unspent_coins(done.drop_last());
                assert(before.push(done.last()).drop_last() =~= before);
                lemma_unspent_total_grows(coins, i + 1);
            }
            if coin.spent_by.is_none() {
                total = total + coin.value;
            }
            i = i + 1;
        }
        assert(coins.take(i as int) =~= coins);
        total
    }

    /// The number of unspent coins.
    pub fn utxo_count(&self) -> (r: usize)
        ensures
            r == unspent_coins(self.coins()).len(),
    {
        let ghost coins = self.coins();
        let mut count: usize = 0;
        let mut i: usize = 0;
        while i < self.utxos.len()
            invariant
                i <= self.utxos.order().len(),
                count <= i,
                coins == coin_views(self.utxos.order()),
                count == unspent_coins(coins.take(i as int)).len(),
            decreases self.utxos.order().len() - i,
        {
            proof {
                let done = coins.take(i + 1);
                assert(done.drop_last() =~= coins.take(i as int));
            }
            if self.utxos.at(i).1.spent_by.is_none() {
                count = count + 1;
            }
            i = i + 1;
        }
        assert(coins.take(i as int) =~= coins);
        count
    }

    /// The history of the wallet by height.
    pub fn history(&self) -> (r: Vec<HistoryEntry>)
        ensures
            stably_sorted(r@, coin_events(self.coins())),
            forall|i: int, j: int|
                0 <= i <= j < r@.len() ==> height_of(#[trigger] r@[i]) <= height_of(
                    #[trigger] r@[j],
                ),
            forall|i: int|
                0 <= i < self.coins().len() ==> r@.contains(
                    HistoryEntry::Received {
                        outpoint: (#[trigger] self.coins()[i]).0,
                        value: self.coins()[i].1.value,
                        block_height: self.coins()[i].1.block_height,
                    },
                ) && (self.coins()[i].1.spent_by matches Some(by) ==> r@.contains(
                    HistoryEntry::Spent {
                        outpoint: self.coins()[i].0,
                        value: self.coins()[i].1.value,
                        spent_at: by.block_height,
                    },
                )),
    {
        let ghost coins = self.coins();
        let mut entries: Vec<HistoryEntry> = Vec::new();
        let mut i: usize = 0;
        while i < self.utxos.len()
            invariant
                i <= self.utxos.order().len(),
                coins == coin_views(self.utxos.order()),
                entries@ == coin_events(coins.take(i as int)),
            decreases self.utxos.order().len() - i,
        {
            let entry = self.utxos.at(i);
            let outpoint = entry.0;
            let value: u64 = entry.1.value;
            entries.push(
                HistoryEntry::Received { outpoint, value, block_height: entry.1.block_height },
            );
            if let Some(s) = &entry.1.spent_by {
                entries.push(HistoryEntry::Spent { outpoint, value, spent_at: s.block_height });
            }
            i = i + 1;
            proof {
                let done = coins.take(i as int);
                assert(done.drop_last() =~= coins.take(i - 1));
                assert(done.last() == (outpoint, entry.1@));
            }
        }
        assert(coins.take(i as int) =~= coins);
        let r = stable_sort(entries);
        proof {
            assert forall|i: int| 0 <= i < coins.len() implies r@.contains(
                HistoryEntry::Received {
                    outpoint: (#[trigger] coins[i]).0,
                    value: coins[i].1.value,
                    block_height: coins[i].1.block_height,
                },
            ) && (coins[i].1.spent_by matches Some(by) ==> r@.contains(
                HistoryEntry::Spent {
                    outpoint: coins[i].0,
                    value: coins[i].1.value,
                    spent_at: by.block_height,
                },
            )) by {
                let (outpoint, c) = coins[i];
                history_tells_of_each_coin(
                    r@,
                    coins,
                    HistoryEntry::Received {
                        outpoint,
                        value: c.value,
                        block_height: c.block_height,
                    },
                );
                if let Some(by) = c.spent_by {
                    history_tells_of_each_coin(
                        r@,
                        coins,
                        HistoryEntry::Spent { outpoint, value: c.value, spent_at: by.block_height },
                    );
                }
            }
        }
        r
    }

    /// The address that is handed out, once the wallet has keys.
    pub fn receive_address(&self) -> (r: Option<String>)
        ensures
            match r {
                Some(text) => {
                    &&& self.keys is Some
                    &&& text@ == address_text_of(
                        self.keys.unwrap().receiver@.scan,
                        self.keys.unwrap().receiver@.spend,
                        network_number(self.keys.unwrap().receiver@.network),
                    )
                },
                None => self.keys is None,
            },
    {
        match &self.keys {
            Some(keys) => Some(keys.receiver.get_receiving_address().to_text()),
            None => None,
        }
    }

    /// Sets coins aside for a payment on its way.
    pub fn reserve_coins(&mut self, outpoints: &[Outpoint])
        requires
            old(self).wf(),
        ensures
            final(self).wf(),
            final(self).reserved.order() == with_reserved(old(self).reserved.order(), outpoints@),
            final(self).utxos == old(self).utxos,
            final(self).network == old(self).network,
            final(self).scan_height == old(self).scan_height,
            final(self).spend_secret == old(self).spend_secret,
            final(self).keys == old(self).keys,
    {
        let ghost before = self.reserved.order();
        let ghost start = *self;
        let mut i: usize = 0;
        while i < outpoints.len()
            invariant
                i <= outpoints@.len(),
                self.wf(),
                self.reserved.order() == with_reserved(before, outpoints@.take(i as int)),
                *self == (Wallet { reserved: self.reserved, ..start }),
            decreases outpoints@.len() - i,
        {
            self.reserved.insert(outpoints[i], ());
            i = i + 1;
            proof {
                let done = outpoints@.take(i as int);
                assert(done.drop_last() =~= outpoints@.take(i - 1));
            }
        }
        assert(outpoints@.take(i as int) =~= outpoints@);
    }

    /// Gives coins back that were set aside.
    pub fn release_coins(&mut self, outpoints: &[Outpoint])
        requires
            old(self).wf(),
        ensures
            final(self).wf(),
            final(self).reserved.order() == without_reserved(
                old(self).reserved.order(),
                outpoints@,
            ),
            final(self).utxos == old(self).utxos,
            final(self).network == old(self).network,
            final(self).scan_height == old(self).scan_height,
            final(self).spend_secret == old(self).spend_secret,
            final(self).keys == old(self).keys,
    {
        let ghost before = self.reserved.order();
        let ghost start = *self;
        let mut i: usize = 0;
        while i < outpoints.len()
            invariant
                i <= outpoints@.len(),
                self.wf(),
                self.reserved.order() == without_reserved(before, outpoints@.take(i as int)),
                *self == (Wallet { reserved: self.reserved, ..start }),
            decreases outpoints@.len() - i,
        {
            let _ = self.reserved.remove(&outpoints[i]);
            i = i + 1;
            proof {
                let done = outpoints@.take(i as int);
                assert(done.drop_last() =~= outpoints@.take(i - 1));
            }
        }
        assert(outpoints@.take(i as int) =~= outpoints@);
    }

    /// The coins that can be spent.
    fn spendable_list(&self) -> (r: Vec<SpendableCoin<'_>>)
        ensures
            spendable_views(r@) == self.spendable(),
    {
        let ghost coins = self.coins();
        let mut list: Vec<SpendableCoin<'_>> = Vec::new();
        let mut i: usize = 0;
        while i < self.utxos.len()
            invariant
                i <= self.utxos.order().len(),
                coins == coin_views(self.utxos.order()),
                spendable_views(list@) == spendable_coins(
                    coins.take(i as int),
                    self.reserved.order(),
                ),
            decreases self.utxos.order().len() - i,
        {
            let entry = self.utxos.at(i);
            let ghost before = list@;
            if entry.1.spent_by.is_none() && self.reserved.position(&entry.0).is_none() {
                list.push(SpendableCoin { outpoint: entry.0, coin: &entry.1 });
                assert(spendable_views(list@) =~= spendable_views(before).push(
                    (entry.0, entry.1@),
                ));
            }
            i = i + 1;
            proof {
                let done = coins.take(i as int);
                assert(done.drop_last() =~= coins.take(i - 1));
                assert(done.last() == (entry.0, entry.1@));
            }
        }
        assert(coins.take(i as int) =~= coins);
        list
    }

    /// What becomes of a payment of the wallet.
    pub open spec fn paying(&self, recipient: AddressView, amount: u64, fee_rate: u64) -> Result<
        SignedView,
        SendErrorView,
    > {
        if recipient.network != self.network {
            Err(SendErrorView::NetworkMismatch)
        } else if self.spend_secret is None || self.keys is None {
            Err(SendErrorView::WatchOnly)
        } else {
            sending(
                self.spend_secret.unwrap()@,
                recipient,
                change_address_of(self.keys.unwrap().receiver@),
                self.spendable(),
                amount,
                fee_rate,
            )
        }
    }

    /// Whether a payment, if it is tried, stays in the range of the arithmetic, and its input
    /// hash, if it is computed, can be used as a scalar.
    pub open spec fn paying_usable(
        &self,
        recipient: AddressView,
        amount: u64,
        fee_rate: u64,
    ) -> bool {
        recipient.network == self.network && self.spend_secret is Some && self.keys is Some ==> {
            &&& sendable(self.spendable(), amount, fee_rate)
            &&& sending_usable(self.spend_secret.unwrap()@, self.spendable(), amount, fee_rate)
        }
    }

    /// Whether a payment is tried and is a fair one.
    pub open spec fn pays_fairly(
        &self,
        tx: SignedView,
        recipient: AddressView,
        amount: u64,
    ) -> bool {
        &&& recipient.network == self.network
        &&& self.spend_secret is Some
        &&& self.keys is Some
        &&& fair_payment(
            tx,
            self.spend_secret.unwrap()@,
            recipient,
            change_address_of(self.keys.unwrap().receiver@),
            self.spendable(),
            amount,
        )
    }

    /// Makes a payment from the coins of the wallet that are unspent and not set aside.
    pub fn build_transaction(
        &self,
        recipient: SilentPaymentAddress,
        amount: u64,
        fee_rate: u64,
    ) -> (r: Result<Transaction, SendError>)
        requires
            self.wf(),
            self.paying_usable(recipient@, amount, fee_rate),
        ensures
            match r {
                Ok(tx) => self.paying(recipient@, amount, fee_rate) == Ok::<_, SendErrorView>(
                    signed_view(tx),
                ),
                Err(e) => self.paying(recipient@, amount, fee_rate) == Err::<SignedView, _>(e@),
            },
            r matches Ok(tx) ==> self.pays_fairly(signed_view(tx), recipient@, amount),
            recipient@.network != self.network <==> r == Err::<Transaction, _>(
                SendError::NetworkMismatch,
            ),
            recipient@.network == self.network && (self.spend_secret is None || self.keys is None)
                <==> r == Err::<Transaction, _>(SendError::WatchOnly),
            ({
                &&& recipient@.network == self.network
                &&& self.spend_secret is Some && self.keys is Some
                &&& self.spendable().len() > 0
                &&& 330 <= amount
                &&& coin_total(self.spendable()) < amount
            }) ==> r is Err && r->Err_0 is InsufficientFunds,
            r matches Err(SendError::SilentPayments(DerivationError::RecipientKeys(e)))
                ==> underivable(
                self.spend_secret.unwrap()@,
                recipient@,
                change_address_of(self.keys.unwrap().receiver@),
                self.spendable(),
                amount,
                fee_rate,
                e,
            ),
    {
        if recipient.get_network() != self.network {
            return Err(SendError::NetworkMismatch);
        }
        let spend_secret = match &self.spend_secret {
            Some(s) => *s,
            None => {
                return Err(SendError::WatchOnly);
            },
        };
        let keys = match &self.keys {
            Some(k) => *k,
            None => {
                return Err(SendError::WatchOnly);
            },
        };
        let change_address = keys.receiver.get_change_address();
        let coins = self.spendable_list();
        proof {
            lemma_spendable_distinct(self.coins(), self.reserved.order());
        }
        build_transaction(
            &spend_secret,
            recipient,
            amount,
            fee_rate,
            change_address,
            coins.as_slice(),
        )
    }

    /// Makes a payment, unless its amounts are out of the range of the arithmetic or the input
    /// hash of the chosen coins is no scalar.
    pub fn checked_build_transaction(
        &self,
        recipient: SilentPaymentAddress,
        amount: u64,
        fee_rate: u64,
    ) -> (r: Option<Result<Transaction, SendError>>)
        requires
            self.wf(),
        ensures
            match r {
                Some(Ok(tx)) => {
                    &&& self.paying_usable(recipient@, amount, fee_rate)
                    &&& self.paying(recipient@, amount, fee_rate) == Ok::<_, SendErrorView>(
                        signed_view(tx),
                    )
                    &&& self.pays_fairly(signed_view(tx), recipient@, amount)
                },
                Some(Err(e)) => {
                    &&& self.paying_usable(recipient@, amount, fee_rate)
                    &&& self.paying(recipient@, amount, fee_rate) == Err::<SignedView, _>(e@)
                },
                None => !self.paying_usable(recipient@, amount, fee_rate),
            },
    {
        if recipient.get_network() == self.network && self.keys.is_some() {
            if let Some(spend_secret) = &self.spend_secret {
                let coins = self.spendable_list();
                proof {
                    lemma_spendable_distinct(self.coins(), self.reserved.order());
                }
                if !is_sendable(coins.as_slice(), amount, fee_rate) || !payment_usable(
                    spend_secret,
                    amount,
                    fee_rate,
                    coins.as_slice(),
                ) {
                    return None;
                }
            }
        }
        Some(self.build_transaction(recipient, amount, fee_rate))
    }
}

proof fn lemma_spendable_distinct(
    coins: Seq<(Outpoint, CoinView)>,
    reserved: Seq<(Outpoint, ())>,
)
    requires
        distinct_keys(coins),
    ensures
        distinct_keys(spendable_coins(coins, reserved)),
        forall|i: int|
            0 <= i < spendable_coins(coins, reserved).len() ==> coins.contains(
                #[trigger] spendable_coins(coins, reserved)[i],
            ),
    decreases coins.len(),
{
    if coins.len() > 0 {
        let before = coins.drop_last();
        lemma_spendable_distinct(before, reserved);
        let chosen = spendable_coins(before, reserved);
        let all = spendable_coins(coins, reserved);
        assert forall|i: int| 0 <= i < all.len() implies coins.contains(#[trigger] all[i]) by {
            if i < chosen.len() {
                assert(before.contains(chosen[i]));
                let k = choose|k: int| 0 <= k < before.len() && before[k] == chosen[i];
                assert(coins[k] == all[i]);
            } else {
                assert(coins[coins.len() - 1] == all[i]);
            }
        }
        assert forall|i: int, j: int| 0 <= i < j < all.len() implies (#[trigger] all[i]).0 != (
        #[trigger] all[j]).0 by {
            if j == chosen.len() {
                assert(before.contains(chosen[i]));
                let k = choose|k: int| 0 <= k < before.len() && before[k] == chosen[i];
                assert(coins[k] == all[i]);
                assert(coins[coins.len() - 1] == all[j]);
            } else {
                assert(all[i] == chosen[i] && all[j] == chosen[j]);
            }
        }
    }
}

/// Setting coins aside adds their outpoints to the set-aside ones, and nothing else.
pub proof fn reserve_adds(reserved: Seq<(Outpoint, ())>, outpoints: Seq<Outpoint>)
    requires
        distinct_keys(reserved),
    ensures
        distinct_keys(with_reserved(reserved, outpoints)),
        forall|k: Outpoint|
            (#[trigger] position_in(with_reserved(reserved, outpoints), k) is Some) == (
            position_in(reserved, k) is Some || outpoints.contains(k)),
    decreases outpoints.len(),
{
    if outpoints.len() > 0 {
        let fewer = outpoints.drop_last();
        reserve_adds(reserved, fewer);
        let before = with_reserved(reserved, fewer);
        with_entry_inserts(before, outpoints.last(), ());
        let after = with_reserved(reserved, outpoints);
        assert forall|k: Outpoint|
            (#[trigger] position_in(after, k) is Some) == (position_in(reserved, k) is Some
                || outpoints.contains(k)) by {
            assert(map_of(after).contains_key(k) == map_of(before).insert(
                outpoints.last(),
                (),
            ).contains_key(k));
            lemma_contains_split(outpoints, k);
        }
    }
}

/// Giving coins back takes their outpoints out of the set-aside ones, and nothing else.
pub proof fn release_removes(reserved: Seq<(Outpoint, ())>, outpoints: Seq<Outpoint>)
    requires
        distinct_keys(reserved),
    ensures
        distinct_keys(without_reserved(reserved, outpoints)),
        forall|k: Outpoint|
            (#[trigger] position_in(without_reserved(reserved, outpoints), k) is Some) == (
            position_in(reserved, k) is Some && !outpoints.contains(k)),
    decreases outpoints.len(),
{
    if outpoints.len() > 0 {
        let fewer = outpoints.drop_last();
        release_removes(reserved, fewer);
        let before = without_reserved(reserved, fewer);
        without_entry_removes(before, outpoints.last());
        let after = without_reserved(reserved, outpoints);
        assert forall|k: Outpoint|
            (#[trigger] position_in(after, k) is Some) == (position_in(reserved, k) is Some
                && !outpoints.contains(k)) by {
            assert(map_of(after).contains_key(k) == map_of(before).remove(
                outpoints.last(),
            ).contains_key(k));
            lemma_contains_split(outpoints, k);
        }
    }
}

proof fn lemma_contains_split(outpoints: Seq<Outpoint>, k: Outpoint)
    requires
        outpoints.len() > 0,
    ensures
        outpoints.contains(k) == (outpoints.drop_last().contains(k) || outpoints.last() == k),
{
    let fewer = outpoints.drop_last();
    if outpoints.contains(k) {
        let i = choose|i: int| 0 <= i < outpoints.len() && outpoints[i] == k;
        if i < fewer.len() {
            assert(fewer[i] == k);
        }
    }
    if fewer.contains(k) {
        let i = choose|i: int| 0 <= i < fewer.len() && fewer[i] == k;
        assert(outpoints[i] == k);
    }
    if outpoints.last() == k {
        assert(outpoints[outpoints.len() - 1] == k);
    }
}

proof fn lemma_spendable_by_membership(
    coins: Seq<(Outpoint, CoinView)>,
    a: Seq<(Outpoint, ())>,
    b: Seq<(Outpoint, ())>,
)
    requires
        forall|k: Outpoint|
            (#[trigger] position_in(a, k) is Some) == (position_in(b, k) is Some),
    ensures
        spendable_coins(coins, a) == spendable_coins(coins, b),
    decreases coins.len(),
{
    if coins.len() > 0 {
        lemma_spendable_by_membership(coins.drop_last(), a, b);
        let k = coins.last().0;
        assert((position_in(a, k) is Some) == (position_in(b, k) is Some));
    }
}

proof fn lemma_spendable_unreserved(
    coins: Seq<(Outpoint, CoinView)>,
    reserved: Seq<(Outpoint, ())>,
)
    ensures
        forall|i: int|
            0 <= i < spendable_coins(coins, reserved).len() ==> {
                &&& position_in(reserved, (#[trigger] spendable_coins(coins, reserved)[i]).0) is None
                &&& spendable_coins(coins, reserved)[i].1.spent_by is None
            },
    decreases coins.len(),
{
    if coins.len() > 0 {
        lemma_spendable_unreserved(coins.drop_last(), reserved);
    }
}

/// Coins that are set aside are not spent by a later payment: none of them is among the
/// coins that can be spent.
pub proof fn reserved_coins_are_not_spendable(
    coins: Seq<(Outpoint, CoinView)>,
    reserved: Seq<(Outpoint, ())>,
    outpoints: Seq<Outpoint>,
)
    requires
        distinct_keys(reserved),
    ensures
        forall|i: int|
            0 <= i < spendable_coins(coins, with_reserved(reserved, outpoints)).len()
                ==> !outpoints.contains(
                (#[trigger] spendable_coins(coins, with_reserved(reserved, outpoints))[i]).0,
            ),
{
    let after = with_reserved(reserved, outpoints);
    reserve_adds(reserved, outpoints);
    lemma_spendable_unreserved(coins, after);
    let left = spendable_coins(coins, after);
    assert forall|i: int| 0 <= i < left.len() implies !outpoints.contains(
        (#[trigger] left[i]).0,
    ) by {
        assert(position_in(after, left[i].0) is None);
    }
}

/// Coins that were set aside and given back can be spent again: the coins that can be
/// spent are those of before.
pub proof fn released_coins_are_spendable_again(
    coins: Seq<(Outpoint, CoinView)>,
    reserved: Seq<(Outpoint, ())>,
    outpoints: Seq<Outpoint>,
)
    requires
        distinct_keys(reserved),
        forall|i: int|
            0 <= i < outpoints.len() ==> position_in(reserved, #[trigger] outpoints[i]) is None,
    ensures
        spendable_coins(
            coins,
            without_reserved(with_reserved(reserved, outpoints), outpoints),
        ) == spendable_coins(coins, reserved),
{
    let aside = with_reserved(reserved, outpoints);
    let back = without_reserved(aside, outpoints);
    reserve_adds(reserved, outpoints);
    release_removes(aside, outpoints);
    assert forall|k: Outpoint|
        (#[trigger] position_in(back, k) is Some) == (position_in(reserved, k) is Some) by {
        assert((position_in(aside, k) is Some) == (position_in(reserved, k) is Some
            || outpoints.contains(k)));
    }
    lemma_spendable_by_membership(coins, back, reserved);
}

/// The events of the wallet's coins are, for each coin, its receipt at the height at
/// which it came, with its value, and, where it was spent, its spending at the height of
/// what spent it, with the same value; and nothing else.
pub proof fn coin_events_tell_of_each_coin(coins: Seq<(Outpoint, CoinView)>, x: HistoryEntry)
    ensures
        coin_events(coins).contains(x) <==> match x {
            HistoryEntry::Received { outpoint, value, block_height } => exists|i: int|
                0 <= i < coins.len() && (#[trigger] coins[i]).0 == outpoint
                    && coins[i].1.value == value && coins[i].1.block_height == block_height,
            HistoryEntry::Spent { outpoint, value, spent_at } => exists|i: int|
                0 <= i < coins.len() && (#[trigger] coins[i]).0 == outpoint
                    && coins[i].1.value == value && coins[i].1.spent_by is Some
                    && coins[i].1.spent_by.unwrap().block_height == spent_at,
        },
    decreases coins.len(),
{
    if coins.len() > 0 {
        let fewer = coins.drop_last();
        let n = coins.len() - 1;
        coin_events_tell_of_each_coin(fewer, x);
        let (outpoint, c) = coins[n];
        let before = coin_events(fewer);
        let r = HistoryEntry::Received { outpoint, value: c.value, block_height: c.block_height };
        pushed_contains(before, r, x);
        if let Some(by) = c.spent_by {
            pushed_contains(
                before.push(r),
                HistoryEntry::Spent { outpoint, value: c.value, spent_at: by.block_height },
                x,
            );
        }
        assert forall|i: int| 0 <= i < fewer.len() implies coins[i] == #[trigger] fewer[i] by {}
        match x {
            HistoryEntry::Received { outpoint, value, block_height } => {
                if exists|i: int|
                    0 <= i < fewer.len() && (#[trigger] fewer[i]).0 == outpoint
                        && fewer[i].1.value == value && fewer[i].1.block_height == block_height {
                    let i = choose|i: int|
                        0 <= i < fewer.len() && (#[trigger] fewer[i]).0 == outpoint
                            && fewer[i].1.value == value && fewer[i].1.block_height
                            == block_height;
                    assert(coins[i] == fewer[i]);
                }
                if exists|i: int|
                    0 <= i < coins.len() && (#[trigger] coins[i]).0 == outpoint
                        && coins[i].1.value == value && coins[i].1.block_height
                        == block_height {
                    let i = choose|i: int|
                        0 <= i < coins.len() && (#[trigger] coins[i]).0 == outpoint
                            && coins[i].1.value == value && coins[i].1.block_height
                            == block_height;
                    if i < n {
                        assert(coins[i] == fewer[i]);
                    }
                }
            },
            HistoryEntry::Spent { outpoint, value, spent_at } => {
                if exists|i: int|
                    0 <= i < fewer.len() && (#[trigger] fewer[i]).0 == outpoint
                        && fewer[i].1.value == value && fewer[i].1.spent_by is Some
                        && fewer[i].1.spent_by.unwrap().block_height == spent_at {
                    let i = choose|i: int|
                        0 <= i < fewer.len() && (#[trigger] fewer[i]).0 == outpoint
                            && fewer[i].1.value == value && fewer[i].1.spent_by is Some
                            && fewer[i].1.spent_by.unwrap().block_height == spent_at;
                    assert(coins[i] == fewer[i]);
                }
                if exists|i: int|
                    0 <= i < coins.len() && (#[trigger] coins[i]).0 == outpoint
                        && coins[i].1.value == value && coins[i].1.spent_by is Some
                        && coins[i].1.spent_by.unwrap().block_height == spent_at {
                    let i = choose|i: int|
                        0 <= i < coins.len() && (#[trigger] coins[i]).0 == outpoint
                            && coins[i].1.value == value && coins[i].1.spent_by is Some
                            && coins[i].1.spent_by.unwrap().block_height == spent_at;
                    if i < n {
                        assert(coins[i] == fewer[i]);
                    }
                }
            },
        }
    }
}

/// The history of a wallet holds, for each coin, its receipt and, where it was spent, its
/// spending, and nothing else, and its heights never fall.
pub proof fn history_tells_of_each_coin(
    history: Seq<HistoryEntry>,
    coins: Seq<(Outpoint, CoinView)>,
    x: HistoryEntry,
)
    requires
        stably_sorted(history, coin_events(coins)),
    ensures
        history.contains(x) <==> match x {
            HistoryEntry::Received { outpoint, value, block_height } => exists|i: int|
                0 <= i < coins.len() && (#[trigger] coins[i]).0 == outpoint
                    && coins[i].1.value == value && coins[i].1.block_height == block_height,
            HistoryEntry::Spent { outpoint, value, spent_at } => exists|i: int|
                0 <= i < coins.len() && (#[trigger] coins[i]).0 == outpoint
                    && coins[i].1.value == value && coins[i].1.spent_by is Some
                    && coins[i].1.spent_by.unwrap().block_height == spent_at,
        },
        forall|i: int, j: int|
            0 <= i <= j < history.len() ==> height_of(#[trigger] history[i]) <= height_of(
                #[trigger] history[j],
            ),
{
    stably_sorted_same_items(history, coin_events(coins), x);
    coin_events_tell_of_each_coin(coins, x);
}

proof fn lemma_coin_receipt_before_spending(coins: Seq<(Outpoint, CoinView)>, i: int) -> (a: int)
    requires
        0 <= i < coins.len(),
        coins[i].1.spent_by is Some,
    ensures
        0 <= a,
        a + 1 < coin_events(coins).len(),
        coin_events(coins)[a] == (HistoryEntry::Received {
            outpoint: coins[i].0,
            value: coins[i].1.value,
            block_height: coins[i].1.block_height,
        }),
        coin_events(coins)[a + 1] == (HistoryEntry::Spent {
            outpoint: coins[i].0,
            value: coins[i].1.value,
            spent_at: coins[i].1.spent_by.unwrap().block_height,
        }),
    decreases coins.len(),
{
    let fewer = coins.drop_last();
    if i == coins.len() - 1 {
        coin_events(fewer).len() as int
    } else {
        assert(fewer[i] == coins[i]);
        lemma_coin_receipt_before_spending(fewer, i)
    }
}

/// In the history of a wallet a coin's receipt comes before its spending, unless it was
/// spent at a lower height than it came at.
pub proof fn coin_receipt_comes_before_spending(
    history: Seq<HistoryEntry>,
    coins: Seq<(Outpoint, CoinView)>,
    i: int,
)
    requires
        stably_sorted(history, coin_events(coins)),
        0 <= i < coins.len(),
        coins[i].1.spent_by is Some,
        coins[i].1.block_height <= coins[i].1.spent_by.unwrap().block_height,
    ensures
        exists|a: int, b: int|
            0 <= a < b < history.len() && #[trigger] history[a] == (HistoryEntry::Received {
                outpoint: coins[i].0,
                value: coins[i].1.value,
                block_height: coins[i].1.block_height,
            }) && #[trigger] history[b] == (HistoryEntry::Spent {
                outpoint: coins[i].0,
                value: coins[i].1.value,
                spent_at: coins[i].1.spent_by.unwrap().block_height,
            }),
{
    let a = lemma_coin_receipt_before_spending(coins, i);
    stably_sorted_keeps_order(history, coin_events(coins), a, a + 1);
}

/// The unspent coins are those of the wallet's coins that nothing spent, in order.
pub proof fn unspent_coins_are_not_spent(coins: Seq<(Outpoint, CoinView)>)
    ensures
        unspent_coins(coins) == coins.filter(|e: (Outpoint, CoinView)| e.1.spent_by is None),
    decreases coins.len(),
{
    reveal(Seq::filter);
    if coins.len() > 0 {
        unspent_coins_are_not_spent(coins.drop_last());
    }
}

/// The value of coins grows by a coin's value, and only by it, where the coin comes
/// in, wherever it stands.
pub proof fn total_value_grows_by_each(
    head: Seq<(Outpoint, CoinView)>,
    e: (Outpoint, CoinView),
    tail: Seq<(Outpoint, CoinView)>,
)
    ensures
        total_value(Seq::<(Outpoint, CoinView)>::empty()) == 0,
        total_value(head + seq![e] + tail) == total_value(head + tail) + e.1.value,
    decreases tail.len(),
{
    let s = head + seq![e] + tail;
    if tail.len() == 0 {
        assert(s.drop_last() =~= head + tail);
    } else {
        total_value_grows_by_each(head, e, tail.drop_last());
        assert(s.drop_last() =~= head + seq![e] + tail.drop_last());
        assert((head + tail).drop_last() =~= head + tail.drop_last());
    }
}

/// The coins that can be spent are those of the wallet's coins that nothing spent and that
/// are not set aside, in order.
pub proof fn spendable_coins_are_unspent_and_not_reserved(
    coins: Seq<(Outpoint, CoinView)>,
    reserved: Seq<(Outpoint, ())>,
)
    ensures
        spendable_coins(coins, reserved) == coins.filter(
            |c: (Outpoint, CoinView)| c.1.spent_by is None && !reserved.contains((c.0, ())),
        ),
    decreases coins.len(),
{
    reveal(Seq::filter);
    if coins.len() > 0 {
        spendable_coins_are_unspent_and_not_reserved(coins.drop_last(), reserved);
        let k = coins.last().0;
        position_meaning(reserved, k);
        if let Some(i) = position_in(reserved, k) {
            assert(reserved[i] == (k, ()));
        } else if reserved.contains((k, ())) {
            let i = choose|i: int| 0 <= i < reserved.len() && reserved[i] == (k, ());
            assert(reserved[i].0 != k);
        }
    }
}

/// The receiver that keys make has the public key of the scan key, the spend key and the
/// network that were given, and for change the label zero: the hash of the scan key and four
/// bytes that spell zero.
pub proof fn receivers_keep_their_keys(
    scan: Seq<u8>,
    spend: Seq<u8>,
    network: Network,
    msg: Seq<u8>,
)
    requires
        msg.len() == scan.len() + 4,
        msg.take(scan.len() as int) == scan,
        be_value(msg.skip(scan.len() as int)) == 0,
    ensures
        receiver_of(scan, spend, network) matches Ok(r) ==> {
            &&& r.scan == point_of(be_value(scan))
            &&& r.spend == spend
            &&& r.network == network
            &&& r.change_label == tagged_hash_of("BIP0352/Label"@, msg)
        },
{
    label_tweak_covers_key_and_label(scan, 0, msg);
}

proof fn lemma_events_add_up(coins: Seq<(Outpoint, CoinView)>)
    ensures
        total_by(coin_events(coins), change_of()) == total_value(unspent_coins(coins)),
    decreases coins.len(),
{
    if coins.len() > 0 {
        let fewer = coins.drop_last();
        lemma_events_add_up(fewer);
        let (outpoint, c) = coins.last();
        let before = coin_events(fewer);
        let received = before.push(
            HistoryEntry::Received { outpoint, value: c.value, block_height: c.block_height },
        );
        assert(received.drop_last() =~= before);
        assert(total_by(received, change_of()) == total_by(before, change_of()) + c.value);
        if let Some(by) = c.spent_by {
            let spent = received.push(
                HistoryEntry::Spent { outpoint, value: c.value, spent_at: by.block_height },
            );
            assert(spent.drop_last() =~= received);
            assert(total_by(spent, change_of()) == total_by(received, change_of()) - c.value);
        }
        let kept = unspent_coins(fewer);
        assert(kept.push(coins.last()).drop_last() =~= kept);
    }
}

/// The history of a wallet adds up to its balance.
pub proof fn history_adds_up(history: Seq<HistoryEntry>, coins: Seq<(Outpoint, CoinView)>)
    requires
        stably_sorted(history, coin_events(coins)),
    ensures
        total_by(history, change_of()) == total_value(unspent_coins(coins)),
{
    lemma_events_add_up(coins);
    stably_sorted_same_counts(history, coin_events(coins));
    same_counts_same_total(history, coin_events(coins), change_of());
}

/// A wallet that is restored from coins with outpoints of their own has exactly these
/// coins.
pub proof fn restored_coins_are_kept<V>(coins: Seq<(Outpoint, V)>)
    requires
        distinct_keys(coins),
    ensures
        with_coins(Seq::empty(), coins) == coins,
    decreases coins.len(),
{
    if coins.len() > 0 {
        let fewer = coins.drop_last();
        assert forall|i: int, j: int| 0 <= i < j < fewer.len() implies (#[trigger] fewer[i]).0 != (
        #[trigger] fewer[j]).0 by {
            assert(coins[i].0 != coins[j].0);
        }
        restored_coins_are_kept(fewer);
        position_meaning(fewer, coins.last().0);
        assert(fewer.push(coins.last()) =~= coins);
        if let Some(i) = position_in(fewer, coins.last().0) {
            assert(coins[i].0 != coins[coins.len() - 1].0);
        }
    } else {
        assert(coins =~= Seq::empty());
    }
}

/// A wallet that is given coins has each as it came last; a coin that did not come is as it
/// was.
pub proof fn coins_stand_as_they_came_last<V>(
    coins: Seq<(Outpoint, V)>,
    more: Seq<(Outpoint, V)>,
    k: Outpoint,
)
    requires
        distinct_keys(coins),
    ensures
        ({
            let before = map_of(coins);
            let after = map_of(with_coins(coins, more));
            &&& distinct_keys(with_coins(coins, more))
            &&& forall|i: int|
                0 <= i < more.len() && (#[trigger] more[i]).0 == k && (forall|l: int|
                    i < l < more.len() ==> (#[trigger] more[l]).0 != k) ==> after.contains_key(k)
                    && after[k] == more[i].1
            &&& (forall|i: int| 0 <= i < more.len() ==> (#[trigger] more[i]).0 != k)
                ==> after.contains_key(k) == before.contains_key(k) && (before.contains_key(k)
                ==> after[k] == before[k])
        }),
    decreases more.len(),
{
    if more.len() > 0 {
        let fewer = more.drop_last();
        let n = more.len() - 1;
        coins_stand_as_they_came_last(coins, fewer, k);
        let before = map_of(coins);
        let after = map_of(with_coins(coins, more));
        with_entry_inserts(with_coins(coins, fewer), more.last().0, more.last().1);
        assert(more[n] == more.last());
        assert forall|i: int|
            0 <= i < more.len() && (#[trigger] more[i]).0 == k && (forall|l: int|
                i < l < more.len() ==> (#[trigger] more[l]).0 != k) implies after.contains_key(k)
            && after[k] == more[i].1 by {
            if i < n {
                assert(fewer[i] == more[i]);
                assert forall|l: int| i < l < fewer.len() implies (#[trigger] fewer[l]).0 != k by {
                    assert(fewer[l] == more[l]);
                }
            }
        }
        if forall|i: int| 0 <= i < more.len() ==> (#[trigger] more[i]).0 != k {
            assert forall|i: int| 0 <= i < fewer.len() implies (#[trigger] fewer[i]).0 != k by {
                assert(fewer[i] == more[i]);
            }
        }
    }
}

proof fn lemma_unspent_total_grows(coins: Seq<(Outpoint, CoinView)>, n: int)
    requires
        0 <= n <= coins.len(),
    ensures
        total_value(unspent_coins(coins.take(n))) <= total_value(unspent_coins(coins)),
    decreases coins.len() - n,
{
    if n < coins.len() {
        lemma_unspent_total_grows(coins, n + 1);
        let more = coins.take(n + 1);
        assert(more.drop_last() =~= coins.take(n));
        let before = unspent_coins(more.drop_last());
        assert(before.push(more.last()).drop_last() =~= before);
    } else {
        assert(coins.take(n) =~= coins);
    }
}

} // verus!
