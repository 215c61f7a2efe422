//! What the file of a store gives back of the scans that were written to it.

use vstd::prelude::*;
use crate::bytes::{array_of_view, le32, le32_round_trip};
use crate::outpoints::{
    distinct_keys, map_of, position_by_keys, position_in, position_meaning, position_pushed,
    with_entry_inserts, without_entry, without_entry_removes, Outpoint,
};
use crate::wallet::coins::{CoinView, SpentBy};
use crate::wallet::reopening::lemma_index_leads;
use crate::wallet::store::{
    and_write, applied, decoded_record, disconnecting, header_bytes, parsed_store, record_bytes,
    record_coins, record_index, record_offset, record_outpoint, record_round_trip,
    record_spent_by, recording, records, removing, scalar_bytes, scanning, spending, unspending,
    unspent_view, written, zeros, Progress, StoreView, WalletStoreError, WriteView,
};
use crate::wallet::Network;

verus! {

/// Whether no two records that are no tombstones have one outpoint.
pub open spec fn one_record_each(recs: Seq<Seq<u8>>) -> bool {
    forall|i: int, j: int|
        0 <= i < j < recs.len() && (#[trigger] recs[i])[0] != 2 && (#[trigger] recs[j])[0] != 2
            ==> record_outpoint(recs[i]) != record_outpoint(recs[j])
}

/// Whether a file says what the store knows.
pub open spec fn faithful(v: StoreView, file: Seq<u8>) -> bool {
    &&& v.total <= u32::MAX
    &&& record_offset(v.total) <= file.len()
    &&& file.take(14) == header_bytes(v.network, v.height, v.total as u32)
    &&& v.index == record_index(records(file, v.total))
    &&& one_record_each(records(file, v.total))
}

/// The coins of a store after new ones came. A coin that is there already stays as it is.
pub open spec fn with_new_coins(
    coins: Seq<(Outpoint, CoinView)>,
    new_coins: Seq<(Outpoint, CoinView)>,
) -> Seq<(Outpoint, CoinView)>
    decreases new_coins.len(),
{
    if new_coins.len() == 0 {
        coins
    } else {
        let before = with_new_coins(coins, new_coins.drop_last());
        let (outpoint, c) = new_coins.last();
        if position_in(before, outpoint) is Some {
            before
        } else {
            before.push((outpoint, unspent_view(c)))
        }
    }
}

/// The coins of a store with what spent one of them changed, if it is there.
pub open spec fn with_spent_by(
    coins: Seq<(Outpoint, CoinView)>,
    outpoint: Outpoint,
    spent_by: Option<SpentBy>,
) -> Seq<(Outpoint, CoinView)> {
    match position_in(coins, outpoint) {
        Some(i) => coins.update(i, (outpoint, CoinView { spent_by, ..coins[i].1 })),
        None => coins,
    }
}

/// The coins of a store after some were spent.
pub open spec fn with_spent_coins(
    coins: Seq<(Outpoint, CoinView)>,
    spent: Seq<(Outpoint, SpentBy)>,
) -> Seq<(Outpoint, CoinView)>
    decreases spent.len(),
{
    if spent.len() == 0 {
        coins
    } else {
        with_spent_by(
            with_spent_coins(coins, spent.drop_last()),
            spent.last().0,
            Some(spent.last().1),
        )
    }
}

/// The coins of a store after some were removed.
pub open spec fn without_coins(
    coins: Seq<(Outpoint, CoinView)>,
    removed: Seq<Outpoint>,
) -> Seq<(Outpoint, CoinView)>
    decreases removed.len(),
{
    if removed.len() == 0 {
        coins
    } else {
        without_entry(without_coins(coins, removed.drop_last()), removed.last())
    }
}

/// The coins of a store after some are unspent again.
pub open spec fn with_unspent_coins(
    coins: Seq<(Outpoint, CoinView)>,
    unspent: Seq<Outpoint>,
) -> Seq<(Outpoint, CoinView)>
    decreases unspent.len(),
{
    if unspent.len() == 0 {
        coins
    } else {
        with_spent_by(with_unspent_coins(coins, unspent.drop_last()), unspent.last(), None)
    }
}

/// A file that says what a store knows opens to that store.
pub proof fn faithful_store_reopens(v: StoreView, file: Seq<u8>)
    requires
        faithful(v, file),
    ensures
        parsed_store(file) == Ok::<_, WalletStoreError>(v),
{
    let header = header_bytes(v.network, v.height, v.total as u32);
    le32_round_trip(v.height);
    le32_round_trip(v.total as u32);
    assert(file.take(4) =~= file.take(14).take(4));
    assert(header.take(4) =~= seq![0x53u8, 0x50u8, 0x57u8, 0x46u8]);
    assert(file[4] == file.take(14)[4]);
    assert(file[5] == file.take(14)[5]);
    assert(file.subrange(6, 10) =~= file.take(14).subrange(6, 10));
    assert(header.subrange(6, 10) =~= le32(v.height));
    assert(file.subrange(10, 14) =~= file.take(14).subrange(10, 14));
    assert(header.subrange(10, 14) =~= le32(v.total as u32));
}

/// The file of a new store says what the store knows.
pub proof fn new_store_is_faithful(network: Network)
    ensures
        faithful(
            StoreView { network, height: 0, index: Seq::empty(), total: 0 },
            header_bytes(network, 0, 0),
        ),
        record_coins(records(header_bytes(network, 0, 0), 0)) == Ok::<_, WalletStoreError>(
            Seq::<(Outpoint, CoinView)>::empty(),
        ),
{
    let file = header_bytes(network, 0, 0);
    assert(file.take(14) =~= file);
}

// Writes and records.

pub(crate) proof fn lemma_header_write(file: Seq<u8>, n: nat, offset: nat, data: Seq<u8>)
    requires
        record_offset(n) <= file.len(),
        offset + data.len() <= 14,
    ensures
        records(written(file, offset, data), n) == records(file, n),
        written(file, offset, data).len() == file.len(),
        written(file, offset, data).take(14) == written(file.take(14), offset, data),
{
    let after = written(file, offset, data);
    assert forall|i: int| 0 <= i < n implies records(after, n)[i] == records(file, n)[i] by {
        assert(14 + 184 * i + 184 <= record_offset(n));
        assert(records(after, n)[i] =~= records(file, n)[i]);
    }
    assert(records(after, n) =~= records(file, n));
    assert(after.take(14) =~= written(file.take(14), offset, data));
}

pub(crate) proof fn lemma_append(file: Seq<u8>, n: nat, rec: Seq<u8>)
    requires
        record_offset(n) <= file.len(),
        rec.len() == 184,
    ensures
        ({
            let after = written(file, record_offset(n), rec);
            &&& records(after, n + 1) == records(file, n).push(rec)
            &&& after.len() >= record_offset(n + 1)
            &&& after.take(14) == file.take(14)
        }),
{
    let after = written(file, record_offset(n), rec);
    assert forall|i: int| 0 <= i < n + 1 implies records(after, n + 1)[i] == records(file, n).push(
        rec,
    )[i] by {
        if i < n {
            assert(14 + 184 * i + 184 <= record_offset(n));
            assert(records(after, n + 1)[i] =~= records(file, n)[i]);
        } else {
            assert(records(after, n + 1)[i] =~= rec);
        }
    }
    assert(records(after, n + 1) =~= records(file, n).push(rec));
    assert(after.take(14) =~= file.take(14));
}

pub(crate) proof fn lemma_record_write(file: Seq<u8>, n: nat, i: nat, at: nat, data: Seq<u8>)
    requires
        record_offset(n) <= file.len(),
        i < n,
        at + data.len() <= 184,
    ensures
        ({
            let after = written(file, record_offset(i) + at, data);
            &&& records(after, n) == records(file, n).update(
                i as int,
                written(records(file, n)[i as int], at, data),
            )
            &&& after.len() == file.len()
            &&& after.take(14) == file.take(14)
        }),
{
    let after = written(file, record_offset(i) + at, data);
    let changed = written(records(file, n)[i as int], at, data);
    assert(record_offset(i) + 184 <= record_offset(n));
    assert forall|j: int| 0 <= j < n implies records(after, n)[j] == records(file, n).update(
        i as int,
        changed,
    )[j] by {
        assert(14 + 184 * j + 184 <= record_offset(n));
        if j < i {
            assert(184 * j + 184 <= 184 * i);
            assert(records(after, n)[j] =~= records(file, n)[j]);
        } else if j > i {
            assert(184 * i + 184 <= 184 * j);
            assert(records(after, n)[j] =~= records(file, n)[j]);
        } else {
            assert(records(after, n)[j] =~= changed);
        }
    }
    assert(records(after, n) =~= records(file, n).update(i as int, changed));
    assert(after.take(14) =~= file.take(14));
}

/// A record once its coin is spent.
pub open spec fn spent_record(rec: Seq<u8>, by: SpentBy) -> Seq<u8> {
    written(written(written(rec, 148, by.txid@), 180, le32(by.block_height)), 0, seq![1u8])
}

/// A record once its coin is unspent again.
pub open spec fn unspent_record(rec: Seq<u8>) -> Seq<u8> {
    written(written(rec, 148, zeros(36)), 0, seq![0u8])
}

proof fn lemma_front_kept(rec: Seq<u8>, after: Seq<u8>, outpoint: Outpoint, c: CoinView)
    requires
        rec.len() == 184,
        after.len() == 184,
        forall|i: int| 1 <= i < 148 ==> #[trigger] after[i] == rec[i],
        decoded_record(rec) == Ok::<_, WalletStoreError>((outpoint, c)),
        after[0] == 0 || after[0] == 1,
    ensures
        record_outpoint(after) == record_outpoint(rec),
        record_outpoint(rec) == outpoint,
        decoded_record(after) == Ok::<_, WalletStoreError>(
            (outpoint, CoinView { spent_by: record_spent_by(after), ..c }),
        ),
{
    reveal(decoded_record);
    assert(after.subrange(1, 33) =~= rec.subrange(1, 33));
    assert(after.subrange(33, 37) =~= rec.subrange(33, 37));
    assert(after.subrange(37, 45) =~= rec.subrange(37, 45));
    assert(after.subrange(45, 79) =~= rec.subrange(45, 79));
    assert(after.subrange(79, 111) =~= rec.subrange(79, 111));
    assert(after.subrange(112, 144) =~= rec.subrange(112, 144));
    assert(after.subrange(144, 148) =~= rec.subrange(144, 148));
}

pub(crate) proof fn lemma_spent_record(rec: Seq<u8>, by: SpentBy, outpoint: Outpoint, c: CoinView)
    requires
        rec.len() == 184,
        decoded_record(rec) == Ok::<_, WalletStoreError>((outpoint, c)),
    ensures
        spent_record(rec, by)[0] != 2,
        record_outpoint(spent_record(rec, by)) == record_outpoint(rec),
        decoded_record(spent_record(rec, by)) == Ok::<_, WalletStoreError>(
            (outpoint, CoinView { spent_by: Some(by), ..c }),
        ),
{
    let after = spent_record(rec, by);
    le32_round_trip(by.block_height);
    assert(after.subrange(148, 180) =~= by.txid@);
    assert(after.subrange(180, 184) =~= le32(by.block_height));
    array_of_view(by.txid);
    lemma_front_kept(rec, after, outpoint, c);
}

pub(crate) proof fn lemma_unspent_record(rec: Seq<u8>, outpoint: Outpoint, c: CoinView)
    requires
        rec.len() == 184,
        decoded_record(rec) == Ok::<_, WalletStoreError>((outpoint, c)),
    ensures
        unspent_record(rec)[0] != 2,
        record_outpoint(unspent_record(rec)) == record_outpoint(rec),
        decoded_record(unspent_record(rec)) == Ok::<_, WalletStoreError>(
            (outpoint, CoinView { spent_by: None, ..c }),
        ),
{
    lemma_front_kept(rec, unspent_record(rec), outpoint, c);
}

// Records, their index and their coins.

proof fn lemma_prefix(recs: Seq<Seq<u8>>)
    requires
        one_record_each(recs),
        recs.len() > 0,
    ensures
        one_record_each(recs.drop_last()),
{
    let r = recs.drop_last();
    assert forall|i: int, j: int|
        0 <= i < j < r.len() && (#[trigger] r[i])[0] != 2 && (#[trigger] r[j])[0]
            != 2 implies record_outpoint(r[i]) != record_outpoint(r[j]) by {
        assert(recs[i] == r[i] && recs[j] == r[j]);
    }
}

proof fn lemma_index(recs: Seq<Seq<u8>>)
    requires
        one_record_each(recs),
        recs.len() <= u64::MAX,
    ensures
        forall|p: int|
            0 <= p < record_index(recs).len() ==> {
                let e = #[trigger] record_index(recs)[p];
                &&& e.1 < recs.len()
                &&& recs[e.1 as int][0] != 2
                &&& record_outpoint(recs[e.1 as int]) == e.0
            },
        recs.len() > 0 && recs.last()[0] != 2 ==> position_in(
            record_index(recs.drop_last()),
            record_outpoint(recs.last()),
        ) is None && record_index(recs) == record_index(recs.drop_last()).push(
            (record_outpoint(recs.last()), (recs.len() - 1) as u64),
        ),
    decreases recs.len(),
{
    if recs.len() > 0 {
        let r = recs.drop_last();
        lemma_prefix(recs);
        lemma_index(r);
        if recs.last()[0] != 2 {
            let outpoint = record_outpoint(recs.last());
            position_meaning(record_index(r), outpoint);
            if let Some(p) = position_in(record_index(r), outpoint) {
                let e = record_index(r)[p];
                assert(recs[e.1 as int] == r[e.1 as int]);
                assert(recs[recs.len() - 1] == recs.last());
                assert(false);
            }
        }
        assert forall|p: int| 0 <= p < record_index(recs).len() implies {
            let e = #[trigger] record_index(recs)[p];
            &&& e.1 < recs.len()
            &&& recs[e.1 as int][0] != 2
            &&& record_outpoint(recs[e.1 as int]) == e.0
        } by {
            if p < record_index(r).len() {
                let e = record_index(r)[p];
                assert(record_index(recs)[p] == e);
                assert(recs[e.1 as int] == r[e.1 as int]);
            } else {
                assert(recs[recs.len() - 1] == recs.last());
            }
        }
    }
}

proof fn lemma_coins(recs: Seq<Seq<u8>>, list: Seq<(Outpoint, CoinView)>)
    requires
        one_record_each(recs),
        recs.len() <= u64::MAX,
        record_coins(recs) == Ok::<_, WalletStoreError>(list),
    ensures
        list.len() == record_index(recs).len(),
        forall|p: int|
            0 <= p < list.len() ==> (#[trigger] list[p]).0 == record_index(recs)[p].0
                && decoded_record(recs[record_index(recs)[p].1 as int]) == Ok::<
                _,
                WalletStoreError,
            >(list[p]),
    decreases recs.len(),
{
    reveal(decoded_record);
    lemma_index(recs);
    if recs.len() > 0 {
        let r = recs.drop_last();
        lemma_prefix(recs);
        lemma_index(r);
        let before = record_coins(r)->Ok_0;
        lemma_coins(r, before);
        assert forall|p: int| 0 <= p < list.len() implies (#[trigger] list[p]).0 == record_index(
            recs,
        )[p].0 && decoded_record(recs[record_index(recs)[p].1 as int]) == Ok::<_, WalletStoreError>(
            list[p],
        ) by {
            if p < before.len() {
                assert(list[p] == before[p]);
                let e = record_index(r)[p];
                assert(record_index(recs)[p] == e);
                assert(recs[e.1 as int] == r[e.1 as int]);
            } else {
                assert(recs[recs.len() - 1] == recs.last());
            }
        }
    }
}

proof fn lemma_push_record(
    recs: Seq<Seq<u8>>,
    list: Seq<(Outpoint, CoinView)>,
    rec: Seq<u8>,
    c: CoinView,
)
    requires
        one_record_each(recs),
        recs.len() < u64::MAX,
        record_coins(recs) == Ok::<_, WalletStoreError>(list),
        rec[0] != 2,
        position_in(record_index(recs), record_outpoint(rec)) is None,
        decoded_record(rec) == Ok::<_, WalletStoreError>((record_outpoint(rec), c)),
    ensures
        one_record_each(recs.push(rec)),
        record_index(recs.push(rec)) == record_index(recs).push(
            (record_outpoint(rec), recs.len() as u64),
        ),
        record_coins(recs.push(rec)) == Ok::<_, WalletStoreError>(
            list.push((record_outpoint(rec), c)),
        ),
        position_in(list, record_outpoint(rec)) is None,
{
    let after = recs.push(rec);
    let outpoint = record_outpoint(rec);
    assert(after.drop_last() =~= recs);
    lemma_live_indexed(recs);
    position_meaning(record_index(recs), outpoint);
    assert forall|i: int, j: int|
        0 <= i < j < after.len() && (#[trigger] after[i])[0] != 2 && (#[trigger] after[j])[0]
            != 2 implies record_outpoint(after[i]) != record_outpoint(after[j]) by {
        assert(after[i] == recs[i]);
        if j < recs.len() {
            assert(after[j] == recs[j]);
        } else if record_outpoint(after[i]) == outpoint {
            let p = choose|p: int|
                0 <= p < record_index(recs).len() && (#[trigger] record_index(recs)[p]).1 == i
                    && record_index(recs)[p].0 == record_outpoint(recs[i]);
            assert(record_index(recs)[p].0 == outpoint);
        }
    }
    lemma_coins(recs, list);
    position_by_keys(list, record_index(recs), outpoint);
}

proof fn lemma_live_indexed(recs: Seq<Seq<u8>>)
    requires
        one_record_each(recs),
        recs.len() <= u64::MAX,
    ensures
        forall|i: int|
            0 <= i < recs.len() && (#[trigger] recs[i])[0] != 2 ==> exists|p: int|
                0 <= p < record_index(recs).len() && (#[trigger] record_index(recs)[p]).1 == i
                    && record_index(recs)[p].0 == record_outpoint(recs[i]),
    decreases recs.len(),
{
    if recs.len() > 0 {
        let r = recs.drop_last();
        lemma_prefix(recs);
        lemma_index(recs);
        lemma_live_indexed(r);
        assert forall|i: int| 0 <= i < recs.len() && (#[trigger] recs[i])[0] != 2 implies exists|
            p: int,
        |
            0 <= p < record_index(recs).len() && (#[trigger] record_index(recs)[p]).1 == i
                && record_index(recs)[p].0 == record_outpoint(recs[i]) by {
            if i < r.len() {
                assert(r[i] == recs[i]);
                let p = choose|p: int|
                    0 <= p < record_index(r).len() && (#[trigger] record_index(r)[p]).1 == i
                        && record_index(r)[p].0 == record_outpoint(r[i]);
                assert(record_index(recs)[p] == record_index(r)[p]);
            } else {
                assert(recs[i] == recs.last());
                let p = record_index(r).len() as int;
                assert(record_index(recs)[p].1 == i);
            }
        }
    }
}

proof fn lemma_update_record(
    recs: Seq<Seq<u8>>,
    list: Seq<(Outpoint, CoinView)>,
    i: int,
    rec: Seq<u8>,
    c: CoinView,
)
    requires
        one_record_each(recs),
        recs.len() <= u64::MAX,
        record_coins(recs) == Ok::<_, WalletStoreError>(list),
        0 <= i < recs.len(),
        recs[i][0] != 2,
        rec[0] != 2,
        record_outpoint(rec) == record_outpoint(recs[i]),
        decoded_record(rec) == Ok::<_, WalletStoreError>((record_outpoint(rec), c)),
    ensures
        one_record_each(recs.update(i, rec)),
        record_index(recs.update(i, rec)) == record_index(recs),
        position_in(list, record_outpoint(rec)) is Some,
        record_coins(recs.update(i, rec)) == Ok::<_, WalletStoreError>(
            list.update(
                position_in(list, record_outpoint(rec)).unwrap(),
                (record_outpoint(rec), c),
            ),
        ),
    decreases recs.len(),
{
    let after = recs.update(i, rec);
    let outpoint = record_outpoint(rec);
    let r = recs.drop_last();
    assert forall|a: int, b: int|
        0 <= a < b < after.len() && (#[trigger] after[a])[0] != 2 && (#[trigger] after[b])[0]
            != 2 implies record_outpoint(after[a]) != record_outpoint(after[b]) by {
        assert(recs[a][0] != 2 && recs[b][0] != 2);
    }
    lemma_prefix(recs);
    lemma_index(recs);
    lemma_index(after);
    let before = record_coins(r)->Ok_0;
    lemma_coins(r, before);
    if i == recs.len() - 1 {
        assert(after.drop_last() =~= r);
        position_by_keys(before, record_index(r), outpoint);
        position_pushed(before, (outpoint, list.last().1), outpoint);
        assert(list == before.push(list.last()));
        lemma_coins(recs, list);
        assert(list[before.len() as int].0 == record_index(recs)[before.len() as int].0);
        assert(list.last() == (outpoint, list.last().1));
        assert(list.update(before.len() as int, (outpoint, c)) =~= before.push((outpoint, c)));
    } else {
        assert(after.drop_last() =~= r.update(i, rec));
        assert(after.last() == recs.last());
        assert(r[i] == recs[i]);
        lemma_update_record(r, before, i, rec, c);
        let p = position_in(before, outpoint).unwrap();
        position_meaning(before, outpoint);
        if recs.last()[0] != 2 {
            position_pushed(before, list.last(), outpoint);
            assert(list.update(p, (outpoint, c)) =~= before.update(p, (outpoint, c)).push(
                list.last(),
            ));
        }
    }
}

proof fn lemma_tombstone(
    recs: Seq<Seq<u8>>,
    list: Seq<(Outpoint, CoinView)>,
    i: int,
    rec: Seq<u8>,
)
    requires
        one_record_each(recs),
        recs.len() <= u64::MAX,
        record_coins(recs) == Ok::<_, WalletStoreError>(list),
        0 <= i < recs.len(),
        recs[i][0] != 2,
        rec[0] == 2,
    ensures
        one_record_each(recs.update(i, rec)),
        record_index(recs.update(i, rec)) == without_entry(
            record_index(recs),
            record_outpoint(recs[i]),
        ),
        record_coins(recs.update(i, rec)) == Ok::<_, WalletStoreError>(
            without_entry(list, record_outpoint(recs[i])),
        ),
        position_in(record_index(recs), record_outpoint(recs[i])) is Some,
    decreases recs.len(),
{
    let after = recs.update(i, rec);
    let outpoint = record_outpoint(recs[i]);
    let r = recs.drop_last();
    assert forall|a: int, b: int|
        0 <= a < b < after.len() && (#[trigger] after[a])[0] != 2 && (#[trigger] after[b])[0]
            != 2 implies record_outpoint(after[a]) != record_outpoint(after[b]) by {
        assert(recs[a] == after[a] && recs[b] == after[b]);
    }
    lemma_prefix(recs);
    lemma_index(recs);
    let index = record_index(r);
    let before = record_coins(r)->Ok_0;
    lemma_coins(r, before);
    lemma_coins(recs, list);
    position_by_keys(before, index, outpoint);
    position_by_keys(list, record_index(recs), outpoint);
    if i == recs.len() - 1 {
        assert(after.drop_last() =~= r);
        position_pushed(index, (outpoint, (recs.len() - 1) as u64), outpoint);
        assert(record_index(recs).remove(index.len() as int) =~= index);
        assert(list.remove(before.len() as int) =~= before);
    } else {
        assert(after.drop_last() =~= r.update(i, rec));
        assert(after.last() == recs.last());
        assert(r[i] == recs[i]);
        lemma_tombstone(r, before, i, rec);
        let p = position_in(index, outpoint).unwrap();
        position_meaning(index, outpoint);
        if recs.last()[0] != 2 {
            lemma_index(after);
            assert(recs[recs.len() - 1] == recs.last());
            position_pushed(index, record_index(recs).last(), outpoint);
            assert(record_index(recs).remove(p) =~= index.remove(p).push(
                record_index(recs).last(),
            ));
            assert(list.remove(p) =~= before.remove(p).push(list.last()));
        }
    }
}

// Whole operations.

/// Whether the file `base` after the writes of `p` has the header `header` and records
/// that hold the coins `list`, as the index of `p` says.
spec fn in_step(
    base: Seq<u8>,
    p: Progress,
    header: Seq<u8>,
    list: Seq<(Outpoint, CoinView)>,
) -> bool {
    let file = applied(base, p.writes);
    let recs = records(file, p.total);
    &&& record_offset(p.total) <= file.len()
    &&& p.total <= u32::MAX
    &&& file.take(14) == header
    &&& p.index == record_index(recs)
    &&& one_record_each(recs)
    &&& record_coins(recs) == Ok::<_, WalletStoreError>(list)
}

pub(crate) proof fn lemma_one_more(base: Seq<u8>, p: Progress, offset: nat, data: Seq<u8>)
    ensures
        applied(base, and_write(p, offset, data).writes) == written(
            applied(base, p.writes),
            offset,
            data,
        ),
{
    assert(and_write(p, offset, data).writes.drop_last() =~= p.writes);
}

proof fn lemma_recording(
    base: Seq<u8>,
    p: Progress,
    coins: Seq<(Outpoint, CoinView)>,
    header: Seq<u8>,
    list: Seq<(Outpoint, CoinView)>,
)
    requires
        in_step(base, p, header, list),
        recording(p, coins).1 is None,
        recording(p, coins).0.total <= u32::MAX,
        forall|i: int| 0 <= i < coins.len() ==> scalars_valid((#[trigger] coins[i]).1),
    ensures
        in_step(base, recording(p, coins).0, header, with_new_coins(list, coins)),
        recording(p, coins).0.total >= p.total,
    decreases coins.len(),
{
    if coins.len() > 0 {
        let rest = coins.drop_last();
        lemma_recording(base, p, rest, header, list);
        let q = recording(p, rest).0;
        let before = with_new_coins(list, rest);
        let (outpoint, c) = coins.last();
        let file = applied(base, q.writes);
        let recs = records(file, q.total);
        assert(coins[coins.len() - 1] == coins.last());
        lemma_coins(recs, before);
        position_by_keys(before, q.index, outpoint);
        if position_in(q.index, outpoint) is None {
            let rec = record_bytes(outpoint, c);
            record_round_trip(outpoint, c);
            lemma_one_more(base, q, record_offset(q.total), rec);
            lemma_append(file, q.total, rec);
            lemma_push_record(recs, before, rec, unspent_view(c));
        }
    }
}

/// Whether the scalars of a coin are scalars.
pub open spec fn scalars_valid(c: CoinView) -> bool {
    scalar_bytes(c.tweak) && (c.label matches Some(l) ==> scalar_bytes(l))
}

proof fn lemma_found(recs: Seq<Seq<u8>>, list: Seq<(Outpoint, CoinView)>, outpoint: Outpoint)
    requires
        one_record_each(recs),
        recs.len() <= u32::MAX,
        record_coins(recs) == Ok::<_, WalletStoreError>(list),
    ensures
        position_in(list, outpoint) == position_in(record_index(recs), outpoint),
        match position_in(record_index(recs), outpoint) {
            Some(k) => {
                let n = record_index(recs)[k].1;
                &&& 0 <= k < list.len()
                &&& n < recs.len()
                &&& recs[n as int][0] != 2
                &&& record_outpoint(recs[n as int]) == outpoint
                &&& list[k].0 == outpoint
                &&& decoded_record(recs[n as int]) == Ok::<_, WalletStoreError>(list[k])
            },
            None => true,
        },
{
    lemma_index(recs);
    lemma_coins(recs, list);
    position_by_keys(list, record_index(recs), outpoint);
    position_meaning(record_index(recs), outpoint);
}

proof fn lemma_spending(
    base: Seq<u8>,
    p: Progress,
    spent: Seq<(Outpoint, SpentBy)>,
    header: Seq<u8>,
    list: Seq<(Outpoint, CoinView)>,
)
    requires
        in_step(base, p, header, list),
    ensures
        in_step(base, spending(p, spent), header, with_spent_coins(list, spent)),
        spending(p, spent).total == p.total,
    decreases spent.len(),
{
    if spent.len() > 0 {
        lemma_spending(base, p, spent.drop_last(), header, list);
        let q = spending(p, spent.drop_last());
        let before = with_spent_coins(list, spent.drop_last());
        let (outpoint, by) = spent.last();
        let file = applied(base, q.writes);
        let recs = records(file, q.total);
        lemma_found(recs, before, outpoint);
        if let Some(k) = position_in(q.index, outpoint) {
            let n = q.index[k].1 as nat;
            let at = record_offset(n);
            let rec = recs[n as int];
            let q1 = and_write(q, at + 148, by.txid@);
            let q2 = and_write(q1, at + 180, le32(by.block_height));
            let one = written(rec, 148, by.txid@);
            let two = written(one, 180, le32(by.block_height));
            le32_round_trip(by.block_height);
            lemma_one_more(base, q, at + 148, by.txid@);
            lemma_one_more(base, q1, at + 180, le32(by.block_height));
            lemma_one_more(base, q2, at, seq![1u8]);
            lemma_record_write(file, q.total, n, 148, by.txid@);
            lemma_record_write(
                applied(base, q1.writes),
                q.total,
                n,
                180,
                le32(by.block_height),
            );
            lemma_record_write(applied(base, q2.writes), q.total, n, 0, seq![1u8]);
            assert(recs.update(n as int, one).update(n as int, two).update(
                n as int,
                spent_record(rec, by),
            ) =~= recs.update(n as int, spent_record(rec, by)));
            let c = before[k].1;
            lemma_spent_record(rec, by, outpoint, c);
            lemma_update_record(
                recs,
                before,
                n as int,
                spent_record(rec, by),
                CoinView { spent_by: Some(by), ..c },
            );
        }
    }
}

proof fn lemma_removing(
    base: Seq<u8>,
    p: Progress,
    removed: Seq<Outpoint>,
    header: Seq<u8>,
    list: Seq<(Outpoint, CoinView)>,
)
    requires
        in_step(base, p, header, list),
    ensures
        in_step(base, removing(p, removed), header, without_coins(list, removed)),
        removing(p, removed).total == p.total,
    decreases removed.len(),
{
    if removed.len() > 0 {
        lemma_removing(base, p, removed.drop_last(), header, list);
        let q = removing(p, removed.drop_last());
        let before = without_coins(list, removed.drop_last());
        let outpoint = removed.last();
        let file = applied(base, q.writes);
        let recs = records(file, q.total);
        lemma_found(recs, before, outpoint);
        if let Some(k) = position_in(q.index, outpoint) {
            let n = q.index[k].1 as nat;
            let rec = written(recs[n as int], 0, seq![2u8]);
            lemma_one_more(base, q, record_offset(n), seq![2u8]);
            lemma_record_write(file, q.total, n, 0, seq![2u8]);
            lemma_tombstone(recs, before, n as int, rec);
        }
    }
}

proof fn lemma_unspending(
    base: Seq<u8>,
    p: Progress,
    unspent: Seq<Outpoint>,
    header: Seq<u8>,
    list: Seq<(Outpoint, CoinView)>,
)
    requires
        in_step(base, p, header, list),
    ensures
        in_step(base, unspending(p, unspent), header, with_unspent_coins(list, unspent)),
        unspending(p, unspent).total == p.total,
    decreases unspent.len(),
{
    if unspent.len() > 0 {
        lemma_unspending(base, p, unspent.drop_last(), header, list);
        let q = unspending(p, unspent.drop_last());
        let before = with_unspent_coins(list, unspent.drop_last());
        let outpoint = unspent.last();
        let file = applied(base, q.writes);
        let recs = records(file, q.total);
        lemma_found(recs, before, outpoint);
        if let Some(k) = position_in(q.index, outpoint) {
            let n = q.index[k].1 as nat;
            let at = record_offset(n);
            let rec = recs[n as int];
            let one = written(rec, 148, zeros(36));
            let q1 = and_write(q, at + 148, zeros(36));
            lemma_one_more(base, q, at + 148, zeros(36));
            lemma_one_more(base, q1, at, seq![0u8]);
            lemma_record_write(file, q.total, n, 148, zeros(36));
            lemma_record_write(applied(base, q1.writes), q.total, n, 0, seq![0u8]);
            assert(recs.update(n as int, one).update(n as int, unspent_record(rec))
                =~= recs.update(n as int, unspent_record(rec)));
            let c = before[k].1;
            lemma_unspent_record(rec, outpoint, c);
            lemma_update_record(
                recs,
                before,
                n as int,
                unspent_record(rec),
                CoinView { spent_by: None, ..c },
            );
        }
    }
}

proof fn lemma_header_field(
    base: Seq<u8>,
    p: Progress,
    header: Seq<u8>,
    list: Seq<(Outpoint, CoinView)>,
    offset: nat,
    data: Seq<u8>,
)
    requires
        in_step(base, p, header, list),
        offset + data.len() <= 14,
    ensures
        in_step(base, and_write(p, offset, data), written(header, offset, data), list),
{
    lemma_one_more(base, p, offset, data);
    lemma_header_write(applied(base, p.writes), p.total, offset, data);
}

pub(crate) proof fn lemma_header_count(network: Network, height: u32, before: u32, total: u32)
    ensures
        written(header_bytes(network, height, before), 10, le32(total)) == header_bytes(
            network,
            height,
            total,
        ),
        le32(total).len() == 4,
{
    assert(written(header_bytes(network, height, before), 10, le32(total)) =~= header_bytes(
        network,
        height,
        total,
    ));
}

pub(crate) proof fn lemma_header_height(network: Network, before: u32, height: u32, total: u32)
    ensures
        written(header_bytes(network, before, total), 6, le32(height)) == header_bytes(
            network,
            height,
            total,
        ),
        le32(height).len() == 4,
{
    assert(written(header_bytes(network, before, total), 6, le32(height)) =~= header_bytes(
        network,
        height,
        total,
    ));
}

/// What a scan writes is read back: where the file says what the store knows, it still
/// does after a scan that did not fail, so that the file opens to the store as the scan
/// left it; and the coins that are read from it are those that were there, with new ones
/// added and spent ones marked.
#[verifier::spinoff_prover]
#[verifier::rlimit(60)]
pub proof fn scan_persists(
    v: StoreView,
    file: Seq<u8>,
    coins: Seq<(Outpoint, CoinView)>,
    height: u32,
    new_coins: Seq<(Outpoint, CoinView)>,
    newly_spent: Seq<(Outpoint, SpentBy)>,
)
    requires
        faithful(v, file),
        record_coins(records(file, v.total)) == Ok::<_, WalletStoreError>(coins),
        forall|i: int| 0 <= i < new_coins.len() ==> scalars_valid((#[trigger] new_coins[i]).1),
        ({
            let start = Progress { index: v.index, total: v.total, writes: Seq::empty() };
            let (p, e) = scanning(start, height, new_coins, newly_spent);
            e is None && p.total <= u32::MAX
        }),
    ensures
        ({
            let start = Progress { index: v.index, total: v.total, writes: Seq::empty() };
            let p = scanning(start, height, new_coins, newly_spent).0;
            let after = applied(file, p.writes);
            let known = StoreView { height, index: p.index, total: p.total, ..v };
            &&& faithful(known, after)
            &&& parsed_store(after) == Ok::<_, WalletStoreError>(known)
            &&& record_coins(records(after, p.total)) == Ok::<_, WalletStoreError>(
                with_spent_coins(with_new_coins(coins, new_coins), newly_spent),
            )
        }),
{
    let start = Progress { index: v.index, total: v.total, writes: Seq::empty() };
    let header = header_bytes(v.network, v.height, v.total as u32);
    let q = recording(start, new_coins).0;
    let listed = with_new_coins(coins, new_coins);
    let count = le32((q.total % 0x1_0000_0000) as u32);
    let counted = if q.total > v.total {
        and_write(q, 10, count)
    } else {
        q
    };
    lemma_spending_total(counted, newly_spent);
    lemma_recording(file, start, new_coins, header, coins);
    let counted_header = header_bytes(v.network, v.height, q.total as u32);
    assert(in_step(file, counted, counted_header, listed)) by {
        if q.total > v.total {
            lemma_header_count(v.network, v.height, v.total as u32, q.total as u32);
            lemma_header_field(file, q, header, listed, 10, count);
        }
    }
    lemma_spending(file, counted, newly_spent, counted_header, listed);
    let s = spending(counted, newly_spent);
    let spent_list = with_spent_coins(listed, newly_spent);
    let p = and_write(s, 6, le32(height));
    let known = StoreView { height, index: p.index, total: p.total, ..v };
    assert(in_step(file, p, header_bytes(v.network, height, q.total as u32), spent_list)) by {
        lemma_header_height(v.network, v.height, height, q.total as u32);
        lemma_header_field(file, s, counted_header, spent_list, 6, le32(height));
    }
    faithful_store_reopens(known, applied(file, p.writes));
}

proof fn lemma_spending_total(p: Progress, spent: Seq<(Outpoint, SpentBy)>)
    ensures
        spending(p, spent).total == p.total,
    decreases spent.len(),
{
    if spent.len() > 0 {
        lemma_spending_total(p, spent.drop_last());
    }
}

/// What a disconnected block takes back stays taken back: where the file says what the
/// store knows, it still does, so that the file opens to the store as it was left; and
/// the coins that are read from it are those that were there, without the removed ones
/// and with the others unspent again.
#[verifier::spinoff_prover]
#[verifier::rlimit(60)]
pub proof fn disconnect_persists(
    v: StoreView,
    file: Seq<u8>,
    coins: Seq<(Outpoint, CoinView)>,
    new_height: u32,
    removed: Seq<Outpoint>,
    unspent: Seq<Outpoint>,
)
    requires
        faithful(v, file),
        record_coins(records(file, v.total)) == Ok::<_, WalletStoreError>(coins),
    ensures
        ({
            let start = Progress { index: v.index, total: v.total, writes: Seq::empty() };
            let p = disconnecting(start, new_height, removed, unspent);
            let after = applied(file, p.writes);
            let known = StoreView { height: new_height, index: p.index, total: p.total, ..v };
            &&& faithful(known, after)
            &&& parsed_store(after) == Ok::<_, WalletStoreError>(known)
            &&& record_coins(records(after, p.total)) == Ok::<_, WalletStoreError>(
                with_unspent_coins(without_coins(coins, removed), unspent),
            )
        }),
{
    let start = Progress { index: v.index, total: v.total, writes: Seq::empty() };
    let header = header_bytes(v.network, v.height, v.total as u32);
    lemma_removing(file, start, removed, header, coins);
    let q = removing(start, removed);
    let left = without_coins(coins, removed);
    lemma_unspending(file, q, unspent, header, left);
    let s = unspending(q, unspent);
    let listed = with_unspent_coins(left, unspent);
    let p = and_write(s, 6, le32(new_height));
    let known = StoreView { height: new_height, index: p.index, total: p.total, ..v };
    assert(in_step(file, p, header_bytes(v.network, new_height, v.total as u32), listed)) by {
        lemma_header_height(v.network, v.height, new_height, v.total as u32);
        lemma_header_field(file, s, header, listed, 6, le32(new_height));
    }
    faithful_store_reopens(known, applied(file, p.writes));
}

/// Scanning a block again records none of its coins twice: once new coins are recorded,
/// recording them again changes nothing.
pub proof fn recording_again_changes_nothing(
    p: Progress,
    coins: Seq<(Outpoint, CoinView)>,
    writes: Seq<WriteView>,
)
    requires
        recording(p, coins).1 is None,
    ensures
        ({
            let q = Progress { writes, ..recording(p, coins).0 };
            recording(q, coins) == (q, None::<WalletStoreError>)
        }),
{
    let q = Progress { writes, ..recording(p, coins).0 };
    lemma_recorded(p, coins);
    lemma_nothing_new(q, coins);
}

pub(crate) proof fn lemma_recorded(p: Progress, coins: Seq<(Outpoint, CoinView)>)
    requires
        recording(p, coins).1 is None,
    ensures
        forall|i: int|
            0 <= i < coins.len() ==> position_in(
                recording(p, coins).0.index,
                (#[trigger] coins[i]).0,
            ) is Some,
        forall|k: Outpoint|
            position_in(p.index, k) is Some ==> #[trigger] position_in(
                recording(p, coins).0.index,
                k,
            ) is Some,
    decreases coins.len(),
{
    if coins.len() > 0 {
        let rest = coins.drop_last();
        lemma_recorded(p, rest);
        let q = recording(p, rest).0;
        let after = recording(p, coins).0;
        let outpoint = coins.last().0;
        assert forall|k: Outpoint| position_in(q.index, k) is Some || k
            == outpoint implies #[trigger] position_in(after.index, k) is Some by {
            position_pushed(q.index, (outpoint, q.total as u64), k);
        }
        assert forall|i: int| 0 <= i < coins.len() implies position_in(
            after.index,
            (#[trigger] coins[i]).0,
        ) is Some by {
            if i < rest.len() {
                assert(rest[i] == coins[i]);
            }
        }
    }
}

pub(crate) proof fn lemma_nothing_new(q: Progress, coins: Seq<(Outpoint, CoinView)>)
    requires
        forall|i: int|
            0 <= i < coins.len() ==> position_in(q.index, (#[trigger] coins[i]).0) is Some,
    ensures
        recording(q, coins) == (q, None::<WalletStoreError>),
    decreases coins.len(),
{
    if coins.len() > 0 {
        let rest = coins.drop_last();
        assert forall|i: int| 0 <= i < rest.len() implies position_in(
            q.index,
            (#[trigger] rest[i]).0,
        ) is Some by {
            assert(rest[i] == coins[i]);
        }
        lemma_nothing_new(q, rest);
        assert(coins[coins.len() - 1] == coins.last());
    }
}

/// Disconnecting a block again removes nothing: once coins are removed, removing them
/// again changes nothing.
pub proof fn removing_again_changes_nothing(
    p: Progress,
    removed: Seq<Outpoint>,
    writes: Seq<WriteView>,
)
    requires
        distinct_keys(p.index),
    ensures
        ({
            let q = Progress { writes, ..removing(p, removed) };
            removing(q, removed) == q
        }),
{
    lemma_removed(p, removed);
    lemma_nothing_left(Progress { writes, ..removing(p, removed) }, removed);
}

proof fn lemma_removed(p: Progress, removed: Seq<Outpoint>)
    requires
        distinct_keys(p.index),
    ensures
        distinct_keys(removing(p, removed).index),
        forall|i: int|
            0 <= i < removed.len() ==> position_in(
                removing(p, removed).index,
                #[trigger] removed[i],
            ) is None,
    decreases removed.len(),
{
    if removed.len() > 0 {
        let rest = removed.drop_last();
        lemma_removed(p, rest);
        let q = removing(p, rest);
        let outpoint = removed.last();
        without_entry_removes(q.index, outpoint);
        position_meaning(q.index, outpoint);
        let after = removing(p, removed).index;
        assert(after == without_entry(q.index, outpoint));
        assert forall|i: int| 0 <= i < removed.len() implies position_in(
            after,
            #[trigger] removed[i],
        ) is None by {
            if i < rest.len() {
                assert(rest[i] == removed[i]);
            }
            assert(!map_of(q.index).remove(outpoint).dom().contains(removed[i]));
            assert(!map_of(after).dom().contains(removed[i]));
        }
    }
}

proof fn lemma_nothing_left(q: Progress, removed: Seq<Outpoint>)
    requires
        forall|i: int|
            0 <= i < removed.len() ==> position_in(q.index, #[trigger] removed[i]) is None,
    ensures
        removing(q, removed) == q,
    decreases removed.len(),
{
    if removed.len() > 0 {
        let rest = removed.drop_last();
        assert forall|i: int| 0 <= i < rest.len() implies position_in(
            q.index,
            #[trigger] rest[i],
        ) is None by {
            assert(rest[i] == removed[i]);
        }
        lemma_nothing_left(q, rest);
        assert(removed[removed.len() - 1] == removed.last());
    }
}

/// A file that lacks the writes `first` of one that then gets the writes `second` lacks
/// both, in that order.
pub proof fn writes_accumulate(file: Seq<u8>, first: Seq<WriteView>, second: Seq<WriteView>)
    ensures
        applied(file, first + second) == applied(applied(file, first), second),
    decreases second.len(),
{
    if second.len() == 0 {
        assert(first + second =~= first);
    } else {
        writes_accumulate(file, first, second.drop_last());
        assert((first + second).drop_last() =~= first + second.drop_last());
    }
}

/// The outpoints of a list.
pub open spec fn keys_of<V>(entries: Seq<(Outpoint, V)>) -> Seq<Outpoint> {
    entries.map_values(|e: (Outpoint, V)| e.0)
}

proof fn lemma_with_spent_by(
    list: Seq<(Outpoint, CoinView)>,
    outpoint: Outpoint,
    by: Option<SpentBy>,
)
    requires
        distinct_keys(list),
    ensures
        ({
            let after = with_spent_by(list, outpoint, by);
            &&& distinct_keys(after)
            &&& after.len() == list.len()
            &&& forall|i: int|
                0 <= i < list.len() ==> #[trigger] after[i] == (
                    list[i].0,
                    if list[i].0 == outpoint {
                        CoinView { spent_by: by, ..list[i].1 }
                    } else {
                        list[i].1
                    },
                )
        }),
{
    position_meaning(list, outpoint);
    let after = with_spent_by(list, outpoint, by);
    if let Some(p) = position_in(list, outpoint) {
        assert forall|i: int| 0 <= i < list.len() && i != p implies list[i].0 != outpoint by {
            if i < p {
                assert(list[i].0 != list[p].0);
            } else {
                assert(list[p].0 != list[i].0);
            }
        }
    }
    assert forall|i: int, j: int| 0 <= i < j < after.len() implies (#[trigger] after[i]).0 != (
    #[trigger] after[j]).0 by {
        assert(list[i].0 != list[j].0);
    }
}

proof fn lemma_spent_list(list: Seq<(Outpoint, CoinView)>, spent: Seq<(Outpoint, SpentBy)>)
    requires
        distinct_keys(list),
    ensures
        ({
            let after = with_spent_coins(list, spent);
            &&& distinct_keys(after)
            &&& after.len() == list.len()
            &&& forall|i: int|
                0 <= i < list.len() ==> {
                    &&& (#[trigger] after[i]).0 == list[i].0
                    &&& after[i].1 == CoinView { spent_by: after[i].1.spent_by, ..list[i].1 }
                    &&& !keys_of(spent).contains(list[i].0) ==> after[i] == list[i]
                }
        }),
    decreases spent.len(),
{
    if spent.len() > 0 {
        let fewer = spent.drop_last();
        lemma_spent_list(list, fewer);
        let before = with_spent_coins(list, fewer);
        lemma_with_spent_by(before, spent.last().0, Some(spent.last().1));
        let after = with_spent_coins(list, spent);
        assert forall|i: int| 0 <= i < list.len() implies {
            &&& (#[trigger] after[i]).0 == list[i].0
            &&& after[i].1 == CoinView { spent_by: after[i].1.spent_by, ..list[i].1 }
            &&& !keys_of(spent).contains(list[i].0) ==> after[i] == list[i]
        } by {
            assert(before[i].0 == list[i].0);
            if !keys_of(spent).contains(list[i].0) {
                assert(keys_of(spent)[spent.len() - 1] == spent.last().0);
                if keys_of(fewer).contains(list[i].0) {
                    let k = choose|k: int|
                        0 <= k < keys_of(fewer).len() && keys_of(fewer)[k] == list[i].0;
                    assert(keys_of(spent)[k] == list[i].0);
                }
            }
        }
    }
}

proof fn lemma_unspent_list(list: Seq<(Outpoint, CoinView)>, unspent: Seq<Outpoint>)
    requires
        distinct_keys(list),
    ensures
        ({
            let after = with_unspent_coins(list, unspent);
            &&& distinct_keys(after)
            &&& after.len() == list.len()
            &&& forall|i: int|
                0 <= i < list.len() ==> #[trigger] after[i] == (
                    list[i].0,
                    if unspent.contains(list[i].0) {
                        CoinView { spent_by: None, ..list[i].1 }
                    } else {
                        list[i].1
                    },
                )
        }),
    decreases unspent.len(),
{
    if unspent.len() > 0 {
        let fewer = unspent.drop_last();
        lemma_unspent_list(list, fewer);
        let before = with_unspent_coins(list, fewer);
        lemma_with_spent_by(before, unspent.last(), None);
        let after = with_unspent_coins(list, unspent);
        assert forall|i: int| 0 <= i < list.len() implies #[trigger] after[i] == (
            list[i].0,
            if unspent.contains(list[i].0) {
                CoinView { spent_by: None, ..list[i].1 }
            } else {
                list[i].1
            },
        ) by {
            let k = list[i].0;
            assert(before[i].0 == k);
            if fewer.contains(k) {
                let j = choose|j: int| 0 <= j < fewer.len() && fewer[j] == k;
                assert(unspent[j] == k);
            } else if unspent.contains(k) {
                let j = choose|j: int| 0 <= j < unspent.len() && unspent[j] == k;
                if j < fewer.len() {
                    assert(fewer[j] == k);
                }
            }
            if unspent.last() == k {
                assert(unspent[unspent.len() - 1] == k);
            }
        }
    } else {
        assert(with_unspent_coins(list, unspent) =~= list);
    }
}

proof fn lemma_new_list(
    coins: Seq<(Outpoint, CoinView)>,
    new_coins: Seq<(Outpoint, CoinView)>,
)
    requires
        distinct_keys(coins),
    ensures
        ({
            let after = with_new_coins(coins, new_coins);
            &&& distinct_keys(after)
            &&& after.len() >= coins.len()
            &&& after.take(coins.len() as int) == coins
            &&& forall|i: int|
                coins.len() <= i < after.len() ==> keys_of(new_coins).contains(
                    (#[trigger] after[i]).0,
                )
        }),
    decreases new_coins.len(),
{
    if new_coins.len() > 0 {
        let fewer = new_coins.drop_last();
        lemma_new_list(coins, fewer);
        let before = with_new_coins(coins, fewer);
        let after = with_new_coins(coins, new_coins);
        let k = new_coins.last().0;
        position_meaning(before, k);
        assert(after.take(coins.len() as int) =~= coins);
        assert(keys_of(new_coins)[new_coins.len() - 1] == k);
        assert forall|i: int| coins.len() <= i < after.len() implies keys_of(new_coins).contains(
            (#[trigger] after[i]).0,
        ) by {
            if i < before.len() {
                assert(after[i] == before[i]);
                let j = choose|j: int|
                    0 <= j < keys_of(fewer).len() && keys_of(fewer)[j] == before[i].0;
                assert(keys_of(new_coins)[j] == after[i].0);
            }
        }
    } else {
        assert(coins.take(coins.len() as int) =~= coins);
    }
}

proof fn lemma_removed_list(
    list: Seq<(Outpoint, CoinView)>,
    kept: nat,
    removed: Seq<Outpoint>,
)
    requires
        distinct_keys(list),
        kept <= list.len(),
        forall|i: int| 0 <= i < kept ==> !removed.contains((#[trigger] list[i]).0),
    ensures
        ({
            let after = without_coins(list, removed);
            &&& distinct_keys(after)
            &&& kept <= after.len()
            &&& after.take(kept as int) == list.take(kept as int)
            &&& forall|i: int|
                kept <= i < after.len() ==> list.skip(kept as int).contains(#[trigger] after[i])
            &&& forall|j: int|
                0 <= j < removed.len() ==> position_in(after, #[trigger] removed[j]) is None
        }),
    decreases removed.len(),
{
    if removed.len() > 0 {
        let fewer = removed.drop_last();
        assert forall|i: int| 0 <= i < kept implies !fewer.contains((#[trigger] list[i]).0) by {
            if fewer.contains(list[i].0) {
                let j = choose|j: int| 0 <= j < fewer.len() && fewer[j] == list[i].0;
                assert(removed[j] == list[i].0);
            }
        }
        lemma_removed_list(list, kept, fewer);
        let before = without_coins(list, fewer);
        let after = without_coins(list, removed);
        let k = removed.last();
        assert(removed[removed.len() - 1] == k);
        without_entry_removes(before, k);
        position_meaning(before, k);
        if let Some(p) = position_in(before, k) {
            if p < kept {
                assert(before.take(kept as int)[p] == list.take(kept as int)[p]);
                assert(!removed.contains(list[p].0));
            }
            assert(after == before.remove(p));
        }
        assert forall|i: int| 0 <= i < kept implies after[i] == list[i] by {
            assert(before.take(kept as int)[i] == list.take(kept as int)[i]);
        }
        assert(after.take(kept as int) =~= list.take(kept as int));
        assert forall|i: int| kept <= i < after.len() implies list.skip(kept as int).contains(
            #[trigger] after[i],
        ) by {
            match position_in(before, k) {
                Some(p) => {
                    if i < p {
                        assert(after[i] == before[i]);
                    } else {
                        assert(after[i] == before[i + 1]);
                    }
                },
                None => {
                    assert(after[i] == before[i]);
                },
            }
        }
        assert forall|j: int| 0 <= j < removed.len() implies position_in(
            after,
            #[trigger] removed[j],
        ) is None by {
            assert(map_of(after).contains_key(removed[j]) == map_of(before).remove(k).contains_key(
                removed[j],
            ));
            if j < fewer.len() {
                assert(fewer[j] == removed[j]);
                assert(position_in(before, fewer[j]) is None);
            }
        }
    } else {
        let rest = list.skip(kept as int);
        assert forall|i: int| kept <= i < list.len() implies rest.contains(
            #[trigger] list[i],
        ) by {
            assert(rest[i - kept] == list[i]);
        }
    }
}

/// A disconnected block is undone: when the coins that a scan added are removed, and the
/// coins that it spent are unspent again, the coins are those of before. The scan's new
/// coins were not there yet, and the coins that it spent were unspent.
pub proof fn disconnect_undoes_scan(
    coins: Seq<(Outpoint, CoinView)>,
    new_coins: Seq<(Outpoint, CoinView)>,
    spent: Seq<(Outpoint, SpentBy)>,
)
    requires
        distinct_keys(coins),
        forall|i: int|
            0 <= i < coins.len() ==> {
                &&& !keys_of(new_coins).contains((#[trigger] coins[i]).0)
                &&& keys_of(spent).contains(coins[i].0) ==> coins[i].1.spent_by is None
            },
    ensures
        with_unspent_coins(
            without_coins(
                with_spent_coins(with_new_coins(coins, new_coins), spent),
                keys_of(new_coins),
            ),
            keys_of(spent),
        ) == coins,
{
    let n = coins.len();
    let added = with_new_coins(coins, new_coins);
    lemma_new_list(coins, new_coins);
    let marked = with_spent_coins(added, spent);
    lemma_spent_list(added, spent);
    assert forall|i: int| 0 <= i < n implies added[i] == coins[i] by {
        assert(added.take(n as int)[i] == coins[i]);
    }
    assert forall|i: int| 0 <= i < n implies !keys_of(new_coins).contains(
        (#[trigger] marked[i]).0,
    ) by {
        assert(added[i] == coins[i]);
    }
    let left = without_coins(marked, keys_of(new_coins));
    lemma_removed_list(marked, n, keys_of(new_coins));
    if left.len() > n {
        let e = left[n as int];
        let rest = marked.skip(n as int);
        assert(rest.contains(e));
        let k = choose|k: int| 0 <= k < rest.len() && rest[k] == e;
        assert(marked[n + k] == e);
        assert(added[n + k].0 == e.0);
        assert(keys_of(new_coins).contains(e.0));
        let j = choose|j: int| 0 <= j < keys_of(new_coins).len() && keys_of(new_coins)[j] == e.0;
        assert(position_in(left, keys_of(new_coins)[j]) is None);
        position_meaning(left, e.0);
        assert(false);
    }
    assert(left =~= marked.take(n as int)) by {
        assert(left =~= left.take(n as int));
    }
    let back = with_unspent_coins(left, keys_of(spent));
    lemma_unspent_list(left, keys_of(spent));
    assert forall|i: int| 0 <= i < n implies back[i] == coins[i] by {
        assert(left[i] == marked[i]);
        assert(added[i] == coins[i]);
        assert(back[i].0 == coins[i].0);
    }
    assert(back =~= coins);
}

/// New coins join those that are there: a coin that was not there stands as it came first, in
/// every part but what spent it, and unspent; a coin that was there is as it was; and no
/// other coin is there.
pub proof fn new_coins_join_the_others(
    coins: Seq<(Outpoint, CoinView)>,
    new_coins: Seq<(Outpoint, CoinView)>,
    k: Outpoint,
)
    requires
        distinct_keys(coins),
    ensures
        ({
            let before = map_of(coins);
            let after = map_of(with_new_coins(coins, new_coins));
            &&& distinct_keys(with_new_coins(coins, new_coins))
            &&& before.contains_key(k) ==> after.contains_key(k) && after[k] == before[k]
            &&& forall|i: int|
                !before.contains_key(k) && 0 <= i < new_coins.len() && (#[trigger] new_coins[i]).0
                    == k && (forall|l: int| 0 <= l < i ==> (#[trigger] new_coins[l]).0 != k) ==> {
                    &&& after.contains_key(k)
                    &&& after[k].value == new_coins[i].1.value
                    &&& after[k].script_pubkey == new_coins[i].1.script_pubkey
                    &&& after[k].tweak == new_coins[i].1.tweak
                    &&& after[k].label == new_coins[i].1.label
                    &&& after[k].block_height == new_coins[i].1.block_height
                    &&& after[k].spent_by is None
                }
            &&& !before.contains_key(k) && (forall|i: int|
                0 <= i < new_coins.len() ==> (#[trigger] new_coins[i]).0 != k)
                ==> !after.contains_key(k)
        }),
    decreases new_coins.len(),
{
    if new_coins.len() > 0 {
        let fewer = new_coins.drop_last();
        let n = new_coins.len() - 1;
        new_coins_join_the_others(coins, fewer, k);
        let before = map_of(coins);
        let mid = with_new_coins(coins, fewer);
        let (outpoint, c) = new_coins.last();
        let after = map_of(with_new_coins(coins, new_coins));
        if position_in(mid, outpoint) is None {
            with_entry_inserts(mid, outpoint, unspent_view(c));
        }
        assert(new_coins[n].0 == outpoint);
        assert forall|i: int|
            !before.contains_key(k) && 0 <= i < new_coins.len() && (#[trigger] new_coins[i]).0 == k
                && (forall|l: int| 0 <= l < i ==> (#[trigger] new_coins[l]).0 != k) implies {
            &&& after.contains_key(k)
            &&& after[k].value == new_coins[i].1.value
            &&& after[k].script_pubkey == new_coins[i].1.script_pubkey
            &&& after[k].tweak == new_coins[i].1.tweak
            &&& after[k].label == new_coins[i].1.label
            &&& after[k].block_height == new_coins[i].1.block_height
            &&& after[k].spent_by is None
        } by {
            if i < n {
                assert(fewer[i] == new_coins[i]);
                assert forall|l: int| 0 <= l < i implies (#[trigger] fewer[l]).0 != k by {
                    assert(fewer[l] == new_coins[l]);
                }
                assert(map_of(mid).contains_key(k));
            } else {
                assert forall|l: int| 0 <= l < fewer.len() implies (#[trigger] fewer[l]).0 != k by {
                    assert(fewer[l] == new_coins[l]);
                }
                assert(!map_of(mid).contains_key(k));
            }
        }
        if forall|i: int| 0 <= i < new_coins.len() ==> (#[trigger] new_coins[i]).0 != k {
            assert forall|i: int| 0 <= i < fewer.len() implies (#[trigger] fewer[i]).0 != k by {
                assert(fewer[i] == new_coins[i]);
            }
        }
    }
}

proof fn lemma_spent_by_key(
    coins: Seq<(Outpoint, CoinView)>,
    outpoint: Outpoint,
    spent_by: Option<SpentBy>,
)
    requires
        distinct_keys(coins),
    ensures
        distinct_keys(with_spent_by(coins, outpoint, spent_by)),
        map_of(with_spent_by(coins, outpoint, spent_by)) == (if map_of(coins).contains_key(
            outpoint,
        ) {
            map_of(coins).insert(outpoint, CoinView { spent_by, ..map_of(coins)[outpoint] })
        } else {
            map_of(coins)
        }),
{
    position_meaning(coins, outpoint);
    if let Some(i) = position_in(coins, outpoint) {
        with_entry_inserts(coins, outpoint, CoinView { spent_by, ..coins[i].1 });
    }
}

/// Coins that were spent say what spent them last, and are otherwise as they were; a coin
/// that was not among them is as it was in every part.
pub proof fn spent_coins_say_what_spent_them(
    coins: Seq<(Outpoint, CoinView)>,
    spent: Seq<(Outpoint, SpentBy)>,
    k: Outpoint,
)
    requires
        distinct_keys(coins),
    ensures
        ({
            let before = map_of(coins);
            let after = map_of(with_spent_coins(coins, spent));
            &&& distinct_keys(with_spent_coins(coins, spent))
            &&& after.contains_key(k) == before.contains_key(k)
            &&& before.contains_key(k) ==> {
                &&& after[k].value == before[k].value
                &&& after[k].script_pubkey == before[k].script_pubkey
                &&& after[k].tweak == before[k].tweak
                &&& after[k].label == before[k].label
                &&& after[k].block_height == before[k].block_height
            }
            &&& forall|i: int|
                before.contains_key(k) && 0 <= i < spent.len() && (#[trigger] spent[i]).0 == k && (
                forall|l: int| i < l < spent.len() ==> (#[trigger] spent[l]).0 != k)
                    ==> after[k].spent_by == Some(spent[i].1)
            &&& before.contains_key(k) && (forall|i: int|
                0 <= i < spent.len() ==> (#[trigger] spent[i]).0 != k) ==> after[k].spent_by
                == before[k].spent_by
        }),
    decreases spent.len(),
{
    if spent.len() > 0 {
        let fewer = spent.drop_last();
        let n = spent.len() - 1;
        spent_coins_say_what_spent_them(coins, fewer, k);
        let before = map_of(coins);
        let mid = with_spent_coins(coins, fewer);
        lemma_spent_by_key(mid, spent.last().0, Some(spent.last().1));
        let after = map_of(with_spent_coins(coins, spent));
        assert(spent[n] == spent.last());
        assert forall|i: int|
            before.contains_key(k) && 0 <= i < spent.len() && (#[trigger] spent[i]).0 == k && (
            forall|l: int|
                i < l < spent.len() ==> (#[trigger] spent[l]).0 != k) implies after[k].spent_by
            == Some(spent[i].1) by {
            if i < n {
                assert(fewer[i] == spent[i]);
                assert forall|l: int| i < l < fewer.len() implies (#[trigger] fewer[l]).0 != k by {
                    assert(fewer[l] == spent[l]);
                }
            }
        }
        if forall|i: int| 0 <= i < spent.len() ==> (#[trigger] spent[i]).0 != k {
            assert forall|i: int| 0 <= i < fewer.len() implies (#[trigger] fewer[i]).0 != k by {
                assert(fewer[i] == spent[i]);
            }
        }
    }
}

proof fn lemma_contains_split(s: Seq<Outpoint>, k: Outpoint)
    requires
        s.len() > 0,
    ensures
        s.contains(k) <==> s.drop_last().contains(k) || s.last() == k,
{
    let fewer = s.drop_last();
    if s.contains(k) {
        let i = choose|i: int| 0 <= i < s.len() && s[i] == k;
        if i < fewer.len() {
            assert(fewer[i] == k);
        }
    }
    if fewer.contains(k) {
        let i = choose|i: int| 0 <= i < fewer.len() && fewer[i] == k;
        assert(s[i] == k);
    }
    if s.last() == k {
        assert(s[s.len() - 1] == k);
    }
}

/// The coins that were removed are gone, each of them, and all others are as they were.
pub proof fn removed_coins_are_gone(
    coins: Seq<(Outpoint, CoinView)>,
    removed: Seq<Outpoint>,
    k: Outpoint,
)
    requires
        distinct_keys(coins),
    ensures
        ({
            let before = map_of(coins);
            let after = map_of(without_coins(coins, removed));
            &&& distinct_keys(without_coins(coins, removed))
            &&& after.contains_key(k) <==> before.contains_key(k) && !removed.contains(k)
            &&& after.contains_key(k) ==> after[k] == before[k]
        }),
    decreases removed.len(),
{
    if removed.len() > 0 {
        removed_coins_are_gone(coins, removed.drop_last(), k);
        without_entry_removes(without_coins(coins, removed.drop_last()), removed.last());
        lemma_contains_split(removed, k);
    }
}

/// The coins that are unspent again say so, each of them, and are otherwise as they were; all
/// others are as they were in every part.
pub proof fn unspent_coins_say_so(
    coins: Seq<(Outpoint, CoinView)>,
    unspent: Seq<Outpoint>,
    k: Outpoint,
)
    requires
        distinct_keys(coins),
    ensures
        ({
            let before = map_of(coins);
            let after = map_of(with_unspent_coins(coins, unspent));
            &&& distinct_keys(with_unspent_coins(coins, unspent))
            &&& after.contains_key(k) == before.contains_key(k)
            &&& before.contains_key(k) ==> {
                &&& after[k].value == before[k].value
                &&& after[k].script_pubkey == before[k].script_pubkey
                &&& after[k].tweak == before[k].tweak
                &&& after[k].label == before[k].label
                &&& after[k].block_height == before[k].block_height
                &&& unspent.contains(k) ==> after[k].spent_by is None
                &&& !unspent.contains(k) ==> after[k].spent_by == before[k].spent_by
            }
        }),
    decreases unspent.len(),
{
    if unspent.len() > 0 {
        unspent_coins_say_so(coins, unspent.drop_last(), k);
        lemma_spent_by_key(with_unspent_coins(coins, unspent.drop_last()), unspent.last(), None);
        lemma_contains_split(unspent, k);
    }
}

proof fn lemma_coins_distinct(recs: Seq<Seq<u8>>, list: Seq<(Outpoint, CoinView)>)
    requires
        one_record_each(recs),
        recs.len() <= u64::MAX,
        record_coins(recs) == Ok::<_, WalletStoreError>(list),
    ensures
        distinct_keys(list),
{
    lemma_index_leads(recs);
    lemma_coins(recs, list);
    let index = record_index(recs);
    assert forall|i: int, j: int| 0 <= i < j < list.len() implies (#[trigger] list[i]).0 != (
    #[trigger] list[j]).0 by {
        assert(index[i].0 != index[j].0);
    }
}

/// What the file of a store gives back after a scan, coin by coin: a coin that was there
/// keeps its parts, a new one has the parts with which it came first, and no other is there;
/// a coin that the scan spent says what spent it last, and the others say what they said.
/// The height is the scan's.
pub proof fn scans_are_read_back_coin_by_coin(
    v: StoreView,
    file: Seq<u8>,
    coins: Seq<(Outpoint, CoinView)>,
    height: u32,
    new_coins: Seq<(Outpoint, CoinView)>,
    newly_spent: Seq<(Outpoint, SpentBy)>,
    k: Outpoint,
)
    requires
        faithful(v, file),
        record_coins(records(file, v.total)) == Ok::<_, WalletStoreError>(coins),
        forall|i: int| 0 <= i < new_coins.len() ==> scalars_valid((#[trigger] new_coins[i]).1),
        ({
            let start = Progress { index: v.index, total: v.total, writes: Seq::empty() };
            let (p, e) = scanning(start, height, new_coins, newly_spent);
            e is None && p.total <= u32::MAX
        }),
    ensures
        ({
            let start = Progress { index: v.index, total: v.total, writes: Seq::empty() };
            let p = scanning(start, height, new_coins, newly_spent).0;
            let after = applied(file, p.writes);
            let list = record_coins(records(after, p.total))->Ok_0;
            let was = map_of(coins);
            let now = map_of(list);
            &&& parsed_store(after) is Ok
            &&& parsed_store(after)->Ok_0.height == height
            &&& parsed_store(after)->Ok_0.network == v.network
            &&& parsed_store(after)->Ok_0.total == p.total
            &&& record_coins(records(after, p.total)) is Ok
            &&& was.contains_key(k) ==> now.contains_key(k) && now[k].value == was[k].value
                && now[k].script_pubkey == was[k].script_pubkey && now[k].tweak == was[k].tweak
                && now[k].label == was[k].label && now[k].block_height == was[k].block_height
            &&& forall|i: int|
                !was.contains_key(k) && 0 <= i < new_coins.len() && (#[trigger] new_coins[i]).0 == k
                    && (forall|l: int| 0 <= l < i ==> (#[trigger] new_coins[l]).0 != k) ==> {
                    &&& now.contains_key(k)
                    &&& now[k].value == new_coins[i].1.value
                    &&& now[k].script_pubkey == new_coins[i].1.script_pubkey
                    &&& now[k].tweak == new_coins[i].1.tweak
                    &&& now[k].label == new_coins[i].1.label
                    &&& now[k].block_height == new_coins[i].1.block_height
                }
            &&& !was.contains_key(k) && (forall|i: int|
                0 <= i < new_coins.len() ==> (#[trigger] new_coins[i]).0 != k)
                ==> !now.contains_key(k)
            &&& forall|i: int|
                now.contains_key(k) && 0 <= i < newly_spent.len() && (#[trigger] newly_spent[i]).0
                    == k && (forall|l: int|
                    i < l < newly_spent.len() ==> (#[trigger] newly_spent[l]).0 != k)
                    ==> now[k].spent_by == Some(newly_spent[i].1)
            &&& now.contains_key(k) && (forall|i: int|
                0 <= i < newly_spent.len() ==> (#[trigger] newly_spent[i]).0 != k)
                ==> now[k].spent_by == (if was.contains_key(k) {
                was[k].spent_by
            } else {
                None
            })
        }),
{
    scan_persists(v, file, coins, height, new_coins, newly_spent);
    lemma_coins_distinct(records(file, v.total), coins);
    let added = with_new_coins(coins, new_coins);
    new_coins_join_the_others(coins, new_coins, k);
    spent_coins_say_what_spent_them(added, newly_spent, k);
    if !map_of(coins).contains_key(k) && exists|i: int|
        0 <= i < new_coins.len() && (#[trigger] new_coins[i]).0 == k {
        let i = choose|i: int| 0 <= i < new_coins.len() && (#[trigger] new_coins[i]).0 == k;
        let f = lemma_first(new_coins, k, i);
        assert(map_of(added)[k].spent_by is None);
    }
}

proof fn lemma_first(new_coins: Seq<(Outpoint, CoinView)>, k: Outpoint, i: int) -> (f: int)
    requires
        0 <= i < new_coins.len(),
        new_coins[i].0 == k,
    ensures
        0 <= f <= i,
        new_coins[f].0 == k,
        forall|l: int| 0 <= l < f ==> (#[trigger] new_coins[l]).0 != k,
    decreases i,
{
    if exists|l: int| 0 <= l < i && (#[trigger] new_coins[l]).0 == k {
        let l = choose|l: int| 0 <= l < i && (#[trigger] new_coins[l]).0 == k;
        lemma_first(new_coins, k, l)
    } else {
        i
    }
}

/// What the file of a store gives back after a block was disconnected, coin by coin: the
/// removed coins are gone and the others keep their parts; those that are unspent again say
/// so, and the others say what they said. The height is the one that was given.
pub proof fn disconnects_are_read_back_coin_by_coin(
    v: StoreView,
    file: Seq<u8>,
    coins: Seq<(Outpoint, CoinView)>,
    new_height: u32,
    removed: Seq<Outpoint>,
    unspent: Seq<Outpoint>,
    k: Outpoint,
)
    requires
        faithful(v, file),
        record_coins(records(file, v.total)) == Ok::<_, WalletStoreError>(coins),
    ensures
        ({
            let start = Progress { index: v.index, total: v.total, writes: Seq::empty() };
            let p = disconnecting(start, new_height, removed, unspent);
            let after = applied(file, p.writes);
            let was = map_of(coins);
            let now = map_of(record_coins(records(after, p.total))->Ok_0);
            &&& parsed_store(after) is Ok
            &&& parsed_store(after)->Ok_0.height == new_height
            &&& parsed_store(after)->Ok_0.network == v.network
            &&& parsed_store(after)->Ok_0.total == p.total
            &&& record_coins(records(after, p.total)) is Ok
            &&& now.contains_key(k) <==> was.contains_key(k) && !removed.contains(k)
            &&& now.contains_key(k) ==> {
                &&& now[k].value == was[k].value
                &&& now[k].script_pubkey == was[k].script_pubkey
                &&& now[k].tweak == was[k].tweak
                &&& now[k].label == was[k].label
                &&& now[k].block_height == was[k].block_height
                &&& unspent.contains(k) ==> now[k].spent_by is None
                &&& !unspent.contains(k) ==> now[k].spent_by == was[k].spent_by
            }
        }),
{
    disconnect_persists(v, file, coins, new_height, removed, unspent);
    lemma_coins_distinct(records(file, v.total), coins);
    removed_coins_are_gone(coins, removed, k);
    unspent_coins_say_so(without_coins(coins, removed), unspent, k);
}

/// New coins are recorded unless one of them has a script that is not as long as a taproot
/// output's; then the error says how long it is. Where there is no error, every coin with
/// another script has a record from before.
pub proof fn refused_coins_are_named(p: Progress, coins: Seq<(Outpoint, CoinView)>, i: int)
    requires
        0 <= i < coins.len(),
    ensures
        recording(p, coins).1 matches Some(e) ==> exists|j: int|
            0 <= j < coins.len() && (#[trigger] coins[j]).1.script_pubkey.len() != 34 && e
                == (WalletStoreError::NonP2trScript {
                got: coins[j].1.script_pubkey.len() as usize,
            }),
        recording(p, coins).1 is None ==> coins[i].1.script_pubkey.len() == 34 || position_in(
            recording(p, coins).0.index,
            coins[i].0,
        ) is Some,
        recording(p, coins).0.total >= p.total,
    decreases coins.len(),
{
    let fewer = coins.drop_last();
    let n = coins.len() - 1;
    if n > 0 {
        refused_coins_are_named(p, fewer, if i < n {
            i
        } else {
            0
        });
        if let Some(e) = recording(p, fewer).1 {
            let j = choose|j: int|
                0 <= j < fewer.len() && (#[trigger] fewer[j]).1.script_pubkey.len() != 34 && e
                    == (WalletStoreError::NonP2trScript {
                    got: fewer[j].1.script_pubkey.len() as usize,
                });
            assert(coins[j] == fewer[j]);
        }
        if i < n {
            assert(coins[i] == fewer[i]);
        }
    } else {
        reveal_with_fuel(recording, 2);
    }
    assert(coins[n] == coins.last());
    if recording(p, coins).1 is None {
        lemma_recorded(p, coins);
    }
}

} // verus!
