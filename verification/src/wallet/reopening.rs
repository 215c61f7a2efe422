//! What holds of every valid store and its file, whatever file it was opened from.
//!
//! A file may hold several records of one outpoint, of which the index knows the last, and a
//! scan that was refused leaves the header behind. What is stated here rules neither out,
//! but where it says so.

use vstd::prelude::*;
use crate::bytes::{le32, le32_of_value};
use crate::outpoints::{
    distinct_keys, position_found, position_in, position_meaning, position_pushed,
    with_entry_inserts, without_entry, without_entry_removes, Outpoint,
};
use crate::wallet::coins::{CoinView, SpentBy};
use crate::wallet::persistence::{
    faithful_store_reopens, keys_of, lemma_append, lemma_header_count, lemma_header_height,
    lemma_header_write, lemma_nothing_new, lemma_one_more, lemma_record_write, lemma_recorded,
    lemma_spent_record, lemma_unspent_record, new_store_is_faithful, one_record_each,
    scalars_valid, spent_record, unspent_record,
};
use crate::wallet::store::{
    and_write, applied, consistent, decoded_record, disconnecting, header_bytes, leads_to,
    parsed_store, record_bytes, record_coins, record_index, record_offset, record_outpoint,
    record_round_trip, recording, records, removing, scanning, spending, unspending,
    unspent_view, written, zeros, Progress, StoreView, WalletStoreError,
};
use crate::wallet::Network;

verus! {

/// Whether a file holds what a store knows: the index leads to its records, and its header
/// says the same. A scan that was refused leaves the number of records out of step.
pub open spec fn holds(v: StoreView, file: Seq<u8>) -> bool {
    &&& consistent(v, file)
    &&& v.total <= u32::MAX
    &&& file.take(14) == header_bytes(v.network, v.height, v.total as u32)
}

/// Whether every record that is no tombstone has its outpoint in the index.
pub open spec fn all_indexed(index: Seq<(Outpoint, u64)>, recs: Seq<Seq<u8>>) -> bool {
    forall|i: int|
        0 <= i < recs.len() && (#[trigger] recs[i])[0] != 2 ==> position_in(
            index,
            record_outpoint(recs[i]),
        ) is Some
}

/// The store with no changes yet.
pub open spec fn unchanged(v: StoreView) -> Progress {
    Progress { index: v.index, total: v.total, writes: Seq::empty() }
}

pub(crate) proof fn lemma_index_leads(recs: Seq<Seq<u8>>)
    requires
        recs.len() <= u64::MAX,
    ensures
        leads_to(record_index(recs), recs),
        all_indexed(record_index(recs), recs),
    decreases recs.len(),
{
    if recs.len() > 0 {
        let r = recs.drop_last();
        let before = record_index(r);
        let index = record_index(recs);
        lemma_index_leads(r);
        let outpoint = record_outpoint(recs.last());
        let n = recs.len() - 1;
        assert(recs[n] == recs.last());
        position_meaning(before, outpoint);
        with_entry_inserts(before, outpoint, n as u64);
        assert forall|p: int| 0 <= p < index.len() implies {
            let e = #[trigger] index[p];
            &&& e.1 < recs.len()
            &&& recs[e.1 as int][0] != 2
            &&& record_outpoint(recs[e.1 as int]) == e.0
        } by {
            if p < before.len() {
                let e = before[p];
                assert(r[e.1 as int] == recs[e.1 as int]);
            }
        }
        assert forall|i: int| 0 <= i < recs.len() && (#[trigger] recs[i])[0] != 2 implies
            position_in(index, record_outpoint(recs[i])) is Some by {
            let o = record_outpoint(recs[i]);
            position_meaning(index, o);
            if i < n {
                assert(r[i] == recs[i]);
                position_meaning(before, o);
                let k = position_in(before, o).unwrap();
                assert(index[k].0 == o);
            } else {
                match position_in(before, outpoint) {
                    Some(k) => assert(index[k].0 == o),
                    None => assert(index[before.len() as int].0 == o),
                }
            }
        }
    }
}

/// A file that opens holds what the opened store knows, and every record of it that is no
/// tombstone has its outpoint in the index.
pub proof fn opened_file_holds(v: StoreView, file: Seq<u8>)
    requires
        parsed_store(file) == Ok::<_, WalletStoreError>(v),
    ensures
        holds(v, file),
        all_indexed(v.index, records(file, v.total)),
{
    lemma_index_leads(records(file, v.total));
    let header = header_bytes(v.network, v.height, v.total as u32);
    le32_of_value(file.subrange(6, 10));
    le32_of_value(file.subrange(10, 14));
    assert(file.take(14) =~= file.take(4) + seq![file[4], file[5]] + file.subrange(6, 10)
        + file.subrange(10, 14));
    assert(header =~= file.take(4) + seq![file[4], file[5]] + file.subrange(6, 10)
        + file.subrange(10, 14));
}

/// The file of a new store opens to the new store.
pub proof fn new_store_opens(network: Network)
    ensures
        parsed_store(header_bytes(network, 0, 0)) == Ok::<_, WalletStoreError>(
            StoreView { network, height: 0, index: Seq::empty(), total: 0 },
        ),
{
    let v = StoreView { network, height: 0, index: Seq::empty(), total: 0 };
    new_store_is_faithful(network);
    faithful_store_reopens(v, header_bytes(network, 0, 0));
}

/// A file that holds what a store knows opens, to the same network, height and number of
/// records, and so with the same coins.
pub proof fn holding_file_reopens(v: StoreView, file: Seq<u8>)
    requires
        holds(v, file),
    ensures
        parsed_store(file) is Ok,
        parsed_store(file)->Ok_0.network == v.network,
        parsed_store(file)->Ok_0.height == v.height,
        parsed_store(file)->Ok_0.total == v.total,
{
    crate::bytes::le32_round_trip(v.height);
    crate::bytes::le32_round_trip(v.total as u32);
    let header = header_bytes(v.network, v.height, v.total as u32);
    assert(file.take(4) =~= file.take(14).take(4));
    assert(header.take(4) =~= seq![0x53u8, 0x50u8, 0x57u8, 0x46u8]);
    assert(file[4] == file.take(14)[4]);
    assert(file[5] == file.take(14)[5]);
    assert(file.subrange(6, 10) =~= file.take(14).subrange(6, 10));
    assert(header.subrange(6, 10) =~= le32(v.height));
    assert(file.subrange(10, 14) =~= file.take(14).subrange(10, 14));
    assert(header.subrange(10, 14) =~= le32(v.total as u32));
}

// Records under the steps of an operation.

/// Whether the file `base` after the writes of `p` has the header `header` and the records
/// `recs`, to which the index of `p` leads.
spec fn standing(base: Seq<u8>, p: Progress, header: Seq<u8>, recs: Seq<Seq<u8>>) -> bool {
    let file = applied(base, p.writes);
    &&& p.total <= u64::MAX
    &&& record_offset(p.total) <= file.len()
    &&& file.take(14) == header
    &&& recs == records(file, p.total)
    &&& leads_to(p.index, recs)
}

/// The records after the writes of `p`.
spec fn records_now(base: Seq<u8>, p: Progress) -> Seq<Seq<u8>> {
    records(applied(base, p.writes), p.total)
}

/// Whether an outpoint leads to the record with number `i`.
spec fn leads(index: Seq<(Outpoint, u64)>, outpoint: Outpoint, i: int) -> bool {
    position_in(index, outpoint) matches Some(p) && index[p].1 == i
}

/// Whether one of some outpoints leads to the record with number `i`.
spec fn hit(index: Seq<(Outpoint, u64)>, outpoints: Seq<Outpoint>, i: int) -> bool {
    exists|k: int| 0 <= k < outpoints.len() && #[trigger] leads(index, outpoints[k], i)
}

proof fn lemma_hit_more(index: Seq<(Outpoint, u64)>, outpoints: Seq<Outpoint>, i: int)
    requires
        outpoints.len() > 0,
    ensures
        hit(index, outpoints, i) <==> (hit(index, outpoints.drop_last(), i) || leads(
            index,
            outpoints.last(),
            i,
        )),
{
    let fewer = outpoints.drop_last();
    let n = outpoints.len() - 1;
    if hit(index, fewer, i) {
        let k = choose|k: int| 0 <= k < fewer.len() && #[trigger] leads(index, fewer[k], i);
        assert(leads(index, outpoints[k], i));
    }
    if leads(index, outpoints.last(), i) {
        assert(leads(index, outpoints[n], i));
    }
    if hit(index, outpoints, i) {
        let k = choose|k: int| 0 <= k < outpoints.len() && #[trigger] leads(index, outpoints[k], i);
        if k < n {
            assert(leads(index, fewer[k], i));
        }
    }
}

proof fn lemma_no_hit(index: Seq<(Outpoint, u64)>, i: int)
    ensures
        !hit(index, Seq::empty(), i),
{
}

proof fn lemma_marks(rec: Seq<u8>, by: SpentBy)
    requires
        rec.len() == 184,
    ensures
        spent_record(rec, by).len() == 184,
        spent_record(rec, by)[0] == 1,
        record_outpoint(spent_record(rec, by)) == record_outpoint(rec),
        unspent_record(spent_record(rec, by)) == unspent_record(rec),
{
    crate::bytes::le32_round_trip(by.block_height);
    let spent = spent_record(rec, by);
    assert(spent.subrange(1, 33) =~= rec.subrange(1, 33));
    assert(spent.subrange(33, 37) =~= rec.subrange(33, 37));
    assert(unspent_record(spent) =~= unspent_record(rec));
}

proof fn lemma_unmarks(rec: Seq<u8>)
    requires
        rec.len() == 184,
    ensures
        unspent_record(rec).len() == 184,
        unspent_record(rec)[0] == 0,
        record_outpoint(unspent_record(rec)) == record_outpoint(rec),
        unspent_record(unspent_record(rec)) == unspent_record(rec),
{
    let back = unspent_record(rec);
    assert(back.subrange(1, 33) =~= rec.subrange(1, 33));
    assert(back.subrange(33, 37) =~= rec.subrange(33, 37));
    assert(unspent_record(back) =~= back);
}

proof fn lemma_marks_twice(rec: Seq<u8>, first: SpentBy, second: SpentBy)
    requires
        rec.len() == 184,
    ensures
        spent_record(spent_record(rec, first), second) == spent_record(rec, second),
{
    crate::bytes::le32_round_trip(first.block_height);
    crate::bytes::le32_round_trip(second.block_height);
    assert(spent_record(spent_record(rec, first), second) =~= spent_record(rec, second));
}

proof fn lemma_lengths(file: Seq<u8>, n: nat)
    requires
        record_offset(n) <= file.len(),
    ensures
        forall|i: int| 0 <= i < n ==> (#[trigger] records(file, n)[i]).len() == 184,
{
    assert forall|i: int| 0 <= i < n implies (#[trigger] records(file, n)[i]).len() == 184 by {
        assert(14 + 184 * i + 184 <= record_offset(n));
    }
}

/// A changed record keeps the index in step, if its outpoint stays and it is no tombstone.
proof fn lemma_leads_update(
    index: Seq<(Outpoint, u64)>,
    recs: Seq<Seq<u8>>,
    i: int,
    rec: Seq<u8>,
)
    requires
        leads_to(index, recs),
        0 <= i < recs.len(),
        rec[0] != 2,
        record_outpoint(rec) == record_outpoint(recs[i]),
    ensures
        leads_to(index, recs.update(i, rec)),
{
}

/// Marking a record as spent, in the file.
pub(crate) proof fn lemma_mark_in_file(
    index: Seq<(Outpoint, u64)>,
    file: Seq<u8>,
    n: nat,
    i: nat,
    by: SpentBy,
)
    requires
        record_offset(n) <= file.len(),
        leads_to(index, records(file, n)),
        i < n,
    ensures
        ({
            let recs = records(file, n);
            let first = written(file, record_offset(i) + 148, by.txid@);
            let second = written(first, record_offset(i) + 180, le32(by.block_height));
            let after = written(second, record_offset(i), seq![1u8]);
            &&& records(after, n) == recs.update(i as int, spent_record(recs[i as int], by))
            &&& leads_to(index, records(after, n))
            &&& after.len() == file.len()
            &&& after.take(14) == file.take(14)
        }),
{
    let recs = records(file, n);
    let offset = record_offset(i);
    let first = written(file, offset + 148, by.txid@);
    let second = written(first, offset + 180, le32(by.block_height));
    let after = written(second, offset, seq![1u8]);
    crate::bytes::le32_round_trip(by.block_height);
    lemma_record_write(file, n, i, 148, by.txid@);
    lemma_record_write(first, n, i, 180, le32(by.block_height));
    lemma_record_write(second, n, i, 0, seq![1u8]);
    assert(records(after, n) =~= recs.update(i as int, spent_record(recs[i as int], by)));
    lemma_lengths(file, n);
    lemma_marks(recs[i as int], by);
    lemma_leads_update(index, recs, i as int, spent_record(recs[i as int], by));
}

/// Marking a record as unspent, in the file.
pub(crate) proof fn lemma_unmark_in_file(
    index: Seq<(Outpoint, u64)>,
    file: Seq<u8>,
    n: nat,
    i: nat,
)
    requires
        record_offset(n) <= file.len(),
        leads_to(index, records(file, n)),
        i < n,
    ensures
        ({
            let recs = records(file, n);
            let first = written(file, record_offset(i) + 148, zeros(36));
            let after = written(first, record_offset(i), seq![0u8]);
            &&& records(after, n) == recs.update(i as int, unspent_record(recs[i as int]))
            &&& leads_to(index, records(after, n))
            &&& after.len() == file.len()
            &&& after.take(14) == file.take(14)
        }),
{
    let recs = records(file, n);
    let offset = record_offset(i);
    let first = written(file, offset + 148, zeros(36));
    let after = written(first, offset, seq![0u8]);
    lemma_record_write(file, n, i, 148, zeros(36));
    lemma_record_write(first, n, i, 0, seq![0u8]);
    assert(records(after, n) =~= recs.update(i as int, unspent_record(recs[i as int])));
    lemma_lengths(file, n);
    lemma_unmarks(recs[i as int]);
    lemma_leads_update(index, recs, i as int, unspent_record(recs[i as int]));
}

/// Making the record of an outpoint a tombstone, in the file, and taking the outpoint out of
/// the index.
pub(crate) proof fn lemma_bury_in_file(
    index: Seq<(Outpoint, u64)>,
    file: Seq<u8>,
    n: nat,
    outpoint: Outpoint,
)
    requires
        record_offset(n) <= file.len(),
        leads_to(index, records(file, n)),
        position_in(index, outpoint) is Some,
    ensures
        ({
            let recs = records(file, n);
            let i = index[position_in(index, outpoint).unwrap()].1 as nat;
            let after = written(file, record_offset(i), seq![2u8]);
            &&& i < n
            &&& records(after, n) == recs.update(
                i as int,
                written(recs[i as int], 0, seq![2u8]),
            )
            &&& leads_to(without_entry(index, outpoint), records(after, n))
            &&& after.len() == file.len()
            &&& after.take(14) == file.take(14)
        }),
{
    position_meaning(index, outpoint);
    let recs = records(file, n);
    let i = index[position_in(index, outpoint).unwrap()].1 as nat;
    let left = without_entry(index, outpoint);
    lemma_without(index, outpoint);
    lemma_lengths(file, n);
    lemma_record_write(file, n, i, 0, seq![2u8]);
    let after = records(written(file, record_offset(i), seq![2u8]), n);
    assert forall|m: int| 0 <= m < left.len() implies {
        let e = #[trigger] left[m];
        &&& e.1 < after.len()
        &&& after[e.1 as int][0] != 2
        &&& record_outpoint(after[e.1 as int]) == e.0
    } by {
        let e = left[m];
        let j = choose|j: int| 0 <= j < index.len() && index[j] == e;
        assert(index[j] == e);
        assert(record_outpoint(recs[i as int]) == outpoint);
        assert(e.1 != i);
    }
}

/// Appending the record of an outpoint that has none, in the file and in the index.
pub(crate) proof fn lemma_append_in_file(
    index: Seq<(Outpoint, u64)>,
    file: Seq<u8>,
    n: nat,
    outpoint: Outpoint,
    rec: Seq<u8>,
)
    requires
        n < u64::MAX,
        record_offset(n) <= file.len(),
        leads_to(index, records(file, n)),
        position_in(index, outpoint) is None,
        rec.len() == 184,
        rec[0] != 2,
        record_outpoint(rec) == outpoint,
    ensures
        leads_to(
            index.push((outpoint, n as u64)),
            records(written(file, record_offset(n), rec), n + 1),
        ),
        record_offset(n + 1) <= written(file, record_offset(n), rec).len(),
{
    lemma_append(file, n, rec);
    position_meaning(index, outpoint);
}

/// Whether `after` is `before` with new records of coins behind, to which the index leads.
spec fn grown(
    before_index: Seq<(Outpoint, u64)>,
    before: Seq<Seq<u8>>,
    index: Seq<(Outpoint, u64)>,
    after: Seq<Seq<u8>>,
    coins: Seq<(Outpoint, CoinView)>,
) -> bool {
    &&& after.len() >= before.len()
    &&& after.len() - before.len() == index.len() - before_index.len()
    &&& forall|i: int| 0 <= i < before.len() ==> #[trigger] after[i] == before[i]
    &&& forall|p: int| 0 <= p < before_index.len() ==> #[trigger] index[p] == before_index[p]
    &&& forall|i: int|
        before.len() <= i < after.len() ==> {
            let rec = #[trigger] after[i];
            &&& rec[0] == 0
            &&& keys_of(coins).contains(record_outpoint(rec))
            &&& decoded_record(rec) is Ok
            &&& index[before_index.len() + (i - before.len())] == (record_outpoint(rec), i as u64)
        }
}

#[verifier::spinoff_prover]
#[verifier::rlimit(60)]
proof fn lemma_grows(
    base: Seq<u8>,
    p: Progress,
    coins: Seq<(Outpoint, CoinView)>,
    header: Seq<u8>,
)
    requires
        standing(base, p, header, records_now(base, p)),
        recording(p, coins).0.total <= u64::MAX,
        forall|i: int| 0 <= i < coins.len() ==> scalars_valid((#[trigger] coins[i]).1),
    ensures
        ({
            let q = recording(p, coins).0;
            &&& standing(base, q, header, records_now(base, q))
            &&& grown(p.index, records_now(base, p), q.index, records_now(base, q), coins)
            &&& q.total >= p.total
        }),
    decreases coins.len(),
{
    if coins.len() > 0 {
        let rest = coins.drop_last();
        assert forall|i: int| 0 <= i < rest.len() implies scalars_valid(
            (#[trigger] rest[i]).1,
        ) by {
            assert(rest[i] == coins[i]);
        }
        lemma_grows(base, p, rest, header);
        let q = recording(p, rest).0;
        let r = recording(p, coins).0;
        let before = records_now(base, p);
        let recs = records_now(base, q);
        let after = records_now(base, r);
        let (outpoint, c) = coins.last();
        let n = coins.len() - 1;
        assert(coins[n] == coins.last());
        assert(keys_of(coins)[n] == outpoint);
        assert forall|o: Outpoint| keys_of(rest).contains(o) implies #[trigger] keys_of(
            coins,
        ).contains(o) by {
            let k = choose|k: int| 0 <= k < keys_of(rest).len() && keys_of(rest)[k] == o;
            assert(keys_of(coins)[k] == o);
        }
        if r.total > q.total {
            let rec = record_bytes(outpoint, c);
            let file = applied(base, q.writes);
            record_round_trip(outpoint, c);
            lemma_one_more(base, q, record_offset(q.total), rec);
            lemma_append(file, q.total, rec);
            assert(after == recs.push(rec));
            position_meaning(q.index, outpoint);
            assert(leads_to(r.index, after));
            assert forall|i: int| before.len() <= i < after.len() implies {
                let rec = #[trigger] after[i];
                &&& rec[0] == 0
                &&& keys_of(coins).contains(record_outpoint(rec))
                &&& decoded_record(rec) is Ok
                &&& r.index[p.index.len() + (i - before.len())] == (record_outpoint(rec), i as u64)
            } by {
                if i < recs.len() {
                    assert(after[i] == recs[i]);
                }
            }
        }
    } else {
        let recs = records_now(base, p);
        assert(grown(p.index, recs, p.index, recs, coins));
    }
}

/// Whether a record is another one that was marked as spent.
spec fn marked(before: Seq<u8>, after: Seq<u8>) -> bool {
    exists|by: SpentBy| after == #[trigger] spent_record(before, by)
}

/// Whether `after` is `before` with the records that outpoints lead to marked as spent.
spec fn spent_where(
    index: Seq<(Outpoint, u64)>,
    before: Seq<Seq<u8>>,
    after: Seq<Seq<u8>>,
    outpoints: Seq<Outpoint>,
) -> bool {
    &&& after.len() == before.len()
    &&& forall|i: int|
        0 <= i < before.len() ==> if hit(index, outpoints, i) {
            marked(before[i], #[trigger] after[i])
        } else {
            after[i] == before[i]
        }
}

#[verifier::spinoff_prover]
#[verifier::rlimit(60)]
proof fn lemma_spends(
    base: Seq<u8>,
    p: Progress,
    spent: Seq<(Outpoint, SpentBy)>,
    header: Seq<u8>,
)
    requires
        standing(base, p, header, records_now(base, p)),
    ensures
        ({
            let q = spending(p, spent);
            &&& q.index == p.index
            &&& q.total == p.total
            &&& standing(base, q, header, records_now(base, q))
            &&& spent_where(p.index, records_now(base, p), records_now(base, q), keys_of(spent))
        }),
    decreases spent.len(),
{
    let recs = records_now(base, p);
    if spent.len() == 0 {
        assert(keys_of(spent) =~= Seq::empty());
        assert forall|i: int| 0 <= i < recs.len() implies !hit(p.index, keys_of(spent), i) by {
            lemma_no_hit(p.index, i);
        }
    } else {
        let rest = spent.drop_last();
        lemma_spends(base, p, rest, header);
        let q = spending(p, rest);
        let r = spending(p, spent);
        let mid = records_now(base, q);
        let after = records_now(base, r);
        let (outpoint, by) = spent.last();
        let keys = keys_of(spent);
        assert(keys.drop_last() =~= keys_of(rest));
        assert(keys.last() == outpoint);
        position_meaning(p.index, outpoint);
        lemma_lengths(applied(base, p.writes), p.total);
        lemma_lengths(applied(base, q.writes), q.total);
        if let Some(k) = position_in(p.index, outpoint) {
            let i = p.index[k].1 as nat;
            let offset = record_offset(i);
            let one = and_write(q, offset + 148, by.txid@);
            let two = and_write(one, offset + 180, le32(by.block_height));
            lemma_one_more(base, q, offset + 148, by.txid@);
            lemma_one_more(base, one, offset + 180, le32(by.block_height));
            lemma_one_more(base, two, offset, seq![1u8]);
            lemma_mark_in_file(p.index, applied(base, q.writes), q.total, i, by);
        }
        assert forall|i: int| 0 <= i < recs.len() implies if hit(p.index, keys, i) {
            marked(recs[i], #[trigger] after[i])
        } else {
            after[i] == recs[i]
        } by {
            lemma_hit_more(p.index, keys, i);
            if leads(p.index, outpoint, i) {
                if hit(p.index, keys_of(rest), i) {
                    assert(marked(recs[i], mid[i]));
                    let first = choose|by: SpentBy| mid[i] == #[trigger] spent_record(recs[i], by);
                    lemma_marks_twice(recs[i], first, by);
                }
                assert(after[i] == spent_record(recs[i], by));
            } else {
                assert(after[i] == mid[i]);
            }
        }
    }
}

/// Whether `after` is `before` with the records that outpoints lead to marked as unspent.
spec fn unspent_where(
    index: Seq<(Outpoint, u64)>,
    before: Seq<Seq<u8>>,
    after: Seq<Seq<u8>>,
    outpoints: Seq<Outpoint>,
) -> bool {
    &&& after.len() == before.len()
    &&& forall|i: int|
        0 <= i < before.len() ==> #[trigger] after[i] == (if hit(index, outpoints, i) {
            unspent_record(before[i])
        } else {
            before[i]
        })
}

proof fn lemma_unspends(base: Seq<u8>, p: Progress, unspent: Seq<Outpoint>, header: Seq<u8>)
    requires
        standing(base, p, header, records_now(base, p)),
    ensures
        ({
            let q = unspending(p, unspent);
            &&& q.index == p.index
            &&& q.total == p.total
            &&& standing(base, q, header, records_now(base, q))
            &&& unspent_where(p.index, records_now(base, p), records_now(base, q), unspent)
        }),
    decreases unspent.len(),
{
    let recs = records_now(base, p);
    if unspent.len() == 0 {
        assert(unspent =~= Seq::empty());
        assert forall|i: int| 0 <= i < recs.len() implies !hit(p.index, unspent, i) by {
            lemma_no_hit(p.index, i);
        }
    } else {
        let rest = unspent.drop_last();
        lemma_unspends(base, p, rest, header);
        let q = unspending(p, rest);
        let r = unspending(p, unspent);
        let mid = records_now(base, q);
        let after = records_now(base, r);
        let outpoint = unspent.last();
        position_meaning(p.index, outpoint);
        lemma_lengths(applied(base, p.writes), p.total);
        lemma_lengths(applied(base, q.writes), q.total);
        if let Some(k) = position_in(p.index, outpoint) {
            let i = p.index[k].1 as nat;
            let offset = record_offset(i);
            let one = and_write(q, offset + 148, zeros(36));
            lemma_one_more(base, q, offset + 148, zeros(36));
            lemma_one_more(base, one, offset, seq![0u8]);
            lemma_unmark_in_file(p.index, applied(base, q.writes), q.total, i);
        }
        assert forall|i: int| 0 <= i < recs.len() implies #[trigger] after[i] == (if hit(
            p.index,
            unspent,
            i,
        ) {
            unspent_record(recs[i])
        } else {
            recs[i]
        }) by {
            lemma_hit_more(p.index, unspent, i);
            lemma_unmarks(recs[i]);
            if leads(p.index, outpoint, i) {
                assert(after[i] == unspent_record(mid[i]));
            } else {
                assert(after[i] == mid[i]);
            }
        }
    }
}

/// Whether `after` is `before` with the records that outpoints lead to made tombstones, and
/// `index` what is left of the index.
spec fn removed_where(
    before_index: Seq<(Outpoint, u64)>,
    before: Seq<Seq<u8>>,
    index: Seq<(Outpoint, u64)>,
    after: Seq<Seq<u8>>,
    outpoints: Seq<Outpoint>,
) -> bool {
    &&& after.len() == before.len()
    &&& forall|i: int|
        0 <= i < before.len() ==> if hit(before_index, outpoints, i) {
            (#[trigger] after[i])[0] == 2
        } else {
            after[i] == before[i]
        }
    &&& forall|o: Outpoint, i: int| #[trigger]
        leads(index, o, i) <==> (leads(before_index, o, i) && !outpoints.contains(o))
}

proof fn lemma_without(index: Seq<(Outpoint, u64)>, outpoint: Outpoint)
    requires
        distinct_keys(index),
    ensures
        distinct_keys(without_entry(index, outpoint)),
        forall|o: Outpoint, i: int| #[trigger]
            leads(without_entry(index, outpoint), o, i) <==> (leads(index, o, i) && o != outpoint),
        forall|p: int|
            0 <= p < without_entry(index, outpoint).len() ==> index.contains(
                #[trigger] without_entry(index, outpoint)[p],
            ) && without_entry(index, outpoint)[p].0 != outpoint,
{
    let after = without_entry(index, outpoint);
    without_entry_removes(index, outpoint);
    lemma_left_over(index, outpoint);
    assert forall|o: Outpoint, i: int| #[trigger] leads(after, o, i) <==> (leads(index, o, i) && o
        != outpoint) by {
        if leads(after, o, i) {
            position_meaning(after, o);
            let p = position_in(after, o).unwrap();
            let q = choose|q: int| 0 <= q < index.len() && index[q] == after[p];
            position_found(index, q);
        }
        if leads(index, o, i) && o != outpoint {
            position_meaning(index, o);
            let q = position_in(index, o).unwrap();
            assert(after.contains(index[q]));
            let p = choose|p: int| 0 <= p < after.len() && after[p] == index[q];
            position_found(after, p);
        }
    }
}

proof fn lemma_left_over(index: Seq<(Outpoint, u64)>, outpoint: Outpoint)
    requires
        distinct_keys(index),
    ensures
        forall|p: int|
            0 <= p < without_entry(index, outpoint).len() ==> index.contains(
                #[trigger] without_entry(index, outpoint)[p],
            ) && without_entry(index, outpoint)[p].0 != outpoint,
        forall|q: int|
            0 <= q < index.len() && (#[trigger] index[q]).0 != outpoint ==> without_entry(
                index,
                outpoint,
            ).contains(index[q]),
{
    let after = without_entry(index, outpoint);
    position_meaning(index, outpoint);
    match position_in(index, outpoint) {
        Some(k) => {
            assert forall|p: int| 0 <= p < after.len() implies index.contains(#[trigger] after[p])
                && after[p].0 != outpoint by {
                let q = if p < k { p } else { p + 1 };
                assert(after[p] == index[q]);
                assert(index[q].0 != index[k].0);
            }
            assert forall|q: int| 0 <= q < index.len() && (#[trigger] index[q]).0
                != outpoint implies after.contains(index[q]) by {
                let p = if q < k { q } else { q - 1 };
                assert(after[p] == index[q]);
            }
        },
        None => {},
    }
}

#[verifier::spinoff_prover]
#[verifier::rlimit(60)]
proof fn lemma_removes(base: Seq<u8>, p: Progress, removed: Seq<Outpoint>, header: Seq<u8>)
    requires
        standing(base, p, header, records_now(base, p)),
    ensures
        ({
            let q = removing(p, removed);
            &&& q.total == p.total
            &&& standing(base, q, header, records_now(base, q))
            &&& removed_where(
                p.index,
                records_now(base, p),
                q.index,
                records_now(base, q),
                removed,
            )
        }),
    decreases removed.len(),
{
    let recs = records_now(base, p);
    if removed.len() == 0 {
        assert(removed =~= Seq::empty());
        assert forall|i: int| 0 <= i < recs.len() implies !hit(p.index, removed, i) by {
            lemma_no_hit(p.index, i);
        }
    } else {
        let rest = removed.drop_last();
        lemma_removes(base, p, rest, header);
        let q = removing(p, rest);
        let r = removing(p, removed);
        let mid = records_now(base, q);
        let after = records_now(base, r);
        let outpoint = removed.last();
        let n = removed.len() - 1;
        assert(removed[n] == outpoint);
        position_meaning(q.index, outpoint);
        lemma_without(q.index, outpoint);
        lemma_lengths(applied(base, q.writes), q.total);
        assert(r.index == without_entry(q.index, outpoint));
        if let Some(k) = position_in(q.index, outpoint) {
            let i = q.index[k].1 as nat;
            lemma_one_more(base, q, record_offset(i), seq![2u8]);
            lemma_bury_in_file(q.index, applied(base, q.writes), q.total, outpoint);
        }
        assert(leads_to(r.index, after));
        assert forall|o: Outpoint| removed.contains(o) <==> (rest.contains(o) || o
            == outpoint) by {
            if rest.contains(o) {
                let k = choose|k: int| 0 <= k < rest.len() && rest[k] == o;
                assert(removed[k] == o);
            }
            if removed.contains(o) && o != outpoint {
                let k = choose|k: int| 0 <= k < removed.len() && removed[k] == o;
                assert(rest[k] == o);
            }
        }
        assert forall|i: int| 0 <= i < recs.len() implies if hit(p.index, removed, i) {
            (#[trigger] after[i])[0] == 2
        } else {
            after[i] == recs[i]
        } by {
            lemma_hit_more(p.index, removed, i);
            if leads(p.index, outpoint, i) && !hit(p.index, rest, i) {
                if rest.contains(outpoint) {
                    let k = choose|k: int| 0 <= k < rest.len() && rest[k] == outpoint;
                    assert(leads(p.index, rest[k], i));
                }
                assert(leads(q.index, outpoint, i));
                assert(after[i][0] == 2);
            } else if leads(q.index, outpoint, i) {
                assert(leads(p.index, outpoint, i));
            }
        }
        assert forall|o: Outpoint, i: int| #[trigger] leads(r.index, o, i) <==> (leads(
            p.index,
            o,
            i,
        ) && !removed.contains(o)) by {
            assert(leads(q.index, o, i) <==> (leads(p.index, o, i) && !rest.contains(o)));
        }
    }
}

// Whole operations.

proof fn lemma_field(base: Seq<u8>, p: Progress, header: Seq<u8>, offset: nat, data: Seq<u8>)
    requires
        standing(base, p, header, records_now(base, p)),
        offset + data.len() <= 14,
    ensures
        ({
            let q = and_write(p, offset, data);
            &&& standing(base, q, written(header, offset, data), records_now(base, q))
            &&& records_now(base, q) == records_now(base, p)
        }),
{
    lemma_one_more(base, p, offset, data);
    lemma_header_write(applied(base, p.writes), p.total, offset, data);
}

/// What a store knows after a scan. One that is refused keeps the coins before the one that
/// cannot be recorded, and notes no height.
pub open spec fn scanned_store(
    v: StoreView,
    height: u32,
    new_coins: Seq<(Outpoint, CoinView)>,
    newly_spent: Seq<(Outpoint, SpentBy)>,
) -> StoreView {
    let (p, e) = scanning(unchanged(v), height, new_coins, newly_spent);
    StoreView {
        height: if e is None {
            height
        } else {
            v.height
        },
        index: p.index,
        total: p.total,
        ..v
    }
}

/// The file of a store after a scan.
pub open spec fn scanned_file(
    v: StoreView,
    file: Seq<u8>,
    height: u32,
    new_coins: Seq<(Outpoint, CoinView)>,
    newly_spent: Seq<(Outpoint, SpentBy)>,
) -> Seq<u8> {
    applied(file, scanning(unchanged(v), height, new_coins, newly_spent).0.writes)
}

/// Whether a scan is accepted.
pub open spec fn scan_accepted(
    v: StoreView,
    height: u32,
    new_coins: Seq<(Outpoint, CoinView)>,
    newly_spent: Seq<(Outpoint, SpentBy)>,
) -> bool {
    scanning(unchanged(v), height, new_coins, newly_spent).1 is None
}

/// Whether a scan stays in the range of the types: the scalars of its coins are scalars, and
/// sixty-four bits count the records.
pub open spec fn scan_in_range(
    v: StoreView,
    height: u32,
    new_coins: Seq<(Outpoint, CoinView)>,
    newly_spent: Seq<(Outpoint, SpentBy)>,
) -> bool {
    &&& scanned_store(v, height, new_coins, newly_spent).total <= u64::MAX
    &&& forall|i: int| 0 <= i < new_coins.len() ==> scalars_valid((#[trigger] new_coins[i]).1)
}

/// Whether a scan is accepted, and the header can count the records.
pub open spec fn scan_fits(
    v: StoreView,
    height: u32,
    new_coins: Seq<(Outpoint, CoinView)>,
    newly_spent: Seq<(Outpoint, SpentBy)>,
) -> bool {
    &&& scan_accepted(v, height, new_coins, newly_spent)
    &&& scan_in_range(v, height, new_coins, newly_spent)
    &&& scanned_store(v, height, new_coins, newly_spent).total <= u32::MAX
}

/// What a store knows after a disconnected block.
pub open spec fn disconnected_store(
    v: StoreView,
    new_height: u32,
    removed: Seq<Outpoint>,
    unspent: Seq<Outpoint>,
) -> StoreView {
    let p = disconnecting(unchanged(v), new_height, removed, unspent);
    StoreView { height: new_height, index: p.index, total: p.total, ..v }
}

/// The file of a store after a disconnected block.
pub open spec fn disconnected_file(
    v: StoreView,
    file: Seq<u8>,
    new_height: u32,
    removed: Seq<Outpoint>,
    unspent: Seq<Outpoint>,
) -> Seq<u8> {
    applied(file, disconnecting(unchanged(v), new_height, removed, unspent).writes)
}

#[verifier::spinoff_prover]
#[verifier::rlimit(60)]
proof fn lemma_scan(
    v: StoreView,
    file: Seq<u8>,
    height: u32,
    new_coins: Seq<(Outpoint, CoinView)>,
    newly_spent: Seq<(Outpoint, SpentBy)>,
)
    requires
        consistent(v, file),
        scan_accepted(v, height, new_coins, newly_spent),
        scan_in_range(v, height, new_coins, newly_spent),
    ensures
        ({
            let w = scanned_store(v, height, new_coins, newly_spent);
            let after = scanned_file(v, file, height, new_coins, newly_spent);
            let mid = records_now(file, recording(unchanged(v), new_coins).0);
            let header = file.take(14);
            let count = le32((w.total % 0x1_0000_0000) as u32);
            let counted = if w.total > v.total {
                written(header, 10, count)
            } else {
                header
            };
            &&& consistent(w, after)
            &&& w.total >= v.total
            &&& after.take(14) == written(counted, 6, le32(height))
            &&& mid.len() == w.total
            &&& forall|i: int| 0 <= i < mid.len() ==> (#[trigger] mid[i]).len() == 184
            &&& leads_to(w.index, mid)
            &&& grown(v.index, records(file, v.total), w.index, mid, new_coins)
            &&& spent_where(w.index, mid, records(after, w.total), keys_of(newly_spent))
        }),
{
    let start = unchanged(v);
    let header = file.take(14);
    assert(applied(file, start.writes) == file);
    let q = recording(start, new_coins).0;
    let count = le32((q.total % 0x1_0000_0000) as u32);
    let counted = if q.total > v.total {
        and_write(q, 10, count)
    } else {
        q
    };
    let s = spending(counted, newly_spent);
    lemma_totals(counted, newly_spent);
    lemma_grows(file, start, new_coins, header);
    lemma_lengths(applied(file, q.writes), q.total);
    let counted_header = if q.total > v.total {
        written(header, 10, count)
    } else {
        header
    };
    if q.total > v.total {
        lemma_field(file, q, header, 10, count);
    }
    lemma_spends(file, counted, newly_spent, counted_header);
    lemma_field(file, s, counted_header, 6, le32(height));
}

proof fn lemma_refused(
    v: StoreView,
    file: Seq<u8>,
    height: u32,
    new_coins: Seq<(Outpoint, CoinView)>,
    newly_spent: Seq<(Outpoint, SpentBy)>,
)
    requires
        consistent(v, file),
        !scan_accepted(v, height, new_coins, newly_spent),
        scan_in_range(v, height, new_coins, newly_spent),
    ensures
        ({
            let w = scanned_store(v, height, new_coins, newly_spent);
            let after = scanned_file(v, file, height, new_coins, newly_spent);
            &&& consistent(w, after)
            &&& grown(
                v.index,
                records(file, v.total),
                w.index,
                records(after, w.total),
                new_coins,
            )
        }),
{
    assert(applied(file, unchanged(v).writes) == file);
    lemma_grows(file, unchanged(v), new_coins, file.take(14));
}

proof fn lemma_totals(p: Progress, spent: Seq<(Outpoint, SpentBy)>)
    ensures
        spending(p, spent).total == p.total,
    decreases spent.len(),
{
    if spent.len() > 0 {
        lemma_totals(p, spent.drop_last());
    }
}

#[verifier::spinoff_prover]
#[verifier::rlimit(60)]
proof fn lemma_disconnect(
    v: StoreView,
    file: Seq<u8>,
    new_height: u32,
    removed: Seq<Outpoint>,
    unspent: Seq<Outpoint>,
)
    requires
        consistent(v, file),
    ensures
        ({
            let w = disconnected_store(v, new_height, removed, unspent);
            let after = disconnected_file(v, file, new_height, removed, unspent);
            let mid = records_now(file, removing(unchanged(v), removed));
            &&& consistent(w, after)
            &&& w.total == v.total
            &&& after.take(14) == written(file.take(14), 6, le32(new_height))
            &&& removed_where(v.index, records(file, v.total), w.index, mid, removed)
            &&& unspent_where(w.index, mid, records(after, w.total), unspent)
        }),
{
    let start = unchanged(v);
    let header = file.take(14);
    assert(applied(file, start.writes) == file);
    let q = removing(start, removed);
    let s = unspending(q, unspent);
    lemma_removes(file, start, removed, header);
    lemma_unspends(file, q, unspent, header);
    lemma_field(file, s, header, 6, le32(new_height));
}

/// A scan that is accepted leaves a file that holds what the store knows.
pub proof fn scanned_file_holds(
    v: StoreView,
    file: Seq<u8>,
    height: u32,
    new_coins: Seq<(Outpoint, CoinView)>,
    newly_spent: Seq<(Outpoint, SpentBy)>,
)
    requires
        holds(v, file),
        scan_fits(v, height, new_coins, newly_spent),
    ensures
        holds(
            scanned_store(v, height, new_coins, newly_spent),
            scanned_file(v, file, height, new_coins, newly_spent),
        ),
{
    lemma_scan(v, file, height, new_coins, newly_spent);
    let total = scanned_store(v, height, new_coins, newly_spent).total as u32;
    lemma_header_count(v.network, v.height, v.total as u32, total);
    lemma_header_height(v.network, v.height, height, total);
}

/// A disconnected block leaves a file that holds what the store knows.
pub proof fn disconnected_file_holds(
    v: StoreView,
    file: Seq<u8>,
    new_height: u32,
    removed: Seq<Outpoint>,
    unspent: Seq<Outpoint>,
)
    requires
        holds(v, file),
    ensures
        holds(
            disconnected_store(v, new_height, removed, unspent),
            disconnected_file(v, file, new_height, removed, unspent),
        ),
{
    lemma_disconnect(v, file, new_height, removed, unspent);
    lemma_header_height(v.network, v.height, new_height, v.total as u32);
}

/// The index of a store still leads to the records of its file after a scan, accepted or
/// refused.
pub proof fn scanned_store_is_consistent(
    v: StoreView,
    file: Seq<u8>,
    height: u32,
    new_coins: Seq<(Outpoint, CoinView)>,
    newly_spent: Seq<(Outpoint, SpentBy)>,
)
    requires
        consistent(v, file),
        scan_in_range(v, height, new_coins, newly_spent),
    ensures
        consistent(
            scanned_store(v, height, new_coins, newly_spent),
            scanned_file(v, file, height, new_coins, newly_spent),
        ),
{
    if scan_accepted(v, height, new_coins, newly_spent) {
        lemma_scan(v, file, height, new_coins, newly_spent);
    } else {
        lemma_refused(v, file, height, new_coins, newly_spent);
    }
}

/// The index of a store still leads to the records of its file after a disconnected block.
pub proof fn disconnected_store_is_consistent(
    v: StoreView,
    file: Seq<u8>,
    new_height: u32,
    removed: Seq<Outpoint>,
    unspent: Seq<Outpoint>,
)
    requires
        consistent(v, file),
    ensures
        consistent(
            disconnected_store(v, new_height, removed, unspent),
            disconnected_file(v, file, new_height, removed, unspent),
        ),
{
    lemma_disconnect(v, file, new_height, removed, unspent);
}

/// A change to a store: a block that was scanned, or one that was disconnected.
pub enum StoreChange {
    Scan {
        height: u32,
        new_coins: Seq<(Outpoint, CoinView)>,
        newly_spent: Seq<(Outpoint, SpentBy)>,
    },
    Disconnect { new_height: u32, removed: Seq<Outpoint>, unspent: Seq<Outpoint> },
}

/// What a store knows, and its file, after a change.
pub open spec fn after_change(s: (StoreView, Seq<u8>), c: StoreChange) -> (StoreView, Seq<u8>) {
    match c {
        StoreChange::Scan { height, new_coins, newly_spent } => (
            scanned_store(s.0, height, new_coins, newly_spent),
            scanned_file(s.0, s.1, height, new_coins, newly_spent),
        ),
        StoreChange::Disconnect { new_height, removed, unspent } => (
            disconnected_store(s.0, new_height, removed, unspent),
            disconnected_file(s.0, s.1, new_height, removed, unspent),
        ),
    }
}

/// What a store knows, and its file, after changes, one after another.
pub open spec fn after_changes(s: (StoreView, Seq<u8>), changes: Seq<StoreChange>) -> (
    StoreView,
    Seq<u8>,
)
    decreases changes.len(),
{
    if changes.len() == 0 {
        s
    } else {
        after_change(after_changes(s, changes.drop_last()), changes.last())
    }
}

/// Whether all changes are accepted, and the header can count the records.
pub open spec fn changes_fit(s: (StoreView, Seq<u8>), changes: Seq<StoreChange>) -> bool
    decreases changes.len(),
{
    changes.len() > 0 ==> {
        &&& changes_fit(s, changes.drop_last())
        &&& match changes.last() {
            StoreChange::Scan { height, new_coins, newly_spent } => scan_fits(
                after_changes(s, changes.drop_last()).0,
                height,
                new_coins,
                newly_spent,
            ),
            StoreChange::Disconnect { .. } => true,
        }
    }
}

/// Whether all changes, accepted or refused, stay in the range of the types.
pub open spec fn changes_in_range(s: (StoreView, Seq<u8>), changes: Seq<StoreChange>) -> bool
    decreases changes.len(),
{
    changes.len() > 0 ==> {
        &&& changes_in_range(s, changes.drop_last())
        &&& match changes.last() {
            StoreChange::Scan { height, new_coins, newly_spent } => scan_in_range(
                after_changes(s, changes.drop_last()).0,
                height,
                new_coins,
                newly_spent,
            ),
            StoreChange::Disconnect { .. } => true,
        }
    }
}

/// Whatever file a store was opened from, and whatever changes were made to it, accepted or
/// refused: its index leads to the records of its file.
pub proof fn changed_store_is_consistent(v: StoreView, file: Seq<u8>, changes: Seq<StoreChange>)
    requires
        consistent(v, file),
        changes_in_range((v, file), changes),
    ensures
        consistent(after_changes((v, file), changes).0, after_changes((v, file), changes).1),
    decreases changes.len(),
{
    if changes.len() > 0 {
        changed_store_is_consistent(v, file, changes.drop_last());
        let (w, before) = after_changes((v, file), changes.drop_last());
        match changes.last() {
            StoreChange::Scan { height, new_coins, newly_spent } => {
                scanned_store_is_consistent(w, before, height, new_coins, newly_spent);
            },
            StoreChange::Disconnect { new_height, removed, unspent } => {
                disconnected_store_is_consistent(w, before, new_height, removed, unspent);
            },
        }
    }
}

/// Whatever file a store was opened from, and whatever changes were made to it, as long as
/// none was refused: its file holds what it knows.
pub proof fn changed_file_holds(v: StoreView, file: Seq<u8>, changes: Seq<StoreChange>)
    requires
        parsed_store(file) == Ok::<_, WalletStoreError>(v),
        changes_fit((v, file), changes),
    ensures
        holds(after_changes((v, file), changes).0, after_changes((v, file), changes).1),
    decreases changes.len(),
{
    if changes.len() == 0 {
        opened_file_holds(v, file);
    } else {
        changed_file_holds(v, file, changes.drop_last());
        let (w, before) = after_changes((v, file), changes.drop_last());
        match changes.last() {
            StoreChange::Scan { height, new_coins, newly_spent } => {
                scanned_file_holds(w, before, height, new_coins, newly_spent);
            },
            StoreChange::Disconnect { new_height, removed, unspent } => {
                disconnected_file_holds(w, before, new_height, removed, unspent);
            },
        }
    }
}

/// What was written is read back: whatever file a store was opened from, and whatever
/// changes were made to it, as long as none was refused, its file opens again, to the same
/// network and height and with the same coins.
pub proof fn changed_store_reopens(v: StoreView, file: Seq<u8>, changes: Seq<StoreChange>)
    requires
        parsed_store(file) == Ok::<_, WalletStoreError>(v),
        changes_fit((v, file), changes),
    ensures
        ({
            let (w, after) = after_changes((v, file), changes);
            &&& parsed_store(after) is Ok
            &&& parsed_store(after)->Ok_0.network == v.network
            &&& w.network == v.network
            &&& parsed_store(after)->Ok_0.height == w.height
            &&& parsed_store(after)->Ok_0.total == w.total
            &&& record_coins(records(after, parsed_store(after)->Ok_0.total)) == record_coins(
                records(after, w.total),
            )
        }),
{
    let (w, after) = after_changes((v, file), changes);
    changed_file_holds(v, file, changes);
    holding_file_reopens(w, after);
    lemma_network_stays((v, file), changes);
}

proof fn lemma_network_stays(s: (StoreView, Seq<u8>), changes: Seq<StoreChange>)
    ensures
        after_changes(s, changes).0.network == s.0.network,
    decreases changes.len(),
{
    if changes.len() > 0 {
        lemma_network_stays(s, changes.drop_last());
    }
}

// Coins of records.

proof fn lemma_decoded_outpoint(rec: Seq<u8>)
    ensures
        decoded_record(rec) matches Ok(c) ==> c.0 == record_outpoint(rec) && (c.1.spent_by is None
            <==> rec[0] == 0),
{
    reveal(decoded_record);
}

proof fn lemma_coins_of(recs: Seq<Seq<u8>>, coins: Seq<(Outpoint, CoinView)>)
    requires
        record_coins(recs) == Ok::<_, WalletStoreError>(coins),
    ensures
        forall|i: int|
            0 <= i < recs.len() && (#[trigger] recs[i])[0] != 2 ==> decoded_record(recs[i]) is Ok
                && coins.contains(decoded_record(recs[i])->Ok_0),
        forall|k: int|
            0 <= k < coins.len() ==> exists|i: int|
                0 <= i < recs.len() && (#[trigger] recs[i])[0] != 2 && decoded_record(recs[i])
                    == Ok::<_, WalletStoreError>(#[trigger] coins[k]),
    decreases recs.len(),
{
    if recs.len() > 0 {
        let r = recs.drop_last();
        let n = recs.len() - 1;
        let before = record_coins(r)->Ok_0;
        lemma_coins_of(r, before);
        assert(recs[n] == recs.last());
        assert forall|i: int| 0 <= i < recs.len() && (#[trigger] recs[i])[0] != 2 implies
            decoded_record(recs[i]) is Ok && coins.contains(decoded_record(recs[i])->Ok_0) by {
            if i < n {
                assert(r[i] == recs[i]);
                let c = decoded_record(r[i])->Ok_0;
                assert(before.contains(c));
                let k = choose|k: int| 0 <= k < before.len() && before[k] == c;
                assert(coins[k] == c);
            } else {
                assert(coins[before.len() as int] == decoded_record(recs[i])->Ok_0);
            }
        }
        assert forall|k: int| 0 <= k < coins.len() implies exists|i: int|
            0 <= i < recs.len() && (#[trigger] recs[i])[0] != 2 && decoded_record(recs[i]) == Ok::<
                _,
                WalletStoreError,
            >(#[trigger] coins[k]) by {
            if k < before.len() {
                assert(coins[k] == before[k]);
                let i = choose|i: int|
                    0 <= i < r.len() && (#[trigger] r[i])[0] != 2 && decoded_record(r[i]) == Ok::<
                        _,
                        WalletStoreError,
                    >(before[k]);
                assert(recs[i] == r[i]);
            } else {
                assert(recs[n][0] != 2);
            }
        }
    }
}

/// Records that decode alike, and tombstones behind them, give the same coins.
proof fn lemma_same_coins(a: Seq<Seq<u8>>, b: Seq<Seq<u8>>)
    requires
        a.len() <= b.len(),
        forall|i: int|
            0 <= i < a.len() ==> {
                &&& (a[i][0] == 2 <==> (#[trigger] b[i])[0] == 2)
                &&& a[i][0] != 2 ==> decoded_record(b[i]) == decoded_record(a[i])
            },
        forall|i: int| a.len() <= i < b.len() ==> (#[trigger] b[i])[0] == 2,
    ensures
        record_coins(b) == record_coins(a),
    decreases b.len(),
{
    if b.len() > 0 {
        let n = b.len() - 1;
        let y = b.drop_last();
        assert(b[n] == b.last());
        assert forall|i: int| 0 <= i < y.len() implies #[trigger] y[i] == b[i] by {}
        if a.len() == b.len() {
            let x = a.drop_last();
            assert(a[n] == a.last());
            assert forall|i: int| 0 <= i < x.len() implies {
                &&& (x[i][0] == 2 <==> (#[trigger] y[i])[0] == 2)
                &&& x[i][0] != 2 ==> decoded_record(y[i]) == decoded_record(x[i])
            } by {
                assert(x[i] == a[i] && y[i] == b[i]);
            }
            lemma_same_coins(x, y);
        } else {
            assert forall|i: int| a.len() <= i < y.len() implies (#[trigger] y[i])[0] == 2 by {
                assert(y[i] == b[i]);
            }
            lemma_same_coins(a, y);
        }
    }
}

/// Records with the same outpoints give coins with the same outpoints.
proof fn lemma_same_keys(a: Seq<Seq<u8>>, b: Seq<Seq<u8>>, coins: Seq<(Outpoint, CoinView)>)
    requires
        a.len() == b.len(),
        record_coins(a) == Ok::<_, WalletStoreError>(coins),
        forall|i: int|
            0 <= i < a.len() ==> {
                &&& (a[i][0] == 2 <==> (#[trigger] b[i])[0] == 2)
                &&& a[i][0] != 2 ==> decoded_record(b[i]) is Ok && record_outpoint(b[i])
                    == record_outpoint(a[i])
            },
    ensures
        record_coins(b) is Ok,
        keys_of(record_coins(b)->Ok_0) == keys_of(coins),
    decreases b.len(),
{
    if b.len() > 0 {
        let n = b.len() - 1;
        let (x, y) = (a.drop_last(), b.drop_last());
        assert(a[n] == a.last() && b[n] == b.last());
        assert forall|i: int| 0 <= i < x.len() implies {
            &&& (x[i][0] == 2 <==> (#[trigger] y[i])[0] == 2)
            &&& x[i][0] != 2 ==> decoded_record(y[i]) is Ok && record_outpoint(y[i])
                == record_outpoint(x[i])
        } by {
            assert(x[i] == a[i] && y[i] == b[i]);
        }
        let before = record_coins(x)->Ok_0;
        lemma_same_keys(x, y, before);
        lemma_decoded_outpoint(a[n]);
        lemma_decoded_outpoint(b[n]);
        assert(keys_of(record_coins(b)->Ok_0) =~= keys_of(coins)) by {
            if a[n][0] != 2 {
                let after = record_coins(y)->Ok_0;
                assert(keys_of(before) == keys_of(after));
                assert(coins =~= before.push(decoded_record(a[n])->Ok_0));
                assert(keys_of(coins) =~= keys_of(before).push(record_outpoint(a[n])));
                assert(keys_of(record_coins(b)->Ok_0) =~= keys_of(after).push(
                    record_outpoint(b[n]),
                ));
            }
        }
    }
}

/// Whether an index and records stand one to one: the index leads to records, every record
/// that is no tombstone has its outpoint in the index, and no two of them have the same.
pub open spec fn one_to_one(index: Seq<(Outpoint, u64)>, recs: Seq<Seq<u8>>) -> bool {
    leads_to(index, recs) && all_indexed(index, recs) && one_record_each(recs)
}

proof fn lemma_grown_indexed(
    before_index: Seq<(Outpoint, u64)>,
    before: Seq<Seq<u8>>,
    index: Seq<(Outpoint, u64)>,
    after: Seq<Seq<u8>>,
    coins: Seq<(Outpoint, CoinView)>,
)
    requires
        all_indexed(before_index, before),
        grown(before_index, before, index, after, coins),
        leads_to(index, after),
        after.len() <= u64::MAX,
    ensures
        all_indexed(index, after),
        one_record_each(before) ==> one_record_each(after),
{
    assert forall|i: int| 0 <= i < after.len() && (#[trigger] after[i])[0] != 2 implies
        position_in(index, record_outpoint(after[i])) is Some by {
        let o = record_outpoint(after[i]);
        position_meaning(index, o);
        if i < before.len() {
            assert(after[i] == before[i]);
            position_meaning(before_index, o);
            let p = position_in(before_index, o).unwrap();
            assert(index[p] == before_index[p]);
        } else {
            let p = before_index.len() + (i - before.len());
            assert(index[p] == (o, i as u64));
        }
    }
    if one_record_each(before) {
        assert forall|i: int, j: int|
            0 <= i < j < after.len() && (#[trigger] after[i])[0] != 2 && (#[trigger] after[j])[0]
                != 2 implies record_outpoint(after[i]) != record_outpoint(after[j]) by {
            if j < before.len() {
                assert(after[i] == before[i] && after[j] == before[j]);
            } else {
                let o = record_outpoint(after[j]);
                let q = before_index.len() + (j - before.len());
                assert(index[q] == (o, j as u64));
                if i < before.len() {
                    assert(after[i] == before[i]);
                    let other = record_outpoint(before[i]);
                    position_meaning(before_index, other);
                    let p = position_in(before_index, other).unwrap();
                    assert(index[p] == before_index[p]);
                    assert(index[p].0 != index[q].0);
                } else {
                    let p = before_index.len() + (i - before.len());
                    assert(index[p] == (record_outpoint(after[i]), i as u64));
                    assert(index[p].0 != index[q].0);
                }
            }
        }
    }
}

proof fn lemma_alike_indexed(
    index: Seq<(Outpoint, u64)>,
    before: Seq<Seq<u8>>,
    after: Seq<Seq<u8>>,
)
    requires
        after.len() == before.len(),
        forall|i: int|
            0 <= i < before.len() && (#[trigger] after[i])[0] != 2 ==> before[i][0] != 2
                && record_outpoint(after[i]) == record_outpoint(before[i]),
    ensures
        all_indexed(index, before) ==> all_indexed(index, after),
        one_record_each(before) ==> one_record_each(after),
{
    if one_record_each(before) {
        assert forall|i: int, j: int|
            0 <= i < j < after.len() && (#[trigger] after[i])[0] != 2 && (#[trigger] after[j])[0]
                != 2 implies record_outpoint(after[i]) != record_outpoint(after[j]) by {
            assert(before[i][0] != 2 && before[j][0] != 2);
        }
    }
}

proof fn lemma_spent_alike(
    index: Seq<(Outpoint, u64)>,
    before: Seq<Seq<u8>>,
    after: Seq<Seq<u8>>,
    outpoints: Seq<Outpoint>,
)
    requires
        leads_to(index, before),
        forall|i: int| 0 <= i < before.len() ==> (#[trigger] before[i]).len() == 184,
        spent_where(index, before, after, outpoints),
    ensures
        forall|i: int|
            0 <= i < before.len() && (#[trigger] after[i])[0] != 2 ==> before[i][0] != 2
                && record_outpoint(after[i]) == record_outpoint(before[i]),
{
    assert forall|i: int| 0 <= i < before.len() && (#[trigger] after[i])[0] != 2 implies before[i][0]
        != 2 && record_outpoint(after[i]) == record_outpoint(before[i]) by {
        if hit(index, outpoints, i) {
            let k = choose|k: int|
                0 <= k < outpoints.len() && #[trigger] leads(index, outpoints[k], i);
            position_meaning(index, outpoints[k]);
            let p = position_in(index, outpoints[k]).unwrap();
            assert(before[index[p].1 as int][0] != 2);
            assert(marked(before[i], after[i]));
            let by = choose|by: SpentBy| after[i] == #[trigger] spent_record(before[i], by);
            lemma_marks(before[i], by);
        }
    }
}

/// A scan, accepted or refused, leaves every record that is no tombstone with its outpoint
/// in the index, and makes no second record of an outpoint.
pub proof fn scan_keeps_records_indexed(
    v: StoreView,
    file: Seq<u8>,
    height: u32,
    new_coins: Seq<(Outpoint, CoinView)>,
    newly_spent: Seq<(Outpoint, SpentBy)>,
)
    requires
        consistent(v, file),
        all_indexed(v.index, records(file, v.total)),
        scan_in_range(v, height, new_coins, newly_spent),
    ensures
        ({
            let w = scanned_store(v, height, new_coins, newly_spent);
            let after = scanned_file(v, file, height, new_coins, newly_spent);
            &&& all_indexed(w.index, records(after, w.total))
            &&& one_record_each(records(file, v.total)) ==> one_record_each(
                records(after, w.total),
            )
        }),
{
    let w = scanned_store(v, height, new_coins, newly_spent);
    let after = scanned_file(v, file, height, new_coins, newly_spent);
    let before = records(file, v.total);
    let recs = records(after, w.total);
    if scan_accepted(v, height, new_coins, newly_spent) {
        let mid = records_now(file, recording(unchanged(v), new_coins).0);
        lemma_scan(v, file, height, new_coins, newly_spent);
        lemma_grown_indexed(v.index, before, w.index, mid, new_coins);
        lemma_spent_alike(w.index, mid, recs, keys_of(newly_spent));
        lemma_alike_indexed(w.index, mid, recs);
    } else {
        lemma_refused(v, file, height, new_coins, newly_spent);
        lemma_grown_indexed(v.index, before, w.index, recs, new_coins);
    }
}

/// A disconnected block leaves index and records one to one, where they were.
pub proof fn disconnect_keeps_one_to_one(
    v: StoreView,
    file: Seq<u8>,
    new_height: u32,
    removed: Seq<Outpoint>,
    unspent: Seq<Outpoint>,
)
    requires
        consistent(v, file),
        one_to_one(v.index, records(file, v.total)),
    ensures
        ({
            let w = disconnected_store(v, new_height, removed, unspent);
            let after = disconnected_file(v, file, new_height, removed, unspent);
            one_to_one(w.index, records(after, w.total))
        }),
{
    let w = disconnected_store(v, new_height, removed, unspent);
    let after = disconnected_file(v, file, new_height, removed, unspent);
    let before = records(file, v.total);
    let mid = records_now(file, removing(unchanged(v), removed));
    let recs = records(after, w.total);
    lemma_disconnect(v, file, new_height, removed, unspent);
    lemma_lengths(file, v.total);
    assert forall|i: int| 0 <= i < before.len() && (#[trigger] mid[i])[0] != 2 implies before[i][0]
        != 2 && record_outpoint(mid[i]) == record_outpoint(before[i]) by {
        assert(!hit(v.index, removed, i));
    }
    lemma_alike_indexed(v.index, before, mid);
    assert forall|i: int| 0 <= i < mid.len() && (#[trigger] mid[i])[0] != 2 implies position_in(
        w.index,
        record_outpoint(mid[i]),
    ) is Some by {
        let o = record_outpoint(mid[i]);
        assert(mid[i] == before[i]);
        position_meaning(v.index, o);
        let p = position_in(v.index, o).unwrap();
        let j = v.index[p].1 as int;
        assert(before[j][0] != 2 && record_outpoint(before[j]) == o);
        assert(i == j);
        assert(leads(v.index, o, i));
        if removed.contains(o) {
            let k = choose|k: int| 0 <= k < removed.len() && removed[k] == o;
            assert(leads(v.index, removed[k], i));
            assert(hit(v.index, removed, i));
        }
        assert(leads(w.index, o, i));
    }
    assert forall|i: int| 0 <= i < mid.len() && (#[trigger] recs[i])[0] != 2 implies mid[i][0] != 2
        && record_outpoint(recs[i]) == record_outpoint(mid[i]) by {
        if hit(w.index, unspent, i) {
            let k = choose|k: int|
                0 <= k < unspent.len() && #[trigger] leads(w.index, unspent[k], i);
            assert(leads(v.index, unspent[k], i) && !removed.contains(unspent[k]));
            if hit(v.index, removed, i) {
                let m = choose|m: int|
                    0 <= m < removed.len() && #[trigger] leads(v.index, removed[m], i);
                position_meaning(v.index, unspent[k]);
                position_meaning(v.index, removed[m]);
                let a = position_in(v.index, unspent[k]).unwrap();
                let b = position_in(v.index, removed[m]).unwrap();
                assert(v.index[a].0 == record_outpoint(before[i]));
                assert(v.index[b].0 == record_outpoint(before[i]));
                assert(removed.contains(removed[m]));
            }
            assert(mid[i] == before[i]);
            position_meaning(v.index, unspent[k]);
            let a = position_in(v.index, unspent[k]).unwrap();
            assert(before[v.index[a].1 as int][0] != 2);
            lemma_unmarks(mid[i]);
        }
    }
    lemma_alike_indexed(w.index, mid, recs);
}

/// The index and the records of a new store, or of a file in which no outpoint has two
/// records, stay one to one whatever changes are made, accepted or refused.
pub proof fn changed_store_stays_one_to_one(
    v: StoreView,
    file: Seq<u8>,
    changes: Seq<StoreChange>,
)
    requires
        consistent(v, file),
        one_to_one(v.index, records(file, v.total)),
        changes_in_range((v, file), changes),
    ensures
        ({
            let (w, after) = after_changes((v, file), changes);
            one_to_one(w.index, records(after, w.total))
        }),
    decreases changes.len(),
{
    if changes.len() > 0 {
        changed_store_stays_one_to_one(v, file, changes.drop_last());
        changed_store_is_consistent(v, file, changes.drop_last());
        changed_store_is_consistent(v, file, changes);
        let (w, before) = after_changes((v, file), changes.drop_last());
        match changes.last() {
            StoreChange::Scan { height, new_coins, newly_spent } => {
                scan_keeps_records_indexed(w, before, height, new_coins, newly_spent);
            },
            StoreChange::Disconnect { new_height, removed, unspent } => {
                disconnect_keeps_one_to_one(w, before, new_height, removed, unspent);
            },
        }
    }
}

/// The index and the records of a new store are one to one.
pub proof fn new_store_is_one_to_one(network: Network)
    ensures
        ({
            let v = StoreView { network, height: 0, index: Seq::empty(), total: 0 };
            let file = header_bytes(network, 0, 0);
            consistent(v, file) && one_to_one(v.index, records(file, v.total))
        }),
{
    new_store_opens(network);
    opened_file_holds(
        StoreView { network, height: 0, index: Seq::empty(), total: 0 },
        header_bytes(network, 0, 0),
    );
}

/// Scanning known coins again changes no record, whatever they say of the coins otherwise:
/// the coins stay as they are, and only the height is noted. A record of such a coin must
/// not have dropped out of the index, which only happens where an outpoint had two records
/// and was removed.
pub proof fn known_coins_change_no_record(
    v: StoreView,
    file: Seq<u8>,
    coins: Seq<(Outpoint, CoinView)>,
    height: u32,
    new_coins: Seq<(Outpoint, CoinView)>,
)
    requires
        consistent(v, file),
        forall|i: int|
            0 <= i < v.total && (#[trigger] records(file, v.total)[i])[0] != 2 && keys_of(
                new_coins,
            ).contains(record_outpoint(records(file, v.total)[i])) ==> position_in(
                v.index,
                record_outpoint(records(file, v.total)[i]),
            ) is Some,
        record_coins(records(file, v.total)) == Ok::<_, WalletStoreError>(coins),
        forall|k: int|
            0 <= k < new_coins.len() ==> keys_of(coins).contains((#[trigger] new_coins[k]).0),
    ensures
        ({
            let w = scanned_store(v, height, new_coins, Seq::empty());
            let after = scanned_file(v, file, height, new_coins, Seq::empty());
            &&& scanning(unchanged(v), height, new_coins, Seq::empty()).1 is None
            &&& w == (StoreView { height, ..v })
            &&& consistent(w, after)
            &&& records(after, w.total) == records(file, v.total)
            &&& record_coins(records(after, w.total)) == Ok::<_, WalletStoreError>(coins)
        }),
{
    let recs = records(file, v.total);
    lemma_coins_of(recs, coins);
    assert forall|k: int| 0 <= k < new_coins.len() implies position_in(
        v.index,
        (#[trigger] new_coins[k]).0,
    ) is Some by {
        let o = new_coins[k].0;
        let j = choose|j: int| 0 <= j < keys_of(coins).len() && keys_of(coins)[j] == o;
        assert(coins[j].0 == o);
        let i = choose|i: int|
            0 <= i < recs.len() && (#[trigger] recs[i])[0] != 2 && decoded_record(recs[i]) == Ok::<
                _,
                WalletStoreError,
            >(coins[j]);
        lemma_decoded_outpoint(recs[i]);
        assert(keys_of(new_coins)[k] == o);
        assert(keys_of(new_coins).contains(o));
    }
    lemma_nothing_new(unchanged(v), new_coins);
    assert(applied(file, unchanged(v).writes) == file);
    lemma_field(file, unchanged(v), file.take(14), 6, le32(height));
}

proof fn lemma_not_indexed(
    index: Seq<(Outpoint, u64)>,
    recs: Seq<Seq<u8>>,
    coins: Seq<(Outpoint, CoinView)>,
    new_coins: Seq<(Outpoint, CoinView)>,
)
    requires
        leads_to(index, recs),
        record_coins(recs) == Ok::<_, WalletStoreError>(coins),
        forall|k: int|
            0 <= k < coins.len() ==> !keys_of(new_coins).contains((#[trigger] coins[k]).0),
    ensures
        forall|o: Outpoint|
            keys_of(new_coins).contains(o) ==> (#[trigger] position_in(index, o)) is None,
{
    lemma_coins_of(recs, coins);
    assert forall|o: Outpoint| keys_of(new_coins).contains(o) implies (#[trigger] position_in(
        index,
        o,
    )) is None by {
        position_meaning(index, o);
        if let Some(p) = position_in(index, o) {
            let i = index[p].1 as int;
            assert(recs[i][0] != 2);
            let c = decoded_record(recs[i])->Ok_0;
            lemma_decoded_outpoint(recs[i]);
            assert(coins.contains(c));
            let k = choose|k: int| 0 <= k < coins.len() && coins[k] == c;
            assert(coins[k].0 == o);
        }
    }
}

proof fn lemma_recorded_coins(
    base: Seq<u8>,
    p: Progress,
    new_coins: Seq<(Outpoint, CoinView)>,
    coins: Seq<(Outpoint, CoinView)>,
    header: Seq<u8>,
)
    requires
        standing(base, p, header, records_now(base, p)),
        recording(p, new_coins).1 is None,
        recording(p, new_coins).0.total <= u64::MAX,
        forall|i: int| 0 <= i < new_coins.len() ==> scalars_valid((#[trigger] new_coins[i]).1),
        record_coins(records_now(base, p)) == Ok::<_, WalletStoreError>(coins),
        distinct_keys(new_coins),
        forall|o: Outpoint|
            keys_of(new_coins).contains(o) ==> (#[trigger] position_in(p.index, o)) is None,
    ensures
        record_coins(records_now(base, recording(p, new_coins).0)) is Ok,
        keys_of(record_coins(records_now(base, recording(p, new_coins).0))->Ok_0) == keys_of(coins)
            + keys_of(new_coins),
    decreases new_coins.len(),
{
    if new_coins.len() == 0 {
        assert(keys_of(coins) + keys_of(new_coins) =~= keys_of(coins));
    } else {
        let rest = new_coins.drop_last();
        let n = new_coins.len() - 1;
        let (outpoint, c) = new_coins.last();
        assert(new_coins[n] == new_coins.last());
        assert forall|i: int| 0 <= i < rest.len() implies scalars_valid(
            (#[trigger] rest[i]).1,
        ) by {
            assert(rest[i] == new_coins[i]);
        }
        assert forall|o: Outpoint| keys_of(rest).contains(o) implies (#[trigger] position_in(
            p.index,
            o,
        )) is None by {
            let k = choose|k: int| 0 <= k < keys_of(rest).len() && keys_of(rest)[k] == o;
            assert(keys_of(new_coins)[k] == o);
        }
        assert(keys_of(new_coins)[n] == outpoint);
        assert(keys_of(new_coins).contains(outpoint));
        assert forall|i: int, j: int| 0 <= i < j < rest.len() implies (#[trigger] rest[i]).0 != (
        #[trigger] rest[j]).0 by {
            assert(rest[i] == new_coins[i] && rest[j] == new_coins[j]);
        }
        lemma_recorded_coins(base, p, rest, coins, header);
        lemma_grows(base, p, rest, header);
        let q = recording(p, rest).0;
        let r = recording(p, new_coins).0;
        let before = records_now(base, p);
        let recs = records_now(base, q);
        let listed = record_coins(recs)->Ok_0;
        position_meaning(q.index, outpoint);
        if let Some(m) = position_in(q.index, outpoint) {
            if m < p.index.len() {
                assert(q.index[m] == p.index[m]);
                position_meaning(p.index, outpoint);
                assert(false);
            } else {
                let i = before.len() + (m - p.index.len());
                assert(recs[i][0] == 0);
                assert(q.index[p.index.len() + (i - before.len())].0 == record_outpoint(recs[i]));
                let k = choose|k: int| 0 <= k < keys_of(rest).len() && keys_of(rest)[k] == outpoint;
                assert(rest[k].0 == outpoint);
                assert(new_coins[k].0 == new_coins[n].0);
                assert(false);
            }
        }
        let rec = record_bytes(outpoint, c);
        record_round_trip(outpoint, c);
        lemma_one_more(base, q, record_offset(q.total), rec);
        lemma_append(applied(base, q.writes), q.total, rec);
        assert(records_now(base, r) == recs.push(rec));
        assert(recs.push(rec).drop_last() =~= recs);
        let after = record_coins(records_now(base, r))->Ok_0;
        assert(after =~= listed.push((outpoint, unspent_view(c))));
        assert(keys_of(after) =~= keys_of(listed).push(outpoint));
        assert(keys_of(new_coins) =~= keys_of(rest).push(outpoint));
        assert(keys_of(after) =~= keys_of(coins) + keys_of(new_coins));
    }
}

/// A scan brings its coins, each once, behind those that were there: the outpoints of the
/// coins are those of before and then those of the new coins.
#[verifier::spinoff_prover]
#[verifier::rlimit(60)]
pub proof fn scan_brings_coins(
    v: StoreView,
    file: Seq<u8>,
    coins: Seq<(Outpoint, CoinView)>,
    height: u32,
    new_coins: Seq<(Outpoint, CoinView)>,
    newly_spent: Seq<(Outpoint, SpentBy)>,
)
    requires
        consistent(v, file),
        record_coins(records(file, v.total)) == Ok::<_, WalletStoreError>(coins),
        scan_accepted(v, height, new_coins, newly_spent),
        scan_in_range(v, height, new_coins, newly_spent),
        distinct_keys(new_coins),
        forall|k: int|
            0 <= k < coins.len() ==> !keys_of(new_coins).contains((#[trigger] coins[k]).0),
    ensures
        ({
            let w = scanned_store(v, height, new_coins, newly_spent);
            let after = scanned_file(v, file, height, new_coins, newly_spent);
            &&& consistent(w, after)
            &&& record_coins(records(after, w.total)) is Ok
            &&& keys_of(record_coins(records(after, w.total))->Ok_0) == keys_of(coins) + keys_of(
                new_coins,
            )
        }),
{
    let w = scanned_store(v, height, new_coins, newly_spent);
    let after = scanned_file(v, file, height, new_coins, newly_spent);
    let q = recording(unchanged(v), new_coins).0;
    let mid = records_now(file, q);
    let recs = records(after, w.total);
    lemma_scan(v, file, height, new_coins, newly_spent);
    lemma_not_indexed(v.index, records(file, v.total), coins, new_coins);
    assert(applied(file, unchanged(v).writes) == file);
    lemma_recorded_coins(file, unchanged(v), new_coins, coins, file.take(14));
    let listed = record_coins(mid)->Ok_0;
    lemma_coins_of(mid, listed);
    assert forall|i: int| 0 <= i < mid.len() implies {
        &&& (mid[i][0] == 2 <==> (#[trigger] recs[i])[0] == 2)
        &&& mid[i][0] != 2 ==> decoded_record(recs[i]) is Ok && record_outpoint(recs[i])
            == record_outpoint(mid[i])
    } by {
        if hit(w.index, keys_of(newly_spent), i) {
            let k = choose|k: int|
                0 <= k < keys_of(newly_spent).len() && #[trigger] leads(
                    w.index,
                    keys_of(newly_spent)[k],
                    i,
                );
            position_meaning(w.index, keys_of(newly_spent)[k]);
            let p = position_in(w.index, keys_of(newly_spent)[k]).unwrap();
            assert(mid[w.index[p].1 as int][0] != 2);
            assert(marked(mid[i], recs[i]));
            let by = choose|by: SpentBy| recs[i] == #[trigger] spent_record(mid[i], by);
            lemma_marks(mid[i], by);
            let c = decoded_record(mid[i])->Ok_0;
            lemma_spent_record(mid[i], by, c.0, c.1);
        }
    }
    lemma_same_keys(mid, recs, listed);
}

/// A disconnected block is undone, in every valid store: when the coins
/// that a scan added are removed, and those that it spent are unspent again, the coins are
/// those of before. The scan's new coins were not there yet, and the coins that it spent
/// were unspent.
#[verifier::spinoff_prover]
#[verifier::rlimit(60)]
pub proof fn disconnect_takes_scan_back(
    v: StoreView,
    file: Seq<u8>,
    coins: Seq<(Outpoint, CoinView)>,
    height: u32,
    new_coins: Seq<(Outpoint, CoinView)>,
    newly_spent: Seq<(Outpoint, SpentBy)>,
)
    requires
        consistent(v, file),
        record_coins(records(file, v.total)) == Ok::<_, WalletStoreError>(coins),
        scan_accepted(v, height, new_coins, newly_spent),
        scan_in_range(v, height, new_coins, newly_spent),
        forall|k: int|
            0 <= k < coins.len() ==> {
                &&& !keys_of(new_coins).contains((#[trigger] coins[k]).0)
                &&& keys_of(newly_spent).contains(coins[k].0) ==> coins[k].1.spent_by is None
            },
    ensures
        ({
            let w = scanned_store(v, height, new_coins, newly_spent);
            let scanned = scanned_file(v, file, height, new_coins, newly_spent);
            let x = disconnected_store(w, v.height, keys_of(new_coins), keys_of(newly_spent));
            let after = disconnected_file(
                w,
                scanned,
                v.height,
                keys_of(new_coins),
                keys_of(newly_spent),
            );
            &&& consistent(x, after)
            &&& x.height == v.height
            &&& record_coins(records(after, x.total)) == Ok::<_, WalletStoreError>(coins)
        }),
{
    let w = scanned_store(v, height, new_coins, newly_spent);
    let scanned = scanned_file(v, file, height, new_coins, newly_spent);
    let (added, spent) = (keys_of(new_coins), keys_of(newly_spent));
    let x = disconnected_store(w, v.height, added, spent);
    let after = disconnected_file(w, scanned, v.height, added, spent);
    let a = records(file, v.total);
    let q = recording(unchanged(v), new_coins).0;
    let b = records_now(file, q);
    let c = records(scanned, w.total);
    let d = records_now(scanned, removing(unchanged(w), added));
    let e = records(after, x.total);
    lemma_scan(v, file, height, new_coins, newly_spent);
    lemma_disconnect(w, scanned, v.height, added, spent);
    lemma_coins_of(a, coins);
    lemma_not_indexed(v.index, a, coins, new_coins);
    lemma_lengths(file, v.total);
    let n = a.len() as int;
    let old_len = v.index.len() as int;
    // A new coin leads to a new record, and an old one to an old record.
    assert forall|o: Outpoint, i: int| #[trigger] leads(w.index, o, i) implies (added.contains(o)
        <==> i >= n) by {
        position_meaning(w.index, o);
        let p = position_in(w.index, o).unwrap();
        if p < old_len {
            assert(w.index[p] == v.index[p]);
            if added.contains(o) {
                assert(position_in(v.index, o) is None);
                position_meaning(v.index, o);
            }
            assert(v.index[p].1 < a.len());
        } else {
            let j = n + (p - old_len);
            assert(w.index[old_len + (j - n)] == (record_outpoint(b[j]), j as u64));
        }
    }
    assert forall|i: int| n <= i < e.len() implies (#[trigger] e[i])[0] == 2 by {
        let o = record_outpoint(b[i]);
        let p = old_len + (i - n);
        assert(w.index[p] == (o, i as u64));
        position_found(w.index, p);
        assert(leads(w.index, o, i));
        assert(added.contains(o));
        let k = choose|k: int| 0 <= k < added.len() && added[k] == o;
        assert(leads(w.index, added[k], i));
        assert(hit(w.index, added, i));
        assert(d[i][0] == 2);
        if hit(x.index, spent, i) {
            let m = choose|m: int| 0 <= m < spent.len() && #[trigger] leads(x.index, spent[m], i);
            assert(leads(w.index, spent[m], i) && !added.contains(spent[m]));
        }
    }
    assert forall|i: int| 0 <= i < n implies {
        &&& (a[i][0] == 2 <==> (#[trigger] e[i])[0] == 2)
        &&& a[i][0] != 2 ==> decoded_record(e[i]) == decoded_record(a[i])
    } by {
        assert(b[i] == a[i]);
        if hit(w.index, added, i) {
            let k = choose|k: int| 0 <= k < added.len() && #[trigger] leads(w.index, added[k], i);
            assert(added.contains(added[k]));
        }
        assert(d[i] == c[i]);
        if hit(w.index, spent, i) {
            let k = choose|k: int| 0 <= k < spent.len() && #[trigger] leads(w.index, spent[k], i);
            let o = spent[k];
            assert(!added.contains(o));
            assert(leads(x.index, o, i));
            assert(hit(x.index, spent, i));
            assert(marked(b[i], c[i]));
            let by = choose|by: SpentBy| c[i] == #[trigger] spent_record(b[i], by);
            lemma_marks(a[i], by);
            assert(e[i] == unspent_record(a[i]));
            position_meaning(w.index, o);
            let p = position_in(w.index, o).unwrap();
            assert(b[w.index[p].1 as int][0] != 2);
            let coin = decoded_record(a[i])->Ok_0;
            assert(coins.contains(coin));
            let m = choose|m: int| 0 <= m < coins.len() && coins[m] == coin;
            lemma_decoded_outpoint(a[i]);
            assert(coins[m].0 == o);
            assert(spent.contains(o));
            lemma_unmarks(a[i]);
            lemma_unspent_record(a[i], coin.0, coin.1);
        } else {
            assert(c[i] == b[i]);
            if hit(x.index, spent, i) {
                let k = choose|k: int|
                    0 <= k < spent.len() && #[trigger] leads(x.index, spent[k], i);
                assert(leads(w.index, spent[k], i));
                assert(hit(w.index, spent, i));
            }
            assert(e[i] == a[i]);
        }
    }
    lemma_same_coins(a, e);
}

proof fn lemma_indexed_from(p: Progress, coins: Seq<(Outpoint, CoinView)>, o: Outpoint)
    requires
        position_in(recording(p, coins).0.index, o) is Some,
    ensures
        position_in(p.index, o) is Some || keys_of(coins).contains(o),
    decreases coins.len(),
{
    if coins.len() > 0 {
        let rest = coins.drop_last();
        let q = recording(p, rest).0;
        let n = coins.len() - 1;
        if position_in(q.index, o) is Some {
            lemma_indexed_from(p, rest, o);
            if keys_of(rest).contains(o) {
                let k = choose|k: int| 0 <= k < keys_of(rest).len() && keys_of(rest)[k] == o;
                assert(keys_of(coins)[k] == o);
            }
        } else {
            position_pushed(q.index, (coins.last().0, q.total as u64), o);
            assert(keys_of(coins)[n] == o);
        }
    }
}

/// Coins that were all recorded anew can be recorded in any store.
proof fn lemma_accepted_again(p: Progress, other: Progress, coins: Seq<(Outpoint, CoinView)>)
    requires
        recording(p, coins).1 is None,
        forall|o: Outpoint|
            keys_of(coins).contains(o) ==> (#[trigger] position_in(p.index, o)) is None,
    ensures
        recording(other, coins).1 is None,
    decreases coins.len(),
{
    if coins.len() > 0 {
        let rest = coins.drop_last();
        let o = coins.last().0;
        let n = coins.len() - 1;
        assert(keys_of(coins)[n] == o);
        assert(keys_of(coins).contains(o));
        assert forall|o: Outpoint| keys_of(rest).contains(o) implies (#[trigger] position_in(
            p.index,
            o,
        )) is None by {
            let k = choose|k: int| 0 <= k < keys_of(rest).len() && keys_of(rest)[k] == o;
            assert(keys_of(coins)[k] == o);
        }
        lemma_accepted_again(p, other, rest);
        if position_in(recording(p, rest).0.index, o) is Some {
            lemma_indexed_from(p, rest, o);
            lemma_recorded(other, rest);
            let k = choose|k: int| 0 <= k < keys_of(rest).len() && keys_of(rest)[k] == o;
            assert(rest[k].0 == o);
        }
    }
}

/// A block that was scanned and disconnected can be scanned again: the scan is accepted, and
/// every coin of it is there again, once.
pub proof fn scan_can_be_made_again(
    v: StoreView,
    file: Seq<u8>,
    coins: Seq<(Outpoint, CoinView)>,
    height: u32,
    new_coins: Seq<(Outpoint, CoinView)>,
    newly_spent: Seq<(Outpoint, SpentBy)>,
)
    requires
        consistent(v, file),
        record_coins(records(file, v.total)) == Ok::<_, WalletStoreError>(coins),
        scan_accepted(v, height, new_coins, newly_spent),
        scan_in_range(v, height, new_coins, newly_spent),
        distinct_keys(new_coins),
        forall|k: int|
            0 <= k < coins.len() ==> {
                &&& !keys_of(new_coins).contains((#[trigger] coins[k]).0)
                &&& keys_of(newly_spent).contains(coins[k].0) ==> coins[k].1.spent_by is None
            },
        ({
            let w = scanned_store(v, height, new_coins, newly_spent);
            let x = disconnected_store(w, v.height, keys_of(new_coins), keys_of(newly_spent));
            scan_in_range(x, height, new_coins, newly_spent)
        }),
    ensures
        ({
            let w = scanned_store(v, height, new_coins, newly_spent);
            let scanned = scanned_file(v, file, height, new_coins, newly_spent);
            let x = disconnected_store(w, v.height, keys_of(new_coins), keys_of(newly_spent));
            let back = disconnected_file(
                w,
                scanned,
                v.height,
                keys_of(new_coins),
                keys_of(newly_spent),
            );
            let y = scanned_store(x, height, new_coins, newly_spent);
            let after = scanned_file(x, back, height, new_coins, newly_spent);
            &&& scan_accepted(x, height, new_coins, newly_spent)
            &&& consistent(y, after)
            &&& y.height == height
            &&& record_coins(records(after, y.total)) is Ok
            &&& keys_of(record_coins(records(after, y.total))->Ok_0) == keys_of(coins) + keys_of(
                new_coins,
            )
        }),
{
    let w = scanned_store(v, height, new_coins, newly_spent);
    let scanned = scanned_file(v, file, height, new_coins, newly_spent);
    let x = disconnected_store(w, v.height, keys_of(new_coins), keys_of(newly_spent));
    let back = disconnected_file(
        w,
        scanned,
        v.height,
        keys_of(new_coins),
        keys_of(newly_spent),
    );
    disconnect_takes_scan_back(v, file, coins, height, new_coins, newly_spent);
    lemma_not_indexed(v.index, records(file, v.total), coins, new_coins);
    lemma_accepted_again(unchanged(v), unchanged(x), new_coins);
    scan_brings_coins(x, back, coins, height, new_coins, newly_spent);
}

} // verus!
