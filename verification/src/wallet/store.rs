//! The file format of the wallet's store, and how scans change such a file.
//!
//! A store is a header of fourteen bytes and records of equal length. The functions here
//! work on the bytes of the file and keep a list of the writes that bring a file on disk
//! up to date.

use vstd::prelude::*;
use vstd::string::StringExecFns;
use crate::bytes::{
    array_of, array_of_view, be_value, bytes_equal, get_array, get_le32, get_le64, le32,
    le32_spells, le32_value, le32_value_spells, le64, le64_spells, le64_value, le64_value_spells,
    put_bytes, put_le32, put_le64, to_vec,
};
use crate::outpoints::{
    distinct_keys, map_of, position_in, position_meaning, with_entry, with_entry_inserts,
    without_entry_removes, Outpoint, OutpointMap,
};
use crate::secp::{curve_order, Scalar};
use crate::text::{decimal, push_decimal};
use crate::wallet::coins::{coin_views, Coin, CoinView, SpentBy};
use crate::wallet::persistence::lemma_header_write;
use crate::wallet::reopening::{
    lemma_append_in_file, lemma_bury_in_file, lemma_index_leads, lemma_mark_in_file,
    lemma_unmark_in_file,
};
use crate::wallet::Network;

verus! {

/// Why reading or writing a file failed.
#[derive(Clone, Debug, PartialEq, Eq)]
pub enum StoreIoError {
    /// The file ends too early.
    UnexpectedEof,
    /// The file is there already.
    AlreadyExists,
    /// Anything else, in the system's words.
    Other(String),
}

/// Why a store could not be read or changed.
#[derive(Clone, Debug, PartialEq, Eq)]
pub enum WalletStoreError {
    Io(StoreIoError),
    BadMagic,
    WrongVersion(u8),
    UnknownNetwork(u8),
    UnknownStatus(u8),
    UnknownLabelTag(u8),
    InvalidScalar,
    NonP2trScript { got: usize },
}

/// The text of a failed file operation.
pub open spec fn io_error_text(e: StoreIoError) -> Seq<char> {
    match e {
        StoreIoError::UnexpectedEof => "failed to fill whole buffer"@,
        StoreIoError::AlreadyExists => "File exists (os error 17)"@,
        StoreIoError::Other(s) => s@,
    }
}

/// The text of a store error.
pub open spec fn store_error_text(e: WalletStoreError) -> Seq<char> {
    match e {
        WalletStoreError::Io(e) => "i/o: "@ + io_error_text(e),
        WalletStoreError::BadMagic => "bad magic bytes"@,
        WalletStoreError::WrongVersion(v) => "unsupported version: "@ + decimal(v as nat),
        WalletStoreError::UnknownNetwork(n) => "unknown network byte: "@ + decimal(n as nat),
        WalletStoreError::UnknownStatus(s) => "unknown record status byte: "@ + decimal(s as nat),
        WalletStoreError::UnknownLabelTag(t) => "unknown label tag byte: "@ + decimal(t as nat),
        WalletStoreError::InvalidScalar => "invalid scalar in record"@,
        WalletStoreError::NonP2trScript { got } => "script_pubkey is "@ + decimal(got as nat)
            + " bytes, expected 34"@,
    }
}

impl WalletStoreError {
    /// The error in words.
    pub fn message(&self) -> (r: String)
        ensures
            r@ == store_error_text(*self),
    {
        let mut r = String::new();
        match self {
            WalletStoreError::Io(e) => {
                r.append("i/o: ");
                match e {
                    StoreIoError::UnexpectedEof => r.append("failed to fill whole buffer"),
                    StoreIoError::AlreadyExists => r.append("File exists (os error 17)"),
                    StoreIoError::Other(s) => r.append(s.as_str()),
                }
            },
            WalletStoreError::BadMagic => r.append("bad magic bytes"),
            WalletStoreError::WrongVersion(v) => {
                r.append("unsupported version: ");
                push_decimal(&mut r, *v as u64);
            },
            WalletStoreError::UnknownNetwork(n) => {
                r.append("unknown network byte: ");
                push_decimal(&mut r, *n as u64);
            },
            WalletStoreError::UnknownStatus(s) => {
                r.append("unknown record status byte: ");
                push_decimal(&mut r, *s as u64);
            },
            WalletStoreError::UnknownLabelTag(t) => {
                r.append("unknown label tag byte: ");
                push_decimal(&mut r, *t as u64);
            },
            WalletStoreError::InvalidScalar => r.append("invalid scalar in record"),
            WalletStoreError::NonP2trScript { got } => {
                r.append("script_pubkey is ");
                push_decimal(&mut r, *got as u64);
                r.append(" bytes, expected 34");
            },
        }
        assert(r@ =~= store_error_text(*self));
        r
    }
}

/// The byte that stands for a network.
pub open spec fn network_byte(n: Network) -> u8 {
    match n {
        Network::Mainnet => 0,
        Network::Testnet => 1,
        Network::Regtest => 2,
    }
}

/// The network that a byte stands for.
pub open spec fn byte_network(b: u8) -> Option<Network> {
    if b == 0 {
        Some(Network::Mainnet)
    } else if b == 1 {
        Some(Network::Testnet)
    } else if b == 2 {
        Some(Network::Regtest)
    } else {
        None
    }
}

/// A network is read back from its byte.
pub proof fn network_round_trip(n: Network)
    ensures
        byte_network(network_byte(n)) == Some(n),
{
}

/// The byte that stands for a network.
pub fn encode_network(n: Network) -> (r: u8)
    ensures
        r == network_byte(n),
{
    match n {
        Network::Mainnet => 0,
        Network::Testnet => 1,
        Network::Regtest => 2,
    }
}

/// The network that a byte stands for.
pub fn decode_network(b: u8) -> (r: Result<Network, WalletStoreError>)
    ensures
        r == (match byte_network(b) {
            Some(n) => Ok(n),
            None => Err(WalletStoreError::UnknownNetwork(b)),
        }),
{
    match b {
        0 => Ok(Network::Mainnet),
        1 => Ok(Network::Testnet),
        2 => Ok(Network::Regtest),
        n => Err(WalletStoreError::UnknownNetwork(n)),
    }
}

/// Whether `s` is a scalar, most significant byte first.
pub open spec fn scalar_bytes(s: Seq<u8>) -> bool {
    s.len() == 32 && be_value(s) < curve_order()
}

/// Whether a coin can be recorded: its script is as long as a taproot output's, and its
/// scalars are scalars.
pub open spec fn storable(c: CoinView) -> bool {
    &&& c.script_pubkey.len() == 34
    &&& scalar_bytes(c.tweak)
    &&& c.label matches Some(l) ==> scalar_bytes(l)
}

/// `n` bytes of zero.
pub open spec fn zeros(n: nat) -> Seq<u8> {
    Seq::new(n, |i: int| 0u8)
}

/// The record of a coin as it is when it is received.
#[verifier::opaque]
pub open spec fn record_bytes(outpoint: Outpoint, c: CoinView) -> Seq<u8> {
    seq![0u8] + outpoint.txid@ + le32(outpoint.vout) + le64(c.value) + c.script_pubkey + c.tweak + (
    match c.label {
        Some(l) => seq![1u8] + l,
        None => seq![0u8] + zeros(32),
    }) + le32(c.block_height) + zeros(36)
}

/// The outpoint of a record.
pub open spec fn record_outpoint(rec: Seq<u8>) -> Outpoint {
    Outpoint { txid: array_of(rec.subrange(1, 33)), vout: le32_value(rec.subrange(33, 37)) }
}

/// What a record says of what spent its coin.
pub open spec fn record_spent_by(rec: Seq<u8>) -> Option<SpentBy> {
    if rec[0] == 1 {
        Some(
            SpentBy {
                txid: array_of(rec.subrange(148, 180)),
                block_height: le32_value(rec.subrange(180, 184)),
            },
        )
    } else {
        None
    }
}

/// The coin of a record, which must not be a tombstone.
#[verifier::opaque]
pub open spec fn decoded_record(rec: Seq<u8>) -> Result<(Outpoint, CoinView), WalletStoreError> {
    if rec[0] != 0 && rec[0] != 1 {
        Err(WalletStoreError::UnknownStatus(rec[0]))
    } else if be_value(rec.subrange(79, 111)) >= curve_order() {
        Err(WalletStoreError::InvalidScalar)
    } else if rec[111] != 0 && rec[111] != 1 {
        Err(WalletStoreError::UnknownLabelTag(rec[111]))
    } else if rec[111] == 1 && be_value(rec.subrange(112, 144)) >= curve_order() {
        Err(WalletStoreError::InvalidScalar)
    } else {
        Ok(
            (
                record_outpoint(rec),
                CoinView {
                    value: le64_value(rec.subrange(37, 45)),
                    script_pubkey: rec.subrange(45, 79),
                    tweak: rec.subrange(79, 111),
                    label: if rec[111] == 1 {
                        Some(rec.subrange(112, 144))
                    } else {
                        None
                    },
                    block_height: le32_value(rec.subrange(144, 148)),
                    spent_by: record_spent_by(rec),
                },
            ),
        )
    }
}

/// A coin as it is when it is received.
pub open spec fn unspent_view(c: CoinView) -> CoinView {
    CoinView { spent_by: None, ..c }
}

/// A recorded coin is read back as it was, but unspent.
pub proof fn record_round_trip(outpoint: Outpoint, c: CoinView)
    requires
        storable(c),
    ensures
        record_bytes(outpoint, c).len() == 184,
        record_bytes(outpoint, c)[0] == 0,
        record_outpoint(record_bytes(outpoint, c)) == outpoint,
        decoded_record(record_bytes(outpoint, c)) == Ok::<_, WalletStoreError>(
            (outpoint, unspent_view(c)),
        ),
{
    broadcast use {crate::bytes::le32_round_trip, crate::bytes::le64_round_trip};

    reveal(record_bytes);
    reveal(decoded_record);
    let rec = record_bytes(outpoint, c);
    assert(rec.subrange(1, 33) =~= outpoint.txid@);
    array_of_view(outpoint.txid);
    assert(rec.subrange(33, 37) =~= le32(outpoint.vout));
    assert(rec.subrange(37, 45) =~= le64(c.value));
    assert(rec.subrange(45, 79) =~= c.script_pubkey);
    assert(rec.subrange(79, 111) =~= c.tweak);
    if let Some(l) = c.label {
        assert(rec.subrange(112, 144) =~= l);
    }
    assert(rec.subrange(144, 148) =~= le32(c.block_height));
}

/// Where the parts of a record stand, and what their bytes spell; numbers have their least
/// significant byte first, and what is not used is zero.
pub proof fn records_have_their_layout(outpoint: Outpoint, c: CoinView)
    requires
        storable(c),
    ensures
        ({
            let rec = record_bytes(outpoint, c);
            &&& rec.len() == 184
            &&& rec[0] == 0
            &&& rec.subrange(1, 33) == outpoint.txid@
            &&& be_value(rec.subrange(33, 37).reverse()) == outpoint.vout
            &&& be_value(rec.subrange(37, 45).reverse()) == c.value
            &&& rec.subrange(45, 79) == c.script_pubkey
            &&& rec.subrange(79, 111) == c.tweak
            &&& c.label matches Some(l) ==> rec[111] == 1 && rec.subrange(112, 144) == l
            &&& c.label is None ==> forall|i: int| 111 <= i < 144 ==> #[trigger] rec[i] == 0
            &&& be_value(rec.subrange(144, 148).reverse()) == c.block_height
            &&& forall|i: int| 148 <= i < 184 ==> #[trigger] rec[i] == 0
        }),
{
    reveal(record_bytes);
    let rec = record_bytes(outpoint, c);
    le32_spells(outpoint.vout);
    le64_spells(c.value);
    le32_spells(c.block_height);
    assert(rec.subrange(1, 33) =~= outpoint.txid@);
    assert(rec.subrange(33, 37) =~= le32(outpoint.vout));
    assert(rec.subrange(37, 45) =~= le64(c.value));
    assert(rec.subrange(45, 79) =~= c.script_pubkey);
    assert(rec.subrange(79, 111) =~= c.tweak);
    if let Some(l) = c.label {
        assert(rec.subrange(112, 144) =~= l);
    }
    assert(rec.subrange(144, 148) =~= le32(c.block_height));
}

/// What a record that can be read says, by the places of its bytes.
pub proof fn records_are_read_by_their_layout(rec: Seq<u8>, txid: [u8; 32], by_txid: [u8; 32])
    requires
        rec.len() == 184,
        txid@ == rec.subrange(1, 33),
        by_txid@ == rec.subrange(148, 180),
    ensures
        decoded_record(rec) matches Ok((outpoint, c)) ==> {
            &&& outpoint.txid == txid
            &&& outpoint.vout == be_value(rec.subrange(33, 37).reverse())
            &&& c.value == be_value(rec.subrange(37, 45).reverse())
            &&& c.script_pubkey == rec.subrange(45, 79)
            &&& c.tweak == rec.subrange(79, 111) && be_value(c.tweak) < curve_order()
            &&& rec[111] == 0 ==> c.label is None
            &&& rec[111] == 1 ==> c.label == Some(rec.subrange(112, 144)) && be_value(
                rec.subrange(112, 144),
            ) < curve_order()
            &&& rec[111] <= 1
            &&& c.block_height == be_value(rec.subrange(144, 148).reverse())
            &&& rec[0] == 0 ==> c.spent_by is None
            &&& rec[0] == 1 ==> c.spent_by is Some && c.spent_by.unwrap().txid == by_txid
                && c.spent_by.unwrap().block_height == be_value(rec.subrange(180, 184).reverse())
            &&& rec[0] <= 1
        },
        rec[0] <= 1 && rec[111] <= 1 && be_value(rec.subrange(79, 111)) < curve_order() && (rec[111]
            == 1 ==> be_value(rec.subrange(112, 144)) < curve_order()) ==> decoded_record(
            rec,
        ) is Ok,
{
    reveal(decoded_record);
    array_of_view(txid);
    array_of_view(by_txid);
    le32_value_spells(rec.subrange(33, 37));
    le64_value_spells(rec.subrange(37, 45));
    le32_value_spells(rec.subrange(144, 148));
    le32_value_spells(rec.subrange(180, 184));
}

/// A store's file begins with the letters SPWF, the version and the network, and goes on with
/// the height and the number of records, least significant byte first.
pub proof fn headers_have_their_layout(network: Network, height: u32, total: u32)
    ensures
        ({
            let h = header_bytes(network, height, total);
            &&& h.len() == 14
            &&& h[0] == 'S' as u8 && h[1] == 'P' as u8 && h[2] == 'W' as u8 && h[3] == 'F' as u8
            &&& h[4] == 1
            &&& network is Mainnet ==> h[5] == 0
            &&& network is Testnet ==> h[5] == 1
            &&& network is Regtest ==> h[5] == 2
            &&& be_value(h.subrange(6, 10).reverse()) == height
            &&& be_value(h.subrange(10, 14).reverse()) == total
        }),
{
    let h = header_bytes(network, height, total);
    le32_spells(height);
    le32_spells(total);
    assert(h.subrange(6, 10) =~= le32(height));
    assert(h.subrange(10, 14) =~= le32(total));
}

/// What a file that opens says, by the places of its bytes; a file opens just where they are
/// in order.
pub proof fn files_are_read_by_their_layout(file: Seq<u8>)
    ensures
        parsed_store(file) matches Ok(v) ==> {
            &&& v.height == be_value(file.subrange(6, 10).reverse())
            &&& v.total == be_value(file.subrange(10, 14).reverse())
            &&& v.network is Mainnet <==> file[5] == 0
            &&& v.network is Testnet <==> file[5] == 1
            &&& v.network is Regtest <==> file[5] == 2
        },
        parsed_store(file) is Ok <==> {
            &&& file.len() >= 14
            &&& file[0] == 'S' as u8 && file[1] == 'P' as u8 && file[2] == 'W' as u8 && file[3]
                == 'F' as u8
            &&& file[4] == 1
            &&& file[5] <= 2
            &&& file.len() >= 14 + 184 * be_value(file.subrange(10, 14).reverse())
        },
{
    if file.len() >= 14 {
        le32_value_spells(file.subrange(6, 10));
        le32_value_spells(file.subrange(10, 14));
        let magic = seq![0x53u8, 0x50u8, 0x57u8, 0x46u8];
        if file[0] == 0x53 && file[1] == 0x50 && file[2] == 0x57 && file[3] == 0x46 {
            assert(file.take(4) =~= magic);
        }
        if file.take(4) == magic {
            assert(file.take(4)[0] == 0x53 && file.take(4)[1] == 0x50 && file.take(4)[2] == 0x57
                && file.take(4)[3] == 0x46);
        }
    }
}

fn put_zeros(out: &mut Vec<u8>, n: usize)
    ensures
        final(out)@ == old(out)@ + zeros(n as nat),
{
    let ghost before = out@;
    let mut i: usize = 0;
    while i < n
        invariant
            i <= n,
            out@ == before + zeros(i as nat),
        decreases n - i,
    {
        out.push(0);
        i = i + 1;
        assert(out@ =~= before + zeros(i as nat));
    }
}

/// The record of a coin. Whatever the coin says of what spent it is left out.
pub fn encode_record(outpoint: &Outpoint, coin: &Coin) -> (r: Result<[u8; 184], WalletStoreError>)
    ensures
        match r {
            Ok(rec) => {
                &&& storable(coin@)
                &&& rec@ == record_bytes(*outpoint, coin@)
            },
            Err(e) => {
                &&& coin.script_pubkey@.len() != 34
                &&& e == WalletStoreError::NonP2trScript { got: coin.script_pubkey@.len() as usize }
            },
        },
{
    if coin.script_pubkey.len() != 34 {
        return Err(WalletStoreError::NonP2trScript { got: coin.script_pubkey.len() });
    }
    let mut out: Vec<u8> = Vec::new();
    out.push(0);
    put_bytes(&mut out, &outpoint.txid);
    put_le32(&mut out, outpoint.vout);
    put_le64(&mut out, coin.value);
    put_bytes(&mut out, coin.script_pubkey.as_slice());
    put_bytes(&mut out, &coin.tweak.to_be_bytes());
    match &coin.label {
        Some(scalar) => {
            out.push(1);
            put_bytes(&mut out, &scalar.to_be_bytes());
        },
        None => {
            out.push(0);
            put_zeros(&mut out, 32);
        },
    }
    put_le32(&mut out, coin.block_height);
    put_zeros(&mut out, 36);
    proof {
        reveal(record_bytes);
        assert(out@ =~= record_bytes(*outpoint, coin@));
        record_round_trip(*outpoint, coin@);
    }
    let rec: [u8; 184] = get_array(out.as_slice(), 0);
    assert(rec@ =~= out@);
    Ok(rec)
}

/// The coin of a record, which must not be a tombstone.
pub fn decode_record(rec: &[u8; 184]) -> (r: Result<(Outpoint, Coin), WalletStoreError>)
    requires
        rec@[0] != 2,
    ensures
        match r {
            Ok((outpoint, coin)) => decoded_record(rec@) == Ok::<_, WalletStoreError>(
                (outpoint, coin@),
            ),
            Err(e) => decoded_record(rec@) == Err::<(Outpoint, CoinView), _>(e),
        },
{
    proof {
        reveal(decoded_record);
    }
    let status: u8 = rec[0];
    if status != 0 && status != 1 {
        return Err(WalletStoreError::UnknownStatus(status));
    }
    let txid: [u8; 32] = get_array(rec, 1);
    let outpoint = Outpoint { txid, vout: get_le32(rec, 33) };
    let value: u64 = get_le64(rec, 37);
    let script: [u8; 34] = get_array(rec, 45);
    let script_pubkey = to_vec(&script);
    let tweak_bytes: [u8; 32] = get_array(rec, 79);
    let tweak = match Scalar::from_be_bytes(tweak_bytes) {
        Some(s) => s,
        None => {
            return Err(WalletStoreError::InvalidScalar);
        },
    };
    let label_tag: u8 = rec[111];
    let label = if label_tag == 0 {
        None
    } else if label_tag == 1 {
        let label_bytes: [u8; 32] = get_array(rec, 112);
        match Scalar::from_be_bytes(label_bytes) {
            Some(s) => Some(s),
            None => {
                return Err(WalletStoreError::InvalidScalar);
            },
        }
    } else {
        return Err(WalletStoreError::UnknownLabelTag(label_tag));
    };
    let block_height: u32 = get_le32(rec, 144);
    let spent_by = if status == 1 {
        let spent_txid: [u8; 32] = get_array(rec, 148);
        proof {
            array_of_view(spent_txid);
        }
        Some(SpentBy { txid: spent_txid, block_height: get_le32(rec, 180) })
    } else {
        None
    };
    proof {
        array_of_view(txid);
    }
    Ok((outpoint, Coin { value, script_pubkey, tweak, label, block_height, spent_by }))
}

/// A write to the file of a store.
#[derive(Clone)]
pub struct FileWrite {
    pub offset: u64,
    pub data: Vec<u8>,
}

/// What a write says.
#[verifier::ext_equal]
pub struct WriteView {
    pub offset: nat,
    pub data: Seq<u8>,
}

impl View for FileWrite {
    type V = WriteView;

    open spec fn view(&self) -> WriteView {
        WriteView { offset: self.offset as nat, data: self.data@ }
    }
}

/// Writes as values.
pub open spec fn write_views(writes: Seq<FileWrite>) -> Seq<WriteView> {
    writes.map_values(|w: FileWrite| w@)
}

/// The bytes of a file after `data` was written at `offset`.
pub open spec fn written(file: Seq<u8>, offset: nat, data: Seq<u8>) -> Seq<u8> {
    let end = offset + data.len();
    let len = if end > file.len() {
        end
    } else {
        file.len()
    };
    Seq::new(
        len,
        |i: int|
            if offset <= i < end {
                data[i - offset]
            } else if i < file.len() {
                file[i]
            } else {
                0u8
            },
    )
}

/// The bytes of a file after writes, in order.
pub open spec fn applied(file: Seq<u8>, writes: Seq<WriteView>) -> Seq<u8>
    decreases writes.len(),
{
    if writes.len() == 0 {
        file
    } else {
        written(applied(file, writes.drop_last()), writes.last().offset, writes.last().data)
    }
}

/// The header of a store.
pub open spec fn header_bytes(network: Network, height: u32, total: u32) -> Seq<u8> {
    seq![0x53u8, 0x50u8, 0x57u8, 0x46u8, 1u8, network_byte(network)] + le32(height) + le32(total)
}

/// Where record `i` begins.
pub open spec fn record_offset(i: nat) -> nat {
    14 + 184 * i
}

/// The first `n` records of a file.
pub open spec fn records(file: Seq<u8>, n: nat) -> Seq<Seq<u8>> {
    Seq::new(n, |i: int| file.subrange(14 + 184 * i, 14 + 184 * i + 184))
}

/// The number of each record that is no tombstone, by its outpoint. Of several records
/// with one outpoint the last counts.
pub open spec fn record_index(recs: Seq<Seq<u8>>) -> Seq<(Outpoint, u64)>
    decreases recs.len(),
{
    if recs.len() == 0 {
        Seq::empty()
    } else {
        let before = record_index(recs.drop_last());
        if recs.last()[0] == 2 {
            before
        } else {
            with_entry(before, record_outpoint(recs.last()), (recs.len() - 1) as u64)
        }
    }
}

/// The coins of the records that are no tombstones, in order, or the first error among
/// them.
pub open spec fn record_coins(recs: Seq<Seq<u8>>) -> Result<
    Seq<(Outpoint, CoinView)>,
    WalletStoreError,
>
    decreases recs.len(),
{
    if recs.len() == 0 {
        Ok(Seq::empty())
    } else {
        match record_coins(recs.drop_last()) {
            Ok(before) => if recs.last()[0] == 2 {
                Ok(before)
            } else {
                match decoded_record(recs.last()) {
                    Ok(c) => Ok(before.push(c)),
                    Err(e) => Err(e),
                }
            },
            Err(e) => Err(e),
        }
    }
}

/// What an opened store knows of its file.
#[verifier::ext_equal]
pub struct StoreView {
    pub network: Network,
    pub height: u32,
    pub index: Seq<(Outpoint, u64)>,
    pub total: nat,
}

/// Whether an index leads to records: no outpoint stands in it twice, and each leads to a
/// record of it that is no tombstone.
pub open spec fn leads_to(index: Seq<(Outpoint, u64)>, recs: Seq<Seq<u8>>) -> bool {
    &&& distinct_keys(index)
    &&& forall|p: int|
        0 <= p < index.len() ==> {
            let e = #[trigger] index[p];
            &&& e.1 < recs.len()
            &&& recs[e.1 as int][0] != 2
            &&& record_outpoint(recs[e.1 as int]) == e.0
        }
}

/// Whether a store agrees with the records of its file: they lie in the file, and the index
/// leads to them. The header may be behind.
pub open spec fn consistent(v: StoreView, file: Seq<u8>) -> bool {
    &&& v.total <= u64::MAX
    &&& record_offset(v.total) <= file.len()
    &&& leads_to(v.index, records(file, v.total))
}

/// What is known of a file once it is opened.
pub open spec fn parsed_store(file: Seq<u8>) -> Result<StoreView, WalletStoreError> {
    if file.len() < 14 {
        Err(WalletStoreError::Io(StoreIoError::UnexpectedEof))
    } else if file.take(4) != seq![0x53u8, 0x50u8, 0x57u8, 0x46u8] {
        Err(WalletStoreError::BadMagic)
    } else if file[4] != 1 {
        Err(WalletStoreError::WrongVersion(file[4]))
    } else {
        match byte_network(file[5]) {
            None => Err(WalletStoreError::UnknownNetwork(file[5])),
            Some(network) => {
                let total = le32_value(file.subrange(10, 14)) as nat;
                if file.len() < record_offset(total) {
                    Err(WalletStoreError::Io(StoreIoError::UnexpectedEof))
                } else {
                    Ok(
                        StoreView {
                            network,
                            height: le32_value(file.subrange(6, 10)),
                            index: record_index(records(file, total)),
                            total,
                        },
                    )
                }
            },
        }
    }
}

/// A write puts its bytes where it says, and leaves the rest of the file as it is.
pub proof fn writes_change_their_place_only(file: Seq<u8>, offset: nat, data: Seq<u8>, i: int)
    requires
        offset <= file.len(),
        0 <= i,
    ensures
        written(file, offset, data).subrange(offset as int, (offset + data.len()) as int) == data,
        i < offset ==> written(file, offset, data)[i] == file[i],
        offset + data.len() <= i < file.len() ==> written(file, offset, data)[i] == file[i],
        written(file, offset, data).len() == if offset + data.len() > file.len() {
            (offset + data.len()) as int
        } else {
            file.len() as int
        },
{
    assert(written(file, offset, data).subrange(offset as int, (offset + data.len()) as int)
        =~= data);
}

/// The coins of two runs of records are those of the one and those of the other; a tombstone
/// has none, and any other record has the coin that it says.
pub proof fn record_coins_add_up(a: Seq<Seq<u8>>, b: Seq<Seq<u8>>, rec: Seq<u8>)
    ensures
        record_coins(a) is Ok && record_coins(b) is Ok ==> record_coins(a + b) == Ok::<
            _,
            WalletStoreError,
        >(record_coins(a)->Ok_0 + record_coins(b)->Ok_0),
        record_coins(a) is Err ==> record_coins(a + b) == record_coins(a),
        rec[0] == 2 ==> record_coins(seq![rec]) == Ok::<_, WalletStoreError>(
            Seq::<(Outpoint, CoinView)>::empty(),
        ),
        rec[0] != 2 && decoded_record(rec) is Ok ==> record_coins(seq![rec]) == Ok::<
            _,
            WalletStoreError,
        >(seq![decoded_record(rec)->Ok_0]),
        rec[0] != 2 && decoded_record(rec) is Err ==> record_coins(seq![rec]) is Err
            && record_coins(seq![rec])->Err_0 == decoded_record(rec)->Err_0,
    decreases b.len(),
{
    reveal_with_fuel(record_coins, 2);
    assert(seq![rec].drop_last() =~= Seq::empty());
    assert(Seq::<(Outpoint, CoinView)>::empty().push(decoded_record(rec)->Ok_0) =~= seq![
        decoded_record(rec)->Ok_0,
    ]);
    if b.len() == 0 {
        assert(a + b =~= a);
        if record_coins(a) is Ok {
            assert(record_coins(a)->Ok_0 + record_coins(b)->Ok_0 =~= record_coins(a)->Ok_0);
        }
    } else {
        record_coins_add_up(a, b.drop_last(), rec);
        assert((a + b).drop_last() =~= a + b.drop_last());
        if record_coins(a) is Ok && record_coins(b) is Ok {
            assert(record_coins(a + b)->Ok_0 =~= record_coins(a)->Ok_0 + record_coins(b)->Ok_0);
        }
    }
}

/// The index leads from an outpoint to its last record that is no tombstone.
pub proof fn index_leads_to_the_last_record(recs: Seq<Seq<u8>>, i: int)
    requires
        recs.len() <= u64::MAX,
        0 <= i < recs.len(),
        recs[i][0] != 2,
        forall|j: int|
            i < j < recs.len() ==> (#[trigger] recs[j])[0] == 2 || record_outpoint(recs[j])
                != record_outpoint(recs[i]),
    ensures
        map_of(record_index(recs)).contains_key(record_outpoint(recs[i])),
        map_of(record_index(recs))[record_outpoint(recs[i])] == i,
    decreases recs.len(),
{
    let fewer = recs.drop_last();
    let n = recs.len() - 1;
    let before = record_index(fewer);
    lemma_index_leads(fewer);
    with_entry_inserts(before, record_outpoint(recs.last()), n as u64);
    if i < n {
        assert(fewer[i] == recs[i]);
        assert forall|j: int| i < j < fewer.len() implies (#[trigger] fewer[j])[0] == 2
            || record_outpoint(fewer[j]) != record_outpoint(fewer[i]) by {
            assert(fewer[j] == recs[j]);
        }
        index_leads_to_the_last_record(fewer, i);
        assert(recs[n][0] == 2 || record_outpoint(recs[n]) != record_outpoint(recs[i]));
    }
}

/// The changes to a store in progress: the index, the number of records, and the writes
/// to its file so far.
#[verifier::ext_equal]
pub struct Progress {
    pub index: Seq<(Outpoint, u64)>,
    pub total: nat,
    pub writes: Seq<WriteView>,
}

/// A further write.
pub open spec fn and_write(p: Progress, offset: nat, data: Seq<u8>) -> Progress {
    Progress { writes: p.writes.push(WriteView { offset, data }), ..p }
}

/// Records new coins, in order. A coin whose outpoint has a record is passed over; at
/// the first coin that cannot be recorded it ends, with what was recorded before.
pub open spec fn recording(p: Progress, coins: Seq<(Outpoint, CoinView)>) -> (
    Progress,
    Option<WalletStoreError>,
)
    decreases coins.len(),
{
    if coins.len() == 0 {
        (p, None)
    } else {
        let (q, e) = recording(p, coins.drop_last());
        let (outpoint, c) = coins.last();
        if e is Some || position_in(q.index, outpoint) is Some {
            (q, e)
        } else if c.script_pubkey.len() != 34 {
            (
                q,
                Some(
                    WalletStoreError::NonP2trScript { got: c.script_pubkey.len() as usize },
                ),
            )
        } else {
            (
                Progress {
                    index: q.index.push((outpoint, q.total as u64)),
                    total: q.total + 1,
                    ..and_write(q, record_offset(q.total), record_bytes(outpoint, c))
                },
                None,
            )
        }
    }
}

/// Records what spent coins, in order. A coin without a record is passed over.
pub open spec fn spending(p: Progress, spent: Seq<(Outpoint, SpentBy)>) -> Progress
    decreases spent.len(),
{
    if spent.len() == 0 {
        p
    } else {
        let q = spending(p, spent.drop_last());
        let (outpoint, by) = spent.last();
        match position_in(q.index, outpoint) {
            Some(i) => {
                let base = record_offset(q.index[i].1 as nat);
                and_write(
                    and_write(
                        and_write(q, base + 148, by.txid@),
                        base + 180,
                        le32(by.block_height),
                    ),
                    base,
                    seq![1u8],
                )
            },
            None => q,
        }
    }
}

/// The changes that a scanned block makes: new coins first, so that a coin that is
/// received and spent in one block is both, then the spends, then the height.
pub open spec fn scanning(
    p: Progress,
    height: u32,
    new_coins: Seq<(Outpoint, CoinView)>,
    newly_spent: Seq<(Outpoint, SpentBy)>,
) -> (Progress, Option<WalletStoreError>) {
    let (q, e) = recording(p, new_coins);
    if e is Some {
        (q, e)
    } else {
        let counted = if q.total > p.total {
            and_write(q, 10, le32((q.total % 0x1_0000_0000) as u32))
        } else {
            q
        };
        (and_write(spending(counted, newly_spent), 6, le32(height)), None)
    }
}

/// Turns the records of coins into tombstones, in order. A coin without a record is
/// passed over.
pub open spec fn removing(p: Progress, removed: Seq<Outpoint>) -> Progress
    decreases removed.len(),
{
    if removed.len() == 0 {
        p
    } else {
        let q = removing(p, removed.drop_last());
        let outpoint = removed.last();
        match position_in(q.index, outpoint) {
            Some(i) => Progress {
                index: q.index.remove(i),
                ..and_write(q, record_offset(q.index[i].1 as nat), seq![2u8])
            },
            None => q,
        }
    }
}

/// Clears what spent coins, in order. A coin without a record is passed over.
pub open spec fn unspending(p: Progress, unspent: Seq<Outpoint>) -> Progress
    decreases unspent.len(),
{
    if unspent.len() == 0 {
        p
    } else {
        let q = unspending(p, unspent.drop_last());
        match position_in(q.index, unspent.last()) {
            Some(i) => {
                let base = record_offset(q.index[i].1 as nat);
                and_write(and_write(q, base + 148, zeros(36)), base, seq![0u8])
            },
            None => q,
        }
    }
}

/// The changes that a disconnected block makes.
pub open spec fn disconnecting(
    p: Progress,
    new_height: u32,
    removed: Seq<Outpoint>,
    unspent: Seq<Outpoint>,
) -> Progress {
    and_write(unspending(removing(p, removed), unspent), 6, le32(new_height))
}

/// A store of coins: the bytes of its file, where each coin's record is, and the writes
/// that the file on disk still lacks.
pub struct WalletStore {
    file: Vec<u8>,
    pending: Vec<FileWrite>,
    index: OutpointMap<u64>,
    pub network: Network,
    pub scan_height: u32,
    pub total_records: u64,
}

impl View for WalletStore {
    type V = StoreView;

    closed spec fn view(&self) -> StoreView {
        StoreView {
            network: self.network,
            height: self.scan_height,
            index: self.index.order(),
            total: self.total_records as nat,
        }
    }
}

fn overwrite(file: &mut Vec<u8>, offset: usize, data: &[u8])
    requires
        offset <= old(file)@.len(),
    ensures
        final(file)@ == written(old(file)@, offset as nat, data@),
{
    let ghost before = file@;
    let mut i: usize = 0;
    assert(file@ =~= written(before, offset as nat, data@.take(0)));
    while i < data.len()
        invariant
            i <= data@.len(),
            offset + i <= file@.len(),
            offset <= before.len(),
            file@ == written(before, offset as nat, data@.take(i as int)),
        decreases data@.len() - i,
    {
        let len: usize = file.len();
        assert(offset + i <= len);
        let at: usize = offset + i;
        if at < file.len() {
            file.set(at, data[i]);
        } else {
            file.push(data[i]);
        }
        i = i + 1;
        assert(file@ =~= written(before, offset as nat, data@.take(i as int)));
    }
    assert(data@.take(i as int) =~= data@);
}

impl WalletStore {
    /// The bytes of the store's file.
    pub closed spec fn file(&self) -> Seq<u8> {
        self.file@
    }

    /// The writes that the file on disk still lacks.
    pub closed spec fn pending(&self) -> Seq<WriteView> {
        write_views(self.pending@)
    }

    /// Whether the store agrees with the records of its file.
    pub open spec fn wf(&self) -> bool {
        consistent(self@, self.file()) && self.file().len() <= usize::MAX
    }

    /// A new store without coins. Where the file is there already, it is left alone.
    pub fn create(exists: bool, network: Network) -> (r: Result<Self, WalletStoreError>)
        ensures
            match r {
                Ok(s) => {
                    &&& !exists
                    &&& s.wf()
                    &&& s@ == StoreView { network, height: 0, index: Seq::empty(), total: 0 }
                    &&& s.file() == header_bytes(network, 0, 0)
                    &&& s.pending() == seq![WriteView { offset: 0, data: s.file() }]
                },
                Err(e) => exists && e == WalletStoreError::Io(StoreIoError::AlreadyExists),
            },
    {
        if exists {
            return Err(WalletStoreError::Io(StoreIoError::AlreadyExists));
        }
        let mut header: Vec<u8> = Vec::new();
        header.push(0x53);
        header.push(0x50);
        header.push(0x57);
        header.push(0x46);
        header.push(1);
        header.push(encode_network(network));
        put_le32(&mut header, 0);
        put_le32(&mut header, 0);
        assert(header@ =~= header_bytes(network, 0, 0));
        let data = to_vec(header.as_slice());
        let mut pending: Vec<FileWrite> = Vec::new();
        pending.push(FileWrite { offset: 0, data });
        let s = WalletStore {
            file: header,
            pending,
            index: OutpointMap::new(),
            network,
            scan_height: 0,
            total_records: 0,
        };
        assert(s.pending() =~= seq![WriteView { offset: 0, data: s.file() }]);
        Ok(s)
    }

    /// Opens the file of a store.
    pub fn open(file: &[u8]) -> (r: Result<Self, WalletStoreError>)
        ensures
            match r {
                Ok(s) => {
                    &&& s.wf()
                    &&& parsed_store(file@) == Ok::<_, WalletStoreError>(s@)
                    &&& s.file() == file@
                    &&& s.pending() == Seq::<WriteView>::empty()
                },
                Err(e) => parsed_store(file@) == Err::<StoreView, _>(e),
            },
    {
        if file.len() < 14 {
            return Err(WalletStoreError::Io(StoreIoError::UnexpectedEof));
        }
        let magic: [u8; 4] = get_array(file, 0);
        let expected: [u8; 4] = [0x53, 0x50, 0x57, 0x46];
        assert(magic@ =~= file@.take(4));
        assert(expected@ =~= seq![0x53u8, 0x50u8, 0x57u8, 0x46u8]);
        if !bytes_equal(&magic, &expected) {
            return Err(WalletStoreError::BadMagic);
        }
        if file[4] != 1 {
            return Err(WalletStoreError::WrongVersion(file[4]));
        }
        let network = match decode_network(file[5]) {
            Ok(n) => n,
            Err(e) => {
                return Err(e);
            },
        };
        let scan_height: u32 = get_le32(file, 6);
        let total: u32 = get_le32(file, 10);
        let len: usize = file.len();
        let mut index: OutpointMap<u64> = OutpointMap::new();
        let mut at: usize = 14;
        let mut i: u32 = 0;
        while i < total
            invariant
                i <= total,
                len == file@.len(),
                at == record_offset(i as nat),
                at <= len,
                total == le32_value(file@.subrange(10, 14)),
                index.wf(),
                index.order() == record_index(records(file@, i as nat)),
                forall|j: int| 0 <= j < index.order().len() ==> (#[trigger] index.order()[j]).1 < i,
                file@.len() < record_offset(total as nat) ==> parsed_store(file@) == Err::<
                    StoreView,
                    _,
                >(WalletStoreError::Io(StoreIoError::UnexpectedEof)),
            decreases total - i,
        {
            if len - at < 184 {
                return Err(WalletStoreError::Io(StoreIoError::UnexpectedEof));
            }
            let rec: [u8; 184] = get_array(file, at);
            proof {
                let recs = records(file@, (i + 1) as nat);
                assert(recs.drop_last() =~= records(file@, i as nat));
                assert(recs.last() =~= rec@);
            }
            if rec[0] != 2 {
                let txid: [u8; 32] = get_array(&rec, 1);
                let vout: u32 = get_le32(&rec, 33);
                let outpoint = Outpoint { txid, vout };
                proof {
                    array_of_view(txid);
                    position_meaning(index.order(), outpoint);
                }
                index.insert(outpoint, i as u64);
            }
            at = at + 184;
            i = i + 1;
        }
        let s = WalletStore {
            file: to_vec(file),
            pending: Vec::new(),
            index,
            network,
            scan_height,
            total_records: total as u64,
        };
        assert(s.pending() =~= Seq::<WriteView>::empty());
        proof {
            lemma_index_leads(records(file@, total as nat));
        }
        Ok(s)
    }

    /// The coins of the store, in the order of their records.
    pub fn coins(&self) -> (r: Result<Vec<(Outpoint, Coin)>, WalletStoreError>)
        requires
            self.wf(),
        ensures
            match r {
                Ok(coins) => record_coins(records(self.file(), self@.total)) == Ok::<
                    _,
                    WalletStoreError,
                >(coin_views(coins@)),
                Err(e) => record_coins(records(self.file(), self@.total)) == Err::<
                    Seq<(Outpoint, CoinView)>,
                    _,
                >(e),
            },
    {
        let mut result: Vec<(Outpoint, Coin)> = Vec::new();
        let mut at: usize = 14;
        let mut i: u64 = 0;
        assert(coin_views(result@) =~= Seq::empty());
        while i < self.total_records
            invariant
                i <= self.total_records,
                self@.total == self.total_records,
                self.wf(),
                self.file() == self.file@,
                at == record_offset(i as nat),
                record_coins(records(self.file(), i as nat)) == Ok::<_, WalletStoreError>(
                    coin_views(result@),
                ),
            decreases self.total_records - i,
        {
            assert(record_offset((i + 1) as nat) <= record_offset(self@.total));
            let rec: [u8; 184] = get_array(self.file.as_slice(), at);
            proof {
                let recs = records(self.file(), (i + 1) as nat);
                assert(recs.drop_last() =~= records(self.file(), i as nat));
                assert(recs.last() =~= rec@);
            }
            if rec[0] != 2 {
                match decode_record(&rec) {
                    Ok(c) => {
                        let ghost before = result@;
                        result.push(c);
                        assert(coin_views(result@) =~= coin_views(before).push((c.0, c.1@)));
                    },
                    Err(e) => {
                        proof {
                            lemma_record_error(records(self.file(), self@.total), (i + 1) as nat);
                            assert(records(self.file(), self@.total).take(i + 1) =~= records(
                                self.file(),
                                (i + 1) as nat,
                            ));
                        }
                        return Err(e);
                    },
                }
            }
            at = at + 184;
            i = i + 1;
        }
        Ok(result)
    }
}

proof fn lemma_record_error(recs: Seq<Seq<u8>>, n: nat)
    requires
        n <= recs.len(),
        record_coins(recs.take(n as int)) is Err,
    ensures
        record_coins(recs) == record_coins(recs.take(n as int)),
    decreases recs.len(),
{
    if n < recs.len() {
        assert(recs.drop_last().take(n as int) =~= recs.take(n as int));
        lemma_record_error(recs.drop_last(), n);
    } else {
        assert(recs.take(n as int) =~= recs);
    }
}

proof fn lemma_recording_ends(p: Progress, coins: Seq<(Outpoint, CoinView)>, n: nat)
    requires
        n <= coins.len(),
        recording(p, coins.take(n as int)).1 is Some,
    ensures
        recording(p, coins) == recording(p, coins.take(n as int)),
    decreases coins.len(),
{
    if n < coins.len() {
        assert(coins.drop_last().take(n as int) =~= coins.take(n as int));
        lemma_recording_ends(p, coins.drop_last(), n);
    } else {
        assert(coins.take(n as int) =~= coins);
    }
}

proof fn lemma_applied_push(file: Seq<u8>, writes: Seq<WriteView>, offset: nat, data: Seq<u8>)
    ensures
        applied(file, writes.push(WriteView { offset, data })) == written(
            applied(file, writes),
            offset,
            data,
        ),
{
    assert(writes.push(WriteView { offset, data }).drop_last() =~= writes);
}

impl WalletStore {
    /// The changes in progress since the store was `start`.
    spec fn since(&self, start: &WalletStore, writes: Seq<WriteView>) -> bool {
        &&& self.wf()
        &&& self@.network == start@.network
        &&& self@.height == start@.height
        &&& self.pending() == start.pending() + writes
        &&& self.file() == applied(start.file(), writes)
    }

    /// The store with no changes yet.
    pub open spec fn unchanged(&self) -> Progress {
        Progress { index: self@.index, total: self@.total, writes: Seq::empty() }
    }

    fn write(&mut self, offset: usize, data: &[u8])
        requires
            offset <= old(self).file().len(),
        ensures
            final(self).file().len() <= usize::MAX,
            final(self)@ == old(self)@,
            final(self).pending() == old(self).pending().push(
                WriteView { offset: offset as nat, data: data@ },
            ),
            final(self).file() == written(old(self).file(), offset as nat, data@),
    {
        overwrite(&mut self.file, offset, data);
        let ghost before = self.pending@;
        self.pending.push(FileWrite { offset: offset as u64, data: to_vec(data) });
        let len: usize = self.file.len();
        assert(write_views(self.pending@) =~= write_views(before).push(
            WriteView { offset: offset as nat, data: data@ },
        ));
    }

    /// Takes in a scanned block: coins that it brought, and what spent coins. On an error
    /// the coins before the one that cannot be recorded are kept, and nothing else is done.
    pub fn apply_scan(
        &mut self,
        height: u32,
        new_coins: &[(Outpoint, Coin)],
        newly_spent: &[(Outpoint, SpentBy)],
    ) -> (r: Result<(), WalletStoreError>)
        requires
            old(self).wf(),
        ensures
            final(self).wf(),
            ({
                let (p, e) = scanning(
                    old(self).unchanged(),
                    height,
                    coin_views(new_coins@),
                    newly_spent@,
                );
                &&& final(self)@ == (StoreView {
                    network: old(self)@.network,
                    height: if e is None {
                        height
                    } else {
                        old(self)@.height
                    },
                    index: p.index,
                    total: p.total,
                })
                &&& final(self).pending() == old(self).pending() + p.writes
                &&& final(self).file() == applied(old(self).file(), p.writes)
                &&& r == (match e {
                    None => Ok(()),
                    Some(e) => Err(e),
                })
            }),
    {
        let ghost start = *self;
        let ghost p0 = self.unchanged();
        let ghost views = coin_views(new_coins@);
        let ghost mut writes = Seq::<WriteView>::empty();
        let count_before: u64 = self.total_records;
        let mut i: usize = 0;
        assert(views.take(0) =~= Seq::empty());
        assert(self.pending() =~= start.pending() + writes);
        while i < new_coins.len()
            invariant
                i <= new_coins@.len(),
                views == coin_views(new_coins@),
                start == *old(self),
                self.since(&start, writes),
                p0 == start.unchanged(),
                recording(p0, views.take(i as int)) == (
                    Progress { index: self@.index, total: self@.total, writes },
                    None::<WalletStoreError>,
                ),
                self@.total >= count_before,
            decreases new_coins@.len() - i,
        {
            let outpoint = new_coins[i].0;
            let ghost next = views.take(i + 1);
            proof {
                assert(next.drop_last() =~= views.take(i as int));
                assert(next.last() == (outpoint, new_coins@[i as int].1@));
            }
            if !self.index.contains_key(&outpoint) {
                match encode_record(&outpoint, &new_coins[i].1) {
                    Ok(rec) => {
                        let number: u64 = self.total_records;
                        let at: usize = 14 + 184 * (number as usize);
                        proof {
                            record_round_trip(outpoint, new_coins@[i as int].1@);
                            lemma_applied_push(start.file(), writes, at as nat, rec@);
                            lemma_append_in_file(
                                self@.index,
                                self.file(),
                                number as nat,
                                outpoint,
                                rec@,
                            );
                        }
                        self.write(at, &rec);
                        let len: usize = self.file.len();
                        assert(record_offset(number as nat + 1) <= len);
                        proof {
                            position_meaning(self@.index, outpoint);
                        }
                        self.index.insert(outpoint, number);
                        self.total_records = number + 1;
                        proof {
                            writes = writes.push(WriteView { offset: at as nat, data: rec@ });
                            assert(self.pending() =~= start.pending() + writes);
                        }
                    },
                    Err(e) => {
                        proof {
                            assert(recording(p0, next) == (
                                Progress { index: self@.index, total: self@.total, writes },
                                Some(e),
                            ));
                            lemma_recording_ends(p0, views, (i + 1) as nat);
                        }
                        return Err(e);
                    },
                }
            }
            i = i + 1;
        }
        assert(views.take(i as int) =~= views);
        let ghost q = recording(p0, views).0;
        if self.total_records > count_before {
            let mut count: Vec<u8> = Vec::new();
            put_le32(&mut count, (self.total_records % 0x1_0000_0000) as u32);
            assert(count@ =~= le32((self.total_records % 0x1_0000_0000) as u32));
            proof {
                lemma_applied_push(start.file(), writes, 10, count@);
                lemma_header_write(self.file(), self@.total, 10, count@);
            }
            self.write(10, count.as_slice());
            proof {
                writes = writes.push(WriteView { offset: 10, data: count@ });
                assert(self.pending() =~= start.pending() + writes);
            }
        }
        let ghost counted = if q.total > p0.total {
            and_write(q, 10, le32((q.total % 0x1_0000_0000) as u32))
        } else {
            q
        };
        let mut j: usize = 0;
        assert(newly_spent@.take(0) =~= Seq::empty());
        while j < newly_spent.len()
            invariant
                j <= newly_spent@.len(),
                self.since(&start, writes),
                spending(counted, newly_spent@.take(j as int)) == (Progress {
                    index: self@.index,
                    total: self@.total,
                    writes,
                }),
            decreases newly_spent@.len() - j,
        {
            let outpoint = newly_spent[j].0;
            let spent_by = newly_spent[j].1;
            proof {
                let next = newly_spent@.take(j + 1);
                assert(next.drop_last() =~= newly_spent@.take(j as int));
                assert(next.last() == (outpoint, spent_by));
                position_meaning(self@.index, outpoint);
            }
            if let Some(k) = self.index.position(&outpoint) {
                let record_idx: u64 = self.index.at(k).1;
                let len: usize = self.file.len();
                proof {
                    assert(self@.index[k as int].1 < self@.total);
                    assert(record_offset(record_idx as nat) + 184 <= record_offset(self@.total));
                }
                let base: usize = 14 + 184 * (record_idx as usize);
                let mut spent_height: Vec<u8> = Vec::new();
                put_le32(&mut spent_height, spent_by.block_height);
                assert(spent_height@ =~= le32(spent_by.block_height));
                let status: [u8; 1] = [1];
                assert(status@ =~= seq![1u8]);
                proof {
                    let first = WriteView { offset: (base + 148) as nat, data: spent_by.txid@ };
                    let second = WriteView { offset: (base + 180) as nat, data: spent_height@ };
                    lemma_applied_push(start.file(), writes, first.offset, first.data);
                    lemma_applied_push(
                        start.file(),
                        writes.push(first),
                        second.offset,
                        second.data,
                    );
                    lemma_applied_push(
                        start.file(),
                        writes.push(first).push(second),
                        base as nat,
                        status@,
                    );
                    lemma_mark_in_file(
                        self@.index,
                        self.file(),
                        self@.total,
                        record_idx as nat,
                        spent_by,
                    );
                    writes = writes.push(first).push(second).push(
                        WriteView { offset: base as nat, data: status@ },
                    );
                }
                self.write(base + 148, &spent_by.txid);
                self.write(base + 180, spent_height.as_slice());
                self.write(base, &status);
                assert(self.pending() =~= start.pending() + writes);
            }
            j = j + 1;
        }
        assert(newly_spent@.take(j as int) =~= newly_spent@);
        let mut height_bytes: Vec<u8> = Vec::new();
        put_le32(&mut height_bytes, height);
        assert(height_bytes@ =~= le32(height));
        proof {
            lemma_applied_push(start.file(), writes, 6, height_bytes@);
            lemma_header_write(self.file(), self@.total, 6, height_bytes@);
        }
        self.write(6, height_bytes.as_slice());
        self.scan_height = height;
        proof {
            writes = writes.push(WriteView { offset: 6, data: height_bytes@ });
            assert(self.pending() =~= start.pending() + writes);
        }
        Ok(())
    }

    /// Takes a disconnected block back: coins that are gone, and coins that are unspent
    /// again.
    pub fn apply_disconnect(
        &mut self,
        new_height: u32,
        removed: &[Outpoint],
        unspent: &[Outpoint],
    )
        requires
            old(self).wf(),
        ensures
            final(self).wf(),
            ({
                let p = disconnecting(old(self).unchanged(), new_height, removed@, unspent@);
                &&& final(self)@ == (StoreView {
                    network: old(self)@.network,
                    height: new_height,
                    index: p.index,
                    total: p.total,
                })
                &&& final(self).pending() == old(self).pending() + p.writes
                &&& final(self).file() == applied(old(self).file(), p.writes)
            }),
    {
        let ghost start = *self;
        let ghost p0 = self.unchanged();
        let ghost mut writes = Seq::<WriteView>::empty();
        let mut i: usize = 0;
        assert(removed@.take(0) =~= Seq::empty());
        assert(self.pending() =~= start.pending() + writes);
        while i < removed.len()
            invariant
                i <= removed@.len(),
                self.since(&start, writes),
                removing(p0, removed@.take(i as int)) == (Progress {
                    index: self@.index,
                    total: self@.total,
                    writes,
                }),
            decreases removed@.len() - i,
        {
            let outpoint = removed[i];
            proof {
                let next = removed@.take(i + 1);
                assert(next.drop_last() =~= removed@.take(i as int));
                assert(next.last() == outpoint);
                position_meaning(self@.index, outpoint);
                without_entry_removes(self@.index, outpoint);
            }
            let ghost index_before = self@.index;
            if let Some(record_idx) = self.index.remove(&outpoint) {
                let ghost k = position_in(index_before, outpoint).unwrap();
                let len: usize = self.file.len();
                proof {
                    assert(index_before[k].1 == record_idx);
                    assert(record_offset(record_idx as nat) + 184 <= record_offset(self@.total));
                }
                let base: usize = 14 + 184 * (record_idx as usize);
                let status: [u8; 1] = [2];
                assert(status@ =~= seq![2u8]);
                proof {
                    lemma_applied_push(start.file(), writes, base as nat, status@);
                    lemma_bury_in_file(index_before, self.file(), self@.total, outpoint);
                    writes = writes.push(WriteView { offset: base as nat, data: status@ });
                }
                self.write(base, &status);
                assert(self.pending() =~= start.pending() + writes);
            }
            i = i + 1;
        }
        assert(removed@.take(i as int) =~= removed@);
        let ghost q = removing(p0, removed@);
        let mut j: usize = 0;
        assert(unspent@.take(0) =~= Seq::empty());
        while j < unspent.len()
            invariant
                j <= unspent@.len(),
                self.since(&start, writes),
                unspending(q, unspent@.take(j as int)) == (Progress {
                    index: self@.index,
                    total: self@.total,
                    writes,
                }),
            decreases unspent@.len() - j,
        {
            let outpoint = unspent[j];
            proof {
                let next = unspent@.take(j + 1);
                assert(next.drop_last() =~= unspent@.take(j as int));
                assert(next.last() == outpoint);
                position_meaning(self@.index, outpoint);
            }
            if let Some(k) = self.index.position(&outpoint) {
                let record_idx: u64 = self.index.at(k).1;
                let len: usize = self.file.len();
                proof {
                    assert(self@.index[k as int].1 < self@.total);
                    assert(record_offset(record_idx as nat) + 184 <= record_offset(self@.total));
                }
                let base: usize = 14 + 184 * (record_idx as usize);
                let mut cleared: Vec<u8> = Vec::new();
                put_zeros(&mut cleared, 36);
                assert(cleared@ =~= zeros(36));
                let status: [u8; 1] = [0];
                assert(status@ =~= seq![0u8]);
                proof {
                    let first = WriteView { offset: (base + 148) as nat, data: cleared@ };
                    lemma_applied_push(start.file(), writes, first.offset, first.data);
                    lemma_applied_push(start.file(), writes.push(first), base as nat, status@);
                    lemma_unmark_in_file(
                        self@.index,
                        self.file(),
                        self@.total,
                        record_idx as nat,
                    );
                    writes = writes.push(first).push(
                        WriteView { offset: base as nat, data: status@ },
                    );
                }
                self.write(base + 148, cleared.as_slice());
                self.write(base, &status);
                assert(self.pending() =~= start.pending() + writes);
            }
            j = j + 1;
        }
        assert(unspent@.take(j as int) =~= unspent@);
        let mut height_bytes: Vec<u8> = Vec::new();
        put_le32(&mut height_bytes, new_height);
        assert(height_bytes@ =~= le32(new_height));
        proof {
            lemma_applied_push(start.file(), writes, 6, height_bytes@);
            lemma_header_write(self.file(), self@.total, 6, height_bytes@);
        }
        self.write(6, height_bytes.as_slice());
        self.scan_height = new_height;
        proof {
            writes = writes.push(WriteView { offset: 6, data: height_bytes@ });
            assert(self.pending() =~= start.pending() + writes);
        }
    }

    /// The network of the store.
    pub fn network(&self) -> (r: Network)
        ensures
            r == self@.network,
    {
        self.network
    }

    /// The height up to which blocks were taken in.
    pub fn scan_height(&self) -> (r: u32)
        ensures
            r == self@.height,
    {
        self.scan_height
    }

    /// Hands out the writes that the file on disk lacks, in the order in which they are
    /// to be made.
    pub fn take_writes(&mut self) -> (r: Vec<FileWrite>)
        ensures
            write_views(r@) == old(self).pending(),
            final(self).pending() == Seq::<WriteView>::empty(),
            final(self)@ == old(self)@,
            final(self).file() == old(self).file(),
    {
        let mut r: Vec<FileWrite> = Vec::new();
        std::mem::swap(&mut r, &mut self.pending);
        assert(self.pending() =~= Seq::<WriteView>::empty());
        r
    }
}

} // verus!
