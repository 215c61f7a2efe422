//! Receivers, addresses and shared secrets of silent payments.
//!
//! The derivations are done by the `silentpayments` crate; the functions marked as trusted
//! are the only places that call it.

use vstd::prelude::*;
use vstd::multiset::Multiset;
use secp256k1::Error as CurveError;
use secp256k1::PublicKey as CurvePoint;
use secp256k1::SecretKey as CurveSecret;
use silentpayments::receiving::Receiver as SpReceiver;
use silentpayments::sending::generate_recipient_pubkeys;
use silentpayments::Error as SpError;
use silentpayments::Network as SpNetwork;
use silentpayments::SilentPaymentAddress as SpAddress;
use crate::chain::item_views;
use crate::bytes::{
    be_value, bytes_less, get_array, le32, le32_round_trip, le32_spells, lex_less,
    lex_less_by_value, put_le32,
};
use crate::secp::{
    curve_order, is_exponent, is_point_of, point_of, point_sum, point_times, point_views,
    KeyError, PublicKey, Scalar, SecretKey, XOnlyPublicKey,
};
use crate::silentpayments::{
    compute_input_hash, input_hash_of, is_scalar, label_tweak, label_tweak_of, output_key_of,
    output_tweak_of, ScanKey,
};
use crate::silentpayments::scanning::p2tr;
use crate::text::unhex;
use crate::wallet::Network;

verus! {

/// A silent payment address.
#[derive(Clone, Copy, Debug, PartialEq, Eq)]
pub struct SilentPaymentAddress {
    scan_pubkey: PublicKey,
    spend_pubkey: PublicKey,
    network: Network,
}

/// What an address says.
#[verifier::ext_equal]
pub struct AddressView {
    pub scan: Seq<u8>,
    pub spend: Seq<u8>,
    pub network: Network,
}

impl View for SilentPaymentAddress {
    type V = AddressView;

    closed spec fn view(&self) -> AddressView {
        AddressView { scan: self.scan_pubkey@, spend: self.spend_pubkey@, network: self.network }
    }
}

/// The receiving side of a wallet: its public keys and the label of its change.
#[derive(Clone, Copy)]
pub struct Receiver {
    scan_pubkey: PublicKey,
    spend_pubkey: PublicKey,
    change_label: Scalar,
    network: Network,
}

/// What a receiver says.
#[verifier::ext_equal]
pub struct ReceiverView {
    pub scan: Seq<u8>,
    pub spend: Seq<u8>,
    pub change_label: Seq<u8>,
    pub network: Network,
}

impl View for Receiver {
    type V = ReceiverView;

    closed spec fn view(&self) -> ReceiverView {
        ReceiverView {
            scan: self.scan_pubkey@,
            spend: self.spend_pubkey@,
            change_label: self.change_label@,
            network: self.network,
        }
    }
}

/// The spend key of a label: the label's point plus the spend key.
pub open spec fn label_key(label: Seq<u8>, spend: Seq<u8>) -> Option<Seq<u8>> {
    point_sum(seq![point_of(be_value(label)), spend])
}

impl SilentPaymentAddress {
    /// Makes an address of its parts.
    pub fn new(scan_pubkey: PublicKey, spend_pubkey: PublicKey, network: Network) -> (r: Self)
        ensures
            r@ == (AddressView { scan: scan_pubkey@, spend: spend_pubkey@, network }),
    {
        SilentPaymentAddress { scan_pubkey, spend_pubkey, network }
    }

    /// The network of the address.
    pub fn get_network(&self) -> (r: Network)
        ensures
            r == self@.network,
    {
        self.network
    }

    /// The scan key of the address.
    pub fn get_scan_key(&self) -> (r: PublicKey)
        ensures
            r@ == self@.scan,
    {
        self.scan_pubkey
    }

    /// The spend key of the address.
    pub fn get_spend_key(&self) -> (r: PublicKey)
        ensures
            r@ == self@.spend,
    {
        self.spend_pubkey
    }
}

/// Trusted: `silentpayments::receiving::Label::new` makes the scalar of the tagged hash of
/// the scan key and the label's number. It panics when that hash is no scalar.
#[verifier::external_body]
fn new_label(b_scan: &SecretKey, m: u32) -> (r: [u8; 32])
    requires
        is_scalar(label_tweak_of(b_scan@, m)),
    ensures
        r@ == label_tweak_of(b_scan@, m),
{
    let b_scan = secp256k1::SecretKey::from_slice(&b_scan.bytes).unwrap();
    silentpayments::receiving::Label::new(b_scan, m).as_inner().to_be_bytes()
}

/// Trusted: `silentpayments::receiving::Receiver::new` with version zero accepts a change
/// label exactly when it is not zero and its point plus the spend key is a point; the
/// error tells the two apart. Neither the scan key nor the network has a part in that.
#[verifier::external_body]
fn accept_receiver(
    scan: &PublicKey,
    spend: &PublicKey,
    change_label: &Scalar,
    network: Network,
) -> (r: Result<(), KeyError>)
    ensures
        r is Ok <==> (be_value(change_label@) != 0 && label_key(change_label@, spend@) is Some),
        r matches Err(e) ==> e == (if be_value(change_label@) == 0 {
            KeyError::InvalidSecretKey
        } else {
            KeyError::InvalidPublicKeySum
        }),
{
    let scan = CurvePoint::from_slice(&scan.bytes).unwrap();
    let spend = CurvePoint::from_slice(&spend.bytes).unwrap();
    let label = secp256k1::Scalar::from_be_bytes(change_label.bytes).unwrap();
    let network = match network {
        Network::Mainnet => SpNetwork::Mainnet,
        Network::Testnet => SpNetwork::Testnet,
        Network::Regtest => SpNetwork::Regtest };
    match SpReceiver::new(0, scan, spend, label.into(), network) {
        Ok(_) => Ok(()),
        Err(silentpayments::Error::Secp256k1Error(secp256k1::Error::InvalidSecretKey)) =>
            Err(KeyError::InvalidSecretKey),
        Err(_) => Err(KeyError::InvalidPublicKeySum) }
}

/// Trusted: the spend key of `silentpayments::receiving::Receiver::get_change_address` is
/// the point of the change label plus the receiver's spend key.
#[verifier::external_body]
fn change_key(scan: &PublicKey, spend: &PublicKey, change_label: &Scalar) -> (r: PublicKey)
    requires
        be_value(change_label@) != 0,
        label_key(change_label@, spend@) is Some,
    ensures
        label_key(change_label@, spend@) == Some(r@),
{
    let scan = CurvePoint::from_slice(&scan.bytes).unwrap();
    let spend = CurvePoint::from_slice(&spend.bytes).unwrap();
    let label = secp256k1::Scalar::from_be_bytes(change_label.bytes).unwrap();
    let network = SpNetwork::Mainnet;
    let r = SpReceiver::new(0, scan, spend, label.into(), network);
    PublicKey { bytes: r.unwrap().get_change_address().get_spend_key().serialize() }
}

/// An address as text.
pub uninterp spec fn address_text_of(scan: Seq<u8>, spend: Seq<u8>, network: u8) -> Seq<char>;

/// The number of a network in the text of its addresses.
pub open spec fn network_number(network: Network) -> u8 {
    match network {
        Network::Mainnet => 0,
        Network::Testnet => 1,
        Network::Regtest => 2,
    }
}

/// Trusted: the text that `silentpayments::SilentPaymentAddress` turns into with version
/// zero is a function of its keys and its network, named `address_text_of`.
#[verifier::external_body]
fn address_text(address: &SilentPaymentAddress) -> (r: String)
    ensures
        r@ == address_text_of(
            address@.scan,
            address@.spend,
            network_number(address@.network),
        ),
{
    let scan = CurvePoint::from_slice(&address.scan_pubkey.bytes).unwrap();
    let spend = CurvePoint::from_slice(&address.spend_pubkey.bytes).unwrap();
    let network = match address.network {
        Network::Mainnet => SpNetwork::Mainnet,
        Network::Testnet => SpNetwork::Testnet,
        Network::Regtest => SpNetwork::Regtest };
    String::from(SpAddress::new(scan, spend, network, 0).unwrap())
}

impl SilentPaymentAddress {
    /// The address as text.
    pub fn to_text(&self) -> (r: String)
        ensures
            r@ == address_text_of(self@.scan, self@.spend, network_number(self@.network)),
    {
        address_text(self)
    }
}

impl Receiver {
    #[verifier::type_invariant]
    spec fn valid(self) -> bool {
        be_value(self.change_label@) != 0 && label_key(
            self.change_label@,
            self.spend_pubkey@,
        ) is Some
    }

    /// The address to which change is sent. It is never shown to anyone.
    pub fn get_change_address(&self) -> (r: SilentPaymentAddress)
        ensures
            label_key(self@.change_label, self@.spend) == Some(r@.spend),
            r@.scan == self@.scan,
            r@.network == self@.network,
    {
        proof {
            use_type_invariant(self);
        }
        SilentPaymentAddress {
            scan_pubkey: self.scan_pubkey,
            spend_pubkey: change_key(&self.scan_pubkey, &self.spend_pubkey, &self.change_label),
            network: self.network,
        }
    }

    /// The address that is handed out.
    pub fn get_receiving_address(&self) -> (r: SilentPaymentAddress)
        ensures
            r@ == (AddressView {
                scan: self@.scan,
                spend: self@.spend,
                network: self@.network,
            }),
    {
        SilentPaymentAddress {
            scan_pubkey: self.scan_pubkey,
            spend_pubkey: self.spend_pubkey,
            network: self.network,
        }
    }
}

/// Makes the receiver of a scan key and a spend key, with the label of number zero for
/// change.
pub fn build_receiver(b_scan: &SecretKey, b_spend_pub: PublicKey, network: Network) -> (r: Result<
    Receiver,
    KeyError,
>)
    requires
        is_scalar(label_tweak_of(b_scan@, 0)),
    ensures
        ({
            let label = label_tweak_of(b_scan@, 0);
            match r {
                Ok(receiver) => {
                    &&& be_value(label) != 0
                    &&& label_key(label, b_spend_pub@) is Some
                    &&& receiver@ == (ReceiverView {
                        scan: point_of(be_value(b_scan@)),
                        spend: b_spend_pub@,
                        change_label: label,
                        network,
                    })
                },
                Err(KeyError::InvalidSecretKey) => be_value(label) == 0,
                Err(e) => {
                    &&& be_value(label) != 0
                    &&& label_key(label, b_spend_pub@) is None
                    &&& e == KeyError::InvalidPublicKeySum
                },
            }
        }),
{
    let scan_pubkey = PublicKey::from_secret_key(b_scan);
    match Scalar::from_be_bytes(new_label(b_scan, 0)) {
        Some(change_label) => match accept_receiver(
            &scan_pubkey,
            &b_spend_pub,
            &change_label,
            network,
        ) {
            Ok(()) => Ok(Receiver { scan_pubkey, spend_pubkey: b_spend_pub, change_label, network }),
            Err(e) => Err(e),
        },
        None => Err(KeyError::InvalidSecretKey),
    }
}

/// Makes the receiver of a scan key and a spend key, or nothing when the hash of the
/// change label is no scalar.
pub fn checked_build_receiver(
    b_scan: &SecretKey,
    b_spend_pub: PublicKey,
    network: Network,
) -> (r: Option<Result<Receiver, KeyError>>)
    ensures
        ({
            let label = label_tweak_of(b_scan@, 0);
            match r {
                Some(Ok(receiver)) => {
                    &&& is_scalar(label)
                    &&& be_value(label) != 0
                    &&& label_key(label, b_spend_pub@) is Some
                    &&& receiver@ == (ReceiverView {
                        scan: point_of(be_value(b_scan@)),
                        spend: b_spend_pub@,
                        change_label: label,
                        network,
                    })
                },
                Some(Err(e)) => {
                    &&& is_scalar(label)
                    &&& be_value(label) == 0 || label_key(label, b_spend_pub@) is None
                    &&& e == (if be_value(label) == 0 {
                        KeyError::InvalidSecretKey
                    } else {
                        KeyError::InvalidPublicKeySum
                    })
                },
                None => !is_scalar(label),
            }
        }),
{
    match ScanKey::from_slice(&b_scan.secret_bytes()) {
        Ok(scan_key) => match Scalar::from_be_bytes(label_tweak(&scan_key, 0)) {
            Some(_) => Some(build_receiver(b_scan, b_spend_pub, network)),
            None => None,
        },
        Err(_) => None,
    }
}

/// Keys as values.
pub open spec fn x_only_views(keys: Seq<XOnlyPublicKey>) -> Seq<Seq<u8>> {
    keys.map_values(|k: XOnlyPublicKey| k@)
}

/// Outpoints that are given as text and number, as values.
pub open spec fn outpoint_texts(outpoints: Seq<(String, u32)>) -> Seq<(Seq<char>, u32)> {
    outpoints.map_values(|o: (String, u32)| (o.0@, o.1))
}

/// The bytes of an outpoint whose transaction's hash is given as text, last byte first.
pub open spec fn outpoint_bytes(o: (Seq<char>, u32)) -> Option<Seq<u8>> {
    match unhex(o.0) {
        Some(txid) => if txid.len() == 32 {
            Some(txid.reverse() + le32(o.1))
        } else {
            None
        },
        None => None,
    }
}

/// The least of the outpoints, unless there is none or one of them has no bytes.
pub open spec fn least_outpoint(outpoints: Seq<(Seq<char>, u32)>) -> Option<Seq<u8>>
    decreases outpoints.len(),
{
    if outpoints.len() == 0 {
        None
    } else if outpoints.len() == 1 {
        outpoint_bytes(outpoints[0])
    } else {
        match (least_outpoint(outpoints.drop_last()), outpoint_bytes(outpoints.last())) {
            (Some(before), Some(last)) => Some(
                if lex_less(last, before) {
                    last
                } else {
                    before
                },
            ),
            _ => None,
        }
    }
}

/// The input hash of a transaction by the sum of its keys, if its outpoints have bytes.
pub open spec fn text_input_hash(a_sum: Seq<u8>, outpoints: Seq<(Seq<char>, u32)>) -> Option<
    Seq<u8>,
> {
    match least_outpoint(outpoints) {
        Some(o) => Some(input_hash_of(o, a_sum)),
        None => None,
    }
}

/// Whether the input hash of a transaction, if it has one, can be used as a scalar.
pub open spec fn tweak_usable(keys: Seq<Seq<u8>>, outpoints: Seq<(Seq<char>, u32)>) -> bool {
    match point_sum(keys) {
        Some(a_sum) => text_input_hash(a_sum, outpoints) matches Some(h) ==> is_scalar(h),
        None => true,
    }
}

/// The tweak data of a transaction: the sum of its input keys times its input hash.
pub open spec fn tweak_data_of(keys: Seq<Seq<u8>>, outpoints: Seq<(Seq<char>, u32)>) -> Option<
    Seq<u8>,
> {
    match point_sum(keys) {
        Some(a_sum) => match text_input_hash(a_sum, outpoints) {
            Some(h) => if be_value(h) == 0 {
                None
            } else {
                Some(point_times(a_sum, be_value(h)))
            },
            None => None,
        },
        None => None,
    }
}

/// The key by which an input takes part in a silent payment, if it does.
pub uninterp spec fn input_pubkey_of(
    script_sig: Seq<u8>,
    witness: Seq<Seq<u8>>,
    prevout_script: Seq<u8>,
) -> Option<Seq<u8>>;

/// Whether the witness of a taproot input is long enough to be looked at: the item that
/// says how the output is spent, behind which an annex may stand, holds a key's bytes.
pub open spec fn input_readable(
    script_sig: Seq<u8>,
    witness: Seq<Seq<u8>>,
    prevout_script: Seq<u8>,
) -> bool {
    p2tr(prevout_script) && script_sig.len() == 0 && witness.len() > 0 && witness.last().len() > 0
        ==> {
        let annex: int = if witness.last()[0] == 0x50 {
            1
        } else {
            0
        };
        witness.len() > annex ==> witness[witness.len() - annex - 1].len() >= 33
    }
}

/// Trusted: the key that `silentpayments::utils::receiving::get_pubkey_from_input` finds is
/// a function of the input, named `input_pubkey_of`; an error counts as no key. The call
/// panics on a taproot input that is not `input_readable`.
#[verifier::external_body]
pub(crate) fn pubkey_from_input(
    script_sig: &Vec<u8>,
    witness: &Vec<Vec<u8>>,
    prevout_script: &Vec<u8>,
) -> (r: Option<PublicKey>)
    requires
        input_readable(script_sig@, item_views(witness@), prevout_script@),
    ensures
        match r {
            Some(k) => input_pubkey_of(script_sig@, item_views(witness@), prevout_script@) == Some(
                k@,
            ),
            None => input_pubkey_of(script_sig@, item_views(witness@), prevout_script@) is None,
        },
{
    silentpayments::utils::receiving::get_pubkey_from_input(script_sig, witness, prevout_script)
        .ok().flatten().map(|k| PublicKey { bytes: k.serialize() })
}

/// Trusted: `silentpayments::utils::receiving::calculate_tweak_data` multiplies the sum of
/// the keys by the input hash, whose outpoint is the least of those given. It fails when
/// the keys have no sum, when an outpoint is not sixty-four hexadecimal digits, and when
/// the input hash is zero; it panics when the input hash is no scalar.
#[verifier::external_body]
pub(crate) fn tweak_data(keys: &Vec<PublicKey>, outpoints: &Vec<(String, u32)>) -> (r: Option<
    PublicKey,
>)
    requires
        tweak_usable(point_views(keys@), outpoint_texts(outpoints@)),
    ensures
        match r {
            Some(t) => tweak_data_of(point_views(keys@), outpoint_texts(outpoints@)) == Some(t@),
            None => tweak_data_of(point_views(keys@), outpoint_texts(outpoints@)) is None,
        },
{
    let keys: Vec<CurvePoint> =
        keys.iter().map(|k| CurvePoint::from_slice(&k.bytes).unwrap()).collect();
    let refs: Vec<&CurvePoint> = keys.iter().collect();
    silentpayments::utils::receiving::calculate_tweak_data(&refs, outpoints)
        .ok().map(|t| PublicKey { bytes: t.serialize() })
}

/// Trusted: `silentpayments::utils::receiving::calculate_ecdh_shared_secret` multiplies the
/// tweak data by the scan key, as `secp256k1::PublicKey::mul_tweak` does: the exponents are
/// multiplied modulo the curve order.
#[verifier::external_body]
pub(crate) fn ecdh_shared_secret(tweak_data: &PublicKey, b_scan: &SecretKey) -> (r: PublicKey)
    ensures
        r@ == point_times(tweak_data@, be_value(b_scan@)),
        forall|a: nat|
            is_exponent(a) && tweak_data@ == #[trigger] point_of(a) ==> is_point_of(
                r@,
                (a * be_value(b_scan@)) % curve_order(),
            ),
{
    let tweak_data = CurvePoint::from_slice(&tweak_data.bytes).unwrap();
    let b_scan = secp256k1::SecretKey::from_slice(&b_scan.bytes).unwrap();
    let secret =
        silentpayments::utils::receiving::calculate_ecdh_shared_secret(&tweak_data, &b_scan);
    PublicKey { bytes: secret.serialize() }
}

/// The keys among `outputs` that pay a receiver under a shared secret, each as often as it
/// pays, if the curve arithmetic has a result.
pub uninterp spec fn found_keys_of(
    spend: Seq<u8>,
    change_label: Seq<u8>,
    secret: Seq<u8>,
    outputs: Seq<Seq<u8>>,
) -> Option<Multiset<Seq<u8>>>;

/// The key among `outputs` that pays a receiver under the counter `k`: that of the spend
/// key, or else that of the change label's spend key.
pub open spec fn paid_key(
    spend: Seq<u8>,
    change_label: Seq<u8>,
    secret: Seq<u8>,
    outputs: Seq<Seq<u8>>,
    k: u32,
) -> Option<Seq<u8>> {
    let plain = output_key_of(secret, spend, k);
    let change = match label_key(change_label, spend) {
        Some(labeled) => output_key_of(secret, labeled, k),
        None => None,
    };
    if plain is Some && outputs.contains(plain.unwrap()) {
        plain
    } else if change is Some && outputs.contains(change.unwrap()) {
        change
    } else {
        None
    }
}

/// Whether outputs pay a receiver under every counter up to `m`.
pub open spec fn paid_up_to(
    spend: Seq<u8>,
    change_label: Seq<u8>,
    secret: Seq<u8>,
    outputs: Seq<Seq<u8>>,
    m: u32,
) -> bool {
    forall|k: u32|
        k <= m ==> #[trigger] paid_key(spend, change_label, secret, outputs, k) is Some
}

/// Whether `key` is that of a payment to a receiver: outputs pay it under every counter up to
/// some number, and under that number by this key.
pub open spec fn pays(
    spend: Seq<u8>,
    change_label: Seq<u8>,
    secret: Seq<u8>,
    outputs: Seq<Seq<u8>>,
    key: Seq<u8>,
) -> bool {
    exists|m: u32|
        {
            &&& paid_up_to(spend, change_label, secret, outputs, m)
            &&& #[trigger] paid_key(spend, change_label, secret, outputs, m) == Some(key)
        }
}

/// Trusted: which of the outputs `silentpayments::receiving::Receiver::scan_transaction`
/// finds is a function of the receiver's spend key and change label, the shared secret and
/// the outputs, named `found_keys_of`; it finds none but given outputs. It looks for the
/// payment under one counter after another, and finds it as long as none is missing: the
/// output of the spend key plus the tweak's multiple of the generator, or else that of the
/// labeled spend key. It finds nothing else. The order in which it hands them out is left
/// open, and the receiver's network has no part in it.
#[verifier::external_body]
pub(crate) fn received_keys(
    receiver: &Receiver,
    secret: &PublicKey,
    outputs: &Vec<XOnlyPublicKey>,
) -> (r: Option<Vec<XOnlyPublicKey>>)
    ensures
        match r {
            Some(keys) => found_keys_of(
                receiver@.spend,
                receiver@.change_label,
                secret@,
                x_only_views(outputs@),
            ) == Some(x_only_views(keys@).to_multiset()),
            None => found_keys_of(
                receiver@.spend,
                receiver@.change_label,
                secret@,
                x_only_views(outputs@),
            ) is None,
        },
        r matches Some(keys) ==> forall|i: int|
            0 <= i < keys@.len() ==> x_only_views(outputs@).contains((#[trigger] keys@[i])@),
        r matches Some(keys) ==> forall|m: u32| #[trigger]
            paid_up_to(
                receiver@.spend,
                receiver@.change_label,
                secret@,
                x_only_views(outputs@),
                m,
            ) ==> x_only_views(keys@).contains(
                paid_key(
                    receiver@.spend,
                    receiver@.change_label,
                    secret@,
                    x_only_views(outputs@),
                    m,
                ).unwrap(),
            ),
        r matches Some(keys) ==> forall|i: int|
            0 <= i < keys@.len() ==> pays(
                receiver@.spend,
                receiver@.change_label,
                secret@,
                x_only_views(outputs@),
                (#[trigger] keys@[i])@,
            ),
{
    let scan = CurvePoint::from_slice(&receiver.scan_pubkey.bytes).unwrap();
    let spend = CurvePoint::from_slice(&receiver.spend_pubkey.bytes).unwrap();
    let label = secp256k1::Scalar::from_be_bytes(receiver.change_label.bytes).unwrap();
    let r = SpReceiver::new(0, scan, spend, label.into(), SpNetwork::Mainnet);
    let secret = CurvePoint::from_slice(&secret.bytes).unwrap();
    let outputs = outputs.iter()
        .map(|k| secp256k1::XOnlyPublicKey::from_slice(&k.bytes).unwrap()).collect();
    let found = r.unwrap().scan_transaction(&secret, outputs).ok()?;
    Some(found.values().flat_map(|m| m.keys())
        .map(|k| XOnlyPublicKey { bytes: k.serialize() }).collect())
}

/// Reads hexadecimal digits. Trusted: `hex::decode` accepts exactly the texts that are made
/// of pairs of hexadecimal digits, in either case, and gives the bytes that they spell.
#[verifier::external_body]
pub(crate) fn hex_decode(s: &str) -> (r: Option<Vec<u8>>)
    ensures
        match r {
            Some(b) => unhex(s@) == Some(b@),
            None => unhex(s@) is None,
        },
{
    hex::decode(s).ok()
}

fn text_outpoint(txid: &String, vout: u32) -> (r: Option<[u8; 36]>)
    ensures
        match r {
            Some(o) => outpoint_bytes((txid@, vout)) == Some(o@),
            None => outpoint_bytes((txid@, vout)) is None,
        },
{
    match hex_decode(txid.as_str()) {
        Some(bytes) => {
            if bytes.len() != 32 {
                return None;
            }
            let mut out: Vec<u8> = Vec::new();
            let mut i: usize = 0;
            while i < 32
                invariant
                    i <= 32,
                    bytes@.len() == 32,
                    out@ == bytes@.reverse().take(i as int),
                decreases 32 - i,
            {
                out.push(bytes[31 - i]);
                i = i + 1;
                assert(out@ =~= bytes@.reverse().take(i as int));
            }
            assert(out@ =~= bytes@.reverse());
            put_le32(&mut out, vout);
            proof {
                le32_round_trip(vout);
            }
            let r: [u8; 36] = get_array(out.as_slice(), 0);
            assert(r@ =~= out@);
            Some(r)
        },
        None => None,
    }
}

pub(crate) fn least_text_outpoint(outpoints: &Vec<(String, u32)>) -> (r: Option<[u8; 36]>)
    ensures
        match r {
            Some(o) => least_outpoint(outpoint_texts(outpoints@)) == Some(o@),
            None => least_outpoint(outpoint_texts(outpoints@)) is None,
        },
{
    let ghost texts = outpoint_texts(outpoints@);
    if outpoints.len() == 0 {
        return None;
    }
    let mut least = match text_outpoint(&outpoints[0].0, outpoints[0].1) {
        Some(o) => o,
        None => {
            proof {
                lemma_bad_outpoint(texts, 1);
            }
            return None;
        },
    };
    let mut i: usize = 1;
    while i < outpoints.len()
        invariant
            1 <= i <= outpoints@.len(),
            texts == outpoint_texts(outpoints@),
            least_outpoint(texts.take(i as int)) == Some(least@),
        decreases outpoints@.len() - i,
    {
        proof {
            let done = texts.take(i + 1);
            assert(done.drop_last() =~= texts.take(i as int));
            assert(done.last() == (outpoints@[i as int].0@, outpoints@[i as int].1));
        }
        match text_outpoint(&outpoints[i].0, outpoints[i].1) {
            Some(o) => {
                if bytes_less(&o, &least) {
                    least = o;
                }
            },
            None => {
                proof {
                    lemma_bad_outpoint(texts, (i + 1) as nat);
                }
                return None;
            },
        }
        i = i + 1;
    }
    assert(texts.take(i as int) =~= texts);
    Some(least)
}

proof fn lemma_bad_outpoint(texts: Seq<(Seq<char>, u32)>, n: nat)
    requires
        1 <= n <= texts.len(),
        least_outpoint(texts.take(n as int)) is None,
    ensures
        least_outpoint(texts) is None,
    decreases texts.len(),
{
    if n < texts.len() {
        assert(texts.drop_last().take(n as int) =~= texts.take(n as int));
        lemma_bad_outpoint(texts.drop_last(), n);
    } else {
        assert(texts.take(n as int) =~= texts);
    }
}

/// The bytes of an outpoint are its transaction's hash, turned round, and behind it four bytes
/// that spell its number backwards.
pub proof fn outpoints_have_their_bytes(text: Seq<char>, vout: u32)
    ensures
        unhex(text) is Some && unhex(text).unwrap().len() == 32 ==> {
            let b = outpoint_bytes((text, vout));
            &&& b is Some
            &&& b.unwrap().len() == 36
            &&& b.unwrap().take(32).reverse() == unhex(text).unwrap()
            &&& be_value(b.unwrap().skip(32).reverse()) == vout
        },
        unhex(text) is None || unhex(text).unwrap().len() != 32 ==> outpoint_bytes(
            (text, vout),
        ) is None,
{
    if let Some(txid) = unhex(text) {
        if txid.len() == 32 {
            let b = txid.reverse() + le32(vout);
            le32_spells(vout);
            assert(b.take(32).reverse() =~= txid);
            assert(b.skip(32) =~= le32(vout));
        }
    }
}

/// The least of the outpoints is one of them, and none spells a smaller number; there is none
/// where one of them has no bytes.
pub proof fn least_outpoint_is_least(outpoints: Seq<(Seq<char>, u32)>, i: int)
    requires
        0 <= i < outpoints.len(),
    ensures
        least_outpoint(outpoints) is None <==> exists|j: int|
            0 <= j < outpoints.len() && outpoint_bytes(#[trigger] outpoints[j]) is None,
        least_outpoint(outpoints) matches Some(o) ==> {
            &&& o.len() == 36
            &&& be_value(o) <= be_value(outpoint_bytes(outpoints[i]).unwrap())
            &&& exists|j: int|
                0 <= j < outpoints.len() && outpoint_bytes(#[trigger] outpoints[j]) == Some(o)
        },
    decreases outpoints.len(),
{
    let n = outpoints.len() - 1;
    outpoints_have_their_bytes(outpoints[n].0, outpoints[n].1);
    if n == 0 {
        assert(outpoints[0] == outpoints[n]);
        assert(outpoint_bytes(outpoints[0]) == least_outpoint(outpoints));
    } else {
        let fewer = outpoints.drop_last();
        assert forall|j: int| 0 <= j < fewer.len() implies fewer[j] == #[trigger] outpoints[j] by {}
        least_outpoint_is_least(fewer, if i < n {
            i
        } else {
            0
        });
        let last = outpoint_bytes(outpoints[n]);
        if let Some(before) = least_outpoint(fewer) {
            let w = choose|j: int|
                0 <= j < fewer.len() && outpoint_bytes(#[trigger] fewer[j]) == Some(before);
            assert(outpoint_bytes(outpoints[w]) == Some(before));
            if let Some(last) = last {
                lex_less_by_value(last, before);
                if i < n {
                    assert(fewer[i] == outpoints[i]);
                }
            }
            if exists|j: int|
                0 <= j < outpoints.len() && outpoint_bytes(#[trigger] outpoints[j]) is None {
                let j = choose|j: int|
                    0 <= j < outpoints.len() && outpoint_bytes(#[trigger] outpoints[j]) is None;
                if j < n {
                    assert(outpoint_bytes(fewer[j]) is None);
                }
            }
        } else {
            let j = choose|j: int|
                0 <= j < fewer.len() && outpoint_bytes(#[trigger] fewer[j]) is None;
            assert(outpoint_bytes(outpoints[j]) is None);
        }
    }
}

/// Whether the input hash of a transaction, if it has one, can be used as a scalar.
pub(crate) fn input_hash_fits(keys: &Vec<PublicKey>, outpoints: &Vec<(String, u32)>) -> (r: bool)
    ensures
        r == tweak_usable(point_views(keys@), outpoint_texts(outpoints@)),
{
    match PublicKey::combine_keys(keys) {
        Some(a_sum) => match least_text_outpoint(outpoints) {
            Some(o) => Scalar::from_be_bytes(compute_input_hash(o, a_sum)).is_some(),
            None => true,
        },
        None => true,
    }
}

/// The exponent with which an input key takes part: a taproot key whose point has an odd
/// second coordinate takes part with the opposite one.
pub open spec fn input_exponent(key: (nat, bool)) -> nat {
    if key.1 && point_of(key.0)[0] == 3 {
        (curve_order() - key.0) as nat
    } else {
        key.0
    }
}

/// The sum of the exponents of input keys, unless there are none or the sum of the first
/// few is zero.
pub open spec fn exponent_sum(keys: Seq<(nat, bool)>) -> Option<nat>
    decreases keys.len(),
{
    if keys.len() == 0 {
        None
    } else if keys.len() == 1 {
        Some(input_exponent(keys[0]))
    } else {
        match exponent_sum(keys.drop_last()) {
            Some(before) => {
                let sum = (before + input_exponent(keys.last())) % curve_order();
                if sum == 0 {
                    None
                } else {
                    Some(sum)
                }
            },
            None => None,
        }
    }
}

/// Input keys by their exponents.
pub open spec fn key_pairs(keys: Seq<(SecretKey, bool)>) -> Seq<(nat, bool)> {
    keys.map_values(|k: (SecretKey, bool)| (be_value(k.0@), k.1))
}

/// Whether the sender's input hash, if there is one, can be used as a scalar.
pub open spec fn partial_usable(
    keys: Seq<(nat, bool)>,
    outpoints: Seq<(Seq<char>, u32)>,
) -> bool {
    match exponent_sum(keys) {
        Some(a) => text_input_hash(point_of(a), outpoints) matches Some(h) ==> is_scalar(h),
        None => true,
    }
}

/// The exponent of the sender's partial secret: the sum of the input exponents times the
/// input hash.
pub open spec fn partial_secret_of(
    keys: Seq<(nat, bool)>,
    outpoints: Seq<(Seq<char>, u32)>,
) -> Option<nat> {
    match exponent_sum(keys) {
        Some(a) => match text_input_hash(point_of(a), outpoints) {
            Some(h) => if be_value(h) == 0 {
                None
            } else {
                Some((a * be_value(h)) % curve_order())
            },
            None => None,
        },
        None => None,
    }
}

/// Trusted: `silentpayments::utils::sending::calculate_partial_secret` multiplies the sum of
/// the input keys, odd taproot keys negated, by the input hash, whose outpoint is the
/// least of those given. It fails when there is no key, when a sum is zero, when an
/// outpoint is not sixty-four hexadecimal digits, and when the input hash is zero; it
/// panics when the input hash is no scalar.
#[verifier::external_body]
pub(crate) fn partial_secret(keys: &Vec<(SecretKey, bool)>, outpoints: &Vec<(String, u32)>) -> (r:
    Option<SecretKey>)
    requires
        partial_usable(key_pairs(keys@), outpoint_texts(outpoints@)),
    ensures
        match r {
            Some(k) => partial_secret_of(key_pairs(keys@), outpoint_texts(outpoints@)) == Some(
                be_value(k@),
            ),
            None => partial_secret_of(key_pairs(keys@), outpoint_texts(outpoints@)) is None,
        },
{
    let keys: Vec<(secp256k1::SecretKey, bool)> = keys.iter()
        .map(|k| (secp256k1::SecretKey::from_slice(&k.0.bytes).unwrap(), k.1)).collect();
    silentpayments::utils::sending::calculate_partial_secret(&keys, outpoints)
        .ok().map(|k| SecretKey { bytes: k.secret_bytes() })
}

/// Addresses as values.
pub open spec fn address_views(addresses: Seq<SilentPaymentAddress>) -> Seq<AddressView> {
    addresses.map_values(|a: SilentPaymentAddress| a@)
}

/// How many of the recipients before the one with number `i` have its scan key.
pub open spec fn scan_rank(recipients: Seq<AddressView>, i: int) -> nat {
    recipients.take(i).filter(|a: AddressView| a.scan == recipients[i].scan).len()
}

/// The output key of the recipient with number `i` under the sender's partial secret.
pub open spec fn sent_key(recipients: Seq<AddressView>, i: int, partial: nat) -> Option<Seq<u8>> {
    let secret = point_times(recipients[i].scan, partial);
    let k = scan_rank(recipients, i) as u32;
    if is_exponent(be_value(output_tweak_of(secret, k))) {
        output_key_of(secret, recipients[i].spend, k)
    } else {
        None
    }
}

/// Whether every recipient has an output key.
pub open spec fn all_sent(recipients: Seq<AddressView>, partial: nat) -> bool {
    forall|i: int|
        0 <= i < recipients.len() ==> (#[trigger] sent_key(recipients, i, partial)) is Some
}

/// Whether the recipient with number `i` has no output key, for the reason `e`: its tweak is
/// no exponent, or the key would be the point at infinity.
pub open spec fn missing_key(
    recipients: Seq<AddressView>,
    i: int,
    partial: nat,
    e: KeyError,
) -> bool {
    let secret = point_times(recipients[i].scan, partial);
    let tweak = output_tweak_of(secret, scan_rank(recipients, i) as u32);
    &&& sent_key(recipients, i, partial) is None
    &&& e == (if is_exponent(be_value(tweak)) {
        KeyError::InvalidPublicKeySum
    } else {
        KeyError::InvalidSecretKey
    })
}

/// Whether a recipient has no output key, for the reason `e`.
pub open spec fn one_missing(recipients: Seq<AddressView>, partial: nat, e: KeyError) -> bool {
    exists|i: int| 0 <= i < recipients.len() && #[trigger] missing_key(recipients, i, partial, e)
}

/// The output keys of the recipients with one address among the first `n`, in order.
pub open spec fn keys_of_address(
    recipients: Seq<AddressView>,
    address: AddressView,
    n: nat,
    partial: nat,
) -> Seq<Seq<u8>>
    decreases n,
{
    if n == 0 {
        Seq::empty()
    } else {
        let before = keys_of_address(recipients, address, (n - 1) as nat, partial);
        if recipients[n - 1] == address {
            before.push(sent_key(recipients, n - 1, partial).unwrap())
        } else {
            before
        }
    }
}

/// Trusted: `silentpayments::sending::generate_recipient_pubkeys` derives an output key for
/// each recipient: the spend key plus the tweak's multiple of the generator, where the
/// tweak is that of the shared secret, which is the scan key times the partial secret, and
/// of the number of earlier recipients with the same scan key. It fails
/// when one of them has no key; where several have none, which of them the error is about
/// is left open. For each recipient the keys of its address are handed out, in the order of
/// the recipients.
#[verifier::external_body]
pub(crate) fn recipient_keys(
    recipients: &Vec<SilentPaymentAddress>,
    partial: &SecretKey,
) -> (r: Result<Vec<Vec<XOnlyPublicKey>>, KeyError>)
    requires
        recipients@.len() <= u32::MAX,
    ensures
        r is Ok <==> all_sent(address_views(recipients@), be_value(partial@)),
        r matches Ok(keys) ==> keys@.len() == recipients@.len(),
        r matches Ok(keys) ==> forall|i: int|
            0 <= i < keys@.len() ==> x_only_views((#[trigger] keys@[i])@) == keys_of_address(
                address_views(recipients@),
                recipients@[i]@,
                recipients@.len(),
                be_value(partial@),
            ),
        r matches Err(e) ==> one_missing(address_views(recipients@), be_value(partial@), e),
{
    let partial = CurveSecret::from_slice(&partial.bytes).unwrap();
    let addresses: Vec<SpAddress> = recipients.iter().map(|a| SpAddress::new(
        CurvePoint::from_slice(&a.scan_pubkey.bytes).unwrap(),
        CurvePoint::from_slice(&a.spend_pubkey.bytes).unwrap(),
        [SpNetwork::Mainnet, SpNetwork::Testnet, SpNetwork::Regtest][a.network as usize],
        0,
    ).unwrap()).collect();
    let keys = generate_recipient_pubkeys(addresses.clone(), partial).map_err(|e| match e {
        SpError::Secp256k1Error(CurveError::InvalidSecretKey) => KeyError::InvalidSecretKey,
        _ => KeyError::InvalidPublicKeySum })?;
    Ok(addresses.iter().map(|a| keys[a].iter()
        .map(|k| XOnlyPublicKey { bytes: k.serialize() }).collect()).collect())
}

/// What a sender derives for a receiver is what the receiver looks for: where the first
/// recipient with the receiver's scan key is its receiving address, the output key that is
/// derived for it pays the receiver under the counter zero, once it is among the outputs.
pub proof fn sent_key_pays_receiver(
    recipients: Seq<AddressView>,
    i: int,
    partial: nat,
    receiver: ReceiverView,
    outputs: Seq<Seq<u8>>,
)
    requires
        0 <= i < recipients.len(),
        scan_rank(recipients, i) == 0,
        recipients[i].scan == receiver.scan,
        recipients[i].spend == receiver.spend,
        sent_key(recipients, i, partial) matches Some(key) && outputs.contains(key),
    ensures
        ({
            let secret = point_times(receiver.scan, partial);
            &&& paid_up_to(receiver.spend, receiver.change_label, secret, outputs, 0)
            &&& paid_key(receiver.spend, receiver.change_label, secret, outputs, 0) == sent_key(
                recipients,
                i,
                partial,
            )
        }),
{
}

/// Change comes back: where the first recipient with the receiver's scan key is its change
/// address, the outputs pay the receiver under the counter zero, once the key that is
/// derived for it is among them.
pub proof fn change_pays_receiver(
    recipients: Seq<AddressView>,
    i: int,
    partial: nat,
    receiver: ReceiverView,
    outputs: Seq<Seq<u8>>,
)
    requires
        0 <= i < recipients.len(),
        scan_rank(recipients, i) == 0,
        recipients[i].scan == receiver.scan,
        label_key(receiver.change_label, receiver.spend) == Some(recipients[i].spend),
        sent_key(recipients, i, partial) matches Some(key) && outputs.contains(key),
    ensures
        paid_up_to(
            receiver.spend,
            receiver.change_label,
            point_times(receiver.scan, partial),
            outputs,
            0,
        ),
{
}

} // verus!
