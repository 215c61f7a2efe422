//! Receiving silent payments: key derivation, scanning and the wallet of found outputs.

use vstd::prelude::*;
use vstd::arithmetic::div_mod::lemma_mul_mod_noop_left;
use vstd::utf8::encode_utf8;
use crate::bytes::{be32, be32_spells, be_value, be_value_determines_four, put_be32, put_bytes};
use crate::secp::{
    curve_order, is_exponent, is_point_of, point_of, point_parsed, point_plus, point_times,
    sha256, sha256_of, KeyError, PublicKey, Scalar, SecretKey, XOnlyPublicKey,
};

pub mod scanning;
pub mod wallet;

verus! {

/// The scanning secret key (b_scan) with its public key.
#[derive(Clone, Copy)]
pub struct ScanKey {
    secret: SecretKey,
    public: PublicKey,
}

/// The spend public key (B_spend).
#[derive(Clone, Copy, Debug, PartialEq, Eq)]
pub struct SpendKey {
    public: PublicKey,
}

/// The BIP-340 tagged hash of `msg` under `tag`.
pub open spec fn tagged_hash_of(tag: Seq<char>, msg: Seq<u8>) -> Seq<u8> {
    let tag_hash = sha256_of(encode_utf8(tag));
    sha256_of(tag_hash + tag_hash + msg)
}

/// The hash that binds the shared secret to the inputs of a transaction.
pub open spec fn input_hash_of(smallest_outpoint: Seq<u8>, a_sum: Seq<u8>) -> Seq<u8> {
    tagged_hash_of("BIP0352/Inputs"@, smallest_outpoint + a_sum)
}

/// The tweak of the `k`-th output under a shared secret (t_k).
pub open spec fn output_tweak_of(shared_secret: Seq<u8>, k: u32) -> Seq<u8> {
    tagged_hash_of("BIP0352/SharedSecret"@, shared_secret + be32(k))
}

/// The tweak of the label `label` of a scan key.
pub open spec fn label_tweak_of(scan_secret: Seq<u8>, label: u32) -> Seq<u8> {
    tagged_hash_of("BIP0352/Label"@, scan_secret + be32(label))
}

/// Whether a hash can be used as a scalar.
pub open spec fn is_scalar(hash: Seq<u8>) -> bool {
    be_value(hash) < curve_order()
}

/// The receiver's shared secret: input_hash times b_scan times A.
pub open spec fn shared_secret_of(scan_secret: Seq<u8>, input_hash: Seq<u8>, a_sum: Seq<u8>) -> Seq<
    u8,
> {
    point_times(point_times(a_sum, be_value(input_hash)), be_value(scan_secret))
}

/// The output key of the `k`-th payment: the x coordinate of B_spend plus t_k times the
/// generator.
pub open spec fn output_key_of(shared_secret: Seq<u8>, spend_key: Seq<u8>, k: u32) -> Option<
    Seq<u8>,
> {
    match point_plus(spend_key, be_value(output_tweak_of(shared_secret, k))) {
        Some(p) => Some(p.skip(1)),
        None => None,
    }
}

/// The spend key of the label `label`: B_spend plus the label's tweak times the
/// generator.
pub open spec fn labeled_key_of(scan_secret: Seq<u8>, spend_key: Seq<u8>, label: u32) -> Option<
    Seq<u8>,
> {
    point_plus(spend_key, be_value(label_tweak_of(scan_secret, label)))
}

/// The exponent that both sides of a payment arrive at: the product of the sender's
/// exponent, the input hash and the receiver's scan exponent.
pub open spec fn shared_exponent(a: nat, input_hash: nat, b: nat) -> nat {
    (((a * input_hash) % curve_order()) * b) % curve_order()
}

impl ScanKey {
    /// The bytes of the secret key.
    pub closed spec fn secret(&self) -> Seq<u8> {
        self.secret@
    }

    /// The compressed public key.
    pub closed spec fn public(&self) -> Seq<u8> {
        self.public@
    }

    /// Makes the scan key of a secret exponent.
    pub fn from_slice(data: &[u8]) -> (r: Result<Self, KeyError>)
        ensures
            match r {
                Ok(k) => {
                    &&& data@.len() == 32 && is_exponent(be_value(data@))
                    &&& k.secret() == data@
                    &&& k.public() == point_of(be_value(data@))
                },
                Err(e) => {
                    &&& !(data@.len() == 32 && is_exponent(be_value(data@)))
                    &&& e == KeyError::InvalidSecretKey
                },
            },
    {
        match SecretKey::from_slice(data) {
            Ok(secret) => Ok(ScanKey { secret, public: PublicKey::from_secret_key(&secret) }),
            Err(e) => Err(e),
        }
    }

    /// The secret key.
    pub fn secret_key(&self) -> (r: SecretKey)
        ensures
            r@ == self.secret(),
    {
        self.secret
    }

    /// The public key.
    pub fn public_key(&self) -> (r: PublicKey)
        ensures
            r@ == self.public(),
    {
        self.public
    }
}

impl View for SpendKey {
    type V = Seq<u8>;

    closed spec fn view(&self) -> Seq<u8> {
        self.public@
    }
}

impl SpendKey {
    /// Parses a spend public key.
    pub fn from_slice(data: &[u8]) -> (r: Result<Self, KeyError>)
        ensures
            match r {
                Ok(k) => point_parsed(data@) == Some(k@) && (data@.len() == 33 ==> k@ == data@),
                Err(e) => point_parsed(data@) is None && e == KeyError::InvalidPublicKey,
            },
    {
        match PublicKey::from_slice(data) {
            Ok(public) => Ok(SpendKey { public }),
            Err(e) => Err(e),
        }
    }

    /// The public key.
    pub fn public_key(&self) -> (r: PublicKey)
        ensures
            r@ == self@,
    {
        self.public
    }
}

/// The BIP-340 tagged hash: SHA-256 of the tag's hash, twice, and the message.
pub fn tagged_hash(tag: &str, msg: &[u8]) -> (r: [u8; 32])
    ensures
        r@ == tagged_hash_of(tag@, msg@),
{
    let tag_hash = sha256(tag.as_bytes());
    let mut data: Vec<u8> = Vec::new();
    put_bytes(&mut data, &tag_hash);
    put_bytes(&mut data, &tag_hash);
    put_bytes(&mut data, msg);
    assert(data@ =~= tag_hash@ + tag_hash@ + msg@);
    sha256(data.as_slice())
}

/// The hash that binds the shared secret to the smallest outpoint and the sum of the
/// input keys.
pub fn compute_input_hash(smallest_outpoint: [u8; 36], a_sum: PublicKey) -> (r: [u8; 32])
    ensures
        r@ == input_hash_of(smallest_outpoint@, a_sum@),
{
    let mut data: Vec<u8> = Vec::new();
    put_bytes(&mut data, &smallest_outpoint);
    let a_sum_bytes = a_sum.serialize();
    put_bytes(&mut data, &a_sum_bytes);
    assert(data@ =~= smallest_outpoint@ + a_sum@);
    tagged_hash("BIP0352/Inputs", data.as_slice())
}

/// The shared secret of a transaction, as its receiver computes it.
///
/// When the sum of the input keys belongs to the secret exponent `a`, the shared secret
/// belongs to the product of `a`, the input hash and the scan exponent, which is what
/// the sender arrives at too (see `shared_exponent_symmetric`).
pub fn compute_shared_secret(scan_key: ScanKey, input_hash: [u8; 32], a_sum: PublicKey) -> (r:
    Result<PublicKey, KeyError>)
    requires
        is_scalar(input_hash@),
    ensures
        match r {
            Ok(s) => {
                &&& be_value(input_hash@) != 0
                &&& s@ == shared_secret_of(scan_key.secret(), input_hash@, a_sum@)
            },
            Err(e) => be_value(input_hash@) == 0 && e == KeyError::InvalidTweak,
        },
        r matches Ok(s) ==> forall|a: nat|
            is_exponent(a) && a_sum@ == #[trigger] point_of(a) ==> is_point_of(
                s@,
                shared_exponent(a, be_value(input_hash@), be_value(scan_key.secret())),
            ),
{
    match Scalar::from_be_bytes(input_hash) {
        Some(input_hash_scalar) => match a_sum.mul_tweak(&input_hash_scalar) {
            Ok(tweaked_a) => {
                let secret = scan_key.secret_key().secret_bytes();
                match Scalar::from_be_bytes(secret) {
                    Some(scan_scalar) => {
                        tweaked_a.mul_tweak(&scan_scalar)
                    },
                    None => Err(KeyError::InvalidTweak),
                }
            },
            Err(e) => Err(e),
        },
        None => Err(KeyError::InvalidTweak),
    }
}

/// The output key of the `k`-th payment under a shared secret.
pub fn derive_output_pubkey(shared_secret: PublicKey, spend_key: SpendKey, k: u32) -> (r: Result<
    XOnlyPublicKey,
    KeyError,
>)
    requires
        is_scalar(output_tweak_of(shared_secret@, k)),
    ensures
        match r {
            Ok(x) => output_key_of(shared_secret@, spend_key@, k) == Some(x@),
            Err(e) => output_key_of(shared_secret@, spend_key@, k) is None && e
                == KeyError::InvalidTweak,
        },
{
    match Scalar::from_be_bytes(output_tweak(&shared_secret, k)) {
        Some(t_k) => match spend_key.public_key().add_exp_tweak(&t_k) {
            Ok(p_k) => Ok(p_k.x_only_public_key()),
            Err(e) => Err(e),
        },
        None => Err(KeyError::InvalidTweak),
    }
}

/// The output key of the `k`-th payment under a shared secret, or nothing when the
/// tweak is no scalar.
pub fn checked_derive_output_pubkey(shared_secret: PublicKey, spend_key: SpendKey, k: u32) -> (r:
    Option<Result<XOnlyPublicKey, KeyError>>)
    ensures
        match r {
            Some(Ok(x)) => {
                &&& is_scalar(output_tweak_of(shared_secret@, k))
                &&& output_key_of(shared_secret@, spend_key@, k) == Some(x@)
            },
            Some(Err(e)) => {
                &&& is_scalar(output_tweak_of(shared_secret@, k))
                &&& output_key_of(shared_secret@, spend_key@, k) is None
                &&& e == KeyError::InvalidTweak
            },
            None => !is_scalar(output_tweak_of(shared_secret@, k)),
        },
{
    match Scalar::from_be_bytes(output_tweak(&shared_secret, k)) {
        Some(_) => Some(derive_output_pubkey(shared_secret, spend_key, k)),
        None => None,
    }
}

/// Derives B_spend_m = B_spend + H_tag("BIP0352/Label", b_scan || m) * G.
pub fn derive_labeled_spend_key(scan_key: ScanKey, spend_key: SpendKey, label: u32) -> (r: Result<
    SpendKey,
    KeyError,
>)
    requires
        is_scalar(label_tweak_of(scan_key.secret(), label)),
    ensures
        match r {
            Ok(k) => labeled_key_of(scan_key.secret(), spend_key@, label) == Some(k@),
            Err(e) => labeled_key_of(scan_key.secret(), spend_key@, label) is None && e
                == KeyError::InvalidTweak,
        },
{
    match Scalar::from_be_bytes(label_tweak(&scan_key, label)) {
        Some(label_scalar) => match spend_key.public_key().add_exp_tweak(&label_scalar) {
            Ok(public) => Ok(SpendKey { public }),
            Err(e) => Err(e),
        },
        None => Err(KeyError::InvalidTweak),
    }
}

/// The labeled spend key, or nothing when the label's hash is no scalar.
pub fn checked_derive_labeled_spend_key(scan_key: ScanKey, spend_key: SpendKey, label: u32) -> (r:
    Option<Result<SpendKey, KeyError>>)
    ensures
        match r {
            Some(Ok(k)) => {
                &&& is_scalar(label_tweak_of(scan_key.secret(), label))
                &&& labeled_key_of(scan_key.secret(), spend_key@, label) == Some(k@)
            },
            Some(Err(e)) => {
                &&& is_scalar(label_tweak_of(scan_key.secret(), label))
                &&& labeled_key_of(scan_key.secret(), spend_key@, label) is None
                &&& e == KeyError::InvalidTweak
            },
            None => !is_scalar(label_tweak_of(scan_key.secret(), label)),
        },
{
    match Scalar::from_be_bytes(label_tweak(&scan_key, label)) {
        Some(_) => Some(derive_labeled_spend_key(scan_key, spend_key, label)),
        None => None,
    }
}

fn output_tweak(shared_secret: &PublicKey, k: u32) -> (r: [u8; 32])
    ensures
        r@ == output_tweak_of(shared_secret@, k),
{
    let mut data: Vec<u8> = Vec::new();
    let secret_bytes = shared_secret.serialize();
    put_bytes(&mut data, &secret_bytes);
    put_be32(&mut data, k);
    assert(data@ =~= shared_secret@ + be32(k));
    tagged_hash("BIP0352/SharedSecret", data.as_slice())
}

pub(crate) fn label_tweak(scan_key: &ScanKey, label: u32) -> (r: [u8; 32])
    ensures
        r@ == label_tweak_of(scan_key.secret(), label),
{
    let mut data: Vec<u8> = Vec::new();
    let secret_bytes = scan_key.secret_key().secret_bytes();
    put_bytes(&mut data, &secret_bytes);
    put_be32(&mut data, label);
    assert(data@ =~= scan_key.secret() + be32(label));
    tagged_hash("BIP0352/Label", data.as_slice())
}

/// A tagged hash is the SHA-256 hash of the tag's hash, the tag's hash again and the
/// message.
pub proof fn tagged_hashes_begin_with_the_tag(
    tag: Seq<char>,
    msg: Seq<u8>,
    tag_hash: Seq<u8>,
    hashed: Seq<u8>,
)
    requires
        tag_hash == sha256_of(encode_utf8(tag)),
        hashed.len() == 2 * tag_hash.len() + msg.len(),
        hashed.take(tag_hash.len() as int) == tag_hash,
        hashed.subrange(tag_hash.len() as int, (2 * tag_hash.len()) as int) == tag_hash,
        hashed.skip((2 * tag_hash.len()) as int) == msg,
    ensures
        tagged_hash_of(tag, msg) == sha256_of(hashed),
{
    let n = tag_hash.len() as int;
    assert forall|i: int| 0 <= i < hashed.len() implies hashed[i] == (tag_hash + tag_hash + msg)[i] by {
        if i < n {
            assert(hashed.take(n)[i] == tag_hash[i]);
        } else if i < 2 * n {
            assert(hashed.subrange(n, 2 * n)[i - n] == tag_hash[i - n]);
        } else {
            assert(hashed.skip(2 * n)[i - 2 * n] == msg[i - 2 * n]);
        }
    }
    assert(hashed =~= tag_hash + tag_hash + msg);
}

/// What is hashed for the inputs of a transaction is the smallest outpoint, and behind it
/// the sum of the input keys.
pub proof fn input_hash_covers_outpoint_and_keys(
    smallest_outpoint: Seq<u8>,
    a_sum: Seq<u8>,
    msg: Seq<u8>,
)
    requires
        msg.len() == smallest_outpoint.len() + a_sum.len(),
        msg.take(smallest_outpoint.len() as int) == smallest_outpoint,
        msg.skip(smallest_outpoint.len() as int) == a_sum,
    ensures
        input_hash_of(smallest_outpoint, a_sum) == tagged_hash_of("BIP0352/Inputs"@, msg),
{
    let n = smallest_outpoint.len() as int;
    assert forall|i: int| 0 <= i < msg.len() implies msg[i] == (smallest_outpoint + a_sum)[i] by {
        if i < n {
            assert(msg.take(n)[i] == smallest_outpoint[i]);
        } else {
            assert(msg.skip(n)[i - n] == a_sum[i - n]);
        }
    }
    assert(msg =~= smallest_outpoint + a_sum);
}

proof fn lemma_counted(head: Seq<u8>, k: u32, msg: Seq<u8>)
    requires
        msg.len() == head.len() + 4,
        msg.take(head.len() as int) == head,
        be_value(msg.skip(head.len() as int)) == k,
    ensures
        msg == head + be32(k),
{
    let n = head.len() as int;
    be32_spells(k);
    be_value_determines_four(msg.skip(n), be32(k));
    assert forall|i: int| 0 <= i < msg.len() implies msg[i] == (head + be32(k))[i] by {
        if i < n {
            assert(msg.take(n)[i] == head[i]);
        } else {
            assert(msg.skip(n)[i - n] == be32(k)[i - n]);
        }
    }
    assert(msg =~= head + be32(k));
}

/// What is hashed for the tweak of the `k`-th output is the shared secret, and behind it
/// four bytes that spell `k`, most significant byte first.
pub proof fn output_tweak_covers_secret_and_count(shared_secret: Seq<u8>, k: u32, msg: Seq<u8>)
    requires
        msg.len() == shared_secret.len() + 4,
        msg.take(shared_secret.len() as int) == shared_secret,
        be_value(msg.skip(shared_secret.len() as int)) == k,
    ensures
        output_tweak_of(shared_secret, k) == tagged_hash_of("BIP0352/SharedSecret"@, msg),
{
    lemma_counted(shared_secret, k, msg);
}

/// What is hashed for the tweak of a label is the scan key, and behind it four bytes that
/// spell the label, most significant byte first.
pub proof fn label_tweak_covers_key_and_label(scan_secret: Seq<u8>, label: u32, msg: Seq<u8>)
    requires
        msg.len() == scan_secret.len() + 4,
        msg.take(scan_secret.len() as int) == scan_secret,
        be_value(msg.skip(scan_secret.len() as int)) == label,
    ensures
        label_tweak_of(scan_secret, label) == tagged_hash_of("BIP0352/Label"@, msg),
{
    lemma_counted(scan_secret, label, msg);
}

/// The sender and the receiver of a payment arrive at the same shared secret: the
/// exponent does not change when the two sides' keys are exchanged.
pub proof fn shared_exponent_symmetric(a: nat, input_hash: nat, b: nat)
    ensures
        shared_exponent(a, input_hash, b) == shared_exponent(b, input_hash, a),
{
    let n = curve_order() as int;
    lemma_mul_mod_noop_left((a * input_hash) as int, b as int, n);
    lemma_mul_mod_noop_left((b * input_hash) as int, a as int, n);
    assert((a * input_hash) * b == (b * input_hash) * a) by (nonlinear_arith);
}

/// Whether the point with exponent `a`, multiplied by `s`, is the point with the product of
/// the two as its exponent, as a multiplication that was carried out shows.
pub open spec fn multiplied(a: nat, s: nat) -> bool {
    is_exponent(a) && is_point_of(point_times(point_of(a), s), (a * s) % curve_order())
}

/// The sender and the receiver of a payment arrive at the same shared secret: the sender
/// multiplies the receiver's scan key by the input hash and its own exponent `a`, the
/// receiver multiplies the sender's key by the input hash and its scan exponent `b`.
pub proof fn shared_secrets_agree(a: nat, input_hash: nat, b: nat)
    requires
        multiplied(a, input_hash),
        multiplied((a * input_hash) % curve_order(), b),
        multiplied(b, input_hash),
        multiplied((b * input_hash) % curve_order(), a),
    ensures
        point_times(point_times(point_of(a), input_hash), b) == point_times(
            point_times(point_of(b), input_hash),
            a,
        ),
{
    shared_exponent_symmetric(a, input_hash, b);
}

/// The receiver's shared secret is the point of the product of the sender's exponent, the
/// number that the input hash spells and the one that the scan key spells.
pub proof fn shared_secret_is_a_product(a: nat, scan_secret: Seq<u8>, input_hash: Seq<u8>)
    requires
        multiplied(a, be_value(input_hash)),
        multiplied((a * be_value(input_hash)) % curve_order(), be_value(scan_secret)),
    ensures
        is_point_of(
            shared_secret_of(scan_secret, input_hash, point_of(a)),
            (a * be_value(input_hash) * be_value(scan_secret)) % curve_order(),
        ),
{
    lemma_mul_mod_noop_left(
        (a * be_value(input_hash)) as int,
        be_value(scan_secret) as int,
        curve_order() as int,
    );
}

/// The key of the `k`-th output is the x coordinate of the spend key with the tweak added to
/// its exponent, and a label's spend key is the spend key with the label's tweak added.
pub proof fn derived_keys_add_their_tweaks(
    secret: Seq<u8>,
    scan_secret: Seq<u8>,
    spend_key: Seq<u8>,
    k: u32,
    msg: Seq<u8>,
    label_msg: Seq<u8>,
)
    requires
        msg.len() == secret.len() + 4,
        msg.take(secret.len() as int) == secret,
        be_value(msg.skip(secret.len() as int)) == k,
        label_msg.len() == scan_secret.len() + 4,
        label_msg.take(scan_secret.len() as int) == scan_secret,
        be_value(label_msg.skip(scan_secret.len() as int)) == k,
    ensures
        ({
            let p = point_plus(
                spend_key,
                be_value(tagged_hash_of("BIP0352/SharedSecret"@, msg)),
            );
            &&& output_key_of(secret, spend_key, k) is Some <==> p is Some
            &&& p is Some ==> output_key_of(secret, spend_key, k) == Some(
                p.unwrap().subrange(1, p.unwrap().len() as int),
            )
            &&& labeled_key_of(scan_secret, spend_key, k) == point_plus(
                spend_key,
                be_value(tagged_hash_of("BIP0352/Label"@, label_msg)),
            )
        }),
{
    output_tweak_covers_secret_and_count(secret, k, msg);
    label_tweak_covers_key_and_label(scan_secret, k, label_msg);
}

/// A sender that first multiplies its exponent by the input hash, and then the receiver's
/// scan key by the product, arrives at the receiver's shared secret too.
pub proof fn partial_secret_agrees(a: nat, input_hash: nat, b: nat)
    requires
        multiplied(a, input_hash),
        multiplied((a * input_hash) % curve_order(), b),
        multiplied(b, (a * input_hash) % curve_order()),
    ensures
        point_times(point_times(point_of(a), input_hash), b) == point_times(
            point_of(b),
            (a * input_hash) % curve_order(),
        ),
{
    let partial = (a * input_hash) % curve_order();
    assert(partial * b == b * partial) by (nonlinear_arith);
}

} // verus!
