//! Keys and scalars of the secp256k1 curve, and the hashes that go with them.
//!
//! Keys are held by their serialized bytes. The arithmetic on the curve is done by the
//! `secp256k1` crate and the hashing by the `bitcoin` crate's `hashes`; the functions
//! marked as trusted below are the only places that call them.

use vstd::prelude::*;
use crate::bytes::{be_value, bytes_equal};

verus! {

/// The number of points on the curve, a prime.
pub open spec fn curve_order() -> nat {
    0xffff_ffff_ffff_ffff_ffff_ffff_ffff_fffe_baae_dce6_af48_a03b_bfd2_5e8c_d036_4141nat
}

/// Whether `a` is the exponent of a secret key.
pub open spec fn is_exponent(a: nat) -> bool {
    0 < a < curve_order()
}

/// SHA-256 of `data`.
pub uninterp spec fn sha256_of(data: Seq<u8>) -> Seq<u8>;

/// RIPEMD-160 of the SHA-256 of `data`.
pub uninterp spec fn hash160_of(data: Seq<u8>) -> Seq<u8>;

/// The compressed form of the point that `data` encodes, if it encodes one.
pub uninterp spec fn point_parsed(data: Seq<u8>) -> Option<Seq<u8>>;

/// The compressed public key of the secret key with exponent `a`.
pub uninterp spec fn point_of(a: nat) -> Seq<u8>;

/// The compressed form of the point `p` multiplied by `s`.
pub uninterp spec fn point_times(p: Seq<u8>, s: nat) -> Seq<u8>;

/// The compressed form of the point `p` plus `t` times the generator, unless that is
/// the point at infinity.
pub uninterp spec fn point_plus(p: Seq<u8>, t: nat) -> Option<Seq<u8>>;

/// The compressed form of the sum of the points `ps`, if it has one.
pub uninterp spec fn point_sum(ps: Seq<Seq<u8>>) -> Option<Seq<u8>>;

/// Whether `x` is the serialized x coordinate of a point: then there is one with that x
/// coordinate and an even second one.
pub open spec fn is_x_coordinate(x: Seq<u8>) -> bool {
    point_parsed(seq![0x02u8] + x) is Some
}

/// Whether `p` is a point in compressed form.
pub open spec fn is_point(p: Seq<u8>) -> bool {
    point_parsed(p) == Some(p)
}

/// Whether `p` is the public key of the secret exponent `a`.
pub open spec fn is_point_of(p: Seq<u8>, a: nat) -> bool {
    is_exponent(a) && p == point_of(a)
}

/// Why a key operation failed.
#[derive(Clone, Copy, Debug, PartialEq, Eq, Structural)]
pub enum KeyError {
    InvalidSecretKey,
    InvalidPublicKey,
    InvalidPublicKeySum,
    InvalidTweak,
}

/// A point of the curve, held in compressed form.
#[derive(Clone, Copy, Debug, PartialEq, Eq)]
pub struct PublicKey {
    pub(crate) bytes: [u8; 33],
}

/// The x coordinate of a point of the curve.
#[derive(Clone, Copy, Debug, PartialEq, Eq)]
pub struct XOnlyPublicKey {
    pub(crate) bytes: [u8; 32],
}

/// An exponent between one and the curve order, held most significant byte first.
#[derive(Clone, Copy, PartialEq, Eq)]
pub struct SecretKey {
    pub(crate) bytes: [u8; 32],
}

/// A number below the curve order, held most significant byte first.
#[derive(Clone, Copy, Debug, PartialEq, Eq)]
pub struct Scalar {
    pub(crate) bytes: [u8; 32],
}

impl View for PublicKey {
    type V = Seq<u8>;

    closed spec fn view(&self) -> Seq<u8> {
        self.bytes@
    }
}

impl View for XOnlyPublicKey {
    type V = Seq<u8>;

    closed spec fn view(&self) -> Seq<u8> {
        self.bytes@
    }
}

impl View for SecretKey {
    type V = Seq<u8>;

    closed spec fn view(&self) -> Seq<u8> {
        self.bytes@
    }
}

impl View for Scalar {
    type V = Seq<u8>;

    closed spec fn view(&self) -> Seq<u8> {
        self.bytes@
    }
}

/// SHA-256. Trusted: the result of `bitcoin::hashes::sha256::Hash::hash` is a function
/// of the bytes hashed, named `sha256_of`.
#[verifier::external_body]
pub(crate) fn sha256(data: &[u8]) -> (r: [u8; 32])
    ensures
        r@ == sha256_of(data@),
{
    bitcoin::hashes::Hash::to_byte_array(
        <bitcoin::hashes::sha256::Hash as bitcoin::hashes::Hash>::hash(data),
    )
}

/// HASH160. Trusted: the result of `bitcoin::hashes::hash160::Hash::hash` is a function
/// of the bytes hashed, named `hash160_of`.
#[verifier::external_body]
pub(crate) fn hash160(data: &[u8]) -> (r: [u8; 20])
    ensures
        r@ == hash160_of(data@),
{
    bitcoin::hashes::Hash::to_byte_array(
        <bitcoin::hashes::hash160::Hash as bitcoin::hashes::Hash>::hash(data),
    )
}

/// Trusted: `secp256k1::SecretKey::from_slice` accepts exactly the thirty-two byte
/// strings whose number is above zero and below the curve order, and keeps the bytes.
#[verifier::external_body]
fn secret_from_slice(data: &[u8]) -> (r: Option<[u8; 32]>)
    ensures
        r is Some <==> (data@.len() == 32 && is_exponent(be_value(data@))),
        r matches Some(b) ==> b@ == data@,
{
    secp256k1::SecretKey::from_slice(data).ok().map(|k| k.secret_bytes())
}

/// Trusted: `secp256k1::Scalar::from_be_bytes` accepts exactly the numbers below the
/// curve order, and keeps the bytes.
#[verifier::external_body]
fn scalar_from_be_bytes(data: [u8; 32]) -> (r: Option<[u8; 32]>)
    ensures
        r is Some <==> be_value(data@) < curve_order(),
        r matches Some(b) ==> b@ == data@,
{
    secp256k1::Scalar::from_be_bytes(data).ok().map(|s| s.to_be_bytes())
}

/// Trusted: `secp256k1::SecretKey::add_tweak` adds modulo the curve order and fails
/// exactly when the sum is zero.
#[verifier::external_body]
fn secret_add_tweak(key: [u8; 32], tweak: [u8; 32]) -> (r: Option<[u8; 32]>)
    requires
        is_exponent(be_value(key@)),
        be_value(tweak@) < curve_order(),
    ensures
        r is Some <==> (be_value(key@) + be_value(tweak@)) % curve_order() != 0,
        r matches Some(b) ==> be_value(b@) == (be_value(key@) + be_value(tweak@)) % curve_order(),
{
    let key = secp256k1::SecretKey::from_slice(&key).unwrap();
    let tweak = secp256k1::Scalar::from_be_bytes(tweak).unwrap();
    key.add_tweak(&tweak).ok().map(|k| k.secret_bytes())
}

/// Trusted: `secp256k1::SecretKey::negate` takes the exponent away from the curve order.
#[verifier::external_body]
fn secret_negate(key: [u8; 32]) -> (r: [u8; 32])
    requires
        is_exponent(be_value(key@)),
    ensures
        be_value(r@) == curve_order() - be_value(key@),
{
    secp256k1::SecretKey::from_slice(&key).unwrap().negate().secret_bytes()
}

/// The signature of a digest by the key with an exponent.
pub uninterp spec fn schnorr_signature_of(digest: Seq<u8>, exponent: nat) -> Seq<u8>;

/// Trusted: the result of `secp256k1::Secp256k1::sign_schnorr_no_aux_rand` is a function of
/// the digest and the secret exponent, named `schnorr_signature_of`, of sixty-four bytes.
#[verifier::external_body]
fn schnorr_sign(digest: &[u8; 32], key: [u8; 32]) -> (r: [u8; 64])
    requires
        is_exponent(be_value(key@)),
    ensures
        r@ == schnorr_signature_of(digest@, be_value(key@)),
{
    let secp = secp256k1::Secp256k1::new();
    let keypair = secp256k1::Keypair::from_seckey_slice(&secp, &key).unwrap();
    let message = secp256k1::Message::from_digest(*digest);
    secp.sign_schnorr_no_aux_rand(&message, &keypair).serialize()
}

/// Trusted: what `secp256k1::PublicKey::from_slice` parses is a function of the bytes,
/// named `point_parsed`; the serialization of the key it returns parses to itself. A
/// string of thirty-three bytes is in compressed form already.
#[verifier::external_body]
fn point_from_slice(data: &[u8]) -> (r: Option<[u8; 33]>)
    ensures
        r is Some <==> point_parsed(data@) is Some,
        r matches Some(p) ==> point_parsed(data@) == Some(p@) && is_point(p@),
        r matches Some(p) ==> (data@.len() == 33 ==> p@ == data@),
{
    secp256k1::PublicKey::from_slice(data).ok().map(|p| p.serialize())
}

/// Trusted: `secp256k1::PublicKey::from_secret_key` is a function of the secret
/// exponent, named `point_of`, and gives a point. Two exponents give the same x coordinate
/// only where they are equal or opposite.
#[verifier::external_body]
fn point_from_secret(key: [u8; 32]) -> (r: [u8; 33])
    requires
        is_exponent(be_value(key@)),
    ensures
        r@ == point_of(be_value(key@)),
        is_point(r@),
        forall|b: nat|
            is_exponent(b) && #[trigger] point_of(b).skip(1) == r@.skip(1) ==> b == be_value(key@)
                || b + be_value(key@) == curve_order(),
{
    let secp = secp256k1::Secp256k1::new();
    let key = secp256k1::SecretKey::from_slice(&key).unwrap();
    secp256k1::PublicKey::from_secret_key(&secp, &key).serialize()
}

/// Trusted: `secp256k1::PublicKey::mul_tweak` fails exactly on a zero tweak; otherwise
/// its result is a function of the point and the tweak, named `point_times`. The tweak
/// multiplies the exponent of the point modulo the curve order, which is a prime, so the
/// product is an exponent again.
#[verifier::external_body]
fn point_mul_tweak(point: [u8; 33], tweak: [u8; 32]) -> (r: Option<[u8; 33]>)
    requires
        is_point(point@),
        be_value(tweak@) < curve_order(),
    ensures
        r is Some <==> be_value(tweak@) != 0,
        r matches Some(p) ==> p@ == point_times(point@, be_value(tweak@)) && is_point(p@),
        r matches Some(p) ==> forall|a: nat|
            is_exponent(a) && point@ == #[trigger] point_of(a) ==> is_point_of(
                p@,
                (a * be_value(tweak@)) % curve_order(),
            ),
{
    let secp = secp256k1::Secp256k1::new();
    let tweak = secp256k1::Scalar::from_be_bytes(tweak).unwrap();
    let point = secp256k1::PublicKey::from_slice(&point).unwrap();
    point.mul_tweak(&secp, &tweak).ok().map(|p| p.serialize())
}

/// Trusted: the result of `secp256k1::PublicKey::add_exp_tweak` is a function of the
/// point and the tweak, named `point_plus`. The tweak is added to the exponent of the
/// point modulo the curve order, and the call fails when that sum is zero.
#[verifier::external_body]
fn point_add_exp_tweak(point: [u8; 33], tweak: [u8; 32]) -> (r: Option<[u8; 33]>)
    requires
        is_point(point@),
        be_value(tweak@) < curve_order(),
    ensures
        r is Some <==> point_plus(point@, be_value(tweak@)) is Some,
        r matches Some(p) ==> point_plus(point@, be_value(tweak@)) == Some(p@) && is_point(p@),
        forall|a: nat|
            is_exponent(a) && point@ == #[trigger] point_of(a) ==> match r {
                Some(p) => is_point_of(p@, (a + be_value(tweak@)) % curve_order()),
                None => (a + be_value(tweak@)) % curve_order() == 0,
            },
{
    let secp = secp256k1::Secp256k1::new();
    let tweak = secp256k1::Scalar::from_be_bytes(tweak).unwrap();
    let point = secp256k1::PublicKey::from_slice(&point).unwrap();
    point.add_exp_tweak(&secp, &tweak).ok().map(|p| p.serialize())
}

/// The points that a list of arrays holds.
pub open spec fn point_views(keys: Seq<PublicKey>) -> Seq<Seq<u8>> {
    keys.map_values(|k: PublicKey| k@)
}

/// Trusted: the result of `secp256k1::PublicKey::combine_keys` is a function of the
/// list of points, named `point_sum`. The order of the list has no part in it.
#[verifier::external_body]
fn point_combine(keys: &Vec<PublicKey>) -> (r: Option<[u8; 33]>)
    ensures
        r is Some <==> point_sum(point_views(keys@)) is Some,
        r matches Some(p) ==> point_sum(point_views(keys@)) == Some(p@) && is_point(p@),
        forall|ps: Seq<Seq<u8>>|
            ps.to_multiset() == point_views(keys@).to_multiset() ==> match r {
                Some(p) => #[trigger] point_sum(ps) == Some(p@),
                None => point_sum(ps) is None,
            },
{
    let points: Vec<secp256k1::PublicKey> =
        keys.iter().map(|k| secp256k1::PublicKey::from_slice(&k.bytes).unwrap()).collect();
    let refs: Vec<&secp256k1::PublicKey> = points.iter().collect();
    secp256k1::PublicKey::combine_keys(&refs).ok().map(|p| p.serialize())
}

/// Trusted: `secp256k1::PublicKey::x_only_public_key` gives the x coordinate, which is
/// what follows the first byte of the compressed form.
#[verifier::external_body]
fn point_x_only(point: [u8; 33]) -> (r: [u8; 32])
    requires
        is_point(point@),
    ensures
        r@ == point@.skip(1),
        is_x_coordinate(r@),
{
    secp256k1::PublicKey::from_slice(&point).unwrap().x_only_public_key().0.serialize()
}

/// Trusted: `secp256k1::XOnlyPublicKey::from_slice` accepts exactly the thirty-two bytes
/// that are the x coordinate of a point, and keeps them.
#[verifier::external_body]
fn x_only_from_slice(data: &[u8]) -> (r: Option<[u8; 32]>)
    ensures
        r is Some <==> (data@.len() == 32 && is_x_coordinate(data@)),
        r matches Some(x) ==> x@ == data@,
{
    secp256k1::XOnlyPublicKey::from_slice(data).ok().map(|k| k.serialize())
}

/// The key whose x coordinate is `s`.
pub open spec fn x_only_of(s: Seq<u8>) -> XOnlyPublicKey {
    choose|k: XOnlyPublicKey| k@ == s
}

/// A key is determined by its x coordinate.
pub proof fn x_only_of_view(k: XOnlyPublicKey)
    ensures
        x_only_of(k@) == k,
{
    let other = x_only_of(k@);
    assert(other@ == k@);
    crate::bytes::array_ext(k.bytes, other.bytes);
}

impl PublicKey {
    #[verifier::type_invariant]
    spec fn valid(self) -> bool {
        is_point(self.bytes@)
    }

    /// Parses a serialized point.
    pub fn from_slice(data: &[u8]) -> (r: Result<Self, KeyError>)
        ensures
            match r {
                Ok(k) => point_parsed(data@) == Some(k@) && (data@.len() == 33 ==> k@ == data@),
                Err(e) => point_parsed(data@) is None && e == KeyError::InvalidPublicKey,
            },
    {
        match point_from_slice(data) {
            Some(bytes) => Ok(PublicKey { bytes }),
            None => Err(KeyError::InvalidPublicKey),
        }
    }

    /// The public key that belongs to a secret key.
    pub fn from_secret_key(key: &SecretKey) -> (r: Self)
        ensures
            r@ == point_of(be_value(key@)),
            forall|b: nat|
                is_exponent(b) && #[trigger] point_of(b).skip(1) == r@.skip(1) ==> b == be_value(
                    key@,
                ) || b + be_value(key@) == curve_order(),
    {
        proof {
            use_type_invariant(key);
        }
        PublicKey { bytes: point_from_secret(key.bytes) }
    }

    /// The sum of the given points.
    pub fn combine_keys(keys: &Vec<PublicKey>) -> (r: Option<Self>)
        ensures
            match r {
                Some(k) => point_sum(point_views(keys@)) == Some(k@),
                None => point_sum(point_views(keys@)) is None,
            },
            forall|ps: Seq<Seq<u8>>|
                ps.to_multiset() == point_views(keys@).to_multiset() ==> #[trigger] point_sum(ps)
                    == point_sum(point_views(keys@)),
    {
        match point_combine(keys) {
            Some(bytes) => Some(PublicKey { bytes }),
            None => None,
        }
    }

    /// The compressed form.
    pub fn serialize(&self) -> (r: [u8; 33])
        ensures
            r@ == self@,
            self@.len() == 33,
    {
        self.bytes
    }

    /// Multiplies the point by a scalar.
    pub fn mul_tweak(&self, tweak: &Scalar) -> (r: Result<Self, KeyError>)
        ensures
            match r {
                Ok(k) => be_value(tweak@) != 0 && k@ == point_times(self@, be_value(tweak@)),
                Err(e) => be_value(tweak@) == 0 && e == KeyError::InvalidTweak,
            },
            r matches Ok(k) ==> forall|a: nat|
                is_exponent(a) && self@ == #[trigger] point_of(a) ==> is_point_of(
                    k@,
                    (a * be_value(tweak@)) % curve_order(),
                ),
    {
        proof {
            use_type_invariant(self);
            use_type_invariant(tweak);
        }
        match point_mul_tweak(self.bytes, tweak.bytes) {
            Some(bytes) => Ok(PublicKey { bytes }),
            None => Err(KeyError::InvalidTweak),
        }
    }

    /// Adds a multiple of the generator to the point.
    pub fn add_exp_tweak(&self, tweak: &Scalar) -> (r: Result<Self, KeyError>)
        ensures
            match r {
                Ok(k) => point_plus(self@, be_value(tweak@)) == Some(k@),
                Err(e) => point_plus(self@, be_value(tweak@)) is None && e
                    == KeyError::InvalidTweak,
            },
            forall|a: nat|
                is_exponent(a) && self@ == #[trigger] point_of(a) ==> match r {
                    Ok(k) => is_point_of(k@, (a + be_value(tweak@)) % curve_order()),
                    Err(_) => (a + be_value(tweak@)) % curve_order() == 0,
                },
    {
        proof {
            use_type_invariant(self);
            use_type_invariant(tweak);
        }
        match point_add_exp_tweak(self.bytes, tweak.bytes) {
            Some(bytes) => Ok(PublicKey { bytes }),
            None => Err(KeyError::InvalidTweak),
        }
    }

    /// The x coordinate.
    pub fn x_only_public_key(&self) -> (r: XOnlyPublicKey)
        ensures
            r@ == self@.skip(1),
    {
        proof {
            use_type_invariant(self);
        }
        XOnlyPublicKey { bytes: point_x_only(self.bytes) }
    }
}

impl XOnlyPublicKey {
    #[verifier::type_invariant]
    spec fn valid(self) -> bool {
        is_x_coordinate(self.bytes@)
    }

    /// Parses a serialized x coordinate.
    pub fn from_slice(data: &[u8]) -> (r: Result<Self, KeyError>)
        ensures
            match r {
                Ok(k) => data@.len() == 32 && is_x_coordinate(data@) && k@ == data@,
                Err(e) => !(data@.len() == 32 && is_x_coordinate(data@)) && e
                    == KeyError::InvalidPublicKey,
            },
    {
        match x_only_from_slice(data) {
            Some(bytes) => Ok(XOnlyPublicKey { bytes }),
            None => Err(KeyError::InvalidPublicKey),
        }
    }

    /// The x coordinate, most significant byte first.
    pub fn serialize(&self) -> (r: [u8; 32])
        ensures
            r@ == self@,
            self@.len() == 32,
            is_x_coordinate(self@),
    {
        proof {
            use_type_invariant(self);
        }
        self.bytes
    }

    /// The point with this x coordinate and an even second one.
    pub fn even_point(&self) -> (r: PublicKey)
        ensures
            point_parsed(seq![0x02u8] + self@) == Some(r@),
    {
        proof {
            use_type_invariant(self);
        }
        let mut bytes: Vec<u8> = Vec::new();
        bytes.push(0x02);
        crate::bytes::put_bytes(&mut bytes, &self.bytes);
        assert(bytes@ =~= seq![0x02u8] + self@);
        PublicKey::from_slice(bytes.as_slice()).unwrap()
    }

    /// Whether two keys are the same.
    pub fn same(&self, other: &XOnlyPublicKey) -> (r: bool)
        ensures
            r == (self@ == other@),
            r == (*self == *other),
    {
        let r = bytes_equal(&self.bytes, &other.bytes);
        proof {
            if self@ == other@ {
                crate::bytes::array_ext(self.bytes, other.bytes);
            }
        }
        r
    }
}

impl SecretKey {
    #[verifier::type_invariant]
    spec fn valid(self) -> bool {
        is_exponent(be_value(self.bytes@))
    }

    /// Parses a secret exponent.
    pub fn from_slice(data: &[u8]) -> (r: Result<Self, KeyError>)
        ensures
            match r {
                Ok(k) => data@.len() == 32 && is_exponent(be_value(data@)) && k@ == data@,
                Err(e) => !(data@.len() == 32 && is_exponent(be_value(data@))) && e
                    == KeyError::InvalidSecretKey,
            },
    {
        match secret_from_slice(data) {
            Some(bytes) => Ok(SecretKey { bytes }),
            None => Err(KeyError::InvalidSecretKey),
        }
    }

    /// The exponent, most significant byte first.
    pub fn secret_bytes(&self) -> (r: [u8; 32])
        ensures
            r@ == self@,
            self@.len() == 32,
            is_exponent(be_value(self@)),
    {
        proof {
            use_type_invariant(self);
        }
        self.bytes
    }

    /// The opposite exponent.
    pub fn negate(&self) -> (r: Self)
        ensures
            be_value(r@) == curve_order() - be_value(self@),
    {
        proof {
            use_type_invariant(self);
        }
        SecretKey { bytes: secret_negate(self.bytes) }
    }

    /// Signs a digest.
    pub fn sign_schnorr(&self, digest: &[u8; 32]) -> (r: [u8; 64])
        ensures
            r@ == schnorr_signature_of(digest@, be_value(self@)),
    {
        proof {
            use_type_invariant(self);
        }
        schnorr_sign(digest, self.bytes)
    }

    /// Adds a scalar to the exponent, modulo the curve order.
    pub fn add_tweak(&self, tweak: &Scalar) -> (r: Result<Self, KeyError>)
        ensures
            match r {
                Ok(k) => be_value(k@) == (be_value(self@) + be_value(tweak@)) % curve_order(),
                Err(e) => (be_value(self@) + be_value(tweak@)) % curve_order() == 0 && e
                    == KeyError::InvalidTweak,
            },
            r is Ok <==> (be_value(self@) + be_value(tweak@)) % curve_order() != 0,
    {
        proof {
            use_type_invariant(self);
            use_type_invariant(tweak);
        }
        match secret_add_tweak(self.bytes, tweak.bytes) {
            Some(bytes) => Ok(SecretKey { bytes }),
            None => Err(KeyError::InvalidTweak),
        }
    }
}

impl Scalar {
    #[verifier::type_invariant]
    spec fn valid(self) -> bool {
        be_value(self.bytes@) < curve_order()
    }

    /// Reads a scalar, most significant byte first; a number that is not below the curve
    /// order is no scalar.
    pub fn from_be_bytes(data: [u8; 32]) -> (r: Option<Self>)
        ensures
            r is Some <==> be_value(data@) < curve_order(),
            r matches Some(s) ==> s@ == data@,
    {
        match scalar_from_be_bytes(data) {
            Some(bytes) => Some(Scalar { bytes }),
            None => None,
        }
    }

    /// The scalar, most significant byte first.
    pub fn to_be_bytes(&self) -> (r: [u8; 32])
        ensures
            r@ == self@,
            self@.len() == 32,
            be_value(self@) < curve_order(),
    {
        proof {
            use_type_invariant(self);
        }
        self.bytes
    }
}

} // verus!
