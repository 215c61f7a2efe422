//! Finding the outputs of a transaction that pay a silent payment address.

use vstd::prelude::*;
use crate::bytes::{
    be_value, bytes_equal, bytes_less, get_array, lex_less, lex_less_by_value,
    lex_less_irreflexive, lex_less_total, lex_less_transitive,
};
use crate::secp::{
    curve_order, hash160, hash160_of, is_x_coordinate, point_of, point_parsed, point_sum,
    point_times, point_views, PublicKey, Scalar, XOnlyPublicKey,
};
use crate::silentpayments::{
    checked_derive_output_pubkey, compute_input_hash, compute_shared_secret,
    input_hash_covers_outpoint_and_keys, input_hash_of, is_scalar, multiplied, output_key_of,
    output_tweak_of, shared_secret_of, shared_secrets_agree, tagged_hash_of, ScanKey, SpendKey,
};

verus! {

/// Whether a script pays to a witness public key hash.
pub open spec fn p2wpkh(script: Seq<u8>) -> bool {
    script.len() == 22 && script[0] == 0x00 && script[1] == 0x14
}

/// Whether a script pays to a taproot output key.
pub open spec fn p2tr(script: Seq<u8>) -> bool {
    script.len() == 34 && script[0] == 0x51 && script[1] == 0x20
}

/// Whether a script pays to a public key hash.
pub open spec fn p2pkh(script: Seq<u8>) -> bool {
    &&& script.len() == 25
    &&& script[0] == 0x76 && script[1] == 0xa9 && script[2] == 0x14
    &&& script[23] == 0x88 && script[24] == 0xac
}

/// Whether a script pays to a script hash.
pub open spec fn p2sh(script: Seq<u8>) -> bool {
    script.len() == 23 && script[0] == 0xa9 && script[1] == 0x14 && script[22] == 0x87
}

/// Whether a witness spends a taproot output by its key: one item is left after the
/// annex, a last item behind another that begins with 0x50, is set aside.
pub open spec fn key_path(witness: Seq<Seq<u8>>) -> bool {
    let has_annex = witness.len() >= 2 && witness.last().len() > 0 && witness.last()[0] == 0x50;
    witness.len() == (if has_annex {
        2nat
    } else {
        1nat
    })
}

/// The items of a witness as byte strings.
pub open spec fn items(witness: Seq<&[u8]>) -> Seq<Seq<u8>> {
    witness.map_values(|item: &[u8]| item@)
}

/// The last position, from `i` down, at which thirty-three bytes of `script_sig` have
/// the hash `expected`.
pub open spec fn last_hashed(script_sig: Seq<u8>, expected: Seq<u8>, i: int) -> Option<int>
    decreases i + 1,
{
    if i < 0 {
        None
    } else if hash160_of(script_sig.subrange(i, i + 33)) == expected {
        Some(i)
    } else {
        last_hashed(script_sig, expected, i - 1)
    }
}

/// The key that `script_sig` reveals for a public key hash.
pub open spec fn scriptsig_key(script_sig: Seq<u8>, expected: Seq<u8>) -> Option<Seq<u8>> {
    match last_hashed(script_sig, expected, script_sig.len() - 33) {
        Some(i) => point_parsed(script_sig.subrange(i, i + 33)),
        None => None,
    }
}

/// The key in the second and last item of a witness.
pub open spec fn witness_key(witness: Seq<Seq<u8>>) -> Option<Seq<u8>> {
    if witness.len() == 2 && witness[1].len() == 33 {
        point_parsed(witness[1])
    } else {
        None
    }
}

/// The key by which an input takes part in a silent payment, if it does.
pub open spec fn input_key(
    prevout_script: Seq<u8>,
    script_sig: Seq<u8>,
    witness: Seq<Seq<u8>>,
) -> Option<Seq<u8>> {
    if p2wpkh(prevout_script) {
        witness_key(witness)
    } else if p2tr(prevout_script) {
        if key_path(witness) {
            point_parsed(seq![0x02u8] + prevout_script.subrange(2, 34))
        } else {
            None
        }
    } else if p2pkh(prevout_script) {
        scriptsig_key(script_sig, prevout_script.subrange(3, 23))
    } else if p2sh(prevout_script) {
        witness_key(witness)
    } else {
        None
    }
}

/// The scripts that pay to a witness public key hash are 0x00 and twenty bytes behind their
/// number.
pub proof fn p2wpkh_scripts(script: Seq<u8>, hash: Seq<u8>)
    ensures
        hash.len() == 20 ==> p2wpkh(seq![0x00u8, 0x14u8] + hash),
        p2wpkh(script) ==> script.len() == 22 && script == seq![0x00u8, 0x14u8] + script.skip(2),
{
    if p2wpkh(script) {
        assert(script =~= seq![0x00u8, 0x14u8] + script.skip(2));
    }
}

/// The scripts that pay to a taproot output key are 0x51 and thirty-two bytes behind their
/// number.
pub proof fn p2tr_scripts(script: Seq<u8>, key: Seq<u8>)
    ensures
        key.len() == 32 ==> p2tr(seq![0x51u8, 0x20u8] + key),
        p2tr(script) ==> script.len() == 34 && script == seq![0x51u8, 0x20u8] + script.skip(2),
{
    if p2tr(script) {
        assert(script =~= seq![0x51u8, 0x20u8] + script.skip(2));
    }
}

/// The scripts that pay to a public key hash are twenty bytes behind 0x76, 0xa9 and their
/// number, with 0x88 and 0xac at the end.
pub proof fn p2pkh_scripts(script: Seq<u8>, hash: Seq<u8>)
    ensures
        hash.len() == 20 ==> p2pkh(
            seq![0x76u8, 0xa9u8, 0x14u8] + hash + seq![0x88u8, 0xacu8],
        ),
        p2pkh(script) ==> script.len() == 25 && script == seq![0x76u8, 0xa9u8, 0x14u8]
            + script.subrange(3, 23) + seq![0x88u8, 0xacu8],
{
    if p2pkh(script) {
        assert(script =~= seq![0x76u8, 0xa9u8, 0x14u8] + script.subrange(3, 23) + seq![
            0x88u8,
            0xacu8,
        ]);
    }
}

/// The scripts that pay to a script hash are twenty bytes behind 0xa9 and their number, with
/// 0x87 at the end.
pub proof fn p2sh_scripts(script: Seq<u8>, hash: Seq<u8>)
    ensures
        hash.len() == 20 ==> p2sh(seq![0xa9u8, 0x14u8] + hash + seq![0x87u8]),
        p2sh(script) ==> script.len() == 23 && script == seq![0xa9u8, 0x14u8] + script.subrange(
            2,
            22,
        ) + seq![0x87u8],
{
    if p2sh(script) {
        assert(script =~= seq![0xa9u8, 0x14u8] + script.subrange(2, 22) + seq![0x87u8]);
    }
}

/// A taproot output is spent by its key with a witness of one item, or of two where the
/// second begins with 0x50.
pub proof fn key_paths_have_one_item(witness: Seq<Seq<u8>>)
    ensures
        key_path(witness) <==> witness.len() == 1 || (witness.len() == 2 && witness[1].len() > 0
            && witness[1][0] == 0x50),
{
}

/// An output to a witness public key hash, and one to a script hash, is spent under the key
/// that the second of two witness items holds, if it holds thirty-three bytes.
pub proof fn witness_inputs_show_their_key(
    hash: Seq<u8>,
    script_sig: Seq<u8>,
    witness: Seq<Seq<u8>>,
)
    requires
        hash.len() == 20,
    ensures
        ({
            let key = if witness.len() == 2 && witness[1].len() == 33 {
                point_parsed(witness[1])
            } else {
                None
            };
            &&& input_key(seq![0x00u8, 0x14u8] + hash, script_sig, witness) == key
            &&& input_key(seq![0xa9u8, 0x14u8] + hash + seq![0x87u8], script_sig, witness) == key
        }),
{
}

/// A taproot output is spent under its own key, taken with an even second coordinate, if its
/// witness spends it by the key.
pub proof fn taproot_inputs_show_their_key(
    key: Seq<u8>,
    script_sig: Seq<u8>,
    witness: Seq<Seq<u8>>,
)
    requires
        key.len() == 32,
    ensures
        witness.len() == 1 ==> input_key(seq![0x51u8, 0x20u8] + key, script_sig, witness)
            == point_parsed(seq![0x02u8] + key),
        witness.len() == 2 && witness[1].len() > 0 && witness[1][0] == 0x50 ==> input_key(
            seq![0x51u8, 0x20u8] + key,
            script_sig,
            witness,
        ) == point_parsed(seq![0x02u8] + key),
        witness.len() != 1 && !(witness.len() == 2 && witness[1].len() > 0 && witness[1][0] == 0x50)
            ==> input_key(seq![0x51u8, 0x20u8] + key, script_sig, witness) is None,
{
    let script = seq![0x51u8, 0x20u8] + key;
    assert(script.subrange(2, 34) =~= key);
}

proof fn lemma_last_hashed(script_sig: Seq<u8>, expected: Seq<u8>, i: int)
    ensures
        match last_hashed(script_sig, expected, i) {
            Some(p) => {
                &&& 0 <= p <= i
                &&& hash160_of(script_sig.subrange(p, p + 33)) == expected
                &&& forall|q: int|
                    p < q <= i ==> hash160_of(#[trigger] script_sig.subrange(q, q + 33))
                        != expected
            },
            None => forall|q: int|
                0 <= q <= i ==> hash160_of(#[trigger] script_sig.subrange(q, q + 33)) != expected,
        },
    decreases i + 1,
{
    if i >= 0 && hash160_of(script_sig.subrange(i, i + 33)) != expected {
        lemma_last_hashed(script_sig, expected, i - 1);
    }
}

/// An output to a public key hash is spent under the key that the last thirty-three bytes of
/// the script signature with that hash hold, wherever they stand in it.
pub proof fn hash_inputs_show_their_key(
    hash: Seq<u8>,
    script_sig: Seq<u8>,
    witness: Seq<Seq<u8>>,
    at: int,
)
    requires
        hash.len() == 20,
        0 <= at <= script_sig.len() - 33,
        hash160_of(script_sig.subrange(at, at + 33)) == hash,
        forall|q: int|
            at < q <= script_sig.len() - 33 ==> hash160_of(
                #[trigger] script_sig.subrange(q, q + 33),
            ) != hash,
    ensures
        input_key(
            seq![0x76u8, 0xa9u8, 0x14u8] + hash + seq![0x88u8, 0xacu8],
            script_sig,
            witness,
        ) == point_parsed(script_sig.subrange(at, at + 33)),
{
    let script = seq![0x76u8, 0xa9u8, 0x14u8] + hash + seq![0x88u8, 0xacu8];
    assert(script.subrange(3, 23) =~= hash);
    lemma_last_hashed(script_sig, hash, script_sig.len() - 33);
    if let Some(p) = last_hashed(script_sig, hash, script_sig.len() - 33) {
        assert(hash160_of(script_sig.subrange(p, p + 33)) == hash);
    }
}

/// An output to a public key hash is spent under no key where nothing in the script
/// signature has that hash, and an output with any other script is spent under no key.
pub proof fn other_inputs_show_no_key(
    script: Seq<u8>,
    script_sig: Seq<u8>,
    witness: Seq<Seq<u8>>,
)
    requires
        p2pkh(script) ==> forall|q: int|
            0 <= q <= script_sig.len() - 33 ==> hash160_of(
                #[trigger] script_sig.subrange(q, q + 33),
            ) != script.subrange(3, 23),
        !p2wpkh(script) && !p2tr(script) && !p2sh(script),
    ensures
        input_key(script, script_sig, witness) is None,
{
    if p2pkh(script) {
        lemma_last_hashed(script_sig, script.subrange(3, 23), script_sig.len() - 33);
    }
}

/// Whether a script pays to a witness public key hash.
pub fn is_p2wpkh(script: &[u8]) -> (r: bool)
    ensures
        r == p2wpkh(script@),
{
    script.len() == 22 && script[0] == 0x00 && script[1] == 0x14
}

/// Whether a script pays to a taproot output key.
pub fn is_p2tr(script: &[u8]) -> (r: bool)
    ensures
        r == p2tr(script@),
{
    script.len() == 34 && script[0] == 0x51 && script[1] == 0x20
}

/// Whether a script pays to a public key hash.
pub fn is_p2pkh(script: &[u8]) -> (r: bool)
    ensures
        r == p2pkh(script@),
{
    script.len() == 25 && script[0] == 0x76 && script[1] == 0xa9 && script[2] == 0x14 && script[23]
        == 0x88 && script[24] == 0xac
}

/// Whether a script pays to a script hash.
pub fn is_p2sh(script: &[u8]) -> (r: bool)
    ensures
        r == p2sh(script@),
{
    script.len() == 23 && script[0] == 0xa9 && script[1] == 0x14 && script[22] == 0x87
}

/// Whether a witness spends a taproot output by its key.
pub fn is_p2tr_key_path(witness: &[&[u8]]) -> (r: bool)
    ensures
        r == key_path(items(witness@)),
{
    if witness.is_empty() {
        return false;
    }
    let n: usize = witness.len();
    let last = witness[n - 1];
    assert(items(witness@).last() == last@);
    let has_annex = n >= 2 && last.len() > 0 && last[0] == 0x50;
    let effective_len: usize = if has_annex {
        n - 1
    } else {
        n
    };
    effective_len == 1
}

/// Looks for the key of a hash in a script signature. The windows of thirty-three bytes
/// are tried from the back, which handles malleated signatures without parsing opcodes.
fn extract_pubkey_from_scriptsig(script_sig: &[u8], expected_hash: &[u8; 20]) -> (r: Option<
    PublicKey,
>)
    ensures
        match r {
            Some(k) => scriptsig_key(script_sig@, expected_hash@) == Some(k@),
            None => scriptsig_key(script_sig@, expected_hash@) is None,
        },
{
    if script_sig.len() < 33 {
        return None;
    }
    let start: usize = script_sig.len() - 33;
    let mut left: usize = start + 1;
    while left > 0
        invariant
            left <= start + 1,
            start + 33 == script_sig@.len(),
            last_hashed(script_sig@, expected_hash@, start as int) == last_hashed(
                script_sig@,
                expected_hash@,
                left - 1,
            ),
        decreases left,
    {
        let i: usize = left - 1;
        let candidate: [u8; 33] = get_array(script_sig, i);
        let h = hash160(&candidate);
        if bytes_equal(&h, expected_hash) {
            return match PublicKey::from_slice(&candidate) {
                Ok(k) => Some(k),
                Err(_) => None,
            };
        }
        left = left - 1;
    }
    None
}

/// The key that the second item of a witness reveals.
fn extract_pubkey_from_witness(witness: &[&[u8]]) -> (r: Option<PublicKey>)
    ensures
        match r {
            Some(k) => witness_key(items(witness@)) == Some(k@),
            None => witness_key(items(witness@)) is None,
        },
{
    if witness.len() == 2 && witness[1].len() == 33 {
        match PublicKey::from_slice(witness[1]) {
            Ok(k) => Some(k),
            Err(_) => None,
        }
    } else {
        None
    }
}

/// Returns the eligible BIP-352 input public key, or nothing for ineligible types.
pub fn extract_pubkey_from_input(
    prevout_script: &[u8],
    script_sig: &[u8],
    witness: &[&[u8]],
) -> (r: Option<PublicKey>)
    ensures
        match r {
            Some(k) => input_key(prevout_script@, script_sig@, items(witness@)) == Some(k@),
            None => input_key(prevout_script@, script_sig@, items(witness@)) is None,
        },
{
    if is_p2wpkh(prevout_script) {
        extract_pubkey_from_witness(witness)
    } else if is_p2tr(prevout_script) {
        if is_p2tr_key_path(witness) {
            let mut full_key: Vec<u8> = Vec::new();
            full_key.push(0x02);
            let x_only_bytes: [u8; 32] = get_array(prevout_script, 2);
            crate::bytes::put_bytes(&mut full_key, &x_only_bytes);
            assert(full_key@ =~= seq![0x02u8] + prevout_script@.subrange(2, 34));
            match PublicKey::from_slice(full_key.as_slice()) {
                Ok(k) => Some(k),
                Err(_) => None,
            }
        } else {
            None
        }
    } else if is_p2pkh(prevout_script) {
        let expected_hash: [u8; 20] = get_array(prevout_script, 3);
        extract_pubkey_from_scriptsig(script_sig, &expected_hash)
    } else if is_p2sh(prevout_script) {
        extract_pubkey_from_witness(witness)
    } else {
        None
    }
}

/// An input of a transaction, with the script of the output that it spends.
pub struct InputData<'a> {
    pub prevout_script: &'a [u8],
    pub script_sig: &'a [u8],
    pub witness: Vec<&'a [u8]>,
    pub outpoint: [u8; 36],
}

/// An output of a transaction that pays the scanned keys.
#[derive(Clone, Copy, Debug, PartialEq, Eq)]
pub struct FoundOutput {
    pub vout: u32,
    pub x_only_pubkey: XOnlyPublicKey,
    pub k: u32,
}

/// An output of a transaction.
pub struct OutputData<'a> {
    pub vout: u32,
    pub value: i64,
    pub script_pubkey: &'a [u8],
}

/// A transaction as the scanner reads it.
pub struct TransactionData<'a> {
    pub txid: [u8; 32],
    pub inputs: Vec<InputData<'a>>,
    pub outputs: Vec<OutputData<'a>>,
}

/// A payment found in a block.
#[derive(Clone, Copy, Debug, PartialEq, Eq)]
pub struct FoundPayment {
    pub txid: [u8; 32],
    pub vout: u32,
    pub x_only_pubkey: XOnlyPublicKey,
    pub k: u32,
    pub amount: i64,
}

/// What a found output says: its number, its key and the counter of the payment.
pub struct FoundView {
    pub vout: u32,
    pub key: Seq<u8>,
    pub k: u32,
}

impl View for FoundOutput {
    type V = FoundView;

    open spec fn view(&self) -> FoundView {
        FoundView { vout: self.vout, key: self.x_only_pubkey@, k: self.k }
    }
}

/// What a found payment says.
pub struct PaymentView {
    pub txid: [u8; 32],
    pub vout: u32,
    pub key: Seq<u8>,
    pub k: u32,
    pub amount: i64,
}

impl View for FoundPayment {
    type V = PaymentView;

    open spec fn view(&self) -> PaymentView {
        PaymentView {
            txid: self.txid,
            vout: self.vout,
            key: self.x_only_pubkey@,
            k: self.k,
            amount: self.amount,
        }
    }
}

/// Found outputs as values.
pub open spec fn found_views(found: Seq<FoundOutput>) -> Seq<FoundView> {
    found.map_values(|f: FoundOutput| f@)
}

/// Found payments as values.
pub open spec fn payment_views(payments: Seq<FoundPayment>) -> Seq<PaymentView> {
    payments.map_values(|p: FoundPayment| p@)
}

/// A list of taproot outputs as values: the number and the key of each.
pub open spec fn output_views(outputs: Seq<(u32, XOnlyPublicKey)>) -> Seq<(u32, Seq<u8>)> {
    outputs.map_values(|o: (u32, XOnlyPublicKey)| (o.0, o.1@))
}

/// The keys of the eligible inputs, in order.
pub open spec fn eligible_keys(inputs: Seq<InputData>) -> Seq<Seq<u8>>
    decreases inputs.len(),
{
    if inputs.len() == 0 {
        Seq::empty()
    } else {
        let input = inputs.last();
        let before = eligible_keys(inputs.drop_last());
        match input_key(input.prevout_script@, input.script_sig@, items(input.witness@)) {
            Some(key) => before.push(key),
            None => before,
        }
    }
}

/// The smallest outpoint of all inputs, eligible or not.
pub open spec fn smallest_outpoint(inputs: Seq<InputData>) -> Seq<u8>
    recommends
        inputs.len() > 0,
    decreases inputs.len(),
{
    if inputs.len() <= 1 {
        inputs[0].outpoint@
    } else {
        let before = smallest_outpoint(inputs.drop_last());
        if lex_less(inputs.last().outpoint@, before) {
            inputs.last().outpoint@
        } else {
            before
        }
    }
}

/// The sum of the input keys (A).
pub open spec fn key_sum(keys: Seq<Seq<u8>>) -> Option<Seq<u8>> {
    if keys.len() == 0 {
        None
    } else if keys.len() == 1 {
        Some(keys[0])
    } else {
        point_sum(keys)
    }
}

/// The shared secret of a transaction, unless no input is eligible or the curve
/// arithmetic has no result.
pub open spec fn transaction_secret(scan_secret: Seq<u8>, inputs: Seq<InputData>) -> Option<
    Seq<u8>,
> {
    match key_sum(eligible_keys(inputs)) {
        Some(a_sum) => {
            let input_hash = input_hash_of(smallest_outpoint(inputs), a_sum);
            if be_value(input_hash) == 0 {
                None
            } else {
                Some(shared_secret_of(scan_secret, input_hash, a_sum))
            }
        },
        None => None,
    }
}

/// Whether the input hash of a transaction, if it has one, can be used as a scalar.
pub open spec fn input_hash_usable(inputs: Seq<InputData>) -> bool {
    match key_sum(eligible_keys(inputs)) {
        Some(a_sum) => is_scalar(input_hash_of(smallest_outpoint(inputs), a_sum)),
        None => true,
    }
}

/// The position of the first output with the given key, from `i` on.
pub open spec fn output_position(
    outputs: Seq<(u32, Seq<u8>)>,
    key: Seq<u8>,
    i: int,
) -> Option<int>
    decreases outputs.len() - i,
{
    if i < 0 || i >= outputs.len() {
        None
    } else if outputs[i].1 == key {
        Some(i)
    } else {
        output_position(outputs, key, i + 1)
    }
}

/// The `k`-th payment under a shared secret, to the first of the spend keys from `i` on
/// that has one.
pub open spec fn payment(
    shared_secret: Seq<u8>,
    spend_keys: Seq<Seq<u8>>,
    outputs: Seq<(u32, Seq<u8>)>,
    k: u32,
    i: int,
) -> Option<FoundView>
    decreases spend_keys.len() - i,
{
    if i < 0 || i >= spend_keys.len() {
        None
    } else {
        let rest = payment(shared_secret, spend_keys, outputs, k, i + 1);
        match output_key_of(shared_secret, spend_keys[i], k) {
            Some(key) => match output_position(outputs, key, 0) {
                Some(p) => Some(FoundView { vout: outputs[p].0, key, k }),
                None => rest,
            },
            None => rest,
        }
    }
}

/// Whether the payments under a shared secret are those with a number below `n`: every
/// number below has one, `n` has none, and all tweaks up to `n` are scalars.
pub open spec fn payments_end_at(
    shared_secret: Seq<u8>,
    spend_keys: Seq<Seq<u8>>,
    outputs: Seq<(u32, Seq<u8>)>,
    n: u32,
) -> bool {
    &&& forall|k: u32|
        k < n ==> #[trigger] payment(shared_secret, spend_keys, outputs, k, 0) is Some
    &&& forall|k: u32| k <= n ==> is_scalar(#[trigger] output_tweak_of(shared_secret, k))
    &&& payment(shared_secret, spend_keys, outputs, n, 0) is None
}

/// The payments under a shared secret, in order.
pub open spec fn payments_of(
    shared_secret: Seq<u8>,
    spend_keys: Seq<Seq<u8>>,
    outputs: Seq<(u32, Seq<u8>)>,
) -> Seq<FoundView> {
    let n = choose|n: u32| payments_end_at(shared_secret, spend_keys, outputs, n);
    Seq::new(
        n as nat,
        |k: int| payment(shared_secret, spend_keys, outputs, k as u32, 0).unwrap(),
    )
}

/// The payments under a shared secret end at one number only.
proof fn lemma_end_unique(
    shared_secret: Seq<u8>,
    spend_keys: Seq<Seq<u8>>,
    outputs: Seq<(u32, Seq<u8>)>,
    m: u32,
    n: u32,
)
    requires
        payments_end_at(shared_secret, spend_keys, outputs, m),
        payments_end_at(shared_secret, spend_keys, outputs, n),
    ensures
        m == n,
{
    if m < n {
        assert(payment(shared_secret, spend_keys, outputs, m, 0) is Some);
    } else if n < m {
        assert(payment(shared_secret, spend_keys, outputs, n, 0) is Some);
    }
}

/// The compressed forms of a list of spend keys.
pub open spec fn key_views(keys: Seq<SpendKey>) -> Seq<Seq<u8>> {
    keys.map_values(|key: SpendKey| key@)
}

/// The spend key followed by the labeled ones.
pub open spec fn all_keys(spend_key: SpendKey, labeled: Seq<SpendKey>) -> Seq<Seq<u8>> {
    seq![spend_key@] + key_views(labeled)
}

/// Whether a transaction can be scanned: the hashes that become scalars are below the
/// curve order, and the payments come to an end.
pub open spec fn scannable(
    scan_secret: Seq<u8>,
    spend_keys: Seq<Seq<u8>>,
    inputs: Seq<InputData>,
    outputs: Seq<(u32, Seq<u8>)>,
) -> bool {
    inputs.len() > 0 && outputs.len() > 0 ==> {
        &&& input_hash_usable(inputs)
        &&& transaction_secret(scan_secret, inputs) matches Some(secret) ==> exists|n: u32|
            payments_end_at(secret, spend_keys, outputs, n)
    }
}

/// What scanning a transaction finds.
pub open spec fn scanned(
    scan_secret: Seq<u8>,
    spend_keys: Seq<Seq<u8>>,
    inputs: Seq<InputData>,
    outputs: Seq<(u32, Seq<u8>)>,
) -> Seq<FoundView> {
    if inputs.len() == 0 || outputs.len() == 0 {
        Seq::empty()
    } else {
        match transaction_secret(scan_secret, inputs) {
            Some(secret) => payments_of(secret, spend_keys, outputs),
            None => Seq::empty(),
        }
    }
}

/// What the scanner reads of an input.
#[verifier::ext_equal]
pub struct InputView {
    pub outpoint: Seq<u8>,
    pub prevout_script: Seq<u8>,
    pub script_sig: Seq<u8>,
    pub witness: Seq<Seq<u8>>,
}

/// Inputs as values.
pub open spec fn input_views(inputs: Seq<InputData>) -> Seq<InputView> {
    inputs.map_values(
        |i: InputData|
            InputView {
                outpoint: i.outpoint@,
                prevout_script: i.prevout_script@,
                script_sig: i.script_sig@,
                witness: items(i.witness@),
            },
    )
}

/// Whether two lists hold the same inputs, in whatever order.
pub open spec fn same_inputs(a: Seq<InputData>, b: Seq<InputData>) -> bool {
    input_views(a).to_multiset() == input_views(b).to_multiset()
}

spec fn view_key(i: InputView) -> Option<Seq<u8>> {
    input_key(i.prevout_script, i.script_sig, i.witness)
}

spec fn view_keys(inputs: Seq<InputView>) -> Seq<Seq<u8>>
    decreases inputs.len(),
{
    if inputs.len() == 0 {
        Seq::empty()
    } else {
        match view_key(inputs.last()) {
            Some(key) => view_keys(inputs.drop_last()).push(key),
            None => view_keys(inputs.drop_last()),
        }
    }
}

proof fn lemma_view_keys(inputs: Seq<InputData>)
    ensures
        eligible_keys(inputs) == view_keys(input_views(inputs)),
    decreases inputs.len(),
{
    if inputs.len() > 0 {
        lemma_view_keys(inputs.drop_last());
        assert(input_views(inputs).drop_last() =~= input_views(inputs.drop_last()));
    }
}

proof fn lemma_keys_without(inputs: Seq<InputView>, k: int)
    requires
        0 <= k < inputs.len(),
    ensures
        view_keys(inputs).to_multiset() == match view_key(inputs[k]) {
            Some(key) => view_keys(inputs.remove(k)).to_multiset().insert(key),
            None => view_keys(inputs.remove(k)).to_multiset(),
        },
    decreases inputs.len(),
{
    broadcast use vstd::seq_lib::to_multiset_build;

    let fewer = inputs.drop_last();
    if k == inputs.len() - 1 {
        assert(inputs.remove(k) =~= fewer);
    } else {
        lemma_keys_without(fewer, k);
        let rest = inputs.remove(k);
        assert(rest.drop_last() =~= fewer.remove(k));
        assert(rest.last() == inputs.last());
        assert(fewer[k] == inputs[k]);
        if let Some(last) = view_key(inputs.last()) {
            let m = view_keys(fewer.remove(k)).to_multiset();
            if let Some(key) = view_key(inputs[k]) {
                assert(m.insert(key).insert(last) =~= m.insert(last).insert(key));
            }
        }
    }
}

proof fn lemma_keys_by_inputs(a: Seq<InputView>, b: Seq<InputView>)
    requires
        a.to_multiset() == b.to_multiset(),
    ensures
        view_keys(a).to_multiset() == view_keys(b).to_multiset(),
        a.len() == b.len(),
    decreases a.len(),
{
    a.to_multiset_ensures();
    b.to_multiset_ensures();
    if a.len() > 0 {
        let n = a.len() - 1;
        assert(a.contains(a[n]));
        assert(b.to_multiset().count(a[n]) > 0);
        let k = choose|k: int| 0 <= k < b.len() && b[k] == a[n];
        lemma_keys_without(a, n);
        lemma_keys_without(b, k);
        lemma_keys_by_inputs(a.remove(n), b.remove(k));
    }
}

/// The smallest outpoint of a transaction, and the keys of its eligible inputs but for their
/// order, do not depend on the order of the inputs.
pub proof fn input_order_leaves_keys(a: Seq<InputData>, b: Seq<InputData>)
    requires
        same_inputs(a, b),
    ensures
        a.len() == b.len(),
        eligible_keys(a).to_multiset() == eligible_keys(b).to_multiset(),
        a.len() > 0 ==> smallest_outpoint(a) == smallest_outpoint(b),
{
    let (va, vb) = (input_views(a), input_views(b));
    lemma_view_keys(a);
    lemma_view_keys(b);
    lemma_keys_by_inputs(va, vb);
    if a.len() > 0 {
        va.to_multiset_ensures();
        vb.to_multiset_ensures();
        smallest_outpoint_is_least(a);
        smallest_outpoint_is_least(b);
        let (x, y) = (smallest_outpoint(a), smallest_outpoint(b));
        let i = choose|i: int| 0 <= i < a.len() && (#[trigger] a[i]).outpoint@ == x;
        let j = choose|j: int| 0 <= j < b.len() && (#[trigger] b[j]).outpoint@ == y;
        assert(va.contains(va[i]) && vb.contains(vb[j]));
        assert(vb.to_multiset().count(va[i]) > 0 && va.to_multiset().count(vb[j]) > 0);
        let k = choose|k: int| 0 <= k < vb.len() && vb[k] == va[i];
        let m = choose|m: int| 0 <= m < va.len() && va[m] == vb[j];
        assert(b[k].outpoint@ == x && a[m].outpoint@ == y);
        if x != y {
            lex_less_total(x, y);
        }
    }
}

/// The keys of the inputs of two lists put together are the keys of the one and those of the
/// other; an input alone has its own key, or none.
pub proof fn eligible_keys_add_up(a: Seq<InputData>, b: Seq<InputData>, input: InputData)
    ensures
        eligible_keys(a + b) == eligible_keys(a) + eligible_keys(b),
        input_key(input.prevout_script@, input.script_sig@, items(input.witness@)) matches Some(key)
            ==> eligible_keys(seq![input]) == seq![key],
        input_key(input.prevout_script@, input.script_sig@, items(input.witness@)) is None
            ==> eligible_keys(seq![input]) == Seq::<Seq<u8>>::empty(),
    decreases b.len(),
{
    reveal_with_fuel(eligible_keys, 2);
    assert(seq![input].drop_last() =~= Seq::empty());
    if b.len() == 0 {
        assert(a + b =~= a);
        assert(eligible_keys(a) + eligible_keys(b) =~= eligible_keys(a));
    } else {
        eligible_keys_add_up(a, b.drop_last(), input);
        assert((a + b).drop_last() =~= a + b.drop_last());
        assert(eligible_keys(a + b) =~= eligible_keys(a) + eligible_keys(b));
    }
}

/// The sum of one key is the key; there is none of no keys.
pub proof fn one_key_is_its_own_sum(key: Seq<u8>)
    ensures
        key_sum(seq![key]) == Some(key),
        key_sum(Seq::empty()) is None,
{
}

/// The shared secret of a transaction: the sum of the input keys, multiplied by the number
/// that the input hash spells and by the one that the scan key spells. What is hashed is the
/// outpoint that spells the smallest number, and behind it the sum.
pub proof fn transaction_secrets_cover_the_inputs(
    scan_secret: Seq<u8>,
    inputs: Seq<InputData>,
    least: int,
    a_sum: Seq<u8>,
    msg: Seq<u8>,
)
    requires
        0 <= least < inputs.len(),
        forall|i: int|
            0 <= i < inputs.len() ==> be_value(inputs[least].outpoint@) <= be_value(
                (#[trigger] inputs[i]).outpoint@,
            ),
        key_sum(eligible_keys(inputs)) == Some(a_sum),
        msg.len() == 36 + a_sum.len(),
        msg.take(36) == inputs[least].outpoint@,
        msg.skip(36) == a_sum,
    ensures
        ({
            let h = be_value(tagged_hash_of("BIP0352/Inputs"@, msg));
            transaction_secret(scan_secret, inputs) == (if h == 0 {
                None
            } else {
                Some(point_times(point_times(a_sum, h), be_value(scan_secret)))
            })
        }),
{
    let o = smallest_outpoint(inputs);
    smallest_outpoint_is_least(inputs);
    let w = choose|i: int| 0 <= i < inputs.len() && (#[trigger] inputs[i]).outpoint@ == o;
    lex_less_by_value(inputs[least].outpoint@, o);
    lex_less_by_value(o, inputs[least].outpoint@);
    if o != inputs[least].outpoint@ {
        lex_less_total(o, inputs[least].outpoint@);
    }
    input_hash_covers_outpoint_and_keys(o, a_sum, msg);
}

proof fn lemma_secret_by_inputs(scan_secret: Seq<u8>, a: Seq<InputData>, b: Seq<InputData>)
    requires
        same_inputs(a, b),
        a.len() > 0,
        key_sum(eligible_keys(a)) == key_sum(eligible_keys(b)),
    ensures
        transaction_secret(scan_secret, a) == transaction_secret(scan_secret, b),
        input_hash_usable(a) == input_hash_usable(b),
{
    input_order_leaves_keys(a, b);
}

/// Adds up the keys of the eligible inputs.
fn sum_keys(keys: &Vec<PublicKey>) -> (r: Option<PublicKey>)
    ensures
        match r {
            Some(sum) => key_sum(point_views(keys@)) == Some(sum@),
            None => key_sum(point_views(keys@)) is None,
        },
        forall|ps: Seq<Seq<u8>>|
            ps.to_multiset() == point_views(keys@).to_multiset() ==> #[trigger] key_sum(ps)
                == key_sum(point_views(keys@)),
{
    let ghost views = point_views(keys@);
    let r = if keys.len() == 0 {
        None
    } else if keys.len() == 1 {
        assert(views[0] == keys@[0]@);
        Some(keys[0])
    } else {
        PublicKey::combine_keys(keys)
    };
    proof {
        assert forall|ps: Seq<Seq<u8>>| ps.to_multiset() == views.to_multiset() implies
            #[trigger] key_sum(ps) == key_sum(views) by {
            ps.to_multiset_ensures();
            views.to_multiset_ensures();
            if ps.len() == 1 {
                assert(ps.contains(ps[0]));
                assert(views.to_multiset().count(ps[0]) > 0);
                assert(views[0] == ps[0]);
            }
        }
    }
    r
}

/// The shared secret of a transaction: nothing when the input hash is no scalar, and
/// otherwise the secret if there is one. The order of the inputs has no part in it.
pub fn compute_transaction_secret(scan_key: &ScanKey, inputs: &[InputData]) -> (r: Option<
    Option<PublicKey>,
>)
    requires
        inputs@.len() > 0,
    ensures
        match r {
            Some(Some(secret)) => {
                &&& input_hash_usable(inputs@)
                &&& transaction_secret(scan_key.secret(), inputs@) == Some(secret@)
            },
            Some(None) => {
                &&& input_hash_usable(inputs@)
                &&& transaction_secret(scan_key.secret(), inputs@) is None
            },
            None => !input_hash_usable(inputs@),
        },
        forall|other: Seq<InputData>|
            same_inputs(inputs@, other) ==> #[trigger] transaction_secret(
                scan_key.secret(),
                other,
            ) == transaction_secret(scan_key.secret(), inputs@),
        forall|other: Seq<InputData>|
            same_inputs(inputs@, other) ==> #[trigger] input_hash_usable(other)
                == input_hash_usable(inputs@),
{
    let mut pubkeys: Vec<PublicKey> = Vec::new();
    let mut smallest: [u8; 36] = inputs[0].outpoint;
    let mut i: usize = 0;
    proof {
        assert(point_views(pubkeys@) =~= eligible_keys(inputs@.take(0)));
    }
    while i < inputs.len()
        invariant
            i <= inputs@.len(),
            point_views(pubkeys@) == eligible_keys(inputs@.take(i as int)),
            i == 0 ==> smallest@ == inputs@[0].outpoint@,
            i > 0 ==> smallest@ == smallest_outpoint(inputs@.take(i as int)),
        decreases inputs@.len() - i,
    {
        let input = &inputs[i];
        let ghost before = pubkeys@;
        assert(inputs@.take(i + 1).drop_last() =~= inputs@.take(i as int));
        match extract_pubkey_from_input(
            input.prevout_script,
            input.script_sig,
            input.witness.as_slice(),
        ) {
            Some(key) => {
                pubkeys.push(key);
                assert(point_views(pubkeys@) =~= point_views(before).push(key@));
            },
            None => {},
        }
        if i > 0 && bytes_less(&input.outpoint, &smallest) {
            smallest = input.outpoint;
        }
        i = i + 1;
    }
    assert(inputs@.take(i as int) =~= inputs@);
    let ghost keys = eligible_keys(inputs@);
    assert(keys.len() == pubkeys@.len());
    let sum = sum_keys(&pubkeys);
    proof {
        assert forall|other: Seq<InputData>| same_inputs(inputs@, other) implies
            #[trigger] transaction_secret(scan_key.secret(), other) == transaction_secret(
            scan_key.secret(),
            inputs@,
        ) by {
            input_order_leaves_keys(inputs@, other);
            lemma_secret_by_inputs(scan_key.secret(), inputs@, other);
        }
        assert forall|other: Seq<InputData>| same_inputs(inputs@, other) implies
            #[trigger] input_hash_usable(other) == input_hash_usable(inputs@) by {
            input_order_leaves_keys(inputs@, other);
            lemma_secret_by_inputs(scan_key.secret(), inputs@, other);
        }
    }
    let a_sum = match sum {
        Some(sum) => sum,
        None => {
            return Some(None);
        },
    };
    let input_hash = compute_input_hash(smallest, a_sum);
    match Scalar::from_be_bytes(input_hash) {
        Some(_) => match compute_shared_secret(*scan_key, input_hash, a_sum) {
            Ok(secret) => Some(Some(secret)),
            Err(_) => Some(None),
        },
        None => None,
    }
}

/// Looks for the first output with the given key.
fn find_output(outputs: &[(u32, XOnlyPublicKey)], key: &XOnlyPublicKey) -> (r: Option<usize>)
    ensures
        match r {
            Some(j) => j < outputs@.len() && output_position(output_views(outputs@), key@, 0)
                == Some(j as int),
            None => output_position(output_views(outputs@), key@, 0) is None,
        },
{
    let ghost views = output_views(outputs@);
    let mut j: usize = 0;
    while j < outputs.len()
        invariant
            j <= outputs@.len(),
            views == output_views(outputs@),
            output_position(views, key@, 0) == output_position(views, key@, j as int),
        decreases outputs@.len() - j,
    {
        assert(views[j as int].1 == outputs@[j as int].1@);
        if outputs[j].1.same(key) {
            return Some(j);
        }
        j = j + 1;
    }
    None
}

/// Looks for the `k`-th payment, whose tweak must be a scalar for there to be an answer.
fn find_payment(
    shared_secret: &PublicKey,
    spend_keys: &Vec<SpendKey>,
    outputs: &[(u32, XOnlyPublicKey)],
    k: u32,
) -> (r: Option<Option<FoundOutput>>)
    requires
        spend_keys@.len() > 0,
    ensures
        ({
            let expected = payment(
                shared_secret@,
                key_views(spend_keys@),
                output_views(outputs@),
                k,
                0,
            );
            match r {
                Some(Some(f)) => is_scalar(output_tweak_of(shared_secret@, k)) && expected == Some(
                    f@,
                ),
                Some(None) => is_scalar(output_tweak_of(shared_secret@, k)) && expected is None,
                None => !is_scalar(output_tweak_of(shared_secret@, k)),
            }
        }),
{
    let ghost keys = key_views(spend_keys@);
    let ghost views = output_views(outputs@);
    let mut i: usize = 0;
    while i < spend_keys.len()
        invariant
            i <= spend_keys@.len(),
            spend_keys@.len() > 0,
            keys == key_views(spend_keys@),
            views == output_views(outputs@),
            i > 0 ==> is_scalar(output_tweak_of(shared_secret@, k)),
            payment(shared_secret@, keys, views, k, 0) == payment(
                shared_secret@,
                keys,
                views,
                k,
                i as int,
            ),
        decreases spend_keys@.len() - i,
    {
        assert(keys[i as int] == spend_keys@[i as int]@);
        match checked_derive_output_pubkey(*shared_secret, spend_keys[i], k) {
            Some(Ok(expected)) => match find_output(outputs, &expected) {
                Some(j) => {
                    assert(views[j as int].0 == outputs@[j as int].0);
                    return Some(
                        Some(FoundOutput { vout: outputs[j].0, x_only_pubkey: expected, k }),
                    );
                },
                None => {},
            },
            Some(Err(_)) => {},
            None => {
                return None;
            },
        }
        i = i + 1;
    }
    Some(None)
}

/// Lists the payments under a shared secret. There is no answer when a tweak is no
/// scalar or the payments do not come to an end.
pub fn find_payments(
    shared_secret: &PublicKey,
    spend_keys: &Vec<SpendKey>,
    outputs: &[(u32, XOnlyPublicKey)],
) -> (r: Option<Vec<FoundOutput>>)
    requires
        spend_keys@.len() > 0,
    ensures
        ({
            let keys = key_views(spend_keys@);
            let views = output_views(outputs@);
            match r {
                Some(found) => {
                    &&& found_views(found@) == payments_of(shared_secret@, keys, views)
                    &&& exists|n: u32| payments_end_at(shared_secret@, keys, views, n)
                },
                None => forall|n: u32| !payments_end_at(shared_secret@, keys, views, n),
            }
        }),
{
    let ghost keys = key_views(spend_keys@);
    let ghost views = output_views(outputs@);
    let mut found: Vec<FoundOutput> = Vec::new();
    let mut k: u32 = 0;
    loop
        invariant
            spend_keys@.len() > 0,
            keys == key_views(spend_keys@),
            views == output_views(outputs@),
            found@.len() == k,
            forall|j: u32|
                j < k ==> #[trigger] payment(shared_secret@, keys, views, j, 0) == Some(
                    found@[j as int]@,
                ),
            forall|j: u32| j < k ==> is_scalar(#[trigger] output_tweak_of(shared_secret@, j)),
        decreases u32::MAX - k,
    {
        match find_payment(shared_secret, spend_keys, outputs, k) {
            Some(Some(f)) => {
                if k == u32::MAX {
                    assert forall|n: u32| !payments_end_at(shared_secret@, keys, views, n) by {
                        assert(payment(shared_secret@, keys, views, n, 0) is Some);
                    }
                    return None;
                }
                found.push(f);
                k = k + 1;
            },
            Some(None) => {
                proof {
                    assert(payments_end_at(shared_secret@, keys, views, k));
                    let n = choose|n: u32| payments_end_at(shared_secret@, keys, views, n);
                    lemma_end_unique(shared_secret@, keys, views, k, n);
                    assert forall|j: int| 0 <= j < k implies found_views(found@)[j] == payments_of(
                        shared_secret@,
                        keys,
                        views,
                    )[j] by {
                        assert(payment(shared_secret@, keys, views, j as u32, 0) == Some(
                            found@[j]@,
                        ));
                    }
                    assert(found_views(found@) =~= payments_of(shared_secret@, keys, views));
                }
                return Some(found);
            },
            None => {
                assert forall|n: u32| !payments_end_at(shared_secret@, keys, views, n) by {
                    if n < k {
                        assert(payment(shared_secret@, keys, views, n, 0) is Some);
                    } else {
                        assert(!is_scalar(output_tweak_of(shared_secret@, k)));
                    }
                }
                return None;
            },
        }
    }
}

/// The spend key and the labeled ones in one list.
fn collect_keys(spend_key: &SpendKey, labeled: &[SpendKey]) -> (keys: Vec<SpendKey>)
    ensures
        keys@.len() > 0,
        key_views(keys@) == all_keys(*spend_key, labeled@),
{
    let mut keys: Vec<SpendKey> = Vec::new();
    keys.push(*spend_key);
    let mut i: usize = 0;
    while i < labeled.len()
        invariant
            i <= labeled@.len(),
            keys@ == seq![*spend_key] + labeled@.take(i as int),
        decreases labeled@.len() - i,
    {
        keys.push(labeled[i]);
        i = i + 1;
        assert(keys@ =~= seq![*spend_key] + labeled@.take(i as int));
    }
    assert(labeled@.take(i as int) =~= labeled@);
    assert(key_views(keys@) =~= all_keys(*spend_key, labeled@));
    keys
}

/// Finds the outputs of a transaction that pay the given keys.
///
/// All spend keys share one shared secret and one counter `k`, which the sender
/// increments across every recipient with the same scan key. The order of the inputs has no
/// part in what is found.
pub fn scan_transaction(
    scan_key: &ScanKey,
    spend_key: &SpendKey,
    inputs: &[InputData],
    taproot_outputs: &[(u32, XOnlyPublicKey)],
    labeled_spend_keys: &[SpendKey],
) -> (found: Vec<FoundOutput>)
    requires
        scannable(
            scan_key.secret(),
            all_keys(*spend_key, labeled_spend_keys@),
            inputs@,
            output_views(taproot_outputs@),
        ),
    ensures
        found_views(found@) == scanned(
            scan_key.secret(),
            all_keys(*spend_key, labeled_spend_keys@),
            inputs@,
            output_views(taproot_outputs@),
        ),
        forall|other: Seq<InputData>|
            same_inputs(inputs@, other) ==> #[trigger] scanned(
                scan_key.secret(),
                all_keys(*spend_key, labeled_spend_keys@),
                other,
                output_views(taproot_outputs@),
            ) == found_views(found@),
        forall|i: int|
            0 <= i < found@.len() ==> (#[trigger] found@[i]).k == i && exists|p: int|
                0 <= p < taproot_outputs@.len() && (#[trigger] taproot_outputs@[p]).0
                    == found@[i].vout && taproot_outputs@[p].1@ == found@[i].x_only_pubkey@,
        forall|p: int|
            inputs@.len() > 0 && 0 <= p < taproot_outputs@.len() && transaction_secret(
                scan_key.secret(),
                inputs@,
            ) is Some ==> output_key_of(
                transaction_secret(scan_key.secret(), inputs@).unwrap(),
                spend_key@,
                found@.len() as u32,
            ) != Some((#[trigger] taproot_outputs@[p]).1@),
        forall|j: int, p: int|
            inputs@.len() > 0 && 0 <= j < labeled_spend_keys@.len() && 0 <= p
                < taproot_outputs@.len() && transaction_secret(
                scan_key.secret(),
                inputs@,
            ) is Some ==> output_key_of(
                transaction_secret(scan_key.secret(), inputs@).unwrap(),
                (#[trigger] labeled_spend_keys@[j])@,
                found@.len() as u32,
            ) != Some((#[trigger] taproot_outputs@[p]).1@),
{
    let mut found: Vec<FoundOutput> = Vec::new();
    if !inputs.is_empty() && !taproot_outputs.is_empty() {
        match compute_transaction_secret(scan_key, inputs) {
            Some(Some(secret)) => {
                let keys = collect_keys(spend_key, labeled_spend_keys);
                match find_payments(&secret, &keys, taproot_outputs) {
                    Some(payments) => {
                        found = payments;
                    },
                    None => {},
                }
            },
            Some(None) => {},
            None => {},
        }
    }
    proof {
        if found@.len() == 0 {
            assert(found_views(found@) =~= Seq::empty());
        }
        assert forall|other: Seq<InputData>| same_inputs(inputs@, other) implies
            #[trigger] scanned(
            scan_key.secret(),
            all_keys(*spend_key, labeled_spend_keys@),
            other,
            output_views(taproot_outputs@),
        ) == found_views(found@) by {
            input_order_leaves_keys(inputs@, other);
        }
        let keys = all_keys(*spend_key, labeled_spend_keys@);
        let outputs = output_views(taproot_outputs@);
        assert(found@.len() == found_views(found@).len());
        if inputs@.len() > 0 && outputs.len() > 0 {
            if let Some(secret) = transaction_secret(scan_key.secret(), inputs@) {
                assert forall|i: int| 0 <= i < found@.len() implies (#[trigger] found@[i]).k == i
                    && exists|p: int|
                    0 <= p < taproot_outputs@.len() && (#[trigger] taproot_outputs@[p]).0
                        == found@[i].vout && taproot_outputs@[p].1@ == found@[i].x_only_pubkey@ by {
                    found_outputs_are_payments(secret, keys, outputs, i as u32);
                    let f = found_views(found@)[i];
                    assert(f == found@[i]@);
                    let p = choose|p: int| 0 <= p < outputs.len() && outputs[p] == (f.vout, f.key);
                    assert(taproot_outputs@[p].0 == f.vout);
                }
                assert forall|p: int| 0 <= p < taproot_outputs@.len() implies output_key_of(
                    secret,
                    spend_key@,
                    found@.len() as u32,
                ) != Some((#[trigger] taproot_outputs@[p]).1@) by {
                    scans_end_where_nothing_is_paid(secret, keys, outputs, 0, p);
                    assert(outputs[p].1 == taproot_outputs@[p].1@);
                }
                assert forall|j: int, p: int|
                    0 <= j < labeled_spend_keys@.len() && 0 <= p
                        < taproot_outputs@.len() implies output_key_of(
                    secret,
                    (#[trigger] labeled_spend_keys@[j])@,
                    found@.len() as u32,
                ) != Some((#[trigger] taproot_outputs@[p]).1@) by {
                    scans_end_where_nothing_is_paid(secret, keys, outputs, j + 1, p);
                    assert(keys[j + 1] == labeled_spend_keys@[j]@);
                    assert(outputs[p].1 == taproot_outputs@[p].1@);
                }
            }
        }
    }
    found
}

/// Finds the outputs of a transaction that pay the given keys, if it can be scanned.
pub fn checked_scan_transaction(
    scan_key: &ScanKey,
    spend_key: &SpendKey,
    inputs: &[InputData],
    taproot_outputs: &[(u32, XOnlyPublicKey)],
    labeled_spend_keys: &[SpendKey],
) -> (r: Option<Vec<FoundOutput>>)
    ensures
        ({
            let keys = all_keys(*spend_key, labeled_spend_keys@);
            let outputs = output_views(taproot_outputs@);
            match r {
                Some(found) => {
                    &&& scannable(scan_key.secret(), keys, inputs@, outputs)
                    &&& found_views(found@) == scanned(scan_key.secret(), keys, inputs@, outputs)
                },
                None => !scannable(scan_key.secret(), keys, inputs@, outputs),
            }
        }),
{
    if !inputs.is_empty() && !taproot_outputs.is_empty() {
        match compute_transaction_secret(scan_key, inputs) {
            Some(Some(secret)) => {
                let keys = collect_keys(spend_key, labeled_spend_keys);
                match find_payments(&secret, &keys, taproot_outputs) {
                    Some(_) => {},
                    None => {
                        return None;
                    },
                }
            },
            Some(None) => {},
            None => {
                return None;
            },
        }
    }
    proof {
        let keys = all_keys(*spend_key, labeled_spend_keys@);
        let outputs = output_views(taproot_outputs@);
        if inputs@.len() > 0 && outputs.len() > 0 {
            if let Some(secret) = transaction_secret(scan_key.secret(), inputs@) {
                assert(exists|n: u32| payments_end_at(secret, keys, outputs, n));
            }
        }
    }
    Some(scan_transaction(scan_key, spend_key, inputs, taproot_outputs, labeled_spend_keys))
}

/// The outputs of a transaction with a taproot script whose key is the x coordinate of
/// a point: the number and the key of each.
pub open spec fn taproot_outputs_of(outputs: Seq<OutputData>) -> Seq<(u32, Seq<u8>)>
    decreases outputs.len(),
{
    if outputs.len() == 0 {
        Seq::empty()
    } else {
        let o = outputs.last();
        let key = o.script_pubkey@.subrange(2, 34);
        let before = taproot_outputs_of(outputs.drop_last());
        if p2tr(o.script_pubkey@) && is_x_coordinate(key) {
            before.push((o.vout, key))
        } else {
            before
        }
    }
}

/// The value of the first output with the given number, from `i` on; zero if there is
/// none.
pub open spec fn value_of(outputs: Seq<OutputData>, vout: u32, i: int) -> i64
    decreases outputs.len() - i,
{
    if i < 0 || i >= outputs.len() {
        0
    } else if outputs[i].vout == vout {
        outputs[i].value
    } else {
        value_of(outputs, vout, i + 1)
    }
}

/// The payments that `found` makes of the outputs of `tx`.
pub open spec fn as_payments(tx: TransactionData, found: Seq<FoundView>) -> Seq<PaymentView> {
    found.map_values(
        |f: FoundView|
            PaymentView {
                txid: tx.txid,
                vout: f.vout,
                key: f.key,
                k: f.k,
                amount: value_of(tx.outputs@, f.vout, 0),
            },
    )
}

/// The payments in a block, transaction by transaction.
pub open spec fn block_payments(
    scan_secret: Seq<u8>,
    spend_keys: Seq<Seq<u8>>,
    transactions: Seq<TransactionData>,
) -> Seq<PaymentView>
    decreases transactions.len(),
{
    if transactions.len() == 0 {
        Seq::empty()
    } else {
        let tx = transactions.last();
        let found = scanned(
            scan_secret,
            spend_keys,
            tx.inputs@,
            taproot_outputs_of(tx.outputs@),
        );
        block_payments(scan_secret, spend_keys, transactions.drop_last()) + as_payments(tx, found)
    }
}

/// The taproot outputs of two lists put together are those of the one and those of the
/// other; an output alone is one, with its number and the key behind the first two bytes of
/// its script, where the script pays to a taproot output key that is on the curve.
pub proof fn taproot_outputs_add_up(a: Seq<OutputData>, b: Seq<OutputData>, o: OutputData)
    ensures
        taproot_outputs_of(a + b) == taproot_outputs_of(a) + taproot_outputs_of(b),
        taproot_outputs_of(seq![o]) == (if p2tr(o.script_pubkey@) && is_x_coordinate(
            o.script_pubkey@.skip(2),
        ) {
            seq![(o.vout, o.script_pubkey@.skip(2))]
        } else {
            Seq::<(u32, Seq<u8>)>::empty()
        }),
    decreases b.len(),
{
    reveal_with_fuel(taproot_outputs_of, 2);
    assert(seq![o].drop_last() =~= Seq::empty());
    if p2tr(o.script_pubkey@) {
        assert(o.script_pubkey@.skip(2) =~= o.script_pubkey@.subrange(2, 34));
    }
    if b.len() == 0 {
        assert(a + b =~= a);
        assert(taproot_outputs_of(a) + taproot_outputs_of(b) =~= taproot_outputs_of(a));
    } else {
        taproot_outputs_add_up(a, b.drop_last(), o);
        assert((a + b).drop_last() =~= a + b.drop_last());
        assert(taproot_outputs_of(a + b) =~= taproot_outputs_of(a) + taproot_outputs_of(b));
    }
}

/// The value that goes with a number is that of the first output with the number, and zero
/// where no output has it.
pub proof fn values_are_of_the_first_output(outputs: Seq<OutputData>, vout: u32, i: int)
    requires
        0 <= i <= outputs.len(),
        forall|j: int| 0 <= j < i ==> (#[trigger] outputs[j]).vout != vout,
        i < outputs.len() ==> outputs[i].vout == vout,
    ensures
        value_of(outputs, vout, 0) == (if i < outputs.len() {
            outputs[i].value
        } else {
            0
        }),
{
    lemma_value_from(outputs, vout, 0, i);
}

proof fn lemma_value_from(outputs: Seq<OutputData>, vout: u32, from: int, i: int)
    requires
        0 <= from <= i <= outputs.len(),
        forall|j: int| from <= j < i ==> (#[trigger] outputs[j]).vout != vout,
        i < outputs.len() ==> outputs[i].vout == vout,
    ensures
        value_of(outputs, vout, from) == (if i < outputs.len() {
            outputs[i].value
        } else {
            0
        }),
    decreases i - from,
{
    if from < i {
        assert(outputs[from].vout != vout);
        lemma_value_from(outputs, vout, from + 1, i);
    }
}

/// The payments of a block with one transaction are what a scan of the transaction finds,
/// each with the transaction's hash.
pub proof fn block_of_one_is_scanned(
    scan_secret: Seq<u8>,
    spend_keys: Seq<Seq<u8>>,
    tx: TransactionData,
    i: int,
)
    ensures
        ({
            let found = scanned(
                scan_secret,
                spend_keys,
                tx.inputs@,
                taproot_outputs_of(tx.outputs@),
            );
            let payments = block_payments(scan_secret, spend_keys, seq![tx]);
            &&& payments.len() == found.len()
            &&& 0 <= i < found.len() ==> payments[i].txid == tx.txid && payments[i].vout
                == found[i].vout && payments[i].key == found[i].key && payments[i].k == found[i].k
        }),
{
    reveal_with_fuel(block_payments, 2);
    assert(seq![tx].drop_last() =~= Seq::empty());
}

/// Whether every transaction of a block can be scanned.
pub open spec fn block_scannable(
    scan_secret: Seq<u8>,
    spend_keys: Seq<Seq<u8>>,
    transactions: Seq<TransactionData>,
) -> bool {
    forall|i: int|
        0 <= i < transactions.len() ==> {
            let tx = #[trigger] transactions[i];
            scannable(scan_secret, spend_keys, tx.inputs@, taproot_outputs_of(tx.outputs@))
        }
}

/// The scan of two blocks put together is the two scans put together, and it can be made
/// just where both can.
pub proof fn scans_add_up(
    scan_secret: Seq<u8>,
    spend_keys: Seq<Seq<u8>>,
    a: Seq<TransactionData>,
    b: Seq<TransactionData>,
)
    ensures
        block_payments(scan_secret, spend_keys, a + b) == block_payments(
            scan_secret,
            spend_keys,
            a,
        ) + block_payments(scan_secret, spend_keys, b),
        block_scannable(scan_secret, spend_keys, a + b) <==> (block_scannable(
            scan_secret,
            spend_keys,
            a,
        ) && block_scannable(scan_secret, spend_keys, b)),
    decreases b.len(),
{
    if b.len() == 0 {
        assert(a + b =~= a);
        assert(block_payments(scan_secret, spend_keys, b) =~= Seq::empty());
        assert(block_payments(scan_secret, spend_keys, a) =~= block_payments(
            scan_secret,
            spend_keys,
            a,
        ) + Seq::empty());
    } else {
        scans_add_up(scan_secret, spend_keys, a, b.drop_last());
        assert((a + b).drop_last() =~= a + b.drop_last());
        let found = scanned(
            scan_secret,
            spend_keys,
            b.last().inputs@,
            taproot_outputs_of(b.last().outputs@),
        );
        assert(block_payments(scan_secret, spend_keys, a + b) =~= block_payments(
            scan_secret,
            spend_keys,
            a,
        ) + (block_payments(scan_secret, spend_keys, b.drop_last()) + as_payments(
            b.last(),
            found,
        )));
    }
    if block_scannable(scan_secret, spend_keys, a + b) {
        assert forall|i: int| 0 <= i < a.len() implies {
            let tx = #[trigger] a[i];
            scannable(scan_secret, spend_keys, tx.inputs@, taproot_outputs_of(tx.outputs@))
        } by {
            assert((a + b)[i] == a[i]);
        }
        assert forall|i: int| 0 <= i < b.len() implies {
            let tx = #[trigger] b[i];
            scannable(scan_secret, spend_keys, tx.inputs@, taproot_outputs_of(tx.outputs@))
        } by {
            assert((a + b)[a.len() + i] == b[i]);
        }
    }
}

/// Whether no two outputs have the same number.
pub open spec fn distinct_vouts(outputs: Seq<OutputData>) -> bool {
    forall|i: int, j: int|
        0 <= i < j < outputs.len() ==> (#[trigger] outputs[i]).vout != (#[trigger] outputs[j]).vout
}

proof fn lemma_taproot_outputs(outputs: Seq<OutputData>, o: (u32, Seq<u8>))
    requires
        taproot_outputs_of(outputs).contains(o),
    ensures
        exists|i: int|
            0 <= i < outputs.len() && (#[trigger] outputs[i]).vout == o.0
                && outputs[i].script_pubkey@ == seq![0x51u8, 0x20u8] + o.1,
    decreases outputs.len(),
{
    let all = taproot_outputs_of(outputs);
    let k = choose|k: int| 0 <= k < all.len() && all[k] == o;
    let fewer = outputs.drop_last();
    let before = taproot_outputs_of(fewer);
    let n = outputs.len() - 1;
    if k < before.len() {
        assert(before[k] == o);
        lemma_taproot_outputs(fewer, o);
        let i = choose|i: int|
            0 <= i < fewer.len() && (#[trigger] fewer[i]).vout == o.0
                && fewer[i].script_pubkey@ == seq![0x51u8, 0x20u8] + o.1;
        assert(outputs[i] == fewer[i]);
    } else {
        let script = outputs[n].script_pubkey@;
        assert(script =~= seq![0x51u8, 0x20u8] + script.subrange(2, 34));
        assert(outputs[n].vout == o.0);
    }
}

proof fn lemma_value_of(outputs: Seq<OutputData>, i: int, k: int)
    requires
        distinct_vouts(outputs),
        0 <= i <= k < outputs.len(),
    ensures
        value_of(outputs, outputs[k].vout, i) == outputs[k].value,
    decreases k - i,
{
    if i < k {
        assert(outputs[i].vout != outputs[k].vout);
        lemma_value_of(outputs, i + 1, k);
    }
}

/// Every payment that is found in a transaction is one of its outputs: it has the
/// transaction's hash, and its number, its amount and its key are those of an output whose
/// script pays to that key.
pub proof fn found_payments_are_outputs(
    scan_secret: Seq<u8>,
    spend_keys: Seq<Seq<u8>>,
    tx: TransactionData,
    k: int,
)
    requires
        distinct_vouts(tx.outputs@),
        scannable(scan_secret, spend_keys, tx.inputs@, taproot_outputs_of(tx.outputs@)),
        0 <= k < scanned(
            scan_secret,
            spend_keys,
            tx.inputs@,
            taproot_outputs_of(tx.outputs@),
        ).len(),
    ensures
        ({
            let p = as_payments(
                tx,
                scanned(
                    scan_secret,
                    spend_keys,
                    tx.inputs@,
                    taproot_outputs_of(tx.outputs@),
                ),
            )[k];
            &&& p.txid == tx.txid
            &&& p.k == k
            &&& exists|i: int|
                0 <= i < tx.outputs@.len() && (#[trigger] tx.outputs@[i]).vout == p.vout
                    && tx.outputs@[i].value == p.amount && tx.outputs@[i].script_pubkey@
                    == seq![0x51u8, 0x20u8] + p.key
        }),
{
    let outputs = taproot_outputs_of(tx.outputs@);
    let secret = transaction_secret(scan_secret, tx.inputs@).unwrap();
    let found = payments_of(secret, spend_keys, outputs);
    found_outputs_are_payments(secret, spend_keys, outputs, k as u32);
    let f = found[k];
    lemma_taproot_outputs(tx.outputs@, (f.vout, f.key));
    let i = choose|i: int|
        0 <= i < tx.outputs@.len() && (#[trigger] tx.outputs@[i]).vout == f.vout
            && tx.outputs@[i].script_pubkey@ == seq![0x51u8, 0x20u8] + f.key;
    lemma_value_of(tx.outputs@, 0, i);
}

/// A transaction that pays to no taproot output key brings nothing.
pub proof fn nothing_without_taproot_outputs(
    scan_secret: Seq<u8>,
    spend_keys: Seq<Seq<u8>>,
    inputs: Seq<InputData>,
    outputs: Seq<OutputData>,
)
    requires
        forall|i: int| 0 <= i < outputs.len() ==> !p2tr((#[trigger] outputs[i]).script_pubkey@),
    ensures
        scanned(scan_secret, spend_keys, inputs, taproot_outputs_of(outputs)) == Seq::<
            FoundView,
        >::empty(),
{
    lemma_no_taproot_outputs(outputs);
}

proof fn lemma_no_taproot_outputs(outputs: Seq<OutputData>)
    requires
        forall|i: int| 0 <= i < outputs.len() ==> !p2tr((#[trigger] outputs[i]).script_pubkey@),
    ensures
        taproot_outputs_of(outputs).len() == 0,
    decreases outputs.len(),
{
    if outputs.len() > 0 {
        assert forall|i: int| 0 <= i < outputs.drop_last().len() implies !p2tr(
            (#[trigger] outputs.drop_last()[i]).script_pubkey@,
        ) by {
            assert(outputs[i] == outputs.drop_last()[i]);
        }
        assert(!p2tr(outputs[outputs.len() - 1].script_pubkey@));
        lemma_no_taproot_outputs(outputs.drop_last());
    }
}

/// Collects the taproot outputs of a transaction.
pub fn collect_taproot_outputs(outputs: &[OutputData]) -> (list: Vec<(u32, XOnlyPublicKey)>)
    ensures
        output_views(list@) == taproot_outputs_of(outputs@),
{
    let mut list: Vec<(u32, XOnlyPublicKey)> = Vec::new();
    let mut i: usize = 0;
    assert(output_views(list@) =~= taproot_outputs_of(outputs@.take(0)));
    while i < outputs.len()
        invariant
            i <= outputs@.len(),
            output_views(list@) == taproot_outputs_of(outputs@.take(i as int)),
        decreases outputs@.len() - i,
    {
        let o = &outputs[i];
        let ghost before = list@;
        assert(outputs@.take(i + 1).drop_last() =~= outputs@.take(i as int));
        if is_p2tr(o.script_pubkey) {
            let key_bytes: [u8; 32] = get_array(o.script_pubkey, 2);
            match XOnlyPublicKey::from_slice(&key_bytes) {
                Ok(key) => {
                    list.push((o.vout, key));
                    assert(output_views(list@) =~= output_views(before).push((o.vout, key@)));
                },
                Err(_) => {},
            }
        }
        i = i + 1;
    }
    assert(outputs@.take(i as int) =~= outputs@);
    list
}

/// Looks up the value of the output with the given number.
fn find_value(outputs: &[OutputData], vout: u32) -> (r: i64)
    ensures
        r == value_of(outputs@, vout, 0),
{
    let mut i: usize = 0;
    while i < outputs.len()
        invariant
            i <= outputs@.len(),
            value_of(outputs@, vout, 0) == value_of(outputs@, vout, i as int),
        decreases outputs@.len() - i,
    {
        if outputs[i].vout == vout {
            return outputs[i].value;
        }
        i = i + 1;
    }
    0
}

/// Appends the payments that the found outputs of a transaction make.
fn record_payments(
    payments: &mut Vec<FoundPayment>,
    tx: &TransactionData,
    found: &Vec<FoundOutput>,
)
    ensures
        payment_views(final(payments)@) == payment_views(old(payments)@) + as_payments(
            *tx,
            found_views(found@),
        ),
{
    let ghost expected = as_payments(*tx, found_views(found@));
    let mut i: usize = 0;
    assert(payment_views(payments@) =~= payment_views(old(payments)@) + expected.take(0));
    while i < found.len()
        invariant
            i <= found@.len(),
            expected == as_payments(*tx, found_views(found@)),
            payment_views(payments@) == payment_views(old(payments)@) + expected.take(i as int),
        decreases found@.len() - i,
    {
        let f = &found[i];
        let ghost before = payments@;
        let p = FoundPayment {
            txid: tx.txid,
            vout: f.vout,
            x_only_pubkey: f.x_only_pubkey,
            k: f.k,
            amount: find_value(tx.outputs.as_slice(), f.vout),
        };
        assert(expected[i as int] == p@);
        payments.push(p);
        i = i + 1;
        assert(payment_views(payments@) =~= payment_views(before).push(p@));
        assert(expected.take(i as int) =~= expected.take(i - 1).push(p@));
        assert(payment_views(payments@) =~= payment_views(old(payments)@) + expected.take(
            i as int,
        ));
    }
    assert(expected.take(i as int) =~= expected);
}

/// Finds the payments of a block.
pub fn scan_block(scan_key: &ScanKey, spend_key: &SpendKey, transactions: &[TransactionData]) -> (r:
    Vec<FoundPayment>)
    requires
        block_scannable(scan_key.secret(), seq![spend_key@], transactions@),
    ensures
        payment_views(r@) == block_payments(scan_key.secret(), seq![spend_key@], transactions@),
{
    let ghost keys = seq![spend_key@];
    let mut payments: Vec<FoundPayment> = Vec::new();
    let mut i: usize = 0;
    assert(payment_views(payments@) =~= block_payments(
        scan_key.secret(),
        keys,
        transactions@.take(0),
    ));
    while i < transactions.len()
        invariant
            i <= transactions@.len(),
            keys == seq![spend_key@],
            block_scannable(scan_key.secret(), keys, transactions@),
            payment_views(payments@) == block_payments(
                scan_key.secret(),
                keys,
                transactions@.take(i as int),
            ),
        decreases transactions@.len() - i,
    {
        let tx = &transactions[i];
        assert(transactions@.take(i + 1).drop_last() =~= transactions@.take(i as int));
        assert(transactions@[i as int] == *tx);
        let outputs = collect_taproot_outputs(tx.outputs.as_slice());
        let labeled: Vec<SpendKey> = Vec::new();
        assert(all_keys(*spend_key, labeled@) =~= keys);
        let found = scan_transaction(
            scan_key,
            spend_key,
            tx.inputs.as_slice(),
            outputs.as_slice(),
            labeled.as_slice(),
        );
        record_payments(&mut payments, tx, &found);
        i = i + 1;
    }
    assert(transactions@.take(i as int) =~= transactions@);
    payments
}

/// Finds the payments of a block, if each of its transactions can be scanned.
pub fn checked_scan_block(
    scan_key: &ScanKey,
    spend_key: &SpendKey,
    transactions: &[TransactionData],
) -> (r: Option<Vec<FoundPayment>>)
    ensures
        match r {
            Some(payments) => {
                &&& block_scannable(scan_key.secret(), seq![spend_key@], transactions@)
                &&& payment_views(payments@) == block_payments(
                    scan_key.secret(),
                    seq![spend_key@],
                    transactions@,
                )
            },
            None => !block_scannable(scan_key.secret(), seq![spend_key@], transactions@),
        },
{
    let ghost keys = seq![spend_key@];
    let mut i: usize = 0;
    while i < transactions.len()
        invariant
            i <= transactions@.len(),
            keys == seq![spend_key@],
            block_scannable(scan_key.secret(), keys, transactions@.take(i as int)),
        decreases transactions@.len() - i,
    {
        let tx = &transactions[i];
        assert(transactions@[i as int] == *tx);
        let outputs = collect_taproot_outputs(tx.outputs.as_slice());
        let labeled: Vec<SpendKey> = Vec::new();
        assert(all_keys(*spend_key, labeled@) =~= keys);
        match checked_scan_transaction(
            scan_key,
            spend_key,
            tx.inputs.as_slice(),
            outputs.as_slice(),
            labeled.as_slice(),
        ) {
            Some(_) => {},
            None => {
                return None;
            },
        }
        assert forall|j: int| 0 <= j < i + 1 implies {
            let t = #[trigger] transactions@.take(i + 1)[j];
            scannable(scan_key.secret(), keys, t.inputs@, taproot_outputs_of(t.outputs@))
        } by {
            if j < i {
                assert(transactions@.take(i as int)[j] == transactions@[j]);
            }
        }
        i = i + 1;
    }
    assert(transactions@.take(i as int) =~= transactions@);
    Some(scan_block(scan_key, spend_key, transactions))
}

/// The input hash of a transaction is made of the smallest of all its outpoints: it is one
/// of them, and none comes before it.
pub proof fn smallest_outpoint_is_least(inputs: Seq<InputData>)
    requires
        inputs.len() > 0,
    ensures
        exists|i: int|
            0 <= i < inputs.len() && (#[trigger] inputs[i]).outpoint@ == smallest_outpoint(inputs),
        forall|i: int|
            0 <= i < inputs.len() ==> !lex_less(
                (#[trigger] inputs[i]).outpoint@,
                smallest_outpoint(inputs),
            ),
    decreases inputs.len(),
{
    let least = smallest_outpoint(inputs);
    lex_less_irreflexive(least);
    if inputs.len() == 1 {
        assert(inputs[0].outpoint@ == least);
    } else {
        let fewer = inputs.drop_last();
        smallest_outpoint_is_least(fewer);
        let before = smallest_outpoint(fewer);
        let last = inputs.last().outpoint@;
        let w = choose|i: int| 0 <= i < fewer.len() && (#[trigger] fewer[i]).outpoint@ == before;
        assert(inputs[w] == fewer[w]);
        assert(inputs[inputs.len() - 1].outpoint@ == last);
        assert forall|i: int| 0 <= i < inputs.len() implies !lex_less(
            (#[trigger] inputs[i]).outpoint@,
            least,
        ) by {
            if i < fewer.len() {
                assert(inputs[i] == fewer[i]);
                assert(!lex_less(fewer[i].outpoint@, before));
                if lex_less(last, before) && lex_less(inputs[i].outpoint@, last) {
                    lex_less_transitive(inputs[i].outpoint@, last, before);
                }
            }
        }
    }
}

proof fn lemma_output_position(outputs: Seq<(u32, Seq<u8>)>, key: Seq<u8>, i: int)
    requires
        0 <= i,
    ensures
        match output_position(outputs, key, i) {
            Some(p) => i <= p < outputs.len() && outputs[p].1 == key,
            None => forall|p: int| i <= p < outputs.len() ==> (#[trigger] outputs[p]).1 != key,
        },
    decreases outputs.len() - i,
{
    if i < outputs.len() && outputs[i].1 != key {
        lemma_output_position(outputs, key, i + 1);
    }
}

proof fn lemma_payment_sound(
    shared_secret: Seq<u8>,
    spend_keys: Seq<Seq<u8>>,
    outputs: Seq<(u32, Seq<u8>)>,
    k: u32,
    i: int,
)
    requires
        0 <= i,
    ensures
        payment(shared_secret, spend_keys, outputs, k, i) matches Some(f) ==> {
            &&& f.k == k
            &&& outputs.contains((f.vout, f.key))
            &&& exists|j: int|
                i <= j < spend_keys.len() && output_key_of(
                    shared_secret,
                    #[trigger] spend_keys[j],
                    k,
                ) == Some(f.key)
        },
    decreases spend_keys.len() - i,
{
    if i < spend_keys.len() {
        lemma_payment_sound(shared_secret, spend_keys, outputs, k, i + 1);
        if let Some(key) = output_key_of(shared_secret, spend_keys[i], k) {
            lemma_output_position(outputs, key, 0);
            if let Some(p) = output_position(outputs, key, 0) {
                assert(outputs[p] == (outputs[p].0, key));
            }
        }
    }
}

proof fn lemma_payment_complete(
    shared_secret: Seq<u8>,
    spend_keys: Seq<Seq<u8>>,
    outputs: Seq<(u32, Seq<u8>)>,
    k: u32,
    i: int,
    j: int,
    p: int,
)
    requires
        0 <= i <= j < spend_keys.len(),
        0 <= p < outputs.len(),
        output_key_of(shared_secret, spend_keys[j], k) == Some(outputs[p].1),
    ensures
        payment(shared_secret, spend_keys, outputs, k, i) is Some,
    decreases j - i,
{
    if i < j {
        lemma_payment_complete(shared_secret, spend_keys, outputs, k, i + 1, j, p);
    } else {
        lemma_output_position(outputs, outputs[p].1, 0);
    }
}

/// A scan finds nothing but payments: what it finds is an output of the transaction whose
/// key is that of a payment to one of the spend keys, and the payments are counted from
/// zero without a gap.
pub proof fn found_outputs_are_payments(
    shared_secret: Seq<u8>,
    spend_keys: Seq<Seq<u8>>,
    outputs: Seq<(u32, Seq<u8>)>,
    k: u32,
)
    requires
        exists|n: u32| payments_end_at(shared_secret, spend_keys, outputs, n),
        k < payments_of(shared_secret, spend_keys, outputs).len(),
    ensures
        ({
            let f = payments_of(shared_secret, spend_keys, outputs)[k as int];
            &&& f.k == k
            &&& outputs.contains((f.vout, f.key))
            &&& exists|j: int|
                0 <= j < spend_keys.len() && output_key_of(
                    shared_secret,
                    #[trigger] spend_keys[j],
                    k,
                ) == Some(f.key)
        }),
{
    let n = choose|n: u32| payments_end_at(shared_secret, spend_keys, outputs, n);
    assert(payments_end_at(shared_secret, spend_keys, outputs, n));
    assert(payment(shared_secret, spend_keys, outputs, k, 0) is Some);
    lemma_payment_sound(shared_secret, spend_keys, outputs, k, 0);
}

/// A scan finds every payment: where the sender made outputs for the spend keys under the
/// counters below `m`, the scan finds at least as many, one for each counter.
pub proof fn payments_are_found(
    shared_secret: Seq<u8>,
    spend_keys: Seq<Seq<u8>>,
    outputs: Seq<(u32, Seq<u8>)>,
    m: u32,
)
    requires
        exists|n: u32| payments_end_at(shared_secret, spend_keys, outputs, n),
        forall|k: u32| k < m ==> #[trigger] paid(shared_secret, spend_keys, outputs, k),
    ensures
        payments_of(shared_secret, spend_keys, outputs).len() >= m,
        forall|k: u32|
            k < m ==> #[trigger] payments_of(shared_secret, spend_keys, outputs)[k as int].k == k,
{
    let n = choose|n: u32| payments_end_at(shared_secret, spend_keys, outputs, n);
    assert(payments_end_at(shared_secret, spend_keys, outputs, n));
    if n < m {
        assert(paid(shared_secret, spend_keys, outputs, n));
        let (j, p) = choose|j: int, p: int|
            0 <= j < spend_keys.len() && 0 <= p < outputs.len() && output_key_of(
                shared_secret,
                #[trigger] spend_keys[j],
                n,
            ) == Some((#[trigger] outputs[p]).1);
        lemma_payment_complete(shared_secret, spend_keys, outputs, n, 0, j, p);
    }
    assert forall|k: u32| k < m implies #[trigger] payments_of(
        shared_secret,
        spend_keys,
        outputs,
    )[k as int].k == k by {
        assert(payment(shared_secret, spend_keys, outputs, k, 0) is Some);
        lemma_payment_sound(shared_secret, spend_keys, outputs, k, 0);
    }
}

/// Whether an output pays one of the spend keys under the counter `k`.
pub open spec fn paid(
    shared_secret: Seq<u8>,
    spend_keys: Seq<Seq<u8>>,
    outputs: Seq<(u32, Seq<u8>)>,
    k: u32,
) -> bool {
    exists|j: int, p: int|
        0 <= j < spend_keys.len() && 0 <= p < outputs.len() && output_key_of(
            shared_secret,
            #[trigger] spend_keys[j],
            k,
        ) == Some((#[trigger] outputs[p]).1)
}

/// What a sender pays is found. The sender's inputs have keys that add up to the key of the
/// exponent `a`; it multiplies the receiver's scan key, of the exponent `b`, by the input
/// hash and by `a`, and makes outputs for the receiver's spend keys under the counters
/// below `m`. The receiver's scan of the transaction finds at least as many, one for each
/// counter.
pub proof fn sent_outputs_are_found(
    a: nat,
    b: nat,
    scan_secret: Seq<u8>,
    spend_keys: Seq<Seq<u8>>,
    inputs: Seq<InputData>,
    outputs: Seq<(u32, Seq<u8>)>,
    m: u32,
)
    requires
        inputs.len() > 0,
        outputs.len() > 0,
        scannable(scan_secret, spend_keys, inputs, outputs),
        be_value(scan_secret) == b,
        key_sum(eligible_keys(inputs)) == Some(point_of(a)),
        ({
            let h = be_value(input_hash_of(smallest_outpoint(inputs), point_of(a)));
            let sent = point_times(point_times(point_of(b), h), a);
            &&& h != 0
            &&& multiplied(a, h)
            &&& multiplied((a * h) % curve_order(), b)
            &&& multiplied(b, h)
            &&& multiplied((b * h) % curve_order(), a)
            &&& forall|k: u32| k < m ==> #[trigger] paid(sent, spend_keys, outputs, k)
        }),
    ensures
        scanned(scan_secret, spend_keys, inputs, outputs).len() >= m,
        forall|k: u32|
            k < m ==> #[trigger] scanned(scan_secret, spend_keys, inputs, outputs)[k as int].k == k,
{
    let h = be_value(input_hash_of(smallest_outpoint(inputs), point_of(a)));
    shared_secrets_agree(a, h, b);
    let secret = transaction_secret(scan_secret, inputs).unwrap();
    assert(secret == point_times(point_times(point_of(b), h), a));
    payments_are_found(secret, spend_keys, outputs, m);
}

proof fn lemma_first_output(outputs: Seq<(u32, Seq<u8>)>, key: Seq<u8>, i: int)
    requires
        0 <= i,
    ensures
        output_position(outputs, key, i) matches Some(p) ==> forall|q: int|
            i <= q < p ==> (#[trigger] outputs[q]).1 != key,
    decreases outputs.len() - i,
{
    if i < outputs.len() && outputs[i].1 != key {
        lemma_first_output(outputs, key, i + 1);
    }
}

proof fn lemma_payment_first(
    shared_secret: Seq<u8>,
    spend_keys: Seq<Seq<u8>>,
    outputs: Seq<(u32, Seq<u8>)>,
    k: u32,
    i: int,
)
    requires
        0 <= i,
    ensures
        payment(shared_secret, spend_keys, outputs, k, i) matches Some(f) ==> exists|p: int|
            0 <= p < outputs.len() && #[trigger] outputs[p] == (f.vout, f.key) && forall|q: int|
                0 <= q < p ==> (#[trigger] outputs[q]).1 != f.key,
    decreases spend_keys.len() - i,
{
    if i < spend_keys.len() {
        lemma_payment_first(shared_secret, spend_keys, outputs, k, i + 1);
        if let Some(key) = output_key_of(shared_secret, spend_keys[i], k) {
            lemma_output_position(outputs, key, 0);
            lemma_first_output(outputs, key, 0);
            if let Some(p) = output_position(outputs, key, 0) {
                assert(outputs[p] == (outputs[p].0, key));
            }
        }
    }
}

/// What a scan finds for a key is the first output with that key.
pub proof fn first_output_with_the_key_is_found(
    shared_secret: Seq<u8>,
    spend_keys: Seq<Seq<u8>>,
    outputs: Seq<(u32, Seq<u8>)>,
    k: u32,
)
    requires
        exists|n: u32| payments_end_at(shared_secret, spend_keys, outputs, n),
        k < payments_of(shared_secret, spend_keys, outputs).len(),
    ensures
        ({
            let f = payments_of(shared_secret, spend_keys, outputs)[k as int];
            exists|p: int|
                0 <= p < outputs.len() && #[trigger] outputs[p] == (f.vout, f.key) && forall|q: int|
                    0 <= q < p ==> (#[trigger] outputs[q]).1 != f.key
        }),
{
    let n = choose|n: u32| payments_end_at(shared_secret, spend_keys, outputs, n);
    assert(payments_end_at(shared_secret, spend_keys, outputs, n));
    assert(payment(shared_secret, spend_keys, outputs, k, 0) is Some);
    lemma_payment_first(shared_secret, spend_keys, outputs, k, 0);
}

/// A scan ends where no output pays any of the spend keys: there is no payment under the
/// counter that follows the last one found.
pub proof fn scans_end_where_nothing_is_paid(
    shared_secret: Seq<u8>,
    spend_keys: Seq<Seq<u8>>,
    outputs: Seq<(u32, Seq<u8>)>,
    j: int,
    p: int,
)
    requires
        exists|n: u32| payments_end_at(shared_secret, spend_keys, outputs, n),
        0 <= j < spend_keys.len(),
        0 <= p < outputs.len(),
    ensures
        output_key_of(
            shared_secret,
            spend_keys[j],
            payments_of(shared_secret, spend_keys, outputs).len() as u32,
        ) != Some(outputs[p].1),
{
    let n = choose|n: u32| payments_end_at(shared_secret, spend_keys, outputs, n);
    assert(payments_end_at(shared_secret, spend_keys, outputs, n));
    if output_key_of(shared_secret, spend_keys[j], n) == Some(outputs[p].1) {
        lemma_payment_complete(shared_secret, spend_keys, outputs, n, 0, j, p);
    }
}

/// The keys that are scanned for are the spend key and behind it every labeled one, in order.
pub proof fn labeled_keys_are_scanned_for(spend_key: SpendKey, labeled: Seq<SpendKey>, i: int)
    ensures
        all_keys(spend_key, labeled).len() == labeled.len() + 1,
        all_keys(spend_key, labeled)[0] == spend_key@,
        0 <= i < labeled.len() ==> all_keys(spend_key, labeled)[i + 1] == labeled[i]@,
{
}

} // verus!
