//! Spending coins to a silent payment address.

use vstd::prelude::*;
use vstd::string::StringExecFns;
use crate::bytes::{be_value, bytes_equal, put_bytes, to_vec};
use crate::chain::{
    item_views, signed_view, txout_views, SignedView, Transaction, TransactionView, TxInView,
    TxOut, TxOutView,
};
use crate::outpoints::{distinct_keys, position_found, position_in, Outpoint};
use crate::secp::{
    curve_order, is_exponent, point_of, schnorr_signature_of, KeyError, PublicKey, Scalar,
    SecretKey, XOnlyPublicKey,
};
use crate::silentpayments::compute_input_hash;
use crate::silentpayments::scanning::p2tr;
use crate::text::{decimal, hex, push_decimal, push_hex};
use crate::wallet::bip352::{
    address_views, all_sent, exponent_sum, input_exponent, key_pairs, keys_of_address,
    least_text_outpoint, one_missing, outpoint_texts, partial_secret, partial_secret_of,
    partial_usable, recipient_keys, sent_key, x_only_views, AddressView, SilentPaymentAddress,
};
use crate::wallet::coins::{Coin, CoinView};
use crate::wallet::funding::{
    amounts_in_range, are_amounts_in_range, candidate_total, candidate_views, candidates,
    chosen_from, create_psbt,
    extract_tx, extraction_error, fresh_inputs, key_spend_hash, key_spend_hash_of,
    output_scripts, output_total, psbt_inputs, psbt_lock_time, psbt_outpoints, psbt_outputs,
    psbt_scripts, psbt_version, select, selection_of, set_psbt_script, set_psbt_witness,
    signed_inputs, target_then_change, CandidateView, PsbtInputView,
};

verus! {

/// What in the derivation of silent payment outputs failed.
#[derive(Clone, Copy, Debug, PartialEq, Eq, Structural)]
pub enum DerivationError {
    /// The inputs give no partial secret.
    PartialSecret,
    /// A recipient has no output key.
    RecipientKeys(KeyError),
}

/// What a derivation error says. Which error of a key is behind it is left out: that may be
/// one of several.
pub enum DerivationErrorView {
    PartialSecret,
    RecipientKeys,
}

impl View for DerivationError {
    type V = DerivationErrorView;

    open spec fn view(&self) -> DerivationErrorView {
        match *self {
            DerivationError::PartialSecret => DerivationErrorView::PartialSecret,
            DerivationError::RecipientKeys(_) => DerivationErrorView::RecipientKeys,
        }
    }
}

/// Why a payment could not be made.
#[derive(Clone, Debug, PartialEq, Eq)]
pub enum SendError {
    WatchOnly,
    NoSpendableCoins,
    DustAmount { amount: u64, dust: u64 },
    InsufficientFunds { needed: u64, available: u64 },
    NetworkMismatch,
    OutputDerivation,
    TxBuild(String),
    SilentPayments(DerivationError),
    Secp(KeyError),
}

/// What a send error says.
#[verifier::ext_equal]
pub enum SendErrorView {
    WatchOnly,
    NoSpendableCoins,
    DustAmount { amount: u64, dust: u64 },
    InsufficientFunds { needed: u64, available: u64 },
    NetworkMismatch,
    OutputDerivation,
    TxBuild(Seq<char>),
    SilentPayments(DerivationErrorView),
    Secp(KeyError),
}

impl View for SendError {
    type V = SendErrorView;

    open spec fn view(&self) -> SendErrorView {
        match *self {
            SendError::WatchOnly => SendErrorView::WatchOnly,
            SendError::NoSpendableCoins => SendErrorView::NoSpendableCoins,
            SendError::DustAmount { amount, dust } => SendErrorView::DustAmount { amount, dust },
            SendError::InsufficientFunds { needed, available } => SendErrorView::InsufficientFunds {
                needed,
                available,
            },
            SendError::NetworkMismatch => SendErrorView::NetworkMismatch,
            SendError::OutputDerivation => SendErrorView::OutputDerivation,
            SendError::TxBuild(text) => SendErrorView::TxBuild(text@),
            SendError::SilentPayments(e) => SendErrorView::SilentPayments(e@),
            SendError::Secp(e) => SendErrorView::Secp(e),
        }
    }
}

/// The text of a key error.
pub open spec fn key_error_text(e: KeyError) -> Seq<char> {
    match e {
        KeyError::InvalidSecretKey => "malformed or out-of-range secret key"@,
        KeyError::InvalidPublicKey => "malformed public key"@,
        KeyError::InvalidPublicKeySum =>
            "the sum of public keys was invalid or the input vector lengths was less than 1"@,
        KeyError::InvalidTweak => "bad tweak"@,
    }
}

/// The error in words.
pub fn key_error_message(e: &KeyError) -> (r: &'static str)
    ensures
        r@ == key_error_text(*e),
{
    match e {
        KeyError::InvalidSecretKey => "malformed or out-of-range secret key",
        KeyError::InvalidPublicKey => "malformed public key",
        KeyError::InvalidPublicKeySum =>
            "the sum of public keys was invalid or the input vector lengths was less than 1",
        KeyError::InvalidTweak => "bad tweak",
    }
}

/// The text of a send error.
pub open spec fn send_error_text(e: SendError) -> Seq<char> {
    match e {
        SendError::WatchOnly => "wallet is watch-only: no spend secret to sign with"@,
        SendError::NoSpendableCoins => "no spendable coins"@,
        SendError::DustAmount { amount, dust } => "amount "@ + decimal(amount as nat)
            + " sats is below the dust limit of "@ + decimal(dust as nat) + " sats"@,
        SendError::InsufficientFunds { needed, available } => "insufficient funds: need "@
            + decimal(needed as nat) + " sats, have "@ + decimal(available as nat) + " sats"@,
        SendError::NetworkMismatch => "recipient address is for a different network"@,
        SendError::OutputDerivation => "recipient output key was not derived"@,
        SendError::TxBuild(text) => "transaction build error: "@ + text@,
        SendError::SilentPayments(DerivationError::PartialSecret) =>
            "silent payments error: bad tweak"@,
        SendError::SilentPayments(DerivationError::RecipientKeys(e)) =>
            "silent payments error: "@ + key_error_text(e),
        SendError::Secp(e) => "secp256k1 error: "@ + key_error_text(e),
    }
}

impl SendError {
    /// The error in words.
    pub fn message(&self) -> (r: String)
        ensures
            r@ == send_error_text(*self),
    {
        let mut r = String::new();
        match self {
            SendError::WatchOnly => r.append("wallet is watch-only: no spend secret to sign with"),
            SendError::NoSpendableCoins => r.append("no spendable coins"),
            SendError::DustAmount { amount, dust } => {
                r.append("amount ");
                push_decimal(&mut r, *amount);
                r.append(" sats is below the dust limit of ");
                push_decimal(&mut r, *dust);
                r.append(" sats");
            },
            SendError::InsufficientFunds { needed, available } => {
                r.append("insufficient funds: need ");
                push_decimal(&mut r, *needed);
                r.append(" sats, have ");
                push_decimal(&mut r, *available);
                r.append(" sats");
            },
            SendError::NetworkMismatch => r.append("recipient address is for a different network"),
            SendError::OutputDerivation => r.append("recipient output key was not derived"),
            SendError::TxBuild(text) => {
                r.append("transaction build error: ");
                r.append(text.as_str());
            },
            SendError::SilentPayments(DerivationError::PartialSecret) => r.append(
                "silent payments error: bad tweak",
            ),
            SendError::SilentPayments(DerivationError::RecipientKeys(e)) => {
                r.append("silent payments error: ");
                r.append(key_error_message(e));
            },
            SendError::Secp(e) => {
                r.append("secp256k1 error: ");
                r.append(key_error_message(e));
            },
        }
        assert(r@ =~= send_error_text(*self));
        r
    }
}

/// A coin that may be spent.
pub struct SpendableCoin<'a> {
    pub outpoint: Outpoint,
    pub coin: &'a Coin,
}

/// Coins that may be spent, as values.
pub open spec fn spendable_views(coins: Seq<SpendableCoin>) -> Seq<(Outpoint, CoinView)> {
    coins.map_values(|c: SpendableCoin| (c.outpoint, c.coin@))
}

/// The script that pays to a taproot output key.
pub open spec fn p2tr_script_of(key: Seq<u8>) -> Seq<u8> {
    seq![0x51u8, 0x20u8] + key
}

/// The key of a placeholder: that of a secret key of equal bytes.
pub open spec fn probe_key_of(byte: u8) -> Seq<u8> {
    point_of(be_value(Seq::new(32, |i: int| byte))).skip(1)
}

/// The script that stands for the recipient's while coins are chosen.
pub open spec fn recipient_placeholder() -> Seq<u8> {
    p2tr_script_of(probe_key_of(1))
}

/// The script that stands for the change's while coins are chosen.
pub open spec fn change_placeholder() -> Seq<u8> {
    p2tr_script_of(probe_key_of(2))
}

/// The output of a coin.
pub open spec fn coin_output(c: CoinView) -> TxOutView {
    TxOutView { value: c.value, script_pubkey: c.script_pubkey }
}

/// The script that pays to a taproot output key.
pub fn p2tr_script(output_key: &XOnlyPublicKey) -> (r: Vec<u8>)
    ensures
        r@ == p2tr_script_of(output_key@),
        p2tr(r@),
{
    let mut r: Vec<u8> = Vec::new();
    r.push(0x51);
    r.push(0x20);
    put_bytes(&mut r, &output_key.serialize());
    assert(r@ =~= p2tr_script_of(output_key@));
    r
}

/// Trusted: `bitcoin::Script::minimal_non_dust` is three hundred and thirty satoshis for a
/// script that pays to a taproot output key.
#[verifier::external_body]
fn minimal_non_dust(script: &Vec<u8>) -> (r: u64)
    requires
        p2tr(script@),
    ensures
        r == 330,
{
    bitcoin::Script::from_bytes(script).minimal_non_dust().to_sat()
}

/// The least amount that is worth an output of its own.
pub fn p2tr_dust(spend_secret: &SecretKey) -> (r: u64)
    ensures
        r == 330,
{
    let probe = PublicKey::from_secret_key(spend_secret).x_only_public_key();
    minimal_non_dust(&p2tr_script(&probe))
}

/// How many bytes the count of `n` inputs takes.
pub open spec fn count_size(n: nat) -> nat {
    if n < 0xfd {
        1
    } else if n <= 0xffff {
        3
    } else if n <= 0xffff_ffff {
        5
    } else {
        9
    }
}

/// The weight of a signed transaction with `n` taproot inputs, spent by their keys, and
/// two taproot outputs.
pub open spec fn payment_weight(n: nat) -> nat {
    382 + 4 * count_size(n) + 230 * n
}

/// Trusted: `bitcoin::transaction::predict_weight` adds the weights of the fields of a
/// transaction: here of `n` inputs with the default taproot key spend, at least one, and
/// of outputs whose scripts have the given lengths, which are two of thirty-four bytes.
#[verifier::external_body]
fn predict_payment_weight(n: usize, output_script_lens: [usize; 2]) -> (r: u64)
    requires
        n > 0,
        output_script_lens@ == seq![34usize, 34usize],
        payment_weight(n as nat) <= usize::MAX,
    ensures
        r == payment_weight(n as nat),
{
    let input = bitcoin::transaction::InputWeightPrediction::P2TR_KEY_DEFAULT_SIGHASH;
    let inputs = std::iter::repeat(input).take(n);
    bitcoin::transaction::predict_weight(inputs, output_script_lens).to_wu()
}

/// The fee of a transaction by its weight, rounded up, unless it is out of range. The rate
/// is in satoshis per thousand weight units.
pub open spec fn fee_of(fee_rate: u64, weight: nat) -> Option<u64> {
    if fee_rate * weight + 999 <= u64::MAX {
        Some(((fee_rate * weight + 999) / 1000) as u64)
    } else {
        None
    }
}

/// The fee of a transaction by its weight, rounded up, unless it is out of range.
pub fn fee_wu(fee_rate: u64, weight: u64) -> (r: Option<u64>)
    ensures
        r == fee_of(fee_rate, weight as nat),
{
    match fee_rate.checked_mul(weight) {
        Some(product) => match product.checked_add(999) {
            Some(sum) => Some(sum / 1000),
            None => None,
        },
        None => None,
    }
}

/// The sum of the values of coins.
pub open spec fn coin_total(coins: Seq<(Outpoint, CoinView)>) -> nat
    decreases coins.len(),
{
    if coins.len() == 0 {
        0
    } else {
        coin_total(coins.drop_last()) + coins.last().1.value as nat
    }
}

/// The fee that would be needed to spend `n` coins.
pub open spec fn fee_for_all(n: nat, fee_rate: u64) -> u64 {
    match fee_of(fee_rate, payment_weight(n)) {
        Some(fee) => fee,
        None => 0,
    }
}

proof fn lemma_probe(byte: u8)
    requires
        0 < byte < 0xff,
    ensures
        is_exponent(be_value(Seq::new(32, |i: int| byte))),
{
    let s = Seq::new(32, |i: int| byte);
    lemma_be_value_bound(s, 0xfe);
    assert(all_of(32, 0xfe) < curve_order()) by {
        reveal_with_fuel(all_of, 33);
    }
}

/// Two keys with the same x coordinate would have equal or opposite exponents, which those of
/// the placeholders are not.
proof fn lemma_probes_differ()
    ensures
        ({
            let one = be_value(Seq::new(32, |i: int| 1u8));
            let two = be_value(Seq::new(32, |i: int| 2u8));
            one != two && one + two != curve_order()
        }),
{
    lemma_equal_bytes(32, 1);
    lemma_equal_bytes(32, 2);
    lemma_multiple_bytes(32, 2);
    lemma_multiple_bytes(32, 0xfe);
    assert(all_of(32, 0xfe) < curve_order()) by {
        reveal_with_fuel(all_of, 33);
    }
    assert(all_of(32, 1) > 0);
}

proof fn lemma_multiple_bytes(n: nat, byte: nat)
    ensures
        all_of(n, byte) == byte * all_of(n, 1),
    decreases n,
{
    if n > 0 {
        lemma_multiple_bytes((n - 1) as nat, byte);
        let rest = all_of((n - 1) as nat, 1);
        assert(256 * (byte * rest) + byte == byte * (256 * rest + 1)) by (nonlinear_arith);
    } else {
        assert(byte * 0 == 0) by (nonlinear_arith);
    }
}

proof fn lemma_equal_bytes(n: nat, byte: u8)
    ensures
        be_value(Seq::new(n, |i: int| byte)) == all_of(n, byte as nat),
    decreases n,
{
    let s = Seq::new(n, |i: int| byte);
    if n > 0 {
        lemma_equal_bytes((n - 1) as nat, byte);
        assert(s.drop_last() =~= Seq::new((n - 1) as nat, |i: int| byte));
    }
}

/// The number of `n` equal bytes.
spec fn all_of(n: nat, byte: nat) -> nat
    decreases n,
{
    if n == 0 {
        0
    } else {
        256 * all_of((n - 1) as nat, byte) + byte
    }
}

proof fn lemma_be_value_bound(s: Seq<u8>, byte: nat)
    requires
        forall|i: int| 0 <= i < s.len() ==> #[trigger] s[i] <= byte,
    ensures
        be_value(s) <= all_of(s.len(), byte),
        s.len() > 0 ==> be_value(s) >= s.last(),
    decreases s.len(),
{
    if s.len() > 0 {
        lemma_be_value_bound(s.drop_last(), byte);
        assert(s[s.len() - 1] <= byte);
    }
}

/// The key of a placeholder.
pub fn probe_key(byte: u8) -> (r: XOnlyPublicKey)
    requires
        0 < byte < 0xff,
    ensures
        r@ == probe_key_of(byte),
        forall|b: nat|
            is_exponent(b) && #[trigger] point_of(b).skip(1) == r@ ==> {
                let a = be_value(Seq::new(32, |i: int| byte));
                b == a || a + b == curve_order()
            },
{
    let secret: [u8; 32] = [byte; 32];
    proof {
        lemma_probe(byte);
        assert(secret@ =~= Seq::new(32, |i: int| byte));
    }
    let key = SecretKey::from_slice(&secret).unwrap();
    PublicKey::from_secret_key(&key).x_only_public_key()
}

/// The outpoints of inputs.
pub open spec fn outpoints_of(inputs: Seq<PsbtInputView>) -> Seq<Outpoint> {
    inputs.map_values(|i: PsbtInputView| i.outpoint)
}

/// Whether every outpoint is that of a coin.
pub open spec fn all_known(coins: Seq<(Outpoint, CoinView)>, outpoints: Seq<Outpoint>) -> bool {
    forall|i: int|
        0 <= i < outpoints.len() ==> position_in(coins, #[trigger] outpoints[i]) is Some
}

/// The coins with outpoints.
pub open spec fn coins_at(coins: Seq<(Outpoint, CoinView)>, outpoints: Seq<Outpoint>) -> Seq<
    CoinView,
> {
    outpoints.map_values(|o: Outpoint| coins[position_in(coins, o).unwrap()].1)
}

/// The exponents that sign for coins: the spend key's plus the coin's tweak.
pub open spec fn signing_exponents(spend: Seq<u8>, selected: Seq<CoinView>) -> Seq<nat> {
    selected.map_values(
        |c: CoinView| (be_value(spend) + be_value(c.tweak)) % curve_order(),
    )
}

/// Whether no exponent is zero.
pub open spec fn all_nonzero(exponents: Seq<nat>) -> bool {
    forall|i: int| 0 <= i < exponents.len() ==> #[trigger] exponents[i] != 0
}

/// Exponents of taproot keys.
pub open spec fn taproot_keys(exponents: Seq<nat>) -> Seq<(nat, bool)> {
    exponents.map_values(|e: nat| (e, true))
}

/// Outpoints with the transaction's hash as text, last byte first.
pub open spec fn shown_outpoints(outpoints: Seq<Outpoint>) -> Seq<(Seq<char>, u32)> {
    outpoints.map_values(|o: Outpoint| (hex(o.txid@.reverse()), o.vout))
}

/// Whether an output stands for change.
pub open spec fn has_change(outputs: Seq<TxOutView>) -> bool {
    output_scripts(outputs).contains(change_placeholder())
}

/// Who is paid: the recipient and, where there is change, the wallet itself.
pub open spec fn recipients_of(
    recipient: AddressView,
    change: AddressView,
    outputs: Seq<TxOutView>,
) -> Seq<AddressView> {
    if has_change(outputs) {
        seq![recipient, change]
    } else {
        seq![recipient]
    }
}

/// The script that pays to an address: that of its first output key.
pub open spec fn address_script(
    recipients: Seq<AddressView>,
    address: AddressView,
    partial: nat,
) -> Seq<u8> {
    p2tr_script_of(keys_of_address(recipients, address, recipients.len(), partial)[0])
}

/// A script once the placeholders are replaced.
pub open spec fn real_script(
    script: Seq<u8>,
    recipient_script: Seq<u8>,
    change_script: Seq<u8>,
) -> Seq<u8> {
    if script == recipient_placeholder() {
        recipient_script
    } else if script == change_placeholder() {
        change_script
    } else {
        script
    }
}

/// Outputs once the placeholders are replaced.
pub open spec fn real_outputs(
    outputs: Seq<TxOutView>,
    recipient_script: Seq<u8>,
    change_script: Seq<u8>,
) -> Seq<TxOutView> {
    outputs.map_values(
        |o: TxOutView|
            TxOutView {
                value: o.value,
                script_pubkey: real_script(o.script_pubkey, recipient_script, change_script),
            },
    )
}

/// The outputs of coins.
pub open spec fn coin_outputs(selected: Seq<CoinView>) -> Seq<TxOutView> {
    selected.map_values(|c: CoinView| coin_output(c))
}

/// The signature for an input.
pub open spec fn input_signature(
    inputs: Seq<PsbtInputView>,
    outputs: Seq<TxOutView>,
    prevouts: Seq<TxOutView>,
    exponents: Seq<nat>,
    i: int,
) -> Seq<u8> {
    schnorr_signature_of(
        key_spend_hash_of(2, 0, signed_inputs(inputs), outputs, prevouts, i as nat),
        exponents[i],
    )
}

/// The inputs, each with its signature as its witness.
pub open spec fn with_signatures(
    inputs: Seq<PsbtInputView>,
    outputs: Seq<TxOutView>,
    prevouts: Seq<TxOutView>,
    exponents: Seq<nat>,
) -> Seq<PsbtInputView> {
    Seq::new(
        inputs.len(),
        |i: int|
            PsbtInputView {
                witness: seq![input_signature(inputs, outputs, prevouts, exponents, i)],
                ..inputs[i]
            },
    )
}

/// The transaction that inputs and outputs make.
pub open spec fn signed_of(inputs: Seq<PsbtInputView>, outputs: Seq<TxOutView>) -> SignedView {
    SignedView {
        tx: TransactionView {
            version: 2,
            lock_time: 0,
            input: inputs.map_values(
                |i: PsbtInputView|
                    TxInView {
                        previous_output: i.outpoint,
                        script_sig: i.script_sig,
                        sequence: i.sequence,
                    },
            ),
            output: outputs,
        },
        witnesses: inputs.map_values(|i: PsbtInputView| i.witness),
    }
}

/// What becomes of chosen inputs and outputs: the placeholders are replaced by the scripts
/// of the recipient and of the change, and every input is signed.
pub open spec fn signing(
    spend: Seq<u8>,
    recipient: AddressView,
    change: AddressView,
    coins: Seq<(Outpoint, CoinView)>,
    inputs: Seq<PsbtInputView>,
    outputs: Seq<TxOutView>,
) -> Result<SignedView, SendErrorView> {
    let outpoints = outpoints_of(inputs);
    let selected = coins_at(coins, outpoints);
    let exponents = signing_exponents(spend, selected);
    if !all_known(coins, outpoints) {
        Err(SendErrorView::OutputDerivation)
    } else if !all_nonzero(exponents) {
        Err(SendErrorView::Secp(KeyError::InvalidTweak))
    } else {
        match partial_secret_of(taproot_keys(exponents), shown_outpoints(outpoints)) {
            None => Err(SendErrorView::SilentPayments(DerivationErrorView::PartialSecret)),
            Some(partial) => {
                let recipients = recipients_of(recipient, change, outputs);
                if !all_sent(recipients, partial) {
                    Err(SendErrorView::SilentPayments(DerivationErrorView::RecipientKeys))
                } else {
                    let paid = real_outputs(
                        outputs,
                        address_script(recipients, recipient, partial),
                        address_script(recipients, change, partial),
                    );
                    let signed = with_signatures(
                        inputs,
                        paid,
                        coin_outputs(selected),
                        exponents,
                    );
                    match extraction_error(signed, paid) {
                        Some(text) => Err(SendErrorView::TxBuild(text)),
                        None => Ok(signed_of(signed, paid)),
                    }
                }
            },
        }
    }
}

/// Whether chosen inputs and outputs lead to a recipient without an output key, for the
/// reason `e`.
pub open spec fn no_key_because(
    spend: Seq<u8>,
    recipient: AddressView,
    change: AddressView,
    coins: Seq<(Outpoint, CoinView)>,
    inputs: Seq<PsbtInputView>,
    outputs: Seq<TxOutView>,
    e: KeyError,
) -> bool {
    let outpoints = outpoints_of(inputs);
    let exponents = signing_exponents(spend, coins_at(coins, outpoints));
    match partial_secret_of(taproot_keys(exponents), shown_outpoints(outpoints)) {
        Some(partial) => one_missing(recipients_of(recipient, change, outputs), partial, e),
        None => false,
    }
}

/// Whether the input hash of chosen inputs, if it is computed, can be used as a scalar.
pub open spec fn signing_usable(
    spend: Seq<u8>,
    coins: Seq<(Outpoint, CoinView)>,
    inputs: Seq<PsbtInputView>,
) -> bool {
    let outpoints = outpoints_of(inputs);
    let exponents = signing_exponents(spend, coins_at(coins, outpoints));
    all_known(coins, outpoints) && all_nonzero(exponents) ==> partial_usable(
        taproot_keys(exponents),
        shown_outpoints(outpoints),
    )
}

fn coin_index(coins: &[SpendableCoin], outpoint: &Outpoint) -> (r: Option<usize>)
    ensures
        match r {
            Some(i) => i < coins@.len() && position_in(spendable_views(coins@), *outpoint) == Some(
                i as int,
            ),
            None => position_in(spendable_views(coins@), *outpoint) is None,
        },
{
    let ghost views = spendable_views(coins@);
    let mut i: usize = 0;
    while i < coins.len()
        invariant
            i <= coins@.len(),
            views == spendable_views(coins@),
            position_in(views, *outpoint) == crate::outpoints::position_from(
                views,
                *outpoint,
                i as int,
            ),
        decreases coins@.len() - i,
    {
        if coins[i].outpoint.same(outpoint) {
            return Some(i);
        }
        i = i + 1;
    }
    None
}

/// Finds the coins of chosen inputs.
fn pick_coins(coins: &[SpendableCoin], outpoints: &Vec<Outpoint>) -> (r: Option<Vec<usize>>)
    ensures
        match r {
            Some(picked) => {
                &&& all_known(spendable_views(coins@), outpoints@)
                &&& picked@.len() == outpoints@.len()
                &&& forall|i: int|
                    0 <= i < picked@.len() ==> (#[trigger] picked@[i]) < coins@.len()
                        && coins@[picked@[i] as int].coin@ == coins_at(
                        spendable_views(coins@),
                        outpoints@,
                    )[i]
            },
            None => !all_known(spendable_views(coins@), outpoints@),
        },
{
    let ghost views = spendable_views(coins@);
    let mut picked: Vec<usize> = Vec::new();
    let mut i: usize = 0;
    while i < outpoints.len()
        invariant
            i <= outpoints@.len(),
            picked@.len() == i,
            views == spendable_views(coins@),
            forall|j: int| 0 <= j < i ==> position_in(views, #[trigger] outpoints@[j]) is Some,
            forall|j: int|
                0 <= j < i ==> (#[trigger] picked@[j]) < coins@.len()
                    && coins@[picked@[j] as int].coin@ == coins_at(views, outpoints@)[j],
        decreases outpoints@.len() - i,
    {
        match coin_index(coins, &outpoints[i]) {
            Some(k) => {
                picked.push(k);
            },
            None => {
                assert(position_in(views, outpoints@[i as int]) is None);
                return None;
            },
        }
        i = i + 1;
    }
    Some(picked)
}

/// The keys that sign for chosen coins.
fn signing_keys(spend_secret: &SecretKey, coins: &[SpendableCoin], picked: &Vec<usize>) -> (r:
    Option<Vec<SecretKey>>)
    requires
        forall|i: int| 0 <= i < picked@.len() ==> #[trigger] picked@[i] < coins@.len(),
    ensures
        ({
            let selected = picked@.map_values(|k: usize| coins@[k as int].coin@);
            let exponents = signing_exponents(spend_secret@, selected);
            match r {
                Some(keys) => {
                    &&& all_nonzero(exponents)
                    &&& keys@.len() == picked@.len()
                    &&& forall|i: int|
                        0 <= i < keys@.len() ==> be_value((#[trigger] keys@[i])@) == exponents[i]
                },
                None => !all_nonzero(exponents),
            }
        }),
{
    let ghost selected = picked@.map_values(|k: usize| coins@[k as int].coin@);
    let ghost exponents = signing_exponents(spend_secret@, selected);
    let mut keys: Vec<SecretKey> = Vec::new();
    let mut i: usize = 0;
    while i < picked.len()
        invariant
            i <= picked@.len(),
            keys@.len() == i,
            selected == picked@.map_values(|k: usize| coins@[k as int].coin@),
            exponents == signing_exponents(spend_secret@, selected),
            forall|i: int| 0 <= i < picked@.len() ==> #[trigger] picked@[i] < coins@.len(),
            forall|j: int| 0 <= j < i ==> #[trigger] exponents[j] != 0,
            forall|j: int| 0 <= j < i ==> be_value((#[trigger] keys@[j])@) == exponents[j],
        decreases picked@.len() - i,
    {
        let k: usize = picked[i];
        proof {
            assert(selected[i as int] == coins@[k as int].coin@);
        }
        match spend_secret.add_tweak(&coins[k].coin.tweak) {
            Ok(key) => {
                keys.push(key);
            },
            Err(_) => {
                assert(exponents[i as int] == 0);
                return None;
            },
        }
        i = i + 1;
    }
    Some(keys)
}

/// The keys as those of taproot inputs.
fn taproot_input_keys(keys: &Vec<SecretKey>) -> (r: Vec<(SecretKey, bool)>)
    ensures
        key_pairs(r@) == taproot_keys(keys@.map_values(|k: SecretKey| be_value(k@))),
{
    let ghost all = taproot_keys(keys@.map_values(|k: SecretKey| be_value(k@)));
    let mut r: Vec<(SecretKey, bool)> = Vec::new();
    let mut i: usize = 0;
    while i < keys.len()
        invariant
            i <= keys@.len(),
            r@.len() == i,
            all == taproot_keys(keys@.map_values(|k: SecretKey| be_value(k@))),
            forall|j: int| 0 <= j < i ==> #[trigger] key_pairs(r@)[j] == all[j],
        decreases keys@.len() - i,
    {
        let ghost before = r@;
        r.push((keys[i], true));
        i = i + 1;
        proof {
            assert(key_pairs(r@) =~= key_pairs(before).push(all[i - 1]));
            assert forall|j: int| 0 <= j < i implies #[trigger] key_pairs(r@)[j] == all[j] by {
                if j < i - 1 {
                    assert(key_pairs(r@)[j] == key_pairs(before)[j]);
                }
            }
        }
    }
    assert(key_pairs(r@) =~= all);
    r
}

/// Outpoints with the transaction's hash as text.
fn show_outpoints(outpoints: &Vec<Outpoint>) -> (r: Vec<(String, u32)>)
    ensures
        outpoint_texts(r@) == shown_outpoints(outpoints@),
{
    let mut r: Vec<(String, u32)> = Vec::new();
    let mut i: usize = 0;
    assert(outpoint_texts(r@) =~= shown_outpoints(outpoints@).take(0));
    while i < outpoints.len()
        invariant
            i <= outpoints@.len(),
            outpoint_texts(r@) == shown_outpoints(outpoints@).take(i as int),
        decreases outpoints@.len() - i,
    {
        let ghost before = r@;
        let text = shown_txid(&outpoints[i].txid);
        r.push((text, outpoints[i].vout));
        assert(outpoint_texts(r@) =~= outpoint_texts(before).push(
            shown_outpoints(outpoints@)[i as int],
        ));
        i = i + 1;
        assert(outpoint_texts(r@) =~= shown_outpoints(outpoints@).take(i as int));
    }
    assert(shown_outpoints(outpoints@).take(i as int) =~= shown_outpoints(outpoints@));
    r
}

/// A transaction's hash as it is commonly shown, last byte first.
pub fn shown_txid(txid: &[u8; 32]) -> (r: String)
    ensures
        r@ == hex(txid@.reverse()),
{
    let mut reversed: Vec<u8> = Vec::new();
    let mut i: usize = 0;
    while i < 32
        invariant
            i <= 32,
            reversed@ == txid@.reverse().take(i as int),
        decreases 32 - i,
    {
        reversed.push(txid[31 - i]);
        i = i + 1;
        assert(reversed@ =~= txid@.reverse().take(i as int));
    }
    assert(reversed@ =~= txid@.reverse());
    let mut r = String::new();
    push_hex(&mut r, reversed.as_slice());
    assert(r@ =~= hex(reversed@));
    r
}

/// Whether a script is among scripts.
fn contains_script(scripts: &Vec<Vec<u8>>, script: &Vec<u8>) -> (r: bool)
    ensures
        r == item_views(scripts@).contains(script@),
{
    let mut i: usize = 0;
    while i < scripts.len()
        invariant
            i <= scripts@.len(),
            forall|j: int| 0 <= j < i ==> (#[trigger] item_views(scripts@)[j]) != script@,
        decreases scripts@.len() - i,
    {
        if bytes_equal(scripts[i].as_slice(), script.as_slice()) {
            assert(item_views(scripts@)[i as int] == script@);
            return true;
        }
        i = i + 1;
    }
    false
}

/// The script that pays to the first of an address's output keys.
pub fn sp_output_script(keys: &Vec<XOnlyPublicKey>) -> (r: Result<Vec<u8>, SendError>)
    ensures
        match r {
            Ok(script) => keys@.len() > 0 && script@ == p2tr_script_of(keys@[0]@),
            Err(e) => keys@.len() == 0 && e == SendError::OutputDerivation,
        },
{
    if keys.len() == 0 {
        Err(SendError::OutputDerivation)
    } else {
        Ok(p2tr_script(&keys[0]))
    }
}

/// Scripts once the placeholders are replaced.
pub fn replace_placeholder(
    script: &Vec<u8>,
    placeholder_recipient: &Vec<u8>,
    placeholder_change: &Vec<u8>,
    recipient_script: &Vec<u8>,
    change_script: &Vec<u8>,
) -> (r: Vec<u8>)
    ensures
        r@ == (if script@ == placeholder_recipient@ {
            recipient_script@
        } else if script@ == placeholder_change@ {
            change_script@
        } else {
            script@
        }),
{
    if bytes_equal(script.as_slice(), placeholder_recipient.as_slice()) {
        to_vec(recipient_script.as_slice())
    } else if bytes_equal(script.as_slice(), placeholder_change.as_slice()) {
        to_vec(change_script.as_slice())
    } else {
        to_vec(script.as_slice())
    }
}

proof fn lemma_change_unused(
    outputs: Seq<TxOutView>,
    recipient_script: Seq<u8>,
    a: Seq<u8>,
    b: Seq<u8>,
)
    requires
        !has_change(outputs),
    ensures
        real_outputs(outputs, recipient_script, a) == real_outputs(outputs, recipient_script, b),
{
    assert forall|i: int| 0 <= i < outputs.len() implies real_outputs(
        outputs,
        recipient_script,
        a,
    )[i] == real_outputs(outputs, recipient_script, b)[i] by {
        assert(output_scripts(outputs)[i] == outputs[i].script_pubkey);
    }
    assert(real_outputs(outputs, recipient_script, a) =~= real_outputs(
        outputs,
        recipient_script,
        b,
    ));
}

proof fn lemma_address_has_key(
    recipients: Seq<AddressView>,
    address: AddressView,
    n: nat,
    partial: nat,
    i: int,
)
    requires
        0 <= i < n <= recipients.len(),
        recipients[i] == address,
    ensures
        keys_of_address(recipients, address, n, partial).len() > 0,
    decreases n,
{
    if i < n - 1 {
        lemma_address_has_key(recipients, address, (n - 1) as nat, partial, i);
    }
}

/// Derives the scripts of the recipient and, where there is change, of the change.
fn output_keys(
    recipient: SilentPaymentAddress,
    change_address: SilentPaymentAddress,
    with_change: bool,
    partial: &SecretKey,
) -> (r: Result<(Vec<u8>, Vec<u8>), SendError>)
    ensures
        ({
            let recipients = if with_change {
                seq![recipient@, change_address@]
            } else {
                seq![recipient@]
            };
            match r {
                Ok((recipient_script, change_script)) => {
                    &&& all_sent(recipients, be_value(partial@))
                    &&& recipient_script@ == address_script(
                        recipients,
                        recipient@,
                        be_value(partial@),
                    )
                    &&& with_change ==> change_script@ == address_script(
                        recipients,
                        change_address@,
                        be_value(partial@),
                    )
                },
                Err(e) => {
                    &&& !all_sent(recipients, be_value(partial@))
                    &&& e matches SendError::SilentPayments(DerivationError::RecipientKeys(k))
                    &&& one_missing(recipients, be_value(partial@), k)
                },
            }
        }),
{
    let mut addresses: Vec<SilentPaymentAddress> = Vec::new();
    addresses.push(recipient);
    if with_change {
        addresses.push(change_address);
    }
    let ghost recipients = address_views(addresses@);
    proof {
        if with_change {
            assert(recipients =~= seq![recipient@, change_address@]);
            lemma_address_has_key(recipients, change_address@, 2, be_value(partial@), 1);
        } else {
            assert(recipients =~= seq![recipient@]);
        }
        lemma_address_has_key(
            recipients,
            recipient@,
            recipients.len(),
            be_value(partial@),
            0,
        );
    }
    let keys = match recipient_keys(&addresses, partial) {
        Ok(keys) => keys,
        Err(e) => {
            return Err(SendError::SilentPayments(DerivationError::RecipientKeys(e)));
        },
    };
    proof {
        assert(addresses@[0]@ == recipient@);
        assert(x_only_views(keys@[0]@) == keys_of_address(
            recipients,
            recipient@,
            recipients.len(),
            be_value(partial@),
        ));
        assert(x_only_views(keys@[0]@)[0] == keys@[0]@[0]@);
    }
    let recipient_script = match sp_output_script(&keys[0]) {
        Ok(script) => script,
        Err(e) => {
            return Err(e);
        },
    };
    let change_script = if with_change {
        proof {
            assert(addresses@[1]@ == change_address@);
            assert(x_only_views(keys@[1]@) == keys_of_address(
                recipients,
                change_address@,
                recipients.len(),
                be_value(partial@),
            ));
            assert(x_only_views(keys@[1]@)[0] == keys@[1]@[0]@);
        }
        match sp_output_script(&keys[1]) {
            Ok(script) => script,
            Err(e) => {
                return Err(e);
            },
        }
    } else {
        Vec::new()
    };
    Ok((recipient_script, change_script))
}

/// Writes the real scripts in the place of the placeholders.
fn write_scripts(
    psbt: &mut bitcoin::Psbt,
    scripts: &Vec<Vec<u8>>,
    recipient_script: &Vec<u8>,
    change_script: &Vec<u8>,
)
    requires
        item_views(scripts@) == output_scripts(psbt_outputs(*old(psbt))),
    ensures
        psbt_outputs(*final(psbt)) == real_outputs(
            psbt_outputs(*old(psbt)),
            recipient_script@,
            change_script@,
        ),
        psbt_inputs(*final(psbt)) == psbt_inputs(*old(psbt)),
        psbt_version(*final(psbt)) == psbt_version(*old(psbt)),
        psbt_lock_time(*final(psbt)) == psbt_lock_time(*old(psbt)),
{
    let ghost before = psbt_outputs(*psbt);
    let ghost after = real_outputs(before, recipient_script@, change_script@);
    let placeholder_recipient = p2tr_script(&probe_key(1));
    let placeholder_change = p2tr_script(&probe_key(2));
    assert(scripts@.len() == item_views(scripts@).len());
    assert(before.len() == output_scripts(before).len());
    let mut i: usize = 0;
    while i < scripts.len()
        invariant
            i <= scripts@.len(),
            scripts@.len() == before.len(),
            item_views(scripts@) == output_scripts(before),
            placeholder_recipient@ == recipient_placeholder(),
            placeholder_change@ == change_placeholder(),
            after == real_outputs(before, recipient_script@, change_script@),
            psbt_outputs(*psbt).len() == before.len(),
            forall|j: int| 0 <= j < i ==> #[trigger] psbt_outputs(*psbt)[j] == after[j],
            forall|j: int|
                i <= j < before.len() ==> #[trigger] psbt_outputs(*psbt)[j] == before[j],
            psbt_inputs(*psbt) == psbt_inputs(*old(psbt)),
            psbt_version(*psbt) == psbt_version(*old(psbt)),
            psbt_lock_time(*psbt) == psbt_lock_time(*old(psbt)),
        decreases scripts@.len() - i,
    {
        proof {
            assert(item_views(scripts@)[i as int] == output_scripts(before)[i as int]);
            assert(psbt_outputs(*psbt)[i as int] == before[i as int]);
        }
        let script = replace_placeholder(
            &scripts[i],
            &placeholder_recipient,
            &placeholder_change,
            recipient_script,
            change_script,
        );
        set_psbt_script(psbt, i, &script);
        i = i + 1;
    }
    assert(psbt_outputs(*psbt) =~= after);
}

/// Signs every input.
fn sign_inputs(psbt: &mut bitcoin::Psbt, keys: &Vec<SecretKey>, prevouts: &Vec<TxOut>)
    requires
        keys@.len() == psbt_inputs(*old(psbt)).len(),
        prevouts@.len() == psbt_inputs(*old(psbt)).len(),
        psbt_version(*old(psbt)) == 2,
        psbt_lock_time(*old(psbt)) == 0,
    ensures
        psbt_inputs(*final(psbt)) == with_signatures(
            psbt_inputs(*old(psbt)),
            psbt_outputs(*old(psbt)),
            txout_views(prevouts@),
            keys@.map_values(|k: SecretKey| be_value(k@)),
        ),
        psbt_outputs(*final(psbt)) == psbt_outputs(*old(psbt)),
        psbt_version(*final(psbt)) == 2,
        psbt_lock_time(*final(psbt)) == 0,
{
    let ghost before = psbt_inputs(*psbt);
    let ghost outputs = psbt_outputs(*psbt);
    let ghost exponents = keys@.map_values(|k: SecretKey| be_value(k@));
    let ghost after = with_signatures(before, outputs, txout_views(prevouts@), exponents);
    let mut i: usize = 0;
    while i < keys.len()
        invariant
            i <= keys@.len(),
            keys@.len() == before.len(),
            prevouts@.len() == before.len(),
            exponents == keys@.map_values(|k: SecretKey| be_value(k@)),
            after == with_signatures(before, outputs, txout_views(prevouts@), exponents),
            psbt_outputs(*psbt) == outputs,
            psbt_version(*psbt) == 2,
            psbt_lock_time(*psbt) == 0,
            psbt_inputs(*psbt).len() == before.len(),
            forall|j: int| 0 <= j < i ==> #[trigger] psbt_inputs(*psbt)[j] == after[j],
            forall|j: int| i <= j < before.len() ==> #[trigger] psbt_inputs(*psbt)[j] == before[j],
        decreases keys@.len() - i,
    {
        let ghost now = psbt_inputs(*psbt);
        proof {
            assert forall|j: int| 0 <= j < before.len() implies signed_inputs(now)[j]
                == signed_inputs(before)[j] by {
                if j < i {
                    assert(now[j] == after[j]);
                } else {
                    assert(now[j] == before[j]);
                }
            }
            assert(signed_inputs(now) =~= signed_inputs(before));
            assert(now[i as int] == before[i as int]);
        }
        let sighash = key_spend_hash(psbt, i, prevouts);
        let signature = keys[i].sign_schnorr(&sighash);
        let item = to_vec(&signature);
        set_psbt_witness(psbt, i, &item);
        assert(item@ == input_signature(
            before,
            outputs,
            txout_views(prevouts@),
            exponents,
            i as int,
        ));
        i = i + 1;
    }
    assert(psbt_inputs(*psbt) =~= after);
}

/// The outputs of chosen coins.
fn picked_outputs(coins: &[SpendableCoin], picked: &Vec<usize>) -> (r: Vec<TxOut>)
    requires
        forall|i: int| 0 <= i < picked@.len() ==> #[trigger] picked@[i] < coins@.len(),
    ensures
        txout_views(r@) == coin_outputs(
            picked@.map_values(|k: usize| coins@[k as int].coin@),
        ),
{
    let ghost all = coin_outputs(picked@.map_values(|k: usize| coins@[k as int].coin@));
    let mut r: Vec<TxOut> = Vec::new();
    let mut i: usize = 0;
    assert(txout_views(r@) =~= all.take(0));
    while i < picked.len()
        invariant
            i <= picked@.len(),
            forall|i: int| 0 <= i < picked@.len() ==> #[trigger] picked@[i] < coins@.len(),
            all == coin_outputs(picked@.map_values(|k: usize| coins@[k as int].coin@)),
            txout_views(r@) == all.take(i as int),
        decreases picked@.len() - i,
    {
        let ghost before = r@;
        let coin = coins[picked[i]].coin;
        r.push(
            TxOut { value: coin.value, script_pubkey: to_vec(coin.script_pubkey.as_slice()) },
        );
        assert(txout_views(r@) =~= txout_views(before).push(all[i as int]));
        i = i + 1;
        assert(txout_views(r@) =~= all.take(i as int));
    }
    assert(all.take(i as int) =~= all);
    r
}

/// Turns chosen inputs and outputs into a signed transaction.
pub fn finish_transaction(
    spend_secret: &SecretKey,
    recipient: SilentPaymentAddress,
    change_address: SilentPaymentAddress,
    coins: &[SpendableCoin],
    psbt: bitcoin::Psbt,
) -> (r: Result<Transaction, SendError>)
    requires
        psbt_version(psbt) == 2,
        psbt_lock_time(psbt) == 0,
        signing_usable(spend_secret@, spendable_views(coins@), psbt_inputs(psbt)),
    ensures
        ({
            let expected = signing(
                spend_secret@,
                recipient@,
                change_address@,
                spendable_views(coins@),
                psbt_inputs(psbt),
                psbt_outputs(psbt),
            );
            match r {
                Ok(tx) => expected == Ok::<_, SendErrorView>(signed_view(tx)),
                Err(e) => expected == Err::<SignedView, _>(e@),
            }
        }),
        r matches Err(SendError::SilentPayments(DerivationError::RecipientKeys(e)))
            ==> no_key_because(
            spend_secret@,
            recipient@,
            change_address@,
            spendable_views(coins@),
            psbt_inputs(psbt),
            psbt_outputs(psbt),
            e,
        ),
{
    let ghost views = spendable_views(coins@);
    let ghost inputs = psbt_inputs(psbt);
    let ghost outputs = psbt_outputs(psbt);
    let outpoints = psbt_outpoints(&psbt);
    assert(outpoints@ =~= outpoints_of(inputs));
    let ghost selected = coins_at(views, outpoints@);
    let ghost exponents = signing_exponents(spend_secret@, selected);
    let picked = match pick_coins(coins, &outpoints) {
        Some(picked) => picked,
        None => {
            return Err(SendError::OutputDerivation);
        },
    };
    assert(picked@.map_values(|k: usize| coins@[k as int].coin@) =~= selected);
    let keys = match signing_keys(spend_secret, coins, &picked) {
        Some(keys) => keys,
        None => {
            return Err(SendError::Secp(KeyError::InvalidTweak));
        },
    };
    assert(keys@.map_values(|k: SecretKey| be_value(k@)) =~= exponents);
    let input_keys = taproot_input_keys(&keys);
    let shown = show_outpoints(&outpoints);
    let partial = match partial_secret(&input_keys, &shown) {
        Some(partial) => partial,
        None => {
            return Err(SendError::SilentPayments(DerivationError::PartialSecret));
        },
    };
    let scripts = psbt_scripts(&psbt);
    let placeholder_change = p2tr_script(&probe_key(2));
    let with_change = contains_script(&scripts, &placeholder_change);
    assert(with_change == has_change(outputs));
    let (recipient_script, change_script) = match output_keys(
        recipient,
        change_address,
        with_change,
        &partial,
    ) {
        Ok(scripts) => scripts,
        Err(e) => {
            return Err(e);
        },
    };
    let mut psbt = psbt;
    write_scripts(&mut psbt, &scripts, &recipient_script, &change_script);
    proof {
        if !with_change {
            lemma_change_unused(
                outputs,
                recipient_script@,
                change_script@,
                address_script(
                    recipients_of(recipient@, change_address@, outputs),
                    change_address@,
                    be_value(partial@),
                ),
            );
        }
    }
    let prevouts = picked_outputs(coins, &picked);
    assert(txout_views(prevouts@).len() == prevouts@.len());
    sign_inputs(&mut psbt, &keys, &prevouts);
    match extract_tx(psbt) {
        Ok(tx) => {
            assert(signed_view(tx) =~= signed_of(psbt_inputs(psbt), psbt_outputs(psbt)));
            Ok(tx)
        },
        Err(text) => Err(SendError::TxBuild(text)),
    }
}

/// The candidates that coins make: each is spent by its key, with a sequence number that
/// lets the transaction be replaced.
pub open spec fn coin_candidates(coins: Seq<(Outpoint, CoinView)>) -> Seq<CandidateView> {
    coins.map_values(
        |c: (Outpoint, CoinView)|
            CandidateView {
                outpoint: c.0,
                prevout: coin_output(c.1),
                sequence: 0xffff_fffd,
                weight: 66,
            },
    )
}

/// The coins and outputs that are chosen for an amount.
pub open spec fn chosen(coins: Seq<(Outpoint, CoinView)>, amount: u64, fee_rate: u64) -> Option<
    (Seq<CandidateView>, Seq<TxOutView>),
> {
    selection_of(
        coin_candidates(coins),
        TxOutView { value: amount, script_pubkey: recipient_placeholder() },
        change_placeholder(),
        66,
        fee_rate,
        250,
        100_000,
    )
}

/// Whether coins and outputs are a choice for an amount: the coins are among those given,
/// none twice, and worth at least the outputs, which are the amount and perhaps change, and
/// can be told apart.
pub open spec fn well_chosen(
    coins: Seq<(Outpoint, CoinView)>,
    amount: u64,
    inputs: Seq<CandidateView>,
    outputs: Seq<TxOutView>,
) -> bool {
    &&& chosen_from(inputs, coin_candidates(coins))
    &&& recipient_placeholder() != change_placeholder()
    &&& target_then_change(
        outputs,
        TxOutView { value: amount, script_pubkey: recipient_placeholder() },
        change_placeholder(),
    )
    &&& candidate_total(inputs) >= output_total(outputs)
}

/// The sum of the values of coins.
pub open spec fn value_total(coins: Seq<CoinView>) -> nat
    decreases coins.len(),
{
    if coins.len() == 0 {
        0
    } else {
        value_total(coins.drop_last()) + coins.last().value as nat
    }
}

/// The outpoints that a transaction spends.
pub open spec fn spent_outpoints(tx: SignedView) -> Seq<Outpoint> {
    tx.tx.input.map_values(|i: TxInView| i.previous_output)
}

/// The partial secret of a transaction that spends coins of the spend key.
pub open spec fn payment_secret(
    tx: SignedView,
    spend: Seq<u8>,
    coins: Seq<(Outpoint, CoinView)>,
) -> Option<nat> {
    let spent = spent_outpoints(tx);
    partial_secret_of(
        taproot_keys(signing_exponents(spend, coins_at(coins, spent))),
        shown_outpoints(spent),
    )
}

/// Who a transaction pays: the recipient and, where it has a second output, the owner of the
/// change address.
pub open spec fn payees(tx: SignedView, recipient: AddressView, change: AddressView) -> Seq<
    AddressView,
> {
    if tx.tx.output.len() == 2 {
        seq![recipient, change]
    } else {
        seq![recipient]
    }
}

/// Whether the outputs of a transaction pay the keys that are derived under a partial
/// secret: the first that of the recipient and the second, if there is one, that of the
/// change address. Where the two addresses are one, both pay its first key.
pub open spec fn reaches(
    tx: SignedView,
    recipient: AddressView,
    change: AddressView,
    partial: nat,
) -> bool {
    let payees = payees(tx, recipient, change);
    &&& all_sent(payees, partial)
    &&& tx.tx.output[0].script_pubkey == p2tr_script_of(sent_key(payees, 0, partial).unwrap())
    &&& tx.tx.output.len() == 2 ==> tx.tx.output[1].script_pubkey == p2tr_script_of(
        sent_key(
            payees,
            if change == recipient {
                0
            } else {
                1
            },
            partial,
        ).unwrap(),
    )
}

/// Whether a transaction is a fair payment of an amount out of coins: it spends coins that
/// were given, none twice, worth at least what it pays; its first output is the amount, to
/// the key that is derived for the recipient; and it has at most one more, to the key that
/// is derived for the change address.
pub open spec fn fair_payment(
    tx: SignedView,
    spend: Seq<u8>,
    recipient: AddressView,
    change: AddressView,
    coins: Seq<(Outpoint, CoinView)>,
    amount: u64,
) -> bool {
    let spent = spent_outpoints(tx);
    &&& 1 <= tx.tx.output.len() <= 2
    &&& tx.tx.output[0].value == amount
    &&& payment_secret(tx, spend, coins) matches Some(partial) && reaches(
        tx,
        recipient,
        change,
        partial,
    )
    &&& all_known(coins, spent)
    &&& spent.no_duplicates()
    &&& tx.witnesses.len() == spent.len()
    &&& value_total(coins_at(coins, spent)) >= output_total(tx.tx.output)
}

proof fn lemma_chosen_worth(coins: Seq<(Outpoint, CoinView)>, inputs: Seq<CandidateView>)
    requires
        distinct_keys(coins),
        forall|i: int|
            0 <= i < inputs.len() ==> coin_candidates(coins).contains(#[trigger] inputs[i]),
    ensures
        all_known(coins, outpoints_of(fresh_inputs(inputs))),
        value_total(coins_at(coins, outpoints_of(fresh_inputs(inputs)))) == candidate_total(inputs),
    decreases inputs.len(),
{
    let outpoints = outpoints_of(fresh_inputs(inputs));
    let all = coin_candidates(coins);
    assert forall|i: int| 0 <= i < outpoints.len() implies position_in(
        coins,
        #[trigger] outpoints[i],
    ) is Some && coins[position_in(coins, outpoints[i]).unwrap()].1.value
        == inputs[i].prevout.value by {
        assert(all.contains(inputs[i]));
        let k = choose|k: int| 0 <= k < all.len() && all[k] == inputs[i];
        assert(coins[k].0 == outpoints[i]);
        position_found(coins, k);
    }
    if inputs.len() > 0 {
        let fewer = inputs.drop_last();
        assert forall|i: int| 0 <= i < fewer.len() implies all.contains(#[trigger] fewer[i]) by {
            assert(fewer[i] == inputs[i]);
        }
        lemma_chosen_worth(coins, fewer);
        let selected = coins_at(coins, outpoints);
        assert(selected.drop_last() =~= coins_at(coins, outpoints_of(fresh_inputs(fewer))));
        assert(outpoints[outpoints.len() - 1] == inputs.last().outpoint);
    }
}

proof fn lemma_same_worth(outputs: Seq<TxOutView>, recipient: Seq<u8>, change: Seq<u8>)
    ensures
        output_total(real_outputs(outputs, recipient, change)) == output_total(outputs),
    decreases outputs.len(),
{
    if outputs.len() > 0 {
        lemma_same_worth(outputs.drop_last(), recipient, change);
        assert(real_outputs(outputs, recipient, change).drop_last() =~= real_outputs(
            outputs.drop_last(),
            recipient,
            change,
        ));
    }
}

proof fn lemma_first_recipient(recipients: Seq<AddressView>, n: nat, partial: nat)
    requires
        1 <= n <= recipients.len(),
    ensures
        keys_of_address(recipients, recipients[0], n, partial).len() > 0,
        keys_of_address(recipients, recipients[0], n, partial)[0] == sent_key(
            recipients,
            0,
            partial,
        ).unwrap(),
    decreases n,
{
    if n > 1 {
        lemma_first_recipient(recipients, (n - 1) as nat, partial);
    } else {
        assert(keys_of_address(recipients, recipients[0], 0, partial) =~= Seq::empty());
    }
}

/// A payment that is made of well chosen coins is fair, whatever else went into it.
pub proof fn well_chosen_coins_pay_fairly(
    spend: Seq<u8>,
    recipient: AddressView,
    change: AddressView,
    coins: Seq<(Outpoint, CoinView)>,
    amount: u64,
    inputs: Seq<CandidateView>,
    outputs: Seq<TxOutView>,
)
    requires
        distinct_keys(coins),
        well_chosen(coins, amount, inputs, outputs),
        signing(spend, recipient, change, coins, fresh_inputs(inputs), outputs) is Ok,
    ensures
        fair_payment(
            signing(spend, recipient, change, coins, fresh_inputs(inputs), outputs)->Ok_0,
            spend,
            recipient,
            change,
            coins,
            amount,
        ),
{
    let tx = signing(spend, recipient, change, coins, fresh_inputs(inputs), outputs)->Ok_0;
    let outpoints = outpoints_of(fresh_inputs(inputs));
    lemma_chosen_worth(coins, inputs);
    let exponents = signing_exponents(spend, coins_at(coins, outpoints));
    let partial = partial_secret_of(taproot_keys(exponents), shown_outpoints(outpoints)).unwrap();
    let recipients = recipients_of(recipient, change, outputs);
    lemma_same_worth(
        outputs,
        address_script(recipients, recipient, partial),
        address_script(recipients, change, partial),
    );
    assert(spent_outpoints(tx) =~= outpoints);
    lemma_first_recipient(recipients, recipients.len(), partial);
    assert(output_scripts(outputs)[0] == recipient_placeholder());
    if outputs.len() == 2 {
        assert(output_scripts(outputs)[1] == change_placeholder());
        assert(has_change(outputs));
        reveal_with_fuel(keys_of_address, 3);
    } else {
        assert(!has_change(outputs));
    }
    assert(recipients == payees(tx, recipient, change));
    assert(reaches(tx, recipient, change, partial));
    assert forall|i: int, j: int|
        0 <= i < outpoints.len() && 0 <= j < outpoints.len() && i != j implies outpoints[i]
        != outpoints[j] by {
        if i < j {
            assert(inputs[i].outpoint != inputs[j].outpoint);
        } else {
            assert(inputs[j].outpoint != inputs[i].outpoint);
        }
    }
}

/// What becomes of a payment: the signed transaction, or why it cannot be made.
pub open spec fn sending(
    spend: Seq<u8>,
    recipient: AddressView,
    change: AddressView,
    coins: Seq<(Outpoint, CoinView)>,
    amount: u64,
    fee_rate: u64,
) -> Result<SignedView, SendErrorView> {
    if coins.len() == 0 {
        Err(SendErrorView::NoSpendableCoins)
    } else if amount < 330 {
        Err(SendErrorView::DustAmount { amount, dust: 330 })
    } else {
        match chosen(coins, amount, fee_rate) {
            None => Err(
                SendErrorView::InsufficientFunds {
                    needed: (amount + fee_for_all(coins.len(), fee_rate)) as u64,
                    available: coin_total(coins) as u64,
                },
            ),
            Some((inputs, outputs)) => signing(
                spend,
                recipient,
                change,
                coins,
                fresh_inputs(inputs),
                outputs,
            ),
        }
    }
}

/// Whether a payment leads to a recipient without an output key, for the reason `e`.
pub open spec fn underivable(
    spend: Seq<u8>,
    recipient: AddressView,
    change: AddressView,
    coins: Seq<(Outpoint, CoinView)>,
    amount: u64,
    fee_rate: u64,
    e: KeyError,
) -> bool {
    match chosen(coins, amount, fee_rate) {
        Some((inputs, outputs)) => no_key_because(
            spend,
            recipient,
            change,
            coins,
            fresh_inputs(inputs),
            outputs,
            e,
        ),
        None => false,
    }
}

/// Whether the amounts of a payment, if coins are chosen for it, stay in the range of the
/// arithmetic.
pub open spec fn sendable(coins: Seq<(Outpoint, CoinView)>, amount: u64, fee_rate: u64) -> bool {
    coins.len() > 0 && amount >= 330 ==> {
        &&& amounts_in_range(coin_total(coins), coins.len(), amount, fee_rate)
        &&& payment_weight(coins.len()) <= usize::MAX
        &&& amount + fee_for_all(coins.len(), fee_rate) <= u64::MAX
    }
}

/// Whether the input hash of a payment, if it is computed, can be used as a scalar.
pub open spec fn sending_usable(
    spend: Seq<u8>,
    coins: Seq<(Outpoint, CoinView)>,
    amount: u64,
    fee_rate: u64,
) -> bool {
    coins.len() > 0 && amount >= 330 ==> match chosen(coins, amount, fee_rate) {
        Some((inputs, _)) => signing_usable(spend, coins, fresh_inputs(inputs)),
        None => true,
    }
}

proof fn lemma_same_total(coins: Seq<(Outpoint, CoinView)>)
    ensures
        candidate_total(coin_candidates(coins)) == coin_total(coins),
    decreases coins.len(),
{
    if coins.len() > 0 {
        lemma_same_total(coins.drop_last());
        assert(coin_candidates(coins).drop_last() =~= coin_candidates(coins.drop_last()));
    }
}

proof fn lemma_total_grows(coins: Seq<(Outpoint, CoinView)>, n: int)
    requires
        0 <= n <= coins.len(),
    ensures
        coin_total(coins.take(n)) <= coin_total(coins),
    decreases coins.len() - n,
{
    if n < coins.len() {
        lemma_total_grows(coins, n + 1);
        assert(coins.take(n + 1).drop_last() =~= coins.take(n));
    } else {
        assert(coins.take(n) =~= coins);
    }
}

proof fn lemma_total_without(s: Seq<CandidateView>, k: int)
    requires
        0 <= k < s.len(),
    ensures
        candidate_total(s) == candidate_total(s.remove(k)) + s[k].prevout.value,
    decreases s.len(),
{
    if k == s.len() - 1 {
        assert(s.remove(k) =~= s.drop_last());
    } else {
        lemma_total_without(s.drop_last(), k);
        assert(s.remove(k).drop_last() =~= s.drop_last().remove(k));
        assert(s.remove(k).last() == s.last());
    }
}

proof fn lemma_chosen_total(inputs: Seq<CandidateView>, all: Seq<CandidateView>)
    requires
        chosen_from(inputs, all),
    ensures
        candidate_total(inputs) <= candidate_total(all),
    decreases all.len(),
{
    if inputs.len() == 0 {
    } else if all.len() == 0 {
        assert(all.contains(inputs[0]));
    } else {
        let fewer = all.drop_last();
        let rest = if inputs.contains(all.last()) {
            let k = choose|k: int| 0 <= k < inputs.len() && inputs[k] == all.last();
            lemma_total_without(inputs, k);
            inputs.remove(k)
        } else {
            inputs
        };
        assert forall|i: int| 0 <= i < rest.len() implies fewer.contains(#[trigger] rest[i]) by {
            let k = choose|k: int| 0 <= k < inputs.len() && inputs[k] == rest[i];
            if inputs.contains(all.last()) {
                let m = choose|k: int| 0 <= k < inputs.len() && inputs[k] == all.last();
                let from = if i < m { i } else { i + 1 };
                assert(rest[i] == inputs[from]);
                assert(inputs[from].outpoint != inputs[m].outpoint);
            } else {
                assert(inputs.contains(rest[i]));
            }
            assert(all.contains(rest[i]));
            let j = choose|j: int| 0 <= j < all.len() && all[j] == rest[i];
            assert(fewer[j] == rest[i]);
        }
        assert forall|i: int, j: int| 0 <= i < j < rest.len() implies (
        #[trigger] rest[i]).outpoint != (#[trigger] rest[j]).outpoint by {
            if inputs.contains(all.last()) {
                let m = choose|k: int| 0 <= k < inputs.len() && inputs[k] == all.last();
                let a = if i < m { i } else { i + 1 };
                let b = if j < m { j } else { j + 1 };
                assert(rest[i] == inputs[a] && rest[j] == inputs[b]);
            }
        }
        lemma_chosen_total(rest, fewer);
    }
}

/// Coins that are worth less than the amount are not chosen for it.
pub proof fn well_chosen_coins_suffice(
    coins: Seq<(Outpoint, CoinView)>,
    amount: u64,
    inputs: Seq<CandidateView>,
    outputs: Seq<TxOutView>,
)
    requires
        well_chosen(coins, amount, inputs, outputs),
    ensures
        coin_total(coins) >= amount,
{
    lemma_chosen_total(inputs, coin_candidates(coins));
    lemma_same_total(coins);
    reveal_with_fuel(output_total, 3);
    if outputs.len() == 2 {
        assert(outputs.drop_last().last() == outputs[0]);
    }
}

fn outpoints_and_outputs(coins: &[SpendableCoin]) -> (r: Vec<(Outpoint, TxOut)>)
    ensures
        candidate_views(r@, 0xffff_fffd, 66) == coin_candidates(spendable_views(coins@)),
        r@.len() == coins@.len(),
        forall|i: int| 0 <= i < r@.len() ==> (#[trigger] r@[i]).0 == coins@[i].outpoint,
{
    let mut r: Vec<(Outpoint, TxOut)> = Vec::new();
    let mut i: usize = 0;
    while i < coins.len()
        invariant
            i <= coins@.len(),
            r@.len() == i,
            forall|j: int|
                0 <= j < i ==> (#[trigger] r@[j]).0 == coins@[j].outpoint && r@[j].1@
                    == coin_output(coins@[j].coin@),
        decreases coins@.len() - i,
    {
        let coin = coins[i].coin;
        let output = TxOut {
            value: coin.value,
            script_pubkey: to_vec(coin.script_pubkey.as_slice()),
        };
        r.push((coins[i].outpoint, output));
        i = i + 1;
    }
    assert(candidate_views(r@, 0xffff_fffd, 66) =~= coin_candidates(spendable_views(coins@)));
    r
}

/// The sum of the values of coins, unless it is out of range.
fn checked_available(coins: &[SpendableCoin]) -> (r: Option<u64>)
    ensures
        match r {
            Some(total) => total == coin_total(spendable_views(coins@)),
            None => coin_total(spendable_views(coins@)) > u64::MAX,
        },
{
    let ghost views = spendable_views(coins@);
    let mut total: u64 = 0;
    let mut i: usize = 0;
    while i < coins.len()
        invariant
            i <= coins@.len(),
            views == spendable_views(coins@),
            total == coin_total(views.take(i as int)),
        decreases coins@.len() - i,
    {
        proof {
            let done = views.take(i + 1);
            assert(done.drop_last() =~= views.take(i as int));
            assert(done.last() == views[i as int]);
            lemma_total_grows(views, i + 1);
        }
        match total.checked_add(coins[i].coin.value) {
            Some(sum) => {
                total = sum;
            },
            None => {
                return None;
            },
        }
        i = i + 1;
    }
    assert(views.take(i as int) =~= views);
    Some(total)
}

/// Chooses coins for an amount and starts the transaction.
fn choose_coins(coins: &[SpendableCoin], amount: u64, fee_rate: u64) -> (r: Result<
    bitcoin::Psbt,
    SendError,
>)
    requires
        distinct_keys(spendable_views(coins@)),
        coins@.len() > 0,
        amount >= 330,
        sendable(spendable_views(coins@), amount, fee_rate),
    ensures
        ({
            let views = spendable_views(coins@);
            match r {
                Ok(psbt) => {
                    &&& chosen(views, amount, fee_rate) is Some
                    &&& psbt_version(psbt) == 2
                    &&& psbt_lock_time(psbt) == 0
                    &&& psbt_inputs(psbt) == fresh_inputs(chosen(views, amount, fee_rate).unwrap().0)
                    &&& psbt_outputs(psbt) == chosen(views, amount, fee_rate).unwrap().1
                    &&& well_chosen(
                        views,
                        amount,
                        chosen(views, amount, fee_rate).unwrap().0,
                        chosen(views, amount, fee_rate).unwrap().1,
                    )
                    &&& coin_total(views) >= amount
                },
                Err(e) => {
                    &&& chosen(views, amount, fee_rate) is None
                    &&& e == (SendError::InsufficientFunds {
                        needed: (amount + fee_for_all(views.len(), fee_rate)) as u64,
                        available: coin_total(views) as u64,
                    })
                },
            }
        }),
{
    let ghost views = spendable_views(coins@);
    let outputs = outpoints_and_outputs(coins);
    proof {
        assert forall|i: int, j: int| 0 <= i < j < outputs@.len() implies (#[trigger] outputs@[i]).0
            != (#[trigger] outputs@[j]).0 by {
            assert(views[i].0 != views[j].0);
        }
        lemma_same_total(views);
    }
    let recipient_probe = probe_key(1);
    let change_probe = probe_key(2);
    proof {
        lemma_probe(1);
        lemma_probes_differ();
        assert(recipient_probe@ != change_probe@);
        assert(recipient_placeholder().skip(2) =~= recipient_probe@);
        assert(change_placeholder().skip(2) =~= change_probe@);
    }
    let target = TxOut { value: amount, script_pubkey: p2tr_script(&recipient_probe) };
    let change_script = p2tr_script(&change_probe);
    match select(
        candidates(&outputs, 0xffff_fffd, 66),
        &target,
        &change_script,
        66,
        fee_rate,
        250,
        100_000,
    ) {
        Some(selection) => {
            let psbt = create_psbt(&selection);
            proof {
                let (inputs, outputs) = chosen(views, amount, fee_rate).unwrap();
                assert(well_chosen(views, amount, inputs, outputs));
                well_chosen_coins_suffice(views, amount, inputs, outputs);
            }
            Ok(psbt)
        },
        None => {
            let lens: [usize; 2] = [34, 34];
            assert(lens@ =~= seq![34usize, 34usize]);
            let weight: u64 = predict_payment_weight(coins.len(), lens);
            let fee: u64 = match fee_wu(fee_rate, weight) {
                Some(fee) => fee,
                None => 0,
            };
            Err(
                SendError::InsufficientFunds {
                    needed: amount + fee,
                    available: checked_available(coins).unwrap(),
                },
            )
        },
    }
}

/// Makes a payment: chooses coins, derives the outputs and signs the transaction.
pub fn build_transaction(
    spend_secret: &SecretKey,
    recipient: SilentPaymentAddress,
    amount: u64,
    fee_rate: u64,
    change_address: SilentPaymentAddress,
    coins: &[SpendableCoin],
) -> (r: Result<Transaction, SendError>)
    requires
        distinct_keys(spendable_views(coins@)),
        sendable(spendable_views(coins@), amount, fee_rate),
        sending_usable(spend_secret@, spendable_views(coins@), amount, fee_rate),
    ensures
        ({
            let expected = sending(
                spend_secret@,
                recipient@,
                change_address@,
                spendable_views(coins@),
                amount,
                fee_rate,
            );
            match r {
                Ok(tx) => expected == Ok::<_, SendErrorView>(signed_view(tx)),
                Err(e) => expected == Err::<SignedView, _>(e@),
            }
        }),
        r matches Ok(tx) ==> fair_payment(
            signed_view(tx),
            spend_secret@,
            recipient@,
            change_address@,
            spendable_views(coins@),
            amount,
        ),
        r matches Ok(tx) ==> tx.version == 2 && tx.lock_time == 0 && forall|i: int|
            0 <= i < tx.input@.len() ==> (#[trigger] tx.input@[i]).sequence == 0xffff_fffd
                && tx.input@[i].script_sig@.len() == 0 && tx.input@[i].witness@.len() == 1,
        coins@.len() > 0 && 330 <= amount && coin_total(spendable_views(coins@)) < amount
            ==> r is Err && r->Err_0 is InsufficientFunds,
        r matches Err(SendError::SilentPayments(DerivationError::RecipientKeys(e)))
            ==> underivable(
            spend_secret@,
            recipient@,
            change_address@,
            spendable_views(coins@),
            amount,
            fee_rate,
            e,
        ),
{
    if coins.len() == 0 {
        return Err(SendError::NoSpendableCoins);
    }
    let dust: u64 = p2tr_dust(spend_secret);
    if amount < dust {
        return Err(SendError::DustAmount { amount, dust });
    }
    match choose_coins(coins, amount, fee_rate) {
        Ok(psbt) => {
            let r = finish_transaction(spend_secret, recipient, change_address, coins, psbt);
            proof {
                let views = spendable_views(coins@);
                let (inputs, outputs) = chosen(views, amount, fee_rate).unwrap();
                if r is Ok {
                    well_chosen_coins_pay_fairly(
                        spend_secret@,
                        recipient@,
                        change_address@,
                        views,
                        amount,
                        inputs,
                        outputs,
                    );
                    let tx = r->Ok_0;
                    let view = signed_view(tx);
                    assert forall|i: int| 0 <= i < tx.input@.len() implies (
                    #[trigger] tx.input@[i]).sequence == 0xffff_fffd
                        && tx.input@[i].script_sig@.len() == 0 && tx.input@[i].witness@.len()
                        == 1 by {
                        assert(view.tx.input[i] == tx.input@[i]@);
                        assert(view.witnesses[i] == item_views(tx.input@[i].witness@));
                        assert(item_views(tx.input@[i].witness@).len()
                            == tx.input@[i].witness@.len());
                        chosen_coins_are_spent_as_they_are(views, amount, inputs, outputs, i);
                    }
                }
            }
            r
        },
        Err(e) => Err(e),
    }
}

/// The sum of the exponents of taproot input keys.
fn sum_of_keys(keys: &Vec<(SecretKey, bool)>) -> (r: Option<SecretKey>)
    ensures
        match r {
            Some(k) => exponent_sum(key_pairs(keys@)) == Some(be_value(k@)),
            None => exponent_sum(key_pairs(keys@)) is None,
        },
{
    let ghost pairs = key_pairs(keys@);
    if keys.len() == 0 {
        return None;
    }
    let mut sum = taking_part(&keys[0].0, keys[0].1);
    let mut i: usize = 1;
    while i < keys.len()
        invariant
            1 <= i <= keys@.len(),
            pairs == key_pairs(keys@),
            exponent_sum(pairs.take(i as int)) == Some(be_value(sum@)),
        decreases keys@.len() - i,
    {
        let key = taking_part(&keys[i].0, keys[i].1);
        proof {
            let done = pairs.take(i + 1);
            assert(done.drop_last() =~= pairs.take(i as int));
            assert(done.last() == pairs[i as int]);
        }
        let tweak = Scalar::from_be_bytes(key.secret_bytes()).unwrap();
        match sum.add_tweak(&tweak) {
            Ok(k) => {
                sum = k;
            },
            Err(_) => {
                proof {
                    lemma_sum_fails(pairs, (i + 1) as nat);
                }
                return None;
            },
        }
        i = i + 1;
    }
    assert(pairs.take(i as int) =~= pairs);
    Some(sum)
}

proof fn lemma_sum_fails(pairs: Seq<(nat, bool)>, n: nat)
    requires
        1 <= n <= pairs.len(),
        exponent_sum(pairs.take(n as int)) is None,
    ensures
        exponent_sum(pairs) is None,
    decreases pairs.len(),
{
    if n < pairs.len() {
        assert(pairs.drop_last().take(n as int) =~= pairs.take(n as int));
        lemma_sum_fails(pairs.drop_last(), n);
    } else {
        assert(pairs.take(n as int) =~= pairs);
    }
}

fn taking_part(key: &SecretKey, taproot: bool) -> (r: SecretKey)
    ensures
        be_value(r@) == input_exponent((be_value(key@), taproot)),
{
    let public = PublicKey::from_secret_key(key).serialize();
    if taproot && public[0] == 3 {
        key.negate()
    } else {
        *key
    }
}

/// Whether the input hash of chosen inputs, if it is computed, can be used as a scalar.
fn signing_hash_fits(spend_secret: &SecretKey, coins: &[SpendableCoin], psbt: &bitcoin::Psbt) -> (r:
    bool)
    ensures
        r == signing_usable(spend_secret@, spendable_views(coins@), psbt_inputs(*psbt)),
{
    let ghost views = spendable_views(coins@);
    let outpoints = psbt_outpoints(psbt);
    assert(outpoints@ =~= outpoints_of(psbt_inputs(*psbt)));
    let ghost selected = coins_at(views, outpoints@);
    let picked = match pick_coins(coins, &outpoints) {
        Some(picked) => picked,
        None => {
            return true;
        },
    };
    assert(picked@.map_values(|k: usize| coins@[k as int].coin@) =~= selected);
    let keys = match signing_keys(spend_secret, coins, &picked) {
        Some(keys) => keys,
        None => {
            return true;
        },
    };
    assert(keys@.map_values(|k: SecretKey| be_value(k@)) =~= signing_exponents(
        spend_secret@,
        selected,
    ));
    let input_keys = taproot_input_keys(&keys);
    let shown = show_outpoints(&outpoints);
    match sum_of_keys(&input_keys) {
        Some(sum) => match least_text_outpoint(&shown) {
            Some(o) => Scalar::from_be_bytes(
                compute_input_hash(o, PublicKey::from_secret_key(&sum)),
            ).is_some(),
            None => true,
        },
        None => true,
    }
}

/// Whether the input hash of a payment, if it is computed, can be used as a scalar.
pub fn payment_usable(
    spend_secret: &SecretKey,
    amount: u64,
    fee_rate: u64,
    coins: &[SpendableCoin],
) -> (r: bool)
    requires
        distinct_keys(spendable_views(coins@)),
        sendable(spendable_views(coins@), amount, fee_rate),
    ensures
        r == sending_usable(spend_secret@, spendable_views(coins@), amount, fee_rate),
{
    if coins.len() > 0 && amount >= p2tr_dust(spend_secret) {
        if let Ok(psbt) = choose_coins(coins, amount, fee_rate) {
            return signing_hash_fits(spend_secret, coins, &psbt);
        }
    }
    true
}

/// Whether the amounts of a payment, if coins are chosen for it, stay in the range of the
/// arithmetic.
pub fn is_sendable(coins: &[SpendableCoin], amount: u64, fee_rate: u64) -> (r: bool)
    ensures
        r == sendable(spendable_views(coins@), amount, fee_rate),
{
    if coins.len() == 0 || amount < 330 {
        return true;
    }
    let total: u64 = match checked_available(coins) {
        Some(total) => total,
        None => {
            return false;
        },
    };
    let n = coins.len();
    let count: u128 = if n < 0xfd {
        1
    } else if n <= 0xffff {
        3
    } else if n as u64 <= 0xffff_ffff {
        5
    } else {
        9
    };
    let weight: u128 = 382 + 4 * count + 230 * (n as u128);
    if weight > usize::MAX as u128 {
        return false;
    }
    let fee: u64 = match fee_wu(fee_rate, weight as u64) {
        Some(fee) => fee,
        None => 0,
    };
    amount.checked_add(fee).is_some() && are_amounts_in_range(total, n, amount, fee_rate)
}

/// Makes a payment, unless its amounts are out of the range of the arithmetic or the input
/// hash of the chosen coins is no scalar.
pub fn checked_build_transaction(
    spend_secret: &SecretKey,
    recipient: SilentPaymentAddress,
    amount: u64,
    fee_rate: u64,
    change_address: SilentPaymentAddress,
    coins: &[SpendableCoin],
) -> (r: Option<Result<Transaction, SendError>>)
    requires
        distinct_keys(spendable_views(coins@)),
    ensures
        ({
            let views = spendable_views(coins@);
            let expected = sending(
                spend_secret@,
                recipient@,
                change_address@,
                views,
                amount,
                fee_rate,
            );
            match r {
                Some(Ok(tx)) => {
                    &&& sendable(views, amount, fee_rate)
                    &&& sending_usable(spend_secret@, views, amount, fee_rate)
                    &&& expected == Ok::<_, SendErrorView>(signed_view(tx))
                    &&& fair_payment(
                        signed_view(tx),
                        spend_secret@,
                        recipient@,
                        change_address@,
                        views,
                        amount,
                    )
                },
                Some(Err(e)) => {
                    &&& sendable(views, amount, fee_rate)
                    &&& sending_usable(spend_secret@, views, amount, fee_rate)
                    &&& expected == Err::<SignedView, _>(e@)
                },
                None => !(sendable(views, amount, fee_rate) && sending_usable(
                    spend_secret@,
                    views,
                    amount,
                    fee_rate,
                )),
            }
        }),
{
    if !is_sendable(coins, amount, fee_rate) || !payment_usable(
        spend_secret,
        amount,
        fee_rate,
        coins,
    ) {
        return None;
    }
    Some(build_transaction(spend_secret, recipient, amount, fee_rate, change_address, coins))
}

/// The fee of a transaction is the least whole number of satoshis that pays for its weight at
/// the rate.
pub proof fn fees_are_rounded_up(fee_rate: u64, weight: nat)
    ensures
        fee_of(fee_rate, weight) matches Some(fee) ==> 1000 * fee >= fee_rate * weight && (fee > 0
            ==> 1000 * (fee - 1) < fee_rate * weight),
        fee_of(fee_rate, weight) is None <==> fee_rate * weight > u64::MAX - 999,
{
}

/// The worth of coins grows by a coin's value, and only by it, where the coin comes in,
/// wherever it stands.
pub proof fn coin_total_grows_by_each(
    head: Seq<(Outpoint, CoinView)>,
    c: (Outpoint, CoinView),
    tail: Seq<(Outpoint, CoinView)>,
)
    ensures
        coin_total(Seq::<(Outpoint, CoinView)>::empty()) == 0,
        coin_total(head + seq![c] + tail) == coin_total(head + tail) + c.1.value,
    decreases tail.len(),
{
    let all = head + seq![c] + tail;
    if tail.len() == 0 {
        assert(all.drop_last() =~= head + tail);
    } else {
        coin_total_grows_by_each(head, c, tail.drop_last());
        assert(all.drop_last() =~= head + seq![c] + tail.drop_last());
        assert((head + tail).drop_last() =~= head + tail.drop_last());
    }
}

/// A payment that the coins do not suffice for says what they are worth, and what would be
/// needed: the amount and the least fee for spending them all to two outputs.
pub proof fn refused_payments_say_what_is_needed(
    spend: Seq<u8>,
    recipient: AddressView,
    change: AddressView,
    coins: Seq<(Outpoint, CoinView)>,
    amount: u64,
    fee_rate: u64,
    weight: nat,
)
    requires
        coins.len() > 0,
        amount >= 330,
        chosen(coins, amount, fee_rate) is None,
        sendable(coins, amount, fee_rate),
        weight == 382 + 4 * (if coins.len() < 253 {
            1nat
        } else if coins.len() < 65536 {
            3nat
        } else if coins.len() < 0x1_0000_0000 {
            5nat
        } else {
            9nat
        }) + 230 * coins.len(),
        fee_rate * weight <= u64::MAX - 999,
    ensures
        sending(spend, recipient, change, coins, amount, fee_rate) matches Err(
            SendErrorView::InsufficientFunds { needed, available },
        ) && available == coin_total(coins) && 1000 * (needed - amount) >= fee_rate * weight && (
        needed > amount ==> 1000 * (needed - amount - 1) < fee_rate * weight),
{
    fees_are_rounded_up(fee_rate, weight);
}

/// An amount below three hundred and thirty satoshis is refused as dust, and no payment is
/// made without coins.
pub proof fn dust_is_refused(
    spend: Seq<u8>,
    recipient: AddressView,
    change: AddressView,
    coins: Seq<(Outpoint, CoinView)>,
    amount: u64,
    fee_rate: u64,
)
    ensures
        coins.len() > 0 ==> (amount < 330 <==> (sending(
            spend,
            recipient,
            change,
            coins,
            amount,
            fee_rate,
        ) matches Err(SendErrorView::DustAmount { amount: a, dust: d }) && a == amount && d
            == 330)),
        coins.len() == 0 <==> sending(spend, recipient, change, coins, amount, fee_rate) == Err::<
            SignedView,
            _,
        >(SendErrorView::NoSpendableCoins),
{
}

/// The coins that are chosen for a payment are spent as they are, with a sequence number that
/// lets the transaction be replaced.
pub proof fn chosen_coins_are_spent_as_they_are(
    coins: Seq<(Outpoint, CoinView)>,
    amount: u64,
    inputs: Seq<CandidateView>,
    outputs: Seq<TxOutView>,
    i: int,
)
    requires
        well_chosen(coins, amount, inputs, outputs),
        0 <= i < inputs.len(),
    ensures
        inputs[i].sequence == 0xffff_fffd,
        exists|k: int|
            0 <= k < coins.len() && (#[trigger] coins[k]).0 == inputs[i].outpoint
                && inputs[i].prevout.value == coins[k].1.value && inputs[i].prevout.script_pubkey
                == coins[k].1.script_pubkey,
        fresh_inputs(inputs)[i].outpoint == inputs[i].outpoint,
        fresh_inputs(inputs)[i].sequence == 0xffff_fffd,
        fresh_inputs(inputs)[i].script_sig.len() == 0,
{
    let all = coin_candidates(coins);
    assert(all.contains(inputs[i]));
    let k = choose|k: int| 0 <= k < all.len() && all[k] == inputs[i];
    assert(coins[k].0 == inputs[i].outpoint);
}

/// Every input of a payment carries, as the one item of its witness, the signature of its own
/// coin's exponent, the spend key's plus the coin's tweak, over its own hash: that of the
/// transaction as it pays, of the outputs that all its inputs spend, and of the input's
/// number.
pub proof fn payments_are_signed_input_by_input(
    spend: Seq<u8>,
    recipient: AddressView,
    change: AddressView,
    coins: Seq<(Outpoint, CoinView)>,
    inputs: Seq<PsbtInputView>,
    outputs: Seq<TxOutView>,
    prevouts: Seq<TxOutView>,
    named: Seq<(Outpoint, u32)>,
    i: int,
    k: int,
)
    requires
        distinct_keys(coins),
        signing(spend, recipient, change, coins, inputs, outputs) is Ok,
        0 <= i < inputs.len(),
        0 <= k < coins.len(),
        coins[k].0 == inputs[i].outpoint,
        named.len() == inputs.len(),
        forall|j: int|
            0 <= j < inputs.len() ==> (#[trigger] named[j]).0 == inputs[j].outpoint && named[j].1
                == inputs[j].sequence,
        prevouts.len() == inputs.len(),
        forall|j: int, m: int|
            0 <= j < inputs.len() && 0 <= m < coins.len() && (#[trigger] coins[m]).0 == (
            #[trigger] inputs[j]).outpoint ==> prevouts[j].value == coins[m].1.value
                && prevouts[j].script_pubkey == coins[m].1.script_pubkey,
    ensures
        ({
            let tx = signing(spend, recipient, change, coins, inputs, outputs)->Ok_0;
            &&& tx.tx.version == 2
            &&& tx.tx.lock_time == 0
            &&& tx.tx.input.len() == inputs.len()
            &&& tx.tx.input[i].previous_output == inputs[i].outpoint
            &&& tx.tx.input[i].sequence == inputs[i].sequence
            &&& tx.tx.input[i].script_sig == inputs[i].script_sig
            &&& tx.tx.output.len() == outputs.len()
            &&& tx.witnesses.len() == inputs.len()
            &&& tx.witnesses[i].len() == 1
            &&& tx.witnesses[i][0] == schnorr_signature_of(
                key_spend_hash_of(2, 0, named, tx.tx.output, prevouts, i as nat),
                (be_value(spend) + be_value(coins[k].1.tweak)) % curve_order(),
            )
        }),
{
    let outpoints = outpoints_of(inputs);
    let selected = coins_at(coins, outpoints);
    assert(named =~= signed_inputs(inputs)) by {
        assert forall|j: int| 0 <= j < inputs.len() implies named[j] == signed_inputs(
            inputs,
        )[j] by {
            assert(named[j].0 == inputs[j].outpoint);
        }
    }
    assert(prevouts =~= coin_outputs(selected)) by {
        assert forall|j: int| 0 <= j < inputs.len() implies prevouts[j] == coin_outputs(
            selected,
        )[j] by {
            assert(position_in(coins, outpoints[j]) is Some);
            crate::outpoints::position_meaning(coins, outpoints[j]);
            let m = position_in(coins, outpoints[j]).unwrap();
            assert(coins[m].0 == inputs[j].outpoint);
        }
    }
    position_found(coins, k);
    assert(outpoints[i] == coins[k].0);
    assert(selected[i] == coins[k].1);
}

/// The partial secret of a payment is that of all its inputs: of the exponents of their
/// coins, as those of taproot keys, and of their outpoints.
pub proof fn payment_secrets_cover_every_input(
    tx: SignedView,
    spend: Seq<u8>,
    coins: Seq<(Outpoint, CoinView)>,
    keys: Seq<(nat, bool)>,
    texts: Seq<(Seq<char>, u32)>,
)
    requires
        distinct_keys(coins),
        keys.len() == tx.tx.input.len(),
        texts.len() == tx.tx.input.len(),
        forall|i: int|
            0 <= i < tx.tx.input.len() ==> exists|k: int|
                0 <= k < coins.len() && (#[trigger] coins[k]).0 == (
                #[trigger] tx.tx.input[i]).previous_output && keys[i].0 == (be_value(spend)
                    + be_value(coins[k].1.tweak)) % curve_order(),
        forall|i: int| 0 <= i < keys.len() ==> (#[trigger] keys[i]).1,
        forall|i: int|
            0 <= i < texts.len() ==> (#[trigger] texts[i]).0 == hex(
                tx.tx.input[i].previous_output.txid@.reverse(),
            ) && texts[i].1 == tx.tx.input[i].previous_output.vout,
    ensures
        payment_secret(tx, spend, coins) == partial_secret_of(keys, texts),
{
    let spent = spent_outpoints(tx);
    let exponents = signing_exponents(spend, coins_at(coins, spent));
    assert(keys =~= taproot_keys(exponents)) by {
        assert forall|i: int| 0 <= i < keys.len() implies keys[i] == taproot_keys(exponents)[i] by {
            let k = choose|k: int|
                0 <= k < coins.len() && (#[trigger] coins[k]).0 == tx.tx.input[i].previous_output
                    && keys[i].0 == (be_value(spend) + be_value(coins[k].1.tweak)) % curve_order();
            position_found(coins, k);
            assert(keys[i].1);
        }
    }
    assert(texts =~= shown_outpoints(spent)) by {
        assert forall|i: int| 0 <= i < texts.len() implies texts[i] == shown_outpoints(
            spent,
        )[i] by {
            assert(texts[i].1 == tx.tx.input[i].previous_output.vout);
        }
    }
}

/// Further keys add their exponents to the sum, modulo the curve order: a taproot key whose
/// point has an odd second coordinate adds the opposite one.
pub proof fn input_exponents_are_summed(keys: Seq<(nat, bool)>, key: (nat, bool))
    requires
        is_exponent(key.0),
        keys.len() > 0,
    ensures
        ({
            let e = if key.1 && point_of(key.0)[0] == 3 {
                (curve_order() - key.0) as nat
            } else {
                key.0
            };
            &&& exponent_sum(seq![key]) == Some(e)
            &&& exponent_sum(keys) is None ==> exponent_sum(keys.push(key)) is None
            &&& exponent_sum(keys) matches Some(a) ==> match exponent_sum(keys.push(key)) {
                Some(b) => b != 0 && b == (a + e) % curve_order(),
                None => (a + e) % curve_order() == 0,
            }
        }),
{
    assert(keys.push(key).drop_last() =~= keys);
    assert(keys.push(key).last() == key);
}

/// The script that pays to a taproot output key is 0x51, the number of the key's bytes and the
/// key.
pub proof fn p2tr_scripts_hold_the_key(key: Seq<u8>)
    requires
        key.len() == 32,
    ensures
        p2tr(p2tr_script_of(key)),
        p2tr_script_of(key)[0] == 0x51,
        p2tr_script_of(key)[1] == 32,
        p2tr_script_of(key).skip(2) == key,
{
    assert(p2tr_script_of(key).skip(2) =~= key);
}

/// A payment keeps the chosen outputs: every one of them in its place, with its amount. Only
/// scripts that stand for the recipient's or the change's are replaced.
pub proof fn payments_keep_their_amounts(
    spend: Seq<u8>,
    recipient: AddressView,
    change: AddressView,
    coins: Seq<(Outpoint, CoinView)>,
    inputs: Seq<PsbtInputView>,
    outputs: Seq<TxOutView>,
    i: int,
)
    requires
        signing(spend, recipient, change, coins, inputs, outputs) is Ok,
        0 <= i < outputs.len(),
    ensures
        ({
            let tx = signing(spend, recipient, change, coins, inputs, outputs)->Ok_0;
            &&& tx.tx.output.len() == outputs.len()
            &&& tx.tx.output[i].value == outputs[i].value
            &&& outputs[i].script_pubkey != recipient_placeholder() && outputs[i].script_pubkey
                != change_placeholder() ==> tx.tx.output[i].script_pubkey
                == outputs[i].script_pubkey
        }),
{
}

/// Coins are chosen among all that can be spent, each as it is and with the weight of a
/// taproot key spend, for the whole amount and at the given rate.
pub proof fn all_coins_can_be_chosen(
    coins: Seq<(Outpoint, CoinView)>,
    amount: u64,
    fee_rate: u64,
    candidates: Seq<CandidateView>,
    target: TxOutView,
)
    requires
        candidates.len() == coins.len(),
        forall|i: int|
            0 <= i < coins.len() ==> {
                &&& (#[trigger] candidates[i]).outpoint == coins[i].0
                &&& candidates[i].prevout.value == coins[i].1.value
                &&& candidates[i].prevout.script_pubkey == coins[i].1.script_pubkey
                &&& candidates[i].sequence == 0xffff_fffd
                &&& candidates[i].weight == 66
            },
        target.value == amount,
        target.script_pubkey == recipient_placeholder(),
    ensures
        chosen(coins, amount, fee_rate) == selection_of(
            candidates,
            target,
            change_placeholder(),
            66,
            fee_rate,
            250,
            100_000,
        ),
{
    assert forall|i: int| 0 <= i < coins.len() implies candidates[i] == coin_candidates(
        coins,
    )[i] by {
        assert(candidates[i].outpoint == coins[i].0);
        assert(candidates[i].prevout =~= coin_output(coins[i].1));
    }
    assert(candidates =~= coin_candidates(coins));
}

} // verus!
