//! Wallets: registration with a client-held Ed25519 key, and transfers
//! authorised by a signature over a canonical message with a per-wallet nonce.

use vstd::prelude::*;
use crate::hexcodec::{hex_decode, hex_decoded, push_uuid_text, uuid_text};
use crate::ledger::{
    balance, next_ledger_timestamp, next_timestamp, wallet_balance, wallet_exists,
    LedgerEntry,
};
use crate::text::{push_char, push_signed_decimal, signed_decimal, str_is};

verus! {

/// Whether `ed25519_dalek::VerifyingKey::from_bytes` accepts 32 bytes
/// (they decompress to a curve point).
pub uninterp spec fn ed25519_key_valid(pk: Seq<u8>) -> bool;

/// Whether an Ed25519 signature verifies for a key and a message.
pub uninterp spec fn ed25519_verifies(pk: Seq<u8>, msg: Seq<u8>, sig: Seq<u8>) -> bool;

/// `ed25519_dalek::VerifyingKey::from_bytes`: whether the 32 bytes are a valid key.
#[verifier::external_body]
pub(crate) fn ed25519_key_ok(pk: &[u8]) -> (b: bool)
    requires
        pk@.len() == 32,
    ensures
        b == ed25519_key_valid(pk@),
{
    let arr: [u8; 32] = pk.try_into().unwrap();
    ed25519_dalek::VerifyingKey::from_bytes(&arr).is_ok()
}

/// `ed25519_dalek::Verifier::verify` of a `VerifyingKey` on a `Signature` made by
/// `Signature::from_slice`; a signature that is not 64 bytes does not verify
/// (`from_slice` refuses it).
#[verifier::external_body]
pub(crate) fn ed25519_verify(pk: &[u8], msg: &[u8], sig: &[u8]) -> (b: bool)
    requires
        pk@.len() == 32,
        ed25519_key_valid(pk@),
    ensures
        b == ed25519_verifies(pk@, msg@, sig@),
        sig@.len() != 64 ==> !b,
{
    let arr: [u8; 32] = pk.try_into().unwrap();
    let key = ed25519_dalek::VerifyingKey::from_bytes(&arr).unwrap();
    match ed25519_dalek::Signature::from_slice(sig) {
        Ok(s) => ed25519_dalek::Verifier::verify(&key, msg, &s).is_ok(),
        Err(_) => false,
    }
}

/// The kinds of wallet a client may register.
#[derive(Clone, Copy, Debug, PartialEq, Eq, Structural)]
pub enum WalletType {
    Human,
    Agent,
    External,
}

/// Why a wallet request was refused.
#[derive(Clone, Copy, Debug, PartialEq, Eq, Structural)]
pub enum WalletError {
    InvalidWalletType,
    /// The key text is not 64 bytes long; holds its length.
    PublicKeyLength(usize),
    InvalidHex,
    KeyNotThirtyTwoBytes,
    InvalidPublicKey,
}

/// The wallet type a name stands for.
pub open spec fn spec_wallet_type(s: Seq<char>) -> Option<WalletType> {
    if s == seq!['h', 'u', 'm', 'a', 'n'] {
        Some(WalletType::Human)
    } else if s == seq!['a', 'g', 'e', 'n', 't'] {
        Some(WalletType::Agent)
    } else if s == seq!['e', 'x', 't', 'e', 'r', 'n', 'a', 'l'] {
        Some(WalletType::External)
    } else {
        None
    }
}

/// Parse a wallet type: `human`, `agent` or `external`.
pub fn parse_wallet_type(s: &str) -> (t: Option<WalletType>)
    ensures
        t == spec_wallet_type(s@),
{
    proof {
        reveal_strlit("human");
        reveal_strlit("agent");
        reveal_strlit("external");
        assert("human"@ =~= seq!['h', 'u', 'm', 'a', 'n']);
        assert("agent"@ =~= seq!['a', 'g', 'e', 'n', 't']);
        assert("external"@ =~= seq!['e', 'x', 't', 'e', 'r', 'n', 'a', 'l']);
    }
    if str_is(s, "human") {
        Some(WalletType::Human)
    } else if str_is(s, "agent") {
        Some(WalletType::Agent)
    } else if str_is(s, "external") {
        Some(WalletType::External)
    } else {
        None
    }
}

/// A wallet is registered only for a `human`, `agent` or `external` wallet whose key is
/// 64 hex characters that decode to a valid 32-byte Ed25519 key, and it then holds
/// those bytes.
pub proof fn law_registration_accepts_only_valid(public_key_hex: Seq<char>, wallet_type: Seq<char>)
    ensures
        registration(public_key_hex, wallet_type) matches Ok((t, key)) ==> {
            &&& (wallet_type == seq!['h', 'u', 'm', 'a', 'n'] && t == WalletType::Human)
                || (wallet_type == seq!['a', 'g', 'e', 'n', 't'] && t == WalletType::Agent)
                || (wallet_type == seq!['e', 'x', 't', 'e', 'r', 'n', 'a', 'l'] && t == WalletType::External)
            &&& vstd::utf8::encode_utf8(public_key_hex).len() == 64
            &&& hex_decoded(public_key_hex) == Some(key)
            &&& key.len() == 32
            &&& ed25519_key_valid(key)
        },
        !(wallet_type == seq!['h', 'u', 'm', 'a', 'n'] || wallet_type == seq!['a', 'g', 'e', 'n', 't']
            || wallet_type == seq!['e', 'x', 't', 'e', 'r', 'n', 'a', 'l'])
            ==> registration(public_key_hex, wallet_type) == Err::<(WalletType, Seq<u8>), WalletError>(WalletError::InvalidWalletType),
{
}

/// The outcome of registering a key, as the checks decide it in order.
pub open spec fn registration(public_key_hex: Seq<char>, wallet_type: Seq<char>) -> Result<(WalletType, Seq<u8>), WalletError> {
    if spec_wallet_type(wallet_type) is None {
        Err(WalletError::InvalidWalletType)
    } else if vstd::utf8::encode_utf8(public_key_hex).len() != 64 {
        Err(WalletError::PublicKeyLength(vstd::utf8::encode_utf8(public_key_hex).len() as usize))
    } else if hex_decoded(public_key_hex) is None {
        Err(WalletError::InvalidHex)
    } else if hex_decoded(public_key_hex)->0.len() != 32 {
        Err(WalletError::KeyNotThirtyTwoBytes)
    } else if !ed25519_key_valid(hex_decoded(public_key_hex)->0) {
        Err(WalletError::InvalidPublicKey)
    } else {
        Ok((spec_wallet_type(wallet_type)->0, hex_decoded(public_key_hex)->0))
    }
}

/// Check a wallet registration: the type must be `human`, `agent` or `external`, the key
/// 64 hex characters decoding to a valid 32-byte Ed25519 public key. Returns the type
/// and the key bytes.
pub fn register_wallet(public_key_hex: &str, wallet_type: &str) -> (r: Result<(WalletType, Vec<u8>), WalletError>)
    ensures
        match (r, registration(public_key_hex@, wallet_type@)) {
            (Ok((t, k)), Ok((st, sk))) => t == st && k@ == sk,
            (Err(e), Err(se)) => e == se,
            _ => false,
        },
{
    let t = match parse_wallet_type(wallet_type) {
        Some(t) => t,
        None => return Err(WalletError::InvalidWalletType),
    };
    let key_bytes = public_key_hex.as_bytes();
    let len = key_bytes.len();
    if len != 64 {
        return Err(WalletError::PublicKeyLength(len));
    }
    let bytes = match hex_decode(public_key_hex) {
        Some(b) => b,
        None => return Err(WalletError::InvalidHex),
    };
    if bytes.len() != 32 {
        return Err(WalletError::KeyNotThirtyTwoBytes);
    }
    if !ed25519_key_ok(bytes.as_slice()) {
        return Err(WalletError::InvalidPublicKey);
    }
    Ok((t, bytes))
}

/// The canonical text a transfer signature covers: `transfer:{from}:{to}:{amount}:{nonce}`.
pub open spec fn spec_transfer_message(from: u128, to: u128, amount: i64, nonce: i64) -> Seq<char> {
    seq!['t', 'r', 'a', 'n', 's', 'f', 'e', 'r', ':'] + uuid_text(from) + seq![':'] + uuid_text(to)
        + seq![':'] + signed_decimal(amount as int) + seq![':'] + signed_decimal(nonce as int)
}

/// Build the canonical transfer message.
pub fn transfer_message(from: u128, to: u128, amount: i64, nonce: i64) -> (m: String)
    ensures
        m@ == spec_transfer_message(from, to, amount, nonce),
{
    let mut m = String::new();
    push_char(&mut m, 't');
    push_char(&mut m, 'r');
    push_char(&mut m, 'a');
    push_char(&mut m, 'n');
    push_char(&mut m, 's');
    push_char(&mut m, 'f');
    push_char(&mut m, 'e');
    push_char(&mut m, 'r');
    push_char(&mut m, ':');
    push_uuid_text(&mut m, from);
    push_char(&mut m, ':');
    push_uuid_text(&mut m, to);
    push_char(&mut m, ':');
    push_signed_decimal(&mut m, amount);
    push_char(&mut m, ':');
    push_signed_decimal(&mut m, nonce);
    m
}

/// A registered wallet as signed transfers see it.
#[derive(Clone, Debug)]
pub struct WalletRecord {
    pub id: u128,
    pub public_key: Vec<u8>,
    pub nonce: i64,
}

/// Why a signed transfer was refused.
#[derive(Clone, Copy, Debug, PartialEq, Eq, Structural)]
pub enum SignedTransferError {
    AmountNotPositive,
    SourceWalletNotFound,
    InvalidNonce { expected: i128, got: i64 },
    DestinationWalletNotFound,
    InvalidSignatureHex,
    InvalidStoredKey,
    InvalidSignature,
    InsufficientBalance { balance: i128, amount: i64 },
    TimestampExhausted,
}

/// The index of the first record with id `w`, if any.
pub open spec fn record_index(records: Seq<WalletRecord>, w: u128) -> Option<int>
    decreases records.len(),
{
    if records.len() == 0 {
        None
    } else {
        match record_index(records.drop_last(), w) {
            Some(i) => Some(i),
            None => if records.last().id == w { Some(records.len() - 1) } else { None },
        }
    }
}

/// The ids of the records.
pub open spec fn record_ids(records: Seq<WalletRecord>) -> Seq<u128> {
    records.map_values(|r: WalletRecord| r.id)
}

proof fn lemma_record_index(records: Seq<WalletRecord>, w: u128)
    ensures
        record_index(records, w) matches Some(i) ==> 0 <= i < records.len() && records[i].id == w
            && forall|k: int| 0 <= k < i ==> records[k].id != w,
        record_index(records, w) is None ==> forall|k: int| 0 <= k < records.len() ==> records[k].id != w,
    decreases records.len(),
{
    if records.len() > 0 {
        lemma_record_index(records.drop_last(), w);
        assert forall|k: int| 0 <= k < records.len() - 1 implies records.drop_last()[k] == records[k] by {}
    }
}

/// The outcome of a signed transfer, as its checks decide it in order.
pub open spec fn signed_transfer_check(
    ledger: Seq<LedgerEntry>,
    records: Seq<WalletRecord>,
    from: u128,
    to: u128,
    amount: i64,
    nonce: i64,
    signature_hex: Seq<char>,
) -> Result<(), SignedTransferError> {
    if amount <= 0 {
        Err(SignedTransferError::AmountNotPositive)
    } else if record_index(records, from) is None {
        Err(SignedTransferError::SourceWalletNotFound)
    } else if nonce != records[record_index(records, from)->0].nonce + 1 {
        Err(SignedTransferError::InvalidNonce { expected: (records[record_index(records, from)->0].nonce + 1) as i128, got: nonce })
    } else if !record_ids(records).contains(to) {
        Err(SignedTransferError::DestinationWalletNotFound)
    } else if hex_decoded(signature_hex) is None {
        Err(SignedTransferError::InvalidSignatureHex)
    } else if records[record_index(records, from)->0].public_key@.len() != 32
        || !ed25519_key_valid(records[record_index(records, from)->0].public_key@) {
        Err(SignedTransferError::InvalidStoredKey)
    } else if !ed25519_verifies(
        records[record_index(records, from)->0].public_key@,
        vstd::utf8::encode_utf8(spec_transfer_message(from, to, amount, nonce)),
        hex_decoded(signature_hex)->0,
    ) {
        Err(SignedTransferError::InvalidSignature)
    } else if balance(ledger, from) < amount {
        Err(SignedTransferError::InsufficientBalance { balance: balance(ledger, from) as i128, amount })
    } else if next_timestamp(ledger) > i64::MAX {
        Err(SignedTransferError::TimestampExhausted)
    } else {
        Ok(())
    }
}

/// A signed transfer goes through only when every rule holds: a positive amount, a
/// known source wallet whose next nonce is the one given, a known destination, a
/// signature that decodes and verifies under the source wallet's valid stored key for
/// the canonical transfer message, and enough balance.
pub proof fn law_signed_transfer_accepts_only_valid(
    ledger: Seq<LedgerEntry>,
    records: Seq<WalletRecord>,
    from: u128,
    to: u128,
    amount: i64,
    nonce: i64,
    signature_hex: Seq<char>,
)
    requires
        signed_transfer_check(ledger, records, from, to, amount, nonce, signature_hex) is Ok,
    ensures
        amount > 0,
        exists|i: int| 0 <= i < records.len() && #[trigger] records[i].id == from && {
            let key = records[i].public_key@;
            &&& nonce == records[i].nonce + 1
            &&& key.len() == 32 && ed25519_key_valid(key)
            &&& hex_decoded(signature_hex) matches Some(sig)
                && ed25519_verifies(key, vstd::utf8::encode_utf8(spec_transfer_message(from, to, amount, nonce)), sig)
        },
        exists|j: int| 0 <= j < records.len() && #[trigger] records[j].id == to,
        balance(ledger, from) >= amount,
{
    lemma_record_index(records, from);
    let i = record_index(records, from)->0;
    assert(records[i].id == from);
    let ids = record_ids(records);
    let j = choose|j: int| 0 <= j < ids.len() && ids[j] == to;
    assert(records[j].id == ids[j]);
}

fn find_record(records: &Vec<WalletRecord>, w: u128) -> (r: Option<usize>)
    ensures
        r matches Some(i) ==> record_index(records@, w) == Some(i as int),
        r is None ==> record_index(records@, w) is None,
{
    proof {
        lemma_record_index(records@, w);
    }
    let mut i: usize = 0;
    while i < records.len()
        invariant
            i <= records@.len(),
            forall|k: int| 0 <= k < i ==> records@[k].id != w,
            record_index(records@, w) matches Some(j) ==> 0 <= j < records@.len() && records@[j].id == w
                && forall|k: int| 0 <= k < j ==> records@[k].id != w,
            record_index(records@, w) is None ==> forall|k: int| 0 <= k < records@.len() ==> records@[k].id != w,
        decreases records@.len() - i,
    {
        if records[i].id == w {
            return Some(i);
        }
        i = i + 1;
    }
    None
}

/// Signed transfers cannot be replayed: once a transfer with a nonce went through (the
/// source wallet's nonce became that nonce), the same transfer is refused for its nonce,
/// whatever the ledger holds by then.
pub proof fn law_signed_transfer_not_replayable(
    ledger: Seq<LedgerEntry>,
    later_ledger: Seq<LedgerEntry>,
    records: Seq<WalletRecord>,
    after: Seq<WalletRecord>,
    from: u128,
    to: u128,
    amount: i64,
    nonce: i64,
    signature_hex: Seq<char>,
)
    requires
        signed_transfer_check(ledger, records, from, to, amount, nonce, signature_hex) is Ok,
        after.len() == records.len(),
        forall|k: int| 0 <= k < records.len() ==> #[trigger] after[k] == (
            if k == record_index(records, from)->0 {
                WalletRecord { nonce, ..records[k] }
            } else {
                records[k]
            }),
    ensures
        signed_transfer_check(later_ledger, after, from, to, amount, nonce, signature_hex)
            == Err::<(), SignedTransferError>(SignedTransferError::InvalidNonce { expected: (nonce + 1) as i128, got: nonce }),
{
    lemma_record_index(records, from);
    lemma_record_index(after, from);
    let i = record_index(records, from)->0;
    assert(after[i].id == from);
    if record_index(after, from) is None {
        assert(after[i].id != from);
    } else {
        let j = record_index(after, from)->0;
        if j < i {
            assert(after[j] == records[j]);
        } else if j > i {
            assert(after[i].id != from);
        }
    }
}

/// A transfer authorised by the source wallet's Ed25519 signature over
/// `transfer:{from}:{to}:{amount}:{nonce}`, where `nonce` must be one past the wallet's
/// current nonce. On success the ledger gets the entry and the wallet's nonce becomes `nonce`.
pub fn signed_transfer(
    ledger: &mut Vec<LedgerEntry>,
    records: &mut Vec<WalletRecord>,
    from: u128,
    to: u128,
    amount: i64,
    nonce: i64,
    signature_hex: &str,
) -> (r: Result<LedgerEntry, SignedTransferError>)
    ensures
        r is Ok <==> signed_transfer_check(old(ledger)@, old(records)@, from, to, amount, nonce, signature_hex@) is Ok,
        r matches Err(e) ==> signed_transfer_check(old(ledger)@, old(records)@, from, to, amount, nonce, signature_hex@)
            == Err::<(), SignedTransferError>(e) && final(ledger)@ == old(ledger)@ && final(records)@ == old(records)@,
        r matches Ok(e) ==> {
            &&& e == (LedgerEntry { from_wallet: Some(from), to_wallet: to, amount, timestamp: next_timestamp(old(ledger)@) as i64 })
            &&& final(ledger)@ == old(ledger)@.push(e)
            &&& final(records)@.len() == old(records)@.len()
            &&& forall|k: int| 0 <= k < old(records)@.len() ==> #[trigger] final(records)@[k] == (
                if k == record_index(old(records)@, from)->0 {
                    WalletRecord { nonce, ..old(records)@[k] }
                } else {
                    old(records)@[k]
                })
        },
{
    if amount <= 0 {
        return Err(SignedTransferError::AmountNotPositive);
    }
    proof {
        lemma_record_index(records@, from);
    }
    let idx = match find_record(records, from) {
        Some(i) => i,
        None => return Err(SignedTransferError::SourceWalletNotFound),
    };
    let current = records[idx].nonce;
    if nonce as i128 != current as i128 + 1 {
        return Err(SignedTransferError::InvalidNonce { expected: current as i128 + 1, got: nonce });
    }
    let mut to_found = false;
    let mut j: usize = 0;
    while j < records.len()
        invariant
            j <= records@.len(),
            to_found <==> exists|k: int| 0 <= k < j && #[trigger] records@[k].id == to,
        decreases records@.len() - j,
    {
        if records[j].id == to {
            to_found = true;
        }
        j = j + 1;
    }
    proof {
        if to_found {
            let k = choose|k: int| 0 <= k < records@.len() && #[trigger] records@[k].id == to;
            assert(record_ids(records@)[k] == to);
        } else {
            assert forall|k: int| 0 <= k < record_ids(records@).len() implies record_ids(records@)[k] != to by {
                assert(record_ids(records@)[k] == records@[k].id);
            }
        }
    }
    if !to_found {
        return Err(SignedTransferError::DestinationWalletNotFound);
    }
    let sig = match hex_decode(signature_hex) {
        Some(s) => s,
        None => return Err(SignedTransferError::InvalidSignatureHex),
    };
    if records[idx].public_key.len() != 32 || !ed25519_key_ok(records[idx].public_key.as_slice()) {
        return Err(SignedTransferError::InvalidStoredKey);
    }
    let message = transfer_message(from, to, amount, nonce);
    let msg_str = message.as_str();
    let msg_bytes = msg_str.as_bytes();
    assert(msg_bytes@ == vstd::utf8::encode_utf8(message@));
    if !ed25519_verify(records[idx].public_key.as_slice(), msg_bytes, sig.as_slice()) {
        return Err(SignedTransferError::InvalidSignature);
    }
    let bal = wallet_balance(ledger.as_slice(), from);
    if bal < amount as i128 {
        return Err(SignedTransferError::InsufficientBalance { balance: bal, amount });
    }
    let ts = match next_ledger_timestamp(ledger.as_slice()) {
        Some(t) => t,
        None => return Err(SignedTransferError::TimestampExhausted),
    };
    let e = LedgerEntry { from_wallet: Some(from), to_wallet: to, amount, timestamp: ts };
    ledger.push(e);
    let ghost before = records@;
    let mut rec = records.remove(idx);
    rec.nonce = nonce;
    records.insert(idx, rec);
    assert(records@ =~= before.update(idx as int, WalletRecord { nonce, ..before[idx as int] }));
    Ok(e)
}

} // verus!
