//! Ed25519 identities: signing commit hashes and verifying the signatures,
//! and the audit of a repository's signed commits.

use vstd::prelude::*;
use vstd::string::*;
use vstd::utf8::*;
use crate::hex::{hex_decode, hex_decoding, hex_encode, hex_encoding, lemma_hex_round_trip, HexError};

verus! {

/// The Ed25519 verifying (public) key of a 32-byte secret key.
pub uninterp spec fn ed25519_public_key(secret: Seq<u8>) -> Seq<u8>;

/// The Ed25519 signature (deterministic, 64 bytes) of `message` under a
/// 32-byte secret key.
pub uninterp spec fn ed25519_signature(secret: Seq<u8>, message: Seq<u8>) -> Seq<u8>;

/// Whether 32 bytes are the compressed form of a curve point, so that they
/// can be used as a verifying key.
pub uninterp spec fn ed25519_key_valid(public: Seq<u8>) -> bool;

/// Whether a verifying key accepts a 64-byte signature of a message.
pub uninterp spec fn ed25519_accepts(public: Seq<u8>, message: Seq<u8>, signature: Seq<u8>) -> bool;

/// Calls `SigningKey::from_bytes(secret).verifying_key()` of
/// `ed25519_dalek` and returns its bytes. The contract names the key and
/// states that it is a valid point (it was computed as one).
#[verifier::external_body]
fn derive_public_key(secret: &[u8; 32]) -> (res: [u8; 32])
    ensures
        res@ == ed25519_public_key(secret@),
        ed25519_key_valid(res@),
{
    ed25519_dalek::SigningKey::from_bytes(secret).verifying_key().to_bytes()
}

/// Calls `sign` of `ed25519_dalek::SigningKey` (built from `secret`) and
/// returns the signature's bytes. The contract names the signature.
#[verifier::external_body]
fn sign_bytes(secret: &[u8; 32], message: &[u8]) -> (res: [u8; 64])
    ensures
        res@ == ed25519_signature(secret@, message@),
{
    let mut key = ed25519_dalek::SigningKey::from_bytes(secret);
    ed25519_dalek::ed25519::signature::SignerMut::sign(&mut key, message).to_bytes()
}

/// Calls `ed25519_dalek::VerifyingKey::from_bytes`, which fails exactly
/// when the bytes do not decompress to a curve point.
#[verifier::external_body]
fn key_is_valid(public: &[u8; 32]) -> (b: bool)
    ensures
        b == ed25519_key_valid(public@),
{
    ed25519_dalek::VerifyingKey::from_bytes(public).is_ok()
}

/// Calls `ed25519_dalek::Signature::from_slice`, which (as its source
/// shows) accepts exactly the slices of 64 bytes and keeps them as they are.
#[verifier::external_body]
fn parse_signature(bytes: &[u8]) -> (res: Option<[u8; 64]>)
    ensures
        res is Some <==> bytes@.len() == 64,
        res matches Some(s) ==> s@ == bytes@,
{
    match ed25519_dalek::Signature::from_slice(bytes) {
        Ok(s) => Some(s.to_bytes()),
        Err(_) => None,
    }
}

/// Calls `verify` of `ed25519_dalek::VerifyingKey` (built from the valid
/// key bytes `public`). The contract names the answer and states the
/// defining property of a signature scheme: a signature made with a secret
/// key is accepted by that key's verifying key.
#[verifier::external_body]
fn verify_bytes(public: &[u8; 32], message: &[u8], signature: &[u8; 64]) -> (b: bool)
    requires
        ed25519_key_valid(public@),
    ensures
        b == ed25519_accepts(public@, message@, signature@),
        forall|secret: Seq<u8>|
            secret.len() == 32 && public@ == #[trigger] ed25519_public_key(secret) && signature@
                == ed25519_signature(secret, message@) ==> b,
{
    let key = ed25519_dalek::VerifyingKey::from_bytes(public).expect("bad keys");
    let sig = ed25519_dalek::Signature::from_bytes(signature);
    ed25519_dalek::Verifier::verify(&key, message, &sig).is_ok()
}

/// The verifying key to store beside a (freshly generated) secret key.
pub fn verifying_key_bytes(secret: &[u8; 32]) -> (res: [u8; 32])
    ensures
        res@ == ed25519_public_key(secret@),
        ed25519_key_valid(res@),
{
    derive_public_key(secret)
}

/// Whether stored key bytes can serve as a verifying key.
pub fn is_valid_verifying_key(public: &[u8; 32]) -> (b: bool)
    ensures
        b == ed25519_key_valid(public@),
{
    key_is_valid(public)
}

/// The hexadecimal signature of a message (a commit hash) under a secret key.
pub open spec fn message_signature(secret: Seq<u8>, message: Seq<char>) -> Seq<char> {
    hex_encoding(ed25519_signature(secret, encode_utf8(message)))
}

/// Signs a message with a secret key; the signature is given in hexadecimal.
pub fn sign_message(secret: &[u8; 32], message: &str) -> (res: String)
    ensures
        res@ == message_signature(secret@, message@),
        res@.len() == 128,
{
    let sig = sign_bytes(secret, message.as_bytes());
    let res = hex_encode(sig.as_slice());
    res
}

/// Why a signature could not be checked.
#[derive(Debug, Clone, Copy, PartialEq, Eq, Structural)]
pub enum SignatureError {
    /// The signature is not hexadecimal.
    InvalidHex,
    /// The signature does not have the 64 bytes of an Ed25519 signature.
    InvalidSignatureFormat,
}

impl SignatureError {
    /// The message shown for the error.
    pub fn message(&self) -> (res: String)
        ensures
            *self == SignatureError::InvalidHex ==> res@ == "Format hexadécimal invalide"@,
            *self == SignatureError::InvalidSignatureFormat ==> res@ == "Format de signature invalide"@,
    {
        match self {
            SignatureError::InvalidHex => String::from_str("Format hexadécimal invalide"),
            SignatureError::InvalidSignatureFormat => String::from_str("Format de signature invalide"),
        }
    }
}

/// What checking a hexadecimal signature of `message` against a verifying
/// key gives.
pub open spec fn signature_check(public: Seq<u8>, message: Seq<char>, signature_hex: Seq<char>) -> Result<
    bool,
    SignatureError,
> {
    match hex_decoding(encode_utf8(signature_hex)) {
        Err(_) => Err(SignatureError::InvalidHex),
        Ok(bytes) => if bytes.len() != 64 {
            Err(SignatureError::InvalidSignatureFormat)
        } else {
            Ok(ed25519_accepts(public, encode_utf8(message), bytes))
        },
    }
}

/// Checks a hexadecimal signature of `message` against a valid verifying
/// key. A signature that `sign_message` made with the matching secret key
/// is accepted.
pub fn verify_signature(public: &[u8; 32], message: &str, signature_hex: &str) -> (res: Result<bool, SignatureError>)
    requires
        ed25519_key_valid(public@),
    ensures
        res == signature_check(public@, message@, signature_hex@),
        forall|secret: Seq<u8>|
            secret.len() == 32 && public@ == #[trigger] ed25519_public_key(secret)
                && signature_hex@ == message_signature(secret, message@)
                && ed25519_signature(secret, encode_utf8(message@)).len() == 64
                ==> res == Ok::<bool, SignatureError>(true),
{
    let decoded = hex_decode(signature_hex);
    proof {
        assert forall|secret: Seq<u8>|
            secret.len() == 32 && public@ == #[trigger] ed25519_public_key(secret)
                && signature_hex@ == message_signature(secret, message@)
                && ed25519_signature(secret, encode_utf8(message@)).len() == 64
            implies hex_decoding(encode_utf8(signature_hex@)) == Ok::<Seq<u8>, HexError>(ed25519_signature(secret, encode_utf8(message@))) by {
            lemma_hex_round_trip(ed25519_signature(secret, encode_utf8(message@)));
        }
    }
    match decoded {
        Err(_) => Err(SignatureError::InvalidHex),
        Ok(bytes) => {
            match parse_signature(bytes.as_slice()) {
                None => Err(SignatureError::InvalidSignatureFormat),
                Some(sig) => Ok(verify_bytes(public, message.as_bytes(), &sig)),
            }
        },
    }
}

/// Checks a signature against stored key bytes, whether or not they form a
/// valid verifying key: `None` when they do not, else what
/// `verify_signature` gives.
pub fn check_signature(public: &[u8; 32], message: &str, signature_hex: &str) -> (res: Option<Result<bool, SignatureError>>)
    ensures
        match res {
            None => !ed25519_key_valid(public@),
            Some(r) => ed25519_key_valid(public@) && r == signature_check(public@, message@, signature_hex@),
        },
{
    if key_is_valid(public) {
        Some(verify_signature(public, message, signature_hex))
    } else {
        None
    }
}

/// The audit's verdict on one commit.
#[derive(Debug, Clone, Copy, PartialEq, Eq, Structural)]
pub enum AuditOutcome {
    /// Signed, and the signature is valid.
    Valid,
    /// Signed, and the signature does not verify.
    Invalid,
    /// Signed, but the signature could not be checked.
    Failed,
    /// Not signed (commits made before signing existed).
    Unsigned,
}

/// The audit's verdict on a commit: unsigned when it has no signature,
/// valid or invalid as its signature verifies, failed when the signature
/// could not be checked.
pub fn audit_outcome<E>(check: Option<Result<bool, E>>) -> (res: AuditOutcome)
    ensures
        res == match check {
            None => AuditOutcome::Unsigned,
            Some(Ok(true)) => AuditOutcome::Valid,
            Some(Ok(false)) => AuditOutcome::Invalid,
            Some(Err(_)) => AuditOutcome::Failed,
        },
{
    match check {
        None => AuditOutcome::Unsigned,
        Some(Ok(true)) => AuditOutcome::Valid,
        Some(Ok(false)) => AuditOutcome::Invalid,
        Some(Err(_)) => AuditOutcome::Failed,
    }
}

/// The counts that the audit reports.
#[derive(Debug, Clone, Copy, PartialEq, Eq, Structural)]
pub struct AuditSummary {
    pub valid: usize,
    pub unsigned: usize,
    pub errors: usize,
    pub total: usize,
}

/// How many outcomes equal `o`.
pub open spec fn count_outcome(s: Seq<AuditOutcome>, o: AuditOutcome) -> nat
    decreases s.len(),
{
    if s.len() == 0 {
        0
    } else {
        count_outcome(s.drop_last(), o) + if s.last() == o { 1nat } else { 0nat }
    }
}

proof fn lemma_counts_total(s: Seq<AuditOutcome>)
    ensures
        count_outcome(s, AuditOutcome::Valid) + count_outcome(s, AuditOutcome::Invalid)
            + count_outcome(s, AuditOutcome::Failed) + count_outcome(s, AuditOutcome::Unsigned) == s.len(),
    decreases s.len(),
{
    if s.len() > 0 {
        lemma_counts_total(s.drop_last());
    }
}

/// Counts the outcomes of an audit: valid signatures, unsigned commits,
/// and errors (invalid signatures and signatures that could not be checked).
pub fn tally(outcomes: &Vec<AuditOutcome>) -> (res: AuditSummary)
    ensures
        res.valid == count_outcome(outcomes@, AuditOutcome::Valid),
        res.unsigned == count_outcome(outcomes@, AuditOutcome::Unsigned),
        res.errors == count_outcome(outcomes@, AuditOutcome::Invalid) + count_outcome(outcomes@, AuditOutcome::Failed),
        res.total == outcomes@.len(),
        res.valid + res.unsigned + res.errors == res.total,
{
    let mut valid: usize = 0;
    let mut unsigned: usize = 0;
    let mut errors: usize = 0;
    let mut i: usize = 0;
    while i < outcomes.len()
        invariant
            i <= outcomes@.len(),
            valid == count_outcome(outcomes@.subrange(0, i as int), AuditOutcome::Valid),
            unsigned == count_outcome(outcomes@.subrange(0, i as int), AuditOutcome::Unsigned),
            errors == count_outcome(outcomes@.subrange(0, i as int), AuditOutcome::Invalid)
                + count_outcome(outcomes@.subrange(0, i as int), AuditOutcome::Failed),
            valid + unsigned + errors == i,
        decreases outcomes@.len() - i,
    {
        let ghost s = outcomes@.subrange(0, i + 1);
        assert(s.drop_last() =~= outcomes@.subrange(0, i as int));
        assert(s.last() == outcomes@[i as int]);
        match outcomes[i] {
            AuditOutcome::Valid => valid = valid + 1,
            AuditOutcome::Unsigned => unsigned = unsigned + 1,
            _ => errors = errors + 1,
        }
        i = i + 1;
    }
    assert(outcomes@.subrange(0, outcomes@.len() as int) =~= outcomes@);
    proof {
        lemma_counts_total(outcomes@);
    }
    AuditSummary { valid, unsigned, errors, total: i }
}

/// The audit succeeds when no commit has a signature error.
pub fn audit_passed(summary: &AuditSummary) -> (b: bool)
    ensures
        b == (summary.errors == 0),
{
    summary.errors == 0
}

} // verus!
