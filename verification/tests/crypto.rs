use silex::crypto::audit_outcome;
use silex::crypto::{
    audit_passed, check_signature, is_valid_verifying_key, sign_message, tally, verify_signature,
    verifying_key_bytes, AuditOutcome, SignatureError,
};

fn bytes32(hex: &str) -> [u8; 32] {
    let v = silex::hex::hex_decode(hex).unwrap();
    let mut a = [0u8; 32];
    a.copy_from_slice(&v);
    a
}

const SECRET: &str = "9d61b19deffd5a60ba844af492ec2cc44449c5697b326919703bac031cae7f60";
const PUBLIC: &str = "d75a980182b10ab7d54bfed3c964073a0ee172f3daa62325af021a68f707511a";
const SIGNATURE: &str = "e5564300c360ac729086e2cc806e828a84877f1eb8e5d974d873e065224901555fb8821590a33bacc61e39701cf9b46bd25bf5f0595bbe24655141438e7a100b";

#[test]
fn public_key_of_rfc8032_secret() {
    assert_eq!(verifying_key_bytes(&bytes32(SECRET)), bytes32(PUBLIC));
}

#[test]
fn sign_rfc8032_vector() {
    assert_eq!(sign_message(&bytes32(SECRET), ""), SIGNATURE);
}

#[test]
fn signed_commit_hash_verifies() {
    let secret = bytes32(SECRET);
    let public = verifying_key_bytes(&secret);
    let hash = "6437b3ac38465133ffb63b75273a8db548c558465d79db03fd359c6cd5bd9d85";
    let sig = sign_message(&secret, hash);
    assert_eq!(sig.len(), 128);
    assert_eq!(verify_signature(&public, hash, &sig), Ok(true));
    assert_eq!(verify_signature(&public, "another hash", &sig), Ok(false));
}

#[test]
fn tampered_signature_is_rejected() {
    let public = bytes32(PUBLIC);
    let mut tampered = SIGNATURE.to_string();
    tampered.replace_range(0..2, "e6");
    assert_eq!(verify_signature(&public, "", &tampered), Ok(false));
}

#[test]
fn signature_errors() {
    let public = bytes32(PUBLIC);
    assert_eq!(verify_signature(&public, "", "xyz"), Err(SignatureError::InvalidHex));
    assert_eq!(verify_signature(&public, "", "abcd"), Err(SignatureError::InvalidSignatureFormat));
    assert_eq!(SignatureError::InvalidHex.message(), "Format hexadécimal invalide");
    assert_eq!(SignatureError::InvalidSignatureFormat.message(), "Format de signature invalide");
}

#[test]
fn invalid_key_bytes_are_reported() {
    let mut bad = None;
    for y in 2u8..=255 {
        let mut candidate = [0u8; 32];
        candidate[0] = y;
        if ed25519_dalek::VerifyingKey::from_bytes(&candidate).is_err() {
            bad = Some(candidate);
            break;
        }
    }
    let bad = bad.expect("some small y is not on the curve");
    assert!(!is_valid_verifying_key(&bad));
    assert_eq!(check_signature(&bad, "", SIGNATURE), None);
    assert!(is_valid_verifying_key(&bytes32(PUBLIC)));
    assert_eq!(check_signature(&bytes32(PUBLIC), "", SIGNATURE), Some(Ok(true)));
}

#[test]
fn audit_counts() {
    let outcomes = vec![
        AuditOutcome::Valid,
        AuditOutcome::Unsigned,
        AuditOutcome::Invalid,
        AuditOutcome::Valid,
        AuditOutcome::Failed,
    ];
    let s = tally(&outcomes);
    assert_eq!((s.valid, s.unsigned, s.errors, s.total), (2, 1, 2, 5));
    assert!(!audit_passed(&s));
    let clean = tally(&vec![AuditOutcome::Valid, AuditOutcome::Unsigned]);
    assert!(audit_passed(&clean));
    let empty = tally(&vec![]);
    assert_eq!(empty.total, 0);
    assert!(audit_passed(&empty));
}

#[test]
fn audit_outcome_of_each_case() {
    assert_eq!(audit_outcome::<String>(None), AuditOutcome::Unsigned);
    assert_eq!(audit_outcome::<String>(Some(Ok(true))), AuditOutcome::Valid);
    assert_eq!(audit_outcome::<String>(Some(Ok(false))), AuditOutcome::Invalid);
    assert_eq!(audit_outcome(Some(Err("no key".to_string()))), AuditOutcome::Failed);
}
