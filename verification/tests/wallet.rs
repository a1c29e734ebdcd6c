use ed25519_dalek::{Signer, SigningKey};
use kerai::ledger::{mint_koi, wallet_balance, LedgerEntry};
use kerai::wallet::{
    parse_wallet_type, register_wallet, signed_transfer, transfer_message, SignedTransferError, WalletError,
    WalletRecord, WalletType,
};

fn key(seed: u8) -> SigningKey {
    SigningKey::from_bytes(&[seed; 32])
}

fn key_hex(k: &SigningKey) -> String {
    hex::encode(k.verifying_key().to_bytes())
}

#[test]
fn wallet_types() {
    assert_eq!(parse_wallet_type("human"), Some(WalletType::Human));
    assert_eq!(parse_wallet_type("agent"), Some(WalletType::Agent));
    assert_eq!(parse_wallet_type("external"), Some(WalletType::External));
    assert_eq!(parse_wallet_type("instance"), None);
}

#[test]
fn register_wallet_checks() {
    let k = key(7);
    let (t, bytes) = register_wallet(&key_hex(&k), "agent").unwrap();
    assert_eq!(t, WalletType::Agent);
    assert_eq!(bytes, k.verifying_key().to_bytes().to_vec());
    assert_eq!(register_wallet(&key_hex(&k), "robot"), Err(WalletError::InvalidWalletType));
    assert_eq!(register_wallet("abcd", "human"), Err(WalletError::PublicKeyLength(4)));
    let bad_hex: String = std::iter::repeat('z').take(64).collect();
    assert_eq!(register_wallet(&bad_hex, "human"), Err(WalletError::InvalidHex));
}

#[test]
fn transfer_message_format() {
    let m = transfer_message(1, 2, 500, 3);
    assert_eq!(
        m,
        "transfer:00000000-0000-0000-0000-000000000001:00000000-0000-0000-0000-000000000002:500:3"
    );
}

#[test]
fn signed_transfer_verifies_and_bumps_nonce() {
    let from: u128 = 0x11;
    let to: u128 = 0x22;
    let k = key(9);
    let mut ledger: Vec<LedgerEntry> = Vec::new();
    mint_koi(&mut ledger, &[from, to], from, 1000).unwrap();
    let mut records = vec![
        WalletRecord { id: from, public_key: k.verifying_key().to_bytes().to_vec(), nonce: 0 },
        WalletRecord { id: to, public_key: key(3).verifying_key().to_bytes().to_vec(), nonce: 0 },
    ];
    let msg = transfer_message(from, to, 400, 1);
    let sig = hex::encode(k.sign(msg.as_bytes()).to_bytes());

    // wrong nonce
    assert_eq!(
        signed_transfer(&mut ledger, &mut records, from, to, 400, 2, &sig),
        Err(SignedTransferError::InvalidNonce { expected: 1, got: 2 })
    );
    // bad hex
    assert_eq!(
        signed_transfer(&mut ledger, &mut records, from, to, 400, 1, "xyz"),
        Err(SignedTransferError::InvalidSignatureHex)
    );
    // signature over another amount
    assert_eq!(
        signed_transfer(&mut ledger, &mut records, from, to, 401, 1, &sig),
        Err(SignedTransferError::InvalidSignature)
    );
    let e = signed_transfer(&mut ledger, &mut records, from, to, 400, 1, &sig).unwrap();
    assert_eq!(e, LedgerEntry { from_wallet: Some(from), to_wallet: to, amount: 400, timestamp: 2 });
    assert_eq!(records[0].nonce, 1);
    assert_eq!(records[1].nonce, 0);
    assert_eq!(wallet_balance(&ledger, to), 400);
    // replaying the same signature fails: the nonce moved on
    assert_eq!(
        signed_transfer(&mut ledger, &mut records, from, to, 400, 1, &sig),
        Err(SignedTransferError::InvalidNonce { expected: 2, got: 1 })
    );
}

#[test]
fn signed_transfer_other_errors() {
    let mut ledger: Vec<LedgerEntry> = Vec::new();
    let mut records = vec![WalletRecord { id: 1, public_key: vec![0; 32], nonce: 0 }];
    assert_eq!(
        signed_transfer(&mut ledger, &mut records, 1, 2, 0, 1, ""),
        Err(SignedTransferError::AmountNotPositive)
    );
    assert_eq!(
        signed_transfer(&mut ledger, &mut records, 5, 1, 10, 1, ""),
        Err(SignedTransferError::SourceWalletNotFound)
    );
    assert_eq!(
        signed_transfer(&mut ledger, &mut records, 1, 2, 10, 1, ""),
        Err(SignedTransferError::DestinationWalletNotFound)
    );
}
