use libp2p_identity::Keypair;
use meshlan_acl::{AclError, AclRecord, SignedRecord};

#[test]
fn record_encoding_has_the_documented_layout() {
    let rec = AclRecord::from_last(&[1, 2, 3]);
    let bytes = rec.encode_to_vec();
    // predecessor: length 3 then the bytes; then zero keys; then zero
    // permissions.
    assert_eq!(bytes, vec![3, 0, 0, 0, 1, 2, 3, 0, 0, 0, 0, 0, 0, 0, 0]);
    let back = AclRecord::decode(&bytes).expect("canonical bytes decode");
    assert_eq!(back.last, vec![1, 2, 3]);
    assert!(back.keys.is_empty());
    assert!(back.permissions.is_empty());
}

#[test]
fn envelope_encoding_has_the_documented_layout() {
    let env = SignedRecord { signer: 7, signature: vec![9], record: vec![1, 2] };
    let bytes = env.encode_to_vec();
    assert_eq!(bytes, vec![7, 0, 0, 0, 1, 0, 0, 0, 9, 2, 0, 0, 0, 1, 2]);
    let back = SignedRecord::decode(&bytes).expect("canonical bytes decode");
    assert!(back == env);
}

#[test]
fn envelope_decode_rejects_truncated_input() {
    assert!(SignedRecord::decode(&[1, 2, 3]).is_none());
    let env = SignedRecord { signer: 7, signature: vec![9], record: vec![1, 2] };
    let mut bytes = env.encode_to_vec();
    bytes.pop();
    assert!(SignedRecord::decode(&bytes).is_none());
}

#[test]
fn envelope_decode_rejects_trailing_bytes() {
    let env = SignedRecord { signer: 7, signature: vec![9], record: vec![1, 2] };
    let mut bytes = env.encode_to_vec();
    bytes.push(0);
    assert!(SignedRecord::decode(&bytes).is_none());
}

#[test]
fn textual_form_is_the_base64_of_the_binary_form() {
    let env = SignedRecord { signer: 1, signature: vec![], record: vec![] };
    // 12 bytes: 01 00 00 00 | 00 00 00 00 | 00 00 00 00.
    assert_eq!(env.to_text(), "AQAAAAAAAAAAAAAA");
}

#[test]
fn textual_round_trip_is_exact() {
    let kp = Keypair::generate_ed25519();
    let env = SignedRecord::root(&kp).expect("signing");
    let text = env.to_text();
    let back = SignedRecord::from_text(&text).expect("the textual form decodes");
    assert!(back == env);
    assert_eq!(back.to_text(), text);
}

#[test]
fn from_text_rejects_bad_text_encoding() {
    assert_eq!(
        SignedRecord::from_text("this is not transport text !!!"),
        Err(AclError::ParseError)
    );
}

#[test]
fn from_text_rejects_well_encoded_garbage() {
    // "AQID" is the textual form of the bytes [1, 2, 3], which mean no
    // envelope.
    assert_eq!(SignedRecord::from_text("AQID"), Err(AclError::ParseError));
}
