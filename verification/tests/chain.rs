use libp2p_identity::Keypair;
use meshlan_acl::{
    AclError, AclPermission, AclRecord, AclRecordLog, InterpretedAcl, SignedRecord,
    ACL_CAPS_CONTROLLER, ACL_CAPS_ROOT,
};

fn bootstrap() -> (Keypair, AclRecordLog, SignedRecord) {
    let kp = Keypair::generate_ed25519();
    let env = SignedRecord::root(&kp).expect("signing the bootstrap record");
    let mut log = AclRecordLog::default();
    log.extend(&[env.clone()]);
    (kp, log, env)
}

fn next_record(
    kp: &Keypair,
    signer: u32,
    prev: &SignedRecord,
    perms: Vec<AclPermission>,
) -> SignedRecord {
    let mut rec = AclRecord::from_last(&prev.record);
    rec.permissions = perms;
    rec.sign(signer, kp).expect("signing")
}

#[test]
fn bootstrap_only_chain_has_root() {
    let (kp, log, _env) = bootstrap();
    let acl = InterpretedAcl::new(&log).expect("bootstrap chain validates");
    let root = acl.root().expect("root key present");
    assert_eq!(root.as_slice(), kp.public().encode_protobuf().as_slice());
    assert!(acl.has_capability(0, ACL_CAPS_ROOT));
    assert!(acl.has_capability(0, "any-name-at-all"));
    assert!(acl.has_capability(0, ACL_CAPS_CONTROLLER));
    assert!(!acl.has_capability(1, ACL_CAPS_CONTROLLER));
}

#[test]
fn empty_chain_projects_to_nothing() {
    let log = AclRecordLog::default();
    assert!(log.is_empty());
    let acl = InterpretedAcl::new(&log).expect("empty chain validates");
    assert!(acl.root().is_none());
    assert!(!acl.has_capability(0, ACL_CAPS_ROOT));
}

#[test]
fn first_record_with_permissions_is_not_root() {
    let kp = Keypair::generate_ed25519();
    let mut rec = AclRecord::from_last(&[]);
    rec.permissions = vec![AclPermission::grant(&[0], ACL_CAPS_CONTROLLER.to_string())];
    let env = rec.sign(0, &kp).unwrap();
    let mut log = AclRecordLog::default();
    log.extend(&[env]);
    assert_eq!(InterpretedAcl::new(&log).unwrap_err(), AclError::FirstNotRoot);
}

#[test]
fn first_record_with_wrong_signer_is_not_root() {
    let kp = Keypair::generate_ed25519();
    let rec = AclRecord::root(kp.public().encode_protobuf());
    let env = rec.sign(3, &kp).unwrap();
    let mut log = AclRecordLog::default();
    log.extend(&[env]);
    assert_eq!(InterpretedAcl::new(&log).unwrap_err(), AclError::FirstNotRoot);
}

#[test]
fn bad_first_record_fails_whatever_follows() {
    let kp = Keypair::generate_ed25519();
    let mut rec = AclRecord::from_last(&[]);
    rec.permissions = vec![AclPermission::grant(&[0], ACL_CAPS_CONTROLLER.to_string())];
    let env0 = rec.sign(0, &kp).unwrap();
    let env1 = next_record(
        &kp,
        0,
        &env0,
        vec![AclPermission::grant(&[0], ACL_CAPS_CONTROLLER.to_string())],
    );
    let mut log = AclRecordLog::default();
    log.extend(&[env0, env1]);
    assert_eq!(InterpretedAcl::new(&log).unwrap_err(), AclError::FirstNotRoot);
}

#[test]
fn bootstrap_then_delegate_to_self() {
    let (kp, mut log, env0) = bootstrap();
    let env1 = next_record(
        &kp,
        0,
        &env0,
        vec![AclPermission::grant(&[0], ACL_CAPS_CONTROLLER.to_string())],
    );
    log.extend(&[env1]);
    let acl = InterpretedAcl::new(&log).expect("delegation validates");
    assert!(acl.has_capability(0, ACL_CAPS_CONTROLLER));
}

#[test]
fn repeated_grant_is_rejected() {
    let (kp, mut log, env0) = bootstrap();
    let env1 = next_record(
        &kp,
        0,
        &env0,
        vec![AclPermission::grant(&[1], ACL_CAPS_CONTROLLER.to_string())],
    );
    let env2 = next_record(
        &kp,
        0,
        &env1,
        vec![AclPermission::grant(&[1], ACL_CAPS_CONTROLLER.to_string())],
    );
    log.extend(&[env1, env2]);
    assert_eq!(InterpretedAcl::new(&log).unwrap_err(), AclError::RepeatedGrant);
}

#[test]
fn denying_without_grant_is_rejected() {
    let (kp, mut log, env0) = bootstrap();
    let env1 = next_record(
        &kp,
        0,
        &env0,
        vec![AclPermission::deny(&[1], ACL_CAPS_CONTROLLER.to_string())],
    );
    log.extend(&[env1]);
    assert_eq!(InterpretedAcl::new(&log).unwrap_err(), AclError::DenyingNotGranted);
}

#[test]
fn second_root_holder_is_rejected() {
    let (kp, mut log, env0) = bootstrap();
    let env1 = next_record(
        &kp,
        0,
        &env0,
        vec![AclPermission::grant(&[1], ACL_CAPS_ROOT.to_string())],
    );
    log.extend(&[env1]);
    assert_eq!(InterpretedAcl::new(&log).unwrap_err(), AclError::MultipleRoots);
}

#[test]
fn revoke_then_deny() {
    let (kp, mut log, env0) = bootstrap();
    let env1 = next_record(
        &kp,
        0,
        &env0,
        vec![AclPermission::grant(&[1], ACL_CAPS_CONTROLLER.to_string())],
    );
    let env2 = next_record(
        &kp,
        0,
        &env1,
        vec![AclPermission::deny(&[1], ACL_CAPS_CONTROLLER.to_string())],
    );
    log.extend(&[env1, env2]);
    let acl = InterpretedAcl::new(&log).expect("grant then deny validates");
    assert!(!acl.has_capability(1, ACL_CAPS_CONTROLLER));
}

#[test]
fn tampered_predecessor_breaks_the_chain() {
    let (kp, mut log, _env0) = bootstrap();
    let mut rec = AclRecord::from_last(b"not the predecessor bytes");
    rec.permissions = vec![AclPermission::grant(&[0], ACL_CAPS_CONTROLLER.to_string())];
    let env1 = rec.sign(0, &kp).unwrap();
    log.extend(&[env1]);
    assert_eq!(InterpretedAcl::new(&log).unwrap_err(), AclError::ChainBroken);
}

#[test]
fn unknown_signer_is_rejected() {
    let (kp, mut log, env0) = bootstrap();
    let env1 = next_record(
        &kp,
        5,
        &env0,
        vec![AclPermission::grant(&[0], ACL_CAPS_CONTROLLER.to_string())],
    );
    log.extend(&[env1]);
    assert_eq!(InterpretedAcl::new(&log).unwrap_err(), AclError::UnknownSigner);
}

#[test]
fn tampered_signature_is_rejected() {
    let (kp, mut log, env0) = bootstrap();
    let mut env1 = next_record(
        &kp,
        0,
        &env0,
        vec![AclPermission::grant(&[0], ACL_CAPS_CONTROLLER.to_string())],
    );
    env1.signature[0] ^= 0xff;
    log.extend(&[env1]);
    assert_eq!(InterpretedAcl::new(&log).unwrap_err(), AclError::BadSignature);
}

#[test]
fn malformed_record_bytes_are_a_parse_error() {
    let env = SignedRecord { signer: 0, signature: vec![], record: vec![1, 2, 3] };
    let mut log = AclRecordLog::default();
    log.extend(&[env]);
    assert_eq!(InterpretedAcl::new(&log).unwrap_err(), AclError::ParseError);
}

#[test]
fn malformed_introduced_key_is_a_parse_error() {
    let (kp, mut log, env0) = bootstrap();
    let mut rec = AclRecord::from_last(&env0.record);
    rec.keys = vec![vec![7, 7, 7]];
    let env1 = rec.sign(0, &kp).unwrap();
    log.extend(&[env1]);
    assert_eq!(InterpretedAcl::new(&log).unwrap_err(), AclError::ParseError);
}

#[test]
fn incremental_add_matches_whole_chain() {
    let (kp, mut log, env0) = bootstrap();
    let env1 = next_record(
        &kp,
        0,
        &env0,
        vec![AclPermission::grant(&[1], ACL_CAPS_CONTROLLER.to_string())],
    );
    log.extend(&[env1.clone()]);

    let mut acl = InterpretedAcl::default();
    acl.add(&env0).expect("bootstrap record");
    acl.add(&env1).expect("delegation record");
    assert!(acl.has_capability(1, ACL_CAPS_CONTROLLER));

    let whole = InterpretedAcl::new(&log).expect("whole chain");
    assert!(whole.has_capability(1, ACL_CAPS_CONTROLLER));
}

#[test]
fn can_advance_into_extension_but_not_back() {
    let (kp, log, env0) = bootstrap();
    let mut longer = log.clone();
    let env1 = next_record(
        &kp,
        0,
        &env0,
        vec![AclPermission::grant(&[0], ACL_CAPS_CONTROLLER.to_string())],
    );
    longer.extend(&[env1]);

    assert!(log.can_advance_into(&log));
    assert!(longer.can_advance_into(&longer));
    assert!(log.can_advance_into(&longer));
    assert!(!longer.can_advance_into(&log));
}

#[test]
fn can_advance_rejects_diverging_chain() {
    let (_kp1, log1, _e1) = bootstrap();
    let (_kp2, log2, _e2) = bootstrap();
    assert!(!log1.can_advance_into(&log2));
    assert!(!log2.can_advance_into(&log1));
}

#[test]
fn pop_removes_only_the_tail() {
    let (kp, mut log, env0) = bootstrap();
    let env1 = next_record(
        &kp,
        0,
        &env0,
        vec![AclPermission::grant(&[0], ACL_CAPS_CONTROLLER.to_string())],
    );
    log.extend(&[env1.clone()]);

    let back = log.pop().expect("pop the delegation");
    assert!(back == env1);
    assert!(!log.is_empty());
    let back0 = log.pop().expect("pop the bootstrap");
    assert!(back0 == env0);
    assert!(log.is_empty());
    assert!(log.pop().is_none());
}

#[test]
fn with_root_seeds_a_valid_log() {
    let kp = Keypair::generate_ed25519();
    let log = AclRecordLog::with_root(&kp).expect("with_root signs");
    assert!(!log.is_empty());
    let acl = InterpretedAcl::new(&log).expect("validates");
    assert!(acl.has_capability(0, ACL_CAPS_ROOT));
}
