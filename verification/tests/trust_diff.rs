use keywarden::diff::{compute_diff, expected_keys, get_host_diff};
use keywarden::keys::{KeyOwner, SshPublicKey};
use keywarden::router::ConnectionDetails;
use keywarden::store::{NewHost, Store};
use keywarden::trust::{TrustEngine, TrustError};

fn details(host: &str) -> ConnectionDetails {
    ConnectionDetails::new(host.to_string(), 22).unwrap()
}

fn key(t: &str, b64: &str) -> SshPublicKey {
    SshPublicKey::parse(&format!("{t} {b64}")).unwrap()
}

#[test]
fn confirm_trust_with_wrong_fingerprint_fails_and_persists_nothing() {
    let mut engine = TrustEngine::new();
    let mut store = Store::new();
    let token = engine
        .begin_trust(details("h"), "root".to_string(), None, "OFFERED".to_string())
        .unwrap();
    let e = engine
        .confirm_trust(&mut store, token, &"SOMETHING-ELSE".to_string(), "h".to_string(), true)
        .unwrap_err();
    assert_eq!(e, TrustError::FingerprintMismatch);
    assert!(store.hosts.is_empty());
}

#[test]
fn confirm_trust_needs_successful_authentication_before_persisting() {
    let mut engine = TrustEngine::new();
    let mut store = Store::new();
    let token = engine
        .begin_trust(details("h"), "root".to_string(), None, "OFFERED".to_string())
        .unwrap();
    let e = engine
        .confirm_trust(&mut store, token, &"OFFERED".to_string(), "h".to_string(), false)
        .unwrap_err();
    assert_eq!(e, TrustError::AuthenticationFailed);
    assert!(store.hosts.is_empty());
}

#[test]
fn confirm_trust_persists_the_reviewed_fingerprint_once() {
    let mut engine = TrustEngine::new();
    let mut store = Store::new();
    let token = engine
        .begin_trust(details("h"), "root".to_string(), None, "OFFERED".to_string())
        .unwrap();
    let id = engine
        .confirm_trust(&mut store, token, &"OFFERED".to_string(), "h".to_string(), true)
        .unwrap();
    let host = store.get_host_by_id(id).unwrap();
    assert_eq!(host.key_fingerprint, "OFFERED");
    assert_eq!(host.hostname, "h");
    assert_eq!(host.username, "root");
    // the pending request was consumed: the token is one-shot
    let e = engine
        .confirm_trust(&mut store, token, &"OFFERED".to_string(), "h".to_string(), true)
        .unwrap_err();
    assert_eq!(e, TrustError::UnknownToken);
    assert_eq!(store.hosts.len(), 1);
}

#[test]
fn unknown_token_and_expired_token_are_rejected() {
    let mut engine = TrustEngine::new();
    let mut store = Store::new();
    let e = engine
        .confirm_trust(&mut store, 42, &"F".to_string(), "h".to_string(), true)
        .unwrap_err();
    assert_eq!(e, TrustError::UnknownToken);
    let token = engine
        .begin_trust(details("h"), "root".to_string(), None, "F".to_string())
        .unwrap();
    engine.expire_pending(token);
    let e = engine
        .confirm_trust(&mut store, token, &"F".to_string(), "h".to_string(), true)
        .unwrap_err();
    assert_eq!(e, TrustError::UnknownToken);
    assert!(store.hosts.is_empty());
}

#[test]
fn diff_partitions_cover_both_sets_without_overlap() {
    let expected = vec![key("ssh-ed25519", "AAA"), key("ssh-rsa", "CCC")];
    let observed = vec![key("ssh-ed25519", "AAA"), key("ssh-rsa", "BBB")];
    let diff = compute_diff(1, &expected, &observed);
    let ids = |v: &Vec<SshPublicKey>| -> Vec<(String, String)> {
        v.iter().map(|k| (k.key_type.clone(), k.key_base64.clone())).collect()
    };
    assert_eq!(ids(&diff.matching), vec![("ssh-ed25519".to_string(), "AAA".to_string())]);
    assert_eq!(ids(&diff.expected_absent), vec![("ssh-rsa".to_string(), "CCC".to_string())]);
    assert_eq!(ids(&diff.unexpected), vec![("ssh-rsa".to_string(), "BBB".to_string())]);
    // matching + expected_absent is exactly the expected set
    let mut left = ids(&diff.matching);
    left.extend(ids(&diff.expected_absent));
    let mut e_ids = ids(&expected);
    left.sort();
    e_ids.sort();
    assert_eq!(left, e_ids);
    // matching + unexpected is exactly the observed set
    let mut right = ids(&diff.matching);
    right.extend(ids(&diff.unexpected));
    let mut o_ids = ids(&observed);
    right.sort();
    o_ids.sort();
    assert_eq!(right, o_ids);
}

#[test]
fn diff_ignores_comments_when_matching_identities() {
    let expected = vec![key("ssh-ed25519", "AAA")];
    let observed = vec![SshPublicKey::parse("ssh-ed25519 AAA a different comment").unwrap()];
    let diff = compute_diff(1, &expected, &observed);
    assert_eq!(diff.matching.len(), 1);
    assert!(diff.expected_absent.is_empty());
    assert!(diff.unexpected.is_empty());
}

#[test]
fn reconciliation_example_records_unknown_key_exactly_once() {
    let mut store = Store::new();
    let h = store
        .add_host(NewHost {
            name: "web".to_string(),
            hostname: "web.example".to_string(),
            port: 22,
            username: "root".to_string(),
            key_fingerprint: "FPR".to_string(),
            jump_via: None,
        })
        .unwrap();
    let alice = store.add_user("alice".to_string()).unwrap();
    store
        .add_key("ssh-ed25519".to_string(), "AAA".to_string(), None, KeyOwner::User(alice))
        .unwrap();
    store.authorize_user(h, alice, None).unwrap();

    let exp = expected_keys(&store, h);
    assert_eq!(exp.len(), 1);
    assert_eq!(exp[0].key_base64, "AAA");

    let observed = vec![key("ssh-ed25519", "AAA"), key("ssh-rsa", "BBB")];
    let host = store.get_host_by_id(h).unwrap().duplicate();
    let keys_before = store.keys.len();

    let diff = get_host_diff(&mut store, &host, &observed);
    assert_eq!(diff.matching.len(), 1);
    assert_eq!(diff.matching[0].key_base64, "AAA");
    assert!(diff.expected_absent.is_empty());
    assert_eq!(diff.unexpected.len(), 1);
    assert_eq!(diff.unexpected[0].key_base64, "BBB");

    // the unknown key was recorded once, unowned, awaiting triage
    assert_eq!(store.keys.len(), keys_before + 1);
    let recorded = store.keys.last().unwrap();
    assert_eq!(recorded.key_base64, "BBB");
    assert!(matches!(recorded.owner, KeyOwner::Unowned));

    // running the same diff again inserts nothing new
    let diff2 = get_host_diff(&mut store, &host, &observed);
    assert_eq!(diff2.unexpected.len(), 1);
    assert_eq!(store.keys.len(), keys_before + 1);
}

#[test]
fn expected_keys_joins_only_authorized_users() {
    let mut store = Store::new();
    let h = store
        .add_host(NewHost {
            name: "web".to_string(),
            hostname: "web.example".to_string(),
            port: 22,
            username: "root".to_string(),
            key_fingerprint: "FPR".to_string(),
            jump_via: None,
        })
        .unwrap();
    let alice = store.add_user("alice".to_string()).unwrap();
    let bob = store.add_user("bob".to_string()).unwrap();
    store
        .add_key("ssh-ed25519".to_string(), "AAA".to_string(), None, KeyOwner::User(alice))
        .unwrap();
    store
        .add_key("ssh-ed25519".to_string(), "BBB".to_string(), None, KeyOwner::User(bob))
        .unwrap();
    store.authorize_user(h, alice, None).unwrap();
    let exp = expected_keys(&store, h);
    assert_eq!(exp.len(), 1);
    assert_eq!(exp[0].key_base64, "AAA");
}
