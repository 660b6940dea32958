use keywarden::errors::SshClientError;
use keywarden::keys::KeyOwner;
use keywarden::router::{
    resolve_route, ConnectionDetails, Credential, SshClient, hop_unreachable_error,
    no_matching_key_error,
};
use keywarden::store::{get_all_host_data, NewHost, Store};

fn new_host(name: &str, jump_via: Option<i32>) -> NewHost {
    NewHost {
        name: name.to_string(),
        hostname: format!("{name}.example"),
        port: 22,
        username: "root".to_string(),
        key_fingerprint: "FPR".to_string(),
        jump_via,
    }
}

#[test]
fn connection_details_validates_port_range() {
    assert!(ConnectionDetails::new_from_signed("h".to_string(), 0).is_err());
    assert!(ConnectionDetails::new_from_signed("h".to_string(), -1).is_err());
    assert!(ConnectionDetails::new_from_signed("h".to_string(), 65536).is_err());
    let c = ConnectionDetails::new_from_signed("h".to_string(), 22).unwrap();
    assert_eq!(c.hostname, "h");
    assert_eq!(c.port, 22);
    assert!(ConnectionDetails::new("h".to_string(), 0).is_err());
}

#[test]
fn add_host_assigns_ids_and_rejects_unknown_jump_host() {
    let mut store = Store::new();
    let a = store.add_host(new_host("a", None)).unwrap();
    let e = store.add_host(new_host("b", Some(a + 100))).unwrap_err();
    assert!(matches!(e, SshClientError::NoSuchHost));
    let b = store.add_host(new_host("b", Some(a))).unwrap();
    assert_ne!(a, b);
    assert_eq!(store.hosts.len(), 2);
}

#[test]
fn set_jump_via_rejects_cycles_before_any_connection() {
    let mut store = Store::new();
    let a = store.add_host(new_host("a", None)).unwrap();
    let b = store.add_host(new_host("b", Some(a))).unwrap();
    // a -> b -> a would be a cycle
    let e = store.set_jump_via(a, Some(b)).unwrap_err();
    assert!(matches!(e, SshClientError::SshError(_)));
    // a -> a is a self-cycle
    assert!(store.set_jump_via(a, Some(a)).is_err());
    // the store is unchanged: a still has no jump host
    let host_a = store.get_host_by_id(a).unwrap();
    assert!(host_a.jump_via.is_none());
    // pointing b somewhere harmless still works
    assert!(store.set_jump_via(b, None).is_ok());
}

#[test]
fn resolve_route_walks_the_jump_chain_to_a_direct_host() {
    let mut store = Store::new();
    let a = store.add_host(new_host("a", None)).unwrap();
    let b = store.add_host(new_host("b", Some(a))).unwrap();
    let c = store.add_host(new_host("c", Some(b))).unwrap();
    let route = resolve_route(&store, c).unwrap();
    let names: Vec<&str> = route.iter().map(|h| h.name.as_str()).collect();
    assert_eq!(names, vec!["c", "b", "a"]);
    assert!(route.last().unwrap().jump_via.is_none());
}

#[test]
fn resolve_route_unknown_host_is_no_such_host() {
    let store = Store::new();
    let e = resolve_route(&store, 7).unwrap_err();
    assert!(matches!(e, SshClientError::NoSuchHost));
}

#[test]
fn connection_attempts_try_every_stored_server_key_in_order() {
    let mut store = Store::new();
    let a = store.add_host(new_host("a", None)).unwrap();
    store
        .add_key("ssh-ed25519".to_string(), "KEY1".to_string(), None, KeyOwner::Host(a))
        .unwrap();
    store
        .add_key("ssh-rsa".to_string(), "KEY2".to_string(), None, KeyOwner::Host(a))
        .unwrap();
    // a key of another owner must not be tried
    store
        .add_key("ssh-rsa".to_string(), "OTHER".to_string(), None, KeyOwner::Unowned)
        .unwrap();
    let client = SshClient::new(Credential {
        private_key: "test key material".to_string(),
        passphrase: None,
    });
    let host = store.get_host_by_id(a).unwrap().duplicate();
    let attempts = client.connection_attempts(&store, &host);
    assert_eq!(attempts.len(), 3);
    assert_eq!(attempts[0].fingerprint, "FPR");
    assert_eq!(attempts[1].fingerprint, "KEY1");
    assert_eq!(attempts[2].fingerprint, "KEY2");
    assert_eq!(attempts[0].hostname, "a.example");
    assert_eq!(attempts[0].port, 22);
    assert_eq!(attempts[0].username, "root");
}

#[test]
fn trust_and_hop_errors_carry_their_messages() {
    let e = no_matching_key_error();
    assert_eq!(e.message(), "Didn't find a matching host key");
    let mut store = Store::new();
    let a = store.add_host(new_host("a", None)).unwrap();
    let host = store.get_host_by_id(a).unwrap();
    let e = hop_unreachable_error(host);
    assert_eq!(e.message(), "Couldn't reach jump chain hop a");
    assert_eq!(SshClientError::NoSuchHost.message(), "The host doesn't exist in the database.");
}

#[test]
fn authorize_user_upserts_instead_of_duplicating() {
    let mut store = Store::new();
    let h = store.add_host(new_host("a", None)).unwrap();
    let u = store.add_user("alice".to_string()).unwrap();
    store.authorize_user(h, u, None).unwrap();
    store.authorize_user(h, u, Some("no-pty".to_string())).unwrap();
    assert_eq!(store.authorizations.len(), 1);
    assert_eq!(store.authorizations[0].options.as_deref(), Some("no-pty"));
    assert!(matches!(
        store.authorize_user(h + 100, u, None).unwrap_err(),
        SshClientError::NoSuchHost
    ));
    assert!(store.authorize_user(h, u + 100, None).is_err());
}

#[test]
fn get_all_host_data_reports_jump_host_and_authorized_users() {
    let mut store = Store::new();
    let a = store.add_host(new_host("gateway", None)).unwrap();
    let b = store.add_host(new_host("target", Some(a))).unwrap();
    let u = store.add_user("alice".to_string()).unwrap();
    store.authorize_user(b, u, Some("no-agent-forwarding".to_string())).unwrap();
    let (host, jumphost, authorized, users) =
        get_all_host_data(&store, &"target".to_string()).unwrap();
    assert_eq!(host.id, b);
    assert_eq!(jumphost.as_deref(), Some("gateway"));
    assert_eq!(authorized.len(), 1);
    assert_eq!(authorized[0].username, "alice");
    assert_eq!(authorized[0].options.as_deref(), Some("no-agent-forwarding"));
    assert_eq!(users.len(), 1);
    assert!(get_all_host_data(&store, &"missing".to_string()).is_err());
}

#[test]
fn add_key_refuses_duplicate_identity() {
    let mut store = Store::new();
    store
        .add_key("ssh-rsa".to_string(), "AAA".to_string(), None, KeyOwner::Unowned)
        .unwrap();
    let e = store
        .add_key("ssh-rsa".to_string(), "AAA".to_string(), Some("other".to_string()), KeyOwner::Unowned)
        .unwrap_err();
    assert!(matches!(e, SshClientError::DatabaseError(_)));
}
