use vstd::prelude::*;

use crate::errors::SshClientError;
use crate::store::Host;
use crate::store::Store;
use crate::store::chain_ok;
use crate::store::has_host;
use crate::store::host_at;
use crate::store::host_index_by_id;
use crate::store::host_key_material_of;
use crate::store::lemma_host_at;
use crate::store::unique_host_ids;

verus! {

/// A validated (hostname, port) pair: the only validation boundary
/// before a network connection is attempted.
#[derive(Debug)]
pub struct ConnectionDetails {
    pub hostname: String,
    pub port: u16,
}

impl ConnectionDetails {
    /// Accepts any non-zero port.
    pub fn new(hostname: String, port: u16) -> (r: Result<ConnectionDetails, SshClientError>)
        ensures
            r is Ok <==> port != 0,
            r matches Ok(c) ==> c.hostname == hostname && c.port == port,
            r matches Err(e) ==> e is SshError,
    {
        if port == 0 {
            return Err(SshClientError::SshError("Invalid port number".to_owned()));
        }
        Ok(ConnectionDetails { hostname, port })
    }

    /// Validates a signed port as it arrives from a form: everything
    /// outside `1..=65535` is rejected before any connection attempt.
    pub fn new_from_signed(hostname: String, port: i32) -> (r: Result<
        ConnectionDetails,
        SshClientError,
    >)
        ensures
            r is Ok <==> 1 <= port <= 65535,
            r matches Ok(c) ==> c.hostname == hostname && c.port as int == port as int,
            r matches Err(e) ==> e is SshError,
    {
        if port < 1 || port > 65535 {
            return Err(SshClientError::SshError("Invalid port number".to_owned()));
        }
        ConnectionDetails::new(hostname, port as u16)
    }
}

/// The process-wide signing identity used to authenticate to every
/// managed host: private-key text plus optional passphrase.  It is
/// injected at construction and read-only afterwards, so tests can
/// substitute their own.
#[derive(Debug)]
pub struct Credential {
    pub private_key: String,
    pub passphrase: Option<String>,
}

/// One handshake attempt: dial the address, log in as the user, and
/// accept the server only if it presents exactly this key material.
#[derive(Debug)]
pub struct ConnectAttempt {
    pub hostname: String,
    pub port: u16,
    pub username: String,
    pub fingerprint: String,
}

/// The connection router: plans how hosts are reached — directly or
/// through their jump chain — and which pinned server keys a
/// handshake may accept, against the configured credential.
#[derive(Debug)]
pub struct SshClient {
    pub auth: Credential,
}

impl SshClient {
    /// A router over the given credential.
    pub fn new(auth: Credential) -> (r: SshClient)
        ensures
            r.auth == auth,
    {
        SshClient { auth }
    }

    /// The handshake attempts for one host: first the fingerprint
    /// pinned on the host record, then one attempt per server key
    /// stored for the host, in store order — every stored fingerprint
    /// is tried, each verifying the server against exactly that key.
    /// A connection succeeds on the first attempt whose key the
    /// server matches; when no attempt is left the caller must fail
    /// with a trust error, never connect unchecked.
    pub fn connection_attempts(&self, store: &Store, host: &Host) -> (r: Vec<ConnectAttempt>)
        ensures
            r@.len() == 1 + host_key_material_of(store.keys@, host.id).len(),
            forall|i: int|
                0 <= i < r@.len() ==> (#[trigger] r@[i]).hostname@ == host.hostname@
                    && r@[i].port == host.port && r@[i].username@ == host.username@,
            r@[0].fingerprint@ == host.key_fingerprint@,
            forall|i: int|
                1 <= i < r@.len() ==> (#[trigger] r@[i]).fingerprint@ == host_key_material_of(
                    store.keys@,
                    host.id,
                )[i - 1],
    {
        let mats = store.host_key_material(host.id);
        let ghost material = host_key_material_of(store.keys@, host.id);
        let mut out: Vec<ConnectAttempt> = Vec::new();
        out.push(
            ConnectAttempt {
                hostname: host.hostname.clone(),
                port: host.port,
                username: host.username.clone(),
                fingerprint: host.key_fingerprint.clone(),
            },
        );
        let mut i: usize = 0;
        while i < mats.len()
            invariant
                i <= mats@.len(),
                mats@.map_values(|s: String| s@) == material,
                out@.len() == i + 1,
                forall|j: int|
                    0 <= j < out@.len() ==> (#[trigger] out@[j]).hostname@ == host.hostname@
                        && out@[j].port == host.port && out@[j].username@ == host.username@,
                out@[0].fingerprint@ == host.key_fingerprint@,
                forall|j: int|
                    1 <= j < out@.len() ==> (#[trigger] out@[j]).fingerprint@ == material[j - 1],
            decreases mats@.len() - i,
        {
            let attempt = ConnectAttempt {
                hostname: host.hostname.clone(),
                port: host.port,
                username: host.username.clone(),
                fingerprint: mats[i].clone(),
            };
            proof {
                assert(mats@[i as int]@ == material[i as int]);
            }
            out.push(attempt);
            i = i + 1;
        }
        out
    }
}

/// The trust failure reported when no stored server key matches what
/// the host presented.  This is a hard failure: it is never
/// downgraded to an unchecked connection.
pub fn no_matching_key_error() -> (r: SshClientError)
    ensures
        r matches SshClientError::SshError(m) && m@ == "Didn't find a matching host key"@,
{
    SshClientError::SshError("Didn't find a matching host key".to_owned())
}

/// The failure reported when a hop of a jump chain cannot be
/// reached, identifying the hop that failed.
pub fn hop_unreachable_error(hop: &Host) -> (r: SshClientError)
    ensures
        r matches SshClientError::SshError(m) && m@ == "Couldn't reach jump chain hop "@
            + hop.name@,
{
    let mut m = "Couldn't reach jump chain hop ".to_owned();
    m.append(hop.name.as_str());
    SshClientError::SshError(m)
}

/// Resolves a host into its connection route: the target first, then
/// each jump host in turn, ending at a host that is dialed directly.
/// The store invariant keeps every jump chain acyclic and bounded, so
/// a stored host always resolves; the only failure is an unknown
/// host, and the route cannot be longer than one hop per stored
/// host plus the target itself.
#[verifier::rlimit(100)]
pub fn resolve_route<'a>(store: &'a Store, host_id: i32) -> (r: Result<
    Vec<&'a Host>,
    SshClientError,
>)
    requires
        store.wf(),
    ensures
        r is Ok <==> has_host(store.hosts@, host_id),
        r matches Err(e) ==> e is NoSuchHost,
        r matches Ok(route) ==> {
            &&& 1 <= route@.len() <= store.hosts@.len() + 1
            &&& *route@[0] == host_at(store.hosts@, host_id)
            &&& forall|i: int| 0 <= i < route@.len() ==> store.hosts@.contains(*(#[trigger] route@[i]))
            &&& forall|i: int|
                #![trigger route@[i + 1]]
                0 <= i < route@.len() - 1 ==> (*route@[i]).jump_via == Option::Some(
                    (*route@[i + 1]).id,
                )
            &&& (*route@[route@.len() - 1]).jump_via is None
        },
{
    let n = store.hosts.len();
    let idx0 = match host_index_by_id(&store.hosts, host_id) {
        Option::None => {
            return Err(SshClientError::NoSuchHost);
        },
        Option::Some(i) => i,
    };
    proof {
        lemma_host_at(store.hosts@, idx0 as int);
        assert(chain_ok(store.hosts@, store.hosts@[idx0 as int].id, store.hosts@.len() as nat));
    }
    let mut route: Vec<&Host> = Vec::new();
    let mut cur: &Host = &store.hosts[idx0];
    let ghost mut curidx: int = idx0 as int;
    route.push(cur);
    loop
        invariant
            unique_host_ids(store.hosts@),
            n == store.hosts@.len(),
            1 <= route@.len() <= n + 1,
            has_host(store.hosts@, host_id),
            0 <= curidx < n,
            store.hosts@[curidx] == *cur,
            *route@[route@.len() - 1] == *cur,
            *route@[0] == host_at(store.hosts@, host_id),
            forall|i: int| 0 <= i < route@.len() ==> store.hosts@.contains(*(#[trigger] route@[i])),
            forall|i: int|
                #![trigger route@[i + 1]]
                0 <= i < route@.len() - 1 ==> (*route@[i]).jump_via == Option::Some(
                    (*route@[i + 1]).id,
                ),
            chain_ok(store.hosts@, cur.id, (n + 1 - route@.len()) as nat),
        decreases n + 1 - route@.len(),
    {
        match cur.jump_via {
            Option::None => {
                return Ok(route);
            },
            Option::Some(j) => {
                proof {
                    lemma_host_at(store.hosts@, curidx);
                    assert(host_at(store.hosts@, cur.id) == *cur);
                    assert(chain_ok(store.hosts@, j, (n - route@.len()) as nat));
                    assert(has_host(store.hosts@, j));
                }
                let idx = match host_index_by_id(&store.hosts, j) {
                    Option::None => {
                        proof {
                            assert(false);
                        }
                        return Err(SshClientError::NoSuchHost);
                    },
                    Option::Some(i) => i,
                };
                cur = &store.hosts[idx];
                proof {
                    curidx = idx as int;
                }
                route.push(cur);
            },
        }
    }
}

} // verus!
