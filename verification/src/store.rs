use vstd::prelude::*;

use crate::errors::SshClientError;
use crate::keys::KeyOwner;
use crate::keys::SshPublicKey;

verus! {

/// A managed remote machine: where to reach it, as whom to log in,
/// the pinned host-key fingerprint, and an optional jump host through
/// which it must be reached.
#[derive(Debug)]
pub struct Host {
    pub id: i32,
    pub name: String,
    pub hostname: String,
    pub port: u16,
    pub username: String,
    pub key_fingerprint: String,
    pub jump_via: Option<i32>,
}

/// The fields of a host record before it is persisted and given an id.
#[derive(Debug)]
pub struct NewHost {
    pub name: String,
    pub hostname: String,
    pub port: u16,
    pub username: String,
    pub key_fingerprint: String,
    pub jump_via: Option<i32>,
}

/// A person who may be authorized on hosts and may own public keys.
#[derive(Debug)]
pub struct User {
    pub id: i32,
    pub username: String,
}

/// One stored public key with its owner.
#[derive(Debug)]
pub struct PublicKey {
    pub id: i32,
    pub key_type: String,
    pub key_base64: String,
    pub comment: Option<String>,
    pub owner: KeyOwner,
}

/// Grants a user access on a host; at most one per (host, user)
/// pair.  `options` mirrors the SSH forced-command/restriction
/// syntax and is overwritten on reauthorization.
#[derive(Debug)]
pub struct Authorization {
    pub host_id: i32,
    pub user_id: i32,
    pub options: Option<String>,
}

/// A short display summary of a host.
#[derive(Debug)]
pub struct ShortHost {
    pub name: String,
    pub addr: String,
    pub user: String,
}

/// The authoritative records this core reads and writes.  The web
/// layer's storage is reached through the same narrow contract these
/// methods state.
#[derive(Debug)]
pub struct Store {
    pub hosts: Vec<Host>,
    pub users: Vec<User>,
    pub keys: Vec<PublicKey>,
    pub authorizations: Vec<Authorization>,
    pub next_host_id: i32,
    pub next_user_id: i32,
    pub next_key_id: i32,
}

/// Some host in `hosts` has id `id`.
pub open spec fn has_host(hosts: Seq<Host>, id: i32) -> bool {
    exists|i: int| 0 <= i < hosts.len() && hosts[i].id == id
}

/// The host with id `id` (well defined when ids are unique).
pub open spec fn host_at(hosts: Seq<Host>, id: i32) -> Host {
    hosts[choose|i: int| 0 <= i < hosts.len() && hosts[i].id == id]
}

/// No two hosts share an id.
pub open spec fn unique_host_ids(hosts: Seq<Host>) -> bool {
    forall|i: int, j: int| 0 <= i < j < hosts.len() ==> hosts[i].id != hosts[j].id
}

/// The jump chain starting at host `id` exists and reaches a host
/// with no jump host within `fuel` steps.  With `fuel` at least the
/// number of hosts this says exactly that the chain is acyclic and
/// ends at a directly reachable host.
pub open spec fn chain_ok(hosts: Seq<Host>, id: i32, fuel: nat) -> bool
    decreases fuel,
{
    &&& has_host(hosts, id)
    &&& match host_at(hosts, id).jump_via {
        Option::Some(j) => fuel > 0 && chain_ok(hosts, j, (fuel - 1) as nat),
        Option::None => true,
    }
}

/// Every host's jump chain terminates.
pub open spec fn chains_ok(hosts: Seq<Host>) -> bool {
    forall|i: int| 0 <= i < hosts.len() ==> chain_ok(hosts, hosts[i].id, hosts.len() as nat)
}

/// `h` with its jump host replaced.
pub open spec fn host_with_jump(h: Host, jump: Option<i32>) -> Host {
    Host {
        id: h.id,
        name: h.name,
        hostname: h.hostname,
        port: h.port,
        username: h.username,
        key_fingerprint: h.key_fingerprint,
        jump_via: jump,
    }
}

/// The host list after pointing host `id` at jump host `jump`.
pub open spec fn with_jump(hosts: Seq<Host>, id: i32, jump: Option<i32>) -> Seq<Host> {
    hosts.map_values(
        |h: Host|
            if h.id == id {
                host_with_jump(h, jump)
            } else {
                h
            },
    )
}

/// Some user in `users` has id `id`.
pub open spec fn has_user(users: Seq<User>, id: i32) -> bool {
    exists|i: int| 0 <= i < users.len() && users[i].id == id
}

/// Identity of a stored key: type and base64 material.
pub open spec fn rec_ident(k: PublicKey) -> (Seq<char>, Seq<char>) {
    (k.key_type@, k.key_base64@)
}

/// Some stored key has identity `ident`.
pub open spec fn has_ident(keys: Seq<PublicKey>, ident: (Seq<char>, Seq<char>)) -> bool {
    exists|i: int| 0 <= i < keys.len() && rec_ident(keys[i]) == ident
}

/// An authorization for the (host, user) pair exists.
pub open spec fn has_auth(auths: Seq<Authorization>, host_id: i32, user_id: i32) -> bool {
    exists|i: int| 0 <= i < auths.len() && auths[i].host_id == host_id && auths[i].user_id
        == user_id
}

/// The record a discovered, not yet assigned key is stored as.
pub open spec fn discovered_record(key: SshPublicKey, id: i32) -> PublicKey {
    PublicKey {
        id,
        key_type: key.key_type,
        key_base64: key.key_base64,
        comment: key.comment,
        owner: KeyOwner::Unowned,
    }
}

/// The host record `add_host` persists.
pub open spec fn new_host_record(new: NewHost, id: i32) -> Host {
    Host {
        id,
        name: new.name,
        hostname: new.hostname,
        port: new.port,
        username: new.username,
        key_fingerprint: new.key_fingerprint,
        jump_via: new.jump_via,
    }
}

/// The base64 material of the keys from index `from` on that are
/// stored as host `host_id`'s own server keys, in store order.
pub open spec fn key_material_from(keys: Seq<PublicKey>, host_id: i32, from: int) -> Seq<Seq<char>>
    decreases keys.len() - from,
{
    if from < 0 || from >= keys.len() {
        Seq::empty()
    } else {
        let rest = key_material_from(keys, host_id, from + 1);
        if keys[from].owner == KeyOwner::Host(host_id) {
            seq![keys[from].key_base64@] + rest
        } else {
            rest
        }
    }
}

/// The base64 material of every stored server key of host `host_id`.
pub open spec fn host_key_material_of(keys: Seq<PublicKey>, host_id: i32) -> Seq<Seq<char>> {
    key_material_from(keys, host_id, 0)
}

impl Store {
    /// Well-formedness: unique ids below the id counters, acyclic
    /// jump chains, unique key identities, at most one authorization
    /// per (host, user) pair, and no authorization dangling.
    pub open spec fn wf(&self) -> bool {
        &&& unique_host_ids(self.hosts@)
        &&& forall|i: int| 0 <= i < self.hosts@.len() ==> (#[trigger] self.hosts@[i]).id
            < self.next_host_id
        &&& chains_ok(self.hosts@)
        &&& forall|i: int, j: int|
            0 <= i < j < self.users@.len() ==> self.users@[i].id != self.users@[j].id
        &&& forall|i: int| 0 <= i < self.users@.len() ==> (#[trigger] self.users@[i]).id
            < self.next_user_id
        &&& forall|i: int, j: int|
            0 <= i < j < self.keys@.len() ==> self.keys@[i].id != self.keys@[j].id
        &&& forall|i: int| 0 <= i < self.keys@.len() ==> (#[trigger] self.keys@[i]).id
            < self.next_key_id
        &&& forall|i: int, j: int|
            0 <= i < j < self.keys@.len() ==> rec_ident(self.keys@[i]) != rec_ident(
                self.keys@[j],
            )
        &&& forall|i: int, j: int|
            0 <= i < j < self.authorizations@.len() ==> !((#[trigger] self.authorizations@[i]).host_id
                == (#[trigger] self.authorizations@[j]).host_id && self.authorizations@[i].user_id
                == self.authorizations@[j].user_id)
        &&& forall|i: int|
            0 <= i < self.authorizations@.len() ==> has_host(
                self.hosts@,
                (#[trigger] self.authorizations@[i]).host_id,
            ) && has_user(self.users@, self.authorizations@[i].user_id)
    }

    /// An empty store.
    pub fn new() -> (r: Store)
        ensures
            r.wf(),
            r.hosts@.len() == 0,
            r.users@.len() == 0,
            r.keys@.len() == 0,
            r.authorizations@.len() == 0,
    {
        Store {
            hosts: Vec::new(),
            users: Vec::new(),
            keys: Vec::new(),
            authorizations: Vec::new(),
            next_host_id: 1,
            next_user_id: 1,
            next_key_id: 1,
        }
    }
}

/// The element `host_at` denotes is the one at any index with that id
/// when ids are unique.
pub proof fn lemma_host_at(hosts: Seq<Host>, i: int)
    requires
        unique_host_ids(hosts),
        0 <= i < hosts.len(),
    ensures
        has_host(hosts, hosts[i].id),
        host_at(hosts, hosts[i].id) == hosts[i],
{
    let id = hosts[i].id;
    assert(has_host(hosts, id));
    let c = choose|c: int| 0 <= c < hosts.len() && hosts[c].id == id;
    if c != i {
        assert(hosts[c].id != hosts[i].id);
    }
}

/// A terminating chain still terminates with more fuel.
pub proof fn lemma_chain_ok_mono(hosts: Seq<Host>, id: i32, f1: nat, f2: nat)
    requires
        chain_ok(hosts, id, f1),
        f1 <= f2,
    ensures
        chain_ok(hosts, id, f2),
    decreases f1,
{
    match host_at(hosts, id).jump_via {
        Option::Some(j) => {
            lemma_chain_ok_mono(hosts, j, (f1 - 1) as nat, (f2 - 1) as nat);
        },
        Option::None => {},
    }
}

/// Appending a host with a fresh id changes no existing lookup.
pub proof fn lemma_host_at_push(hosts: Seq<Host>, newh: Host, id: i32)
    requires
        unique_host_ids(hosts),
        !has_host(hosts, newh.id),
        has_host(hosts, id),
    ensures
        has_host(hosts.push(newh), id),
        host_at(hosts.push(newh), id) == host_at(hosts, id),
{
    let p = hosts.push(newh);
    let i = choose|i: int| 0 <= i < hosts.len() && hosts[i].id == id;
    assert(p[i] == hosts[i]);
    assert(has_host(p, id));
    let c = choose|c: int| 0 <= c < p.len() && p[c].id == id;
    if c == hosts.len() as int {
        assert(hosts[i].id == id);
        assert(false);
    } else {
        if c != i {
            assert(hosts[c].id != hosts[i].id);
        }
        let ci = choose|ci: int| 0 <= ci < hosts.len() && hosts[ci].id == id;
        if ci != i {
            assert(hosts[ci].id != hosts[i].id);
        }
    }
}

/// Appending a host with a fresh id preserves every existing chain.
pub proof fn lemma_chain_ok_push(hosts: Seq<Host>, newh: Host, id: i32, fuel: nat)
    requires
        unique_host_ids(hosts),
        !has_host(hosts, newh.id),
        chain_ok(hosts, id, fuel),
    ensures
        chain_ok(hosts.push(newh), id, fuel),
    decreases fuel,
{
    lemma_host_at_push(hosts, newh, id);
    match host_at(hosts, id).jump_via {
        Option::Some(j) => {
            lemma_chain_ok_push(hosts, newh, j, (fuel - 1) as nat);
        },
        Option::None => {},
    }
}

/// Finds the index of the host with id `id`.
pub fn host_index_by_id(hosts: &Vec<Host>, id: i32) -> (r: Option<usize>)
    ensures
        match r {
            Option::Some(i) => i < hosts@.len() && hosts@[i as int].id == id,
            Option::None => !has_host(hosts@, id),
        },
{
    let mut i: usize = 0;
    while i < hosts.len()
        invariant
            i <= hosts@.len(),
            forall|j: int| 0 <= j < i ==> hosts@[j].id != id,
        decreases hosts@.len() - i,
    {
        if hosts[i].id == id {
            return Option::Some(i);
        }
        i = i + 1;
    }
    Option::None
}

/// Walks the jump chain of `start` as it would look after pointing
/// host `over_id` at `jump`, and reports whether it terminates.
fn chain_terminates_with(hosts: &Vec<Host>, over_id: i32, jump: Option<i32>, start: i32) -> (r:
    bool)
    requires
        unique_host_ids(hosts@),
    ensures
        r == chain_ok(with_jump(hosts@, over_id, jump), start, hosts@.len() as nat),
{
    let ghost cand = with_jump(hosts@, over_id, jump);
    proof {
        assert(cand.len() == hosts@.len());
        assert(forall|i: int|
            0 <= i < cand.len() ==> (#[trigger] cand[i]).id == hosts@[i].id && cand[i].jump_via
                == (if hosts@[i].id == over_id {
                jump
            } else {
                hosts@[i].jump_via
            }));
        assert(unique_host_ids(cand));
    }
    let n = hosts.len();
    let mut cur = start;
    let mut k: usize = 0;
    loop
        invariant
            k <= n,
            n == hosts@.len(),
            unique_host_ids(hosts@),
            cand == with_jump(hosts@, over_id, jump),
            chain_ok(cand, start, n as nat) <==> chain_ok(cand, cur, (n - k) as nat),
        decreases n - k,
    {
        match host_index_by_id(hosts, cur) {
            Option::None => {
                proof {
                    if has_host(cand, cur) {
                        let c = choose|c: int| 0 <= c < cand.len() && cand[c].id == cur;
                        assert(hosts@[c].id == cur);
                    }
                }
                return false;
            },
            Option::Some(idx) => {
                proof {
                    assert(cand[idx as int].id == cur);
                    lemma_host_at(cand, idx as int);
                }
                let jv: Option<i32> = if hosts[idx].id == over_id {
                    jump
                } else {
                    hosts[idx].jump_via
                };
                proof {
                    assert(host_at(cand, cur).jump_via == jv);
                }
                match jv {
                    Option::None => {
                        return true;
                    },
                    Option::Some(j) => {
                        if k == n {
                            proof {
                                assert(!chain_ok(cand, cur, 0));
                            }
                            return false;
                        }
                        proof {
                            assert(chain_ok(cand, cur, (n - k) as nat) <==> chain_ok(
                                cand,
                                j,
                                (n - k - 1) as nat,
                            ));
                        }
                        cur = j;
                        k = k + 1;
                    },
                }
            },
        }
    }
}

/// Checks every host's chain as it would look after pointing host
/// `over_id` at `jump`.
fn all_chains_ok_with(hosts: &Vec<Host>, over_id: i32, jump: Option<i32>) -> (r: bool)
    requires
        unique_host_ids(hosts@),
    ensures
        r == chains_ok(with_jump(hosts@, over_id, jump)),
{
    let ghost cand = with_jump(hosts@, over_id, jump);
    let mut i: usize = 0;
    while i < hosts.len()
        invariant
            i <= hosts@.len(),
            unique_host_ids(hosts@),
            cand == with_jump(hosts@, over_id, jump),
            forall|j: int| 0 <= j < i ==> chain_ok(cand, cand[j].id, cand.len() as nat),
        decreases hosts@.len() - i,
    {
        proof {
            assert(cand[i as int].id == hosts@[i as int].id);
        }
        if !chain_terminates_with(hosts, over_id, jump, hosts[i].id) {
            proof {
                assert(!chain_ok(cand, cand[i as int].id, cand.len() as nat));
            }
            return false;
        }
        i = i + 1;
    }
    true
}

/// One authorized user of a host, with the options of the grant.
#[derive(Debug)]
pub struct UserAndOptions {
    pub username: String,
    pub options: Option<String>,
}

/// Why assembling a host's display data failed.
#[derive(Debug, Clone, Copy, PartialEq, Eq, Structural)]
pub enum HostDataError {
    /// No host with the requested name exists.
    HostNotFound,
}

/// `a` carries the same user as `b`.
pub open spec fn user_eqv(a: User, b: User) -> bool {
    a.id == b.id && a.username@ == b.username@
}

/// `a` carries the same host as `b`.
pub open spec fn host_eqv(a: Host, b: Host) -> bool {
    &&& a.id == b.id
    &&& a.name@ == b.name@
    &&& a.hostname@ == b.hostname@
    &&& a.port == b.port
    &&& a.username@ == b.username@
    &&& a.key_fingerprint@ == b.key_fingerprint@
    &&& a.jump_via == b.jump_via
}

/// The user with id `id` (well defined when ids are unique).
pub open spec fn user_at(users: Seq<User>, id: i32) -> User {
    users[choose|i: int| 0 <= i < users.len() && users[i].id == id]
}

/// The element `user_at` denotes is the one at any index with that id
/// when ids are unique.
pub proof fn lemma_user_at(users: Seq<User>, i: int)
    requires
        forall|a: int, b: int| 0 <= a < b < users.len() ==> users[a].id != users[b].id,
        0 <= i < users.len(),
    ensures
        has_user(users, users[i].id),
        user_at(users, users[i].id) == users[i],
{
    let id = users[i].id;
    assert(has_user(users, id));
    let c = choose|c: int| 0 <= c < users.len() && users[c].id == id;
    if c != i {
        assert(users[c].id != users[i].id || users[i].id != users[c].id);
    }
}

/// The (username, options) rows of the users authorized on a host,
/// from authorization index `from` on, in store order.
pub open spec fn authorized_users_from(
    auths: Seq<Authorization>,
    users: Seq<User>,
    host_id: i32,
    from: int,
) -> Seq<(Seq<char>, Option<Seq<char>>)>
    decreases auths.len() - from,
{
    if from < 0 || from >= auths.len() {
        Seq::empty()
    } else {
        let rest = authorized_users_from(auths, users, host_id, from + 1);
        if auths[from].host_id == host_id {
            seq![
                (
                    user_at(users, auths[from].user_id).username@,
                    match auths[from].options {
                        Option::Some(o) => Option::Some(o@),
                        Option::None => Option::None,
                    },
                ),
            ] + rest
        } else {
            rest
        }
    }
}

/// Abstract value of a `UserAndOptions` row.
pub open spec fn user_opt_abs(u: UserAndOptions) -> (Seq<char>, Option<Seq<char>>) {
    (
        u.username@,
        match u.options {
            Option::Some(o) => Option::Some(o@),
            Option::None => Option::None,
        },
    )
}

/// Everything the host page shows for one host: the host itself, the
/// name of its jump host if it has one, the users authorized on it
/// with their options, and all users.
pub fn get_all_host_data(store: &Store, host: &String) -> (r: Result<
    (Host, Option<String>, Vec<UserAndOptions>, Vec<User>),
    HostDataError,
>)
    requires
        store.wf(),
    ensures
        match r {
            Ok(data) => {
                &&& exists|w: int|
                    0 <= w < store.hosts@.len() && host_eqv(data.0, #[trigger] store.hosts@[w])
                &&& data.0.name@ == host@
                &&& (match data.0.jump_via {
                    Option::Some(j) => data.1 matches Option::Some(n) && has_host(store.hosts@, j)
                        && n@ == host_at(store.hosts@, j).name@,
                    Option::None => data.1 is None,
                })
                &&& data.2@.map_values(|u: UserAndOptions| user_opt_abs(u))
                    == authorized_users_from(store.authorizations@, store.users@, data.0.id, 0)
                &&& data.3@.len() == store.users@.len()
                &&& forall|i: int|
                    0 <= i < store.users@.len() ==> user_eqv(
                        #[trigger] data.3@[i],
                        store.users@[i],
                    )
            },
            Err(e) => e == HostDataError::HostNotFound && forall|i: int|
                0 <= i < store.hosts@.len() ==> (#[trigger] store.hosts@[i]).name@ != host@,
        },
{
    let found_ref = match store.get_host_by_name(host) {
        Option::None => {
            return Err(HostDataError::HostNotFound);
        },
        Option::Some(h) => h,
    };
    let found = found_ref.duplicate();
    proof {
        let w = choose|w: int|
            0 <= w < store.hosts@.len() && store.hosts@[w] == *found_ref;
        assert(host_eqv(found, store.hosts@[w]));
        lemma_host_at(store.hosts@, w);
        match found.jump_via {
            Option::Some(j) => {
                assert(chain_ok(store.hosts@, store.hosts@[w].id, store.hosts@.len() as nat));
                assert(host_at(store.hosts@, store.hosts@[w].id) == *found_ref);
                assert(chain_ok(store.hosts@, j, (store.hosts@.len() - 1) as nat));
                assert(has_host(store.hosts@, j));
            },
            Option::None => {},
        }
    }
    let jumphost: Option<String> = match found.jump_via {
        Option::Some(j) => {
            match store.get_host_by_id(j) {
                Option::Some(jh) => Option::Some(jh.name.clone()),
                Option::None => Option::None,
            }
        },
        Option::None => Option::None,
    };
    let mut auth_users: Vec<UserAndOptions> = Vec::new();
    let mut i: usize = 0;
    proof {
        assert(auth_users@.map_values(|u: UserAndOptions| user_opt_abs(u))
            + authorized_users_from(store.authorizations@, store.users@, found.id, 0)
            =~= authorized_users_from(store.authorizations@, store.users@, found.id, 0));
    }
    while i < store.authorizations.len()
        invariant
            store.wf(),
            i <= store.authorizations@.len(),
            auth_users@.map_values(|u: UserAndOptions| user_opt_abs(u)) + authorized_users_from(
                store.authorizations@,
                store.users@,
                found.id,
                i as int,
            ) == authorized_users_from(store.authorizations@, store.users@, found.id, 0),
        decreases store.authorizations@.len() - i,
    {
        let ghost prev = auth_users@;
        let a = &store.authorizations[i];
        if a.host_id == found.id {
            let uidx = match user_index_by_id(&store.users, a.user_id) {
                Option::Some(u) => u,
                Option::None => {
                    proof {
                        assert(has_user(store.users@, store.authorizations@[i as int].user_id));
                        assert(false);
                    }
                    return Err(HostDataError::HostNotFound);
                },
            };
            proof {
                lemma_user_at(store.users@, uidx as int);
            }
            let row = UserAndOptions {
                username: store.users[uidx].username.clone(),
                options: match &a.options {
                    Option::Some(o) => Option::Some(o.clone()),
                    Option::None => Option::None,
                },
            };
            auth_users.push(row);
        }
        proof {
            assert(auth_users@.map_values(|u: UserAndOptions| user_opt_abs(u))
                + authorized_users_from(
                store.authorizations@,
                store.users@,
                found.id,
                i + 1,
            ) =~= prev.map_values(|u: UserAndOptions| user_opt_abs(u)) + authorized_users_from(
                store.authorizations@,
                store.users@,
                found.id,
                i as int,
            ));
        }
        i = i + 1;
    }
    let mut users: Vec<User> = Vec::new();
    let mut u: usize = 0;
    while u < store.users.len()
        invariant
            u <= store.users@.len(),
            users@.len() == u,
            forall|x: int| 0 <= x < u ==> user_eqv(#[trigger] users@[x], store.users@[x]),
        decreases store.users@.len() - u,
    {
        users.push(User { id: store.users[u].id, username: store.users[u].username.clone() });
        u = u + 1;
    }
    Ok((found, jumphost, auth_users, users))
}

impl Host {
    /// An explicit copy carrying the same host.
    pub fn duplicate(&self) -> (r: Host)
        ensures
            r.id == self.id,
            r.name@ == self.name@,
            r.hostname@ == self.hostname@,
            r.port == self.port,
            r.username@ == self.username@,
            r.key_fingerprint@ == self.key_fingerprint@,
            r.jump_via == self.jump_via,
    {
        Host {
            id: self.id,
            name: self.name.clone(),
            hostname: self.hostname.clone(),
            port: self.port,
            username: self.username.clone(),
            key_fingerprint: self.key_fingerprint.clone(),
            jump_via: self.jump_via,
        }
    }
}

/// Lists with pairwise-equal ids contain the same ids.
proof fn lemma_has_host_same_ids(a: Seq<Host>, b: Seq<Host>)
    requires
        a.len() == b.len(),
        forall|i: int| 0 <= i < a.len() ==> a[i].id == b[i].id,
    ensures
        forall|id: i32| has_host(a, id) == has_host(b, id),
{
    assert forall|id: i32| has_host(a, id) == has_host(b, id) by {
        if has_host(a, id) {
            let i = choose|i: int| 0 <= i < a.len() && a[i].id == id;
            assert(b[i].id == id);
        }
        if has_host(b, id) {
            let i = choose|i: int| 0 <= i < b.len() && b[i].id == id;
            assert(a[i].id == id);
        }
    }
}

/// The authorization record stored for a (host, user) pair.
pub open spec fn auth_record(host_id: i32, user_id: i32, options: Option<String>) -> Authorization {
    Authorization { host_id, user_id, options }
}

/// Finds the index of the user with id `id`.
pub fn user_index_by_id(users: &Vec<User>, id: i32) -> (r: Option<usize>)
    ensures
        match r {
            Option::Some(i) => i < users@.len() && users@[i as int].id == id,
            Option::None => !has_user(users@, id),
        },
{
    let mut i: usize = 0;
    while i < users.len()
        invariant
            i <= users@.len(),
            forall|j: int| 0 <= j < i ==> users@[j].id != id,
        decreases users@.len() - i,
    {
        if users[i].id == id {
            return Option::Some(i);
        }
        i = i + 1;
    }
    Option::None
}

/// Finds the index of the authorization for a (host, user) pair.
fn auth_pair_index(auths: &Vec<Authorization>, host_id: i32, user_id: i32) -> (r: Option<usize>)
    ensures
        match r {
            Option::Some(i) => i < auths@.len() && auths@[i as int].host_id == host_id
                && auths@[i as int].user_id == user_id,
            Option::None => !has_auth(auths@, host_id, user_id),
        },
{
    let mut i: usize = 0;
    while i < auths.len()
        invariant
            i <= auths@.len(),
            forall|j: int|
                0 <= j < i ==> !(auths@[j].host_id == host_id && auths@[j].user_id == user_id),
        decreases auths@.len() - i,
    {
        if auths[i].host_id == host_id && auths[i].user_id == user_id {
            return Option::Some(i);
        }
        i = i + 1;
    }
    Option::None
}

/// Finds the index of the stored key with the given identity.
fn key_ident_index(keys: &Vec<PublicKey>, key_type: &String, key_base64: &String) -> (r: Option<
    usize,
>)
    ensures
        match r {
            Option::Some(i) => i < keys@.len() && rec_ident(keys@[i as int]) == (
                key_type@,
                key_base64@,
            ),
            Option::None => !has_ident(keys@, (key_type@, key_base64@)),
        },
{
    let mut i: usize = 0;
    while i < keys.len()
        invariant
            i <= keys@.len(),
            forall|j: int| 0 <= j < i ==> rec_ident(keys@[j]) != (key_type@, key_base64@),
        decreases keys@.len() - i,
    {
        if keys[i].key_type == *key_type && keys[i].key_base64 == *key_base64 {
            return Option::Some(i);
        }
        i = i + 1;
    }
    Option::None
}

impl Store {
    /// The stored host with this id, if any.
    pub fn get_host_by_id(&self, id: i32) -> (r: Option<&Host>)
        requires
            self.wf(),
        ensures
            match r {
                Option::Some(h) => has_host(self.hosts@, id) && *h == host_at(self.hosts@, id),
                Option::None => !has_host(self.hosts@, id),
            },
    {
        match host_index_by_id(&self.hosts, id) {
            Option::Some(i) => {
                proof {
                    lemma_host_at(self.hosts@, i as int);
                }
                Option::Some(&self.hosts[i])
            },
            Option::None => Option::None,
        }
    }

    /// The first stored host with this display name, if any.
    pub fn get_host_by_name(&self, name: &String) -> (r: Option<&Host>)
        ensures
            match r {
                Option::Some(h) => self.hosts@.contains(*h) && h.name@ == name@,
                Option::None => forall|i: int|
                    0 <= i < self.hosts@.len() ==> (#[trigger] self.hosts@[i]).name@ != name@,
            },
    {
        let mut i: usize = 0;
        while i < self.hosts.len()
            invariant
                i <= self.hosts@.len(),
                forall|j: int| 0 <= j < i ==> (#[trigger] self.hosts@[j]).name@ != name@,
            decreases self.hosts@.len() - i,
        {
            if self.hosts[i].name == *name {
                return Option::Some(&self.hosts[i]);
            }
            i = i + 1;
        }
        Option::None
    }

    /// Creates a user; fails only when the id space is exhausted.
    pub fn add_user(&mut self, username: String) -> (r: Result<i32, SshClientError>)
        requires
            old(self).wf(),
        ensures
            final(self).wf(),
            r is Ok <==> old(self).next_user_id < i32::MAX,
            match r {
                Ok(id) => {
                    &&& id == old(self).next_user_id
                    &&& final(self).users@ == old(self).users@.push(User { id, username })
                    &&& final(self).next_user_id == id + 1
                    &&& final(self).hosts@ == old(self).hosts@
                    &&& final(self).keys@ == old(self).keys@
                    &&& final(self).authorizations@ == old(self).authorizations@
                    &&& final(self).next_host_id == old(self).next_host_id
                    &&& final(self).next_key_id == old(self).next_key_id
                },
                Err(e) => *final(self) == *old(self) && e is DatabaseError,
            },
    {
        if self.next_user_id == i32::MAX {
            return Err(SshClientError::DatabaseError("user id space exhausted".to_owned()));
        }
        let id = self.next_user_id;
        self.users.push(User { id, username });
        self.next_user_id = id + 1;
        proof {
            let oldusers = old(self).users@;
            assert forall|i: int, j: int|
                0 <= i < j < self.users@.len() implies self.users@[i].id != self.users@[j].id by {
                if j == self.users@.len() - 1 {
                    assert(oldusers[i].id < old(self).next_user_id);
                }
            }
            assert forall|a: int|
                0 <= a < self.authorizations@.len() implies has_user(
                self.users@,
                (#[trigger] self.authorizations@[a]).user_id,
            ) by {
                assert(has_user(oldusers, self.authorizations@[a].user_id));
                let w = choose|w: int|
                    0 <= w < oldusers.len() && oldusers[w].id == self.authorizations@[a].user_id;
                assert(self.users@[w].id == self.authorizations@[a].user_id);
            }
        }
        Ok(id)
    }

    /// Stores a key by explicit assignment.  Fails when a key with
    /// the same identity (type and base64 material) already exists,
    /// or when the id space is exhausted.
    pub fn add_key(
        &mut self,
        key_type: String,
        key_base64: String,
        comment: Option<String>,
        owner: KeyOwner,
    ) -> (r: Result<i32, SshClientError>)
        requires
            old(self).wf(),
        ensures
            final(self).wf(),
            r is Ok <==> !has_ident(old(self).keys@, (key_type@, key_base64@)) && old(
                self,
            ).next_key_id < i32::MAX,
            match r {
                Ok(id) => {
                    &&& id == old(self).next_key_id
                    &&& final(self).keys@ == old(self).keys@.push(
                        PublicKey { id, key_type, key_base64, comment, owner },
                    )
                    &&& final(self).next_key_id == id + 1
                    &&& final(self).hosts@ == old(self).hosts@
                    &&& final(self).users@ == old(self).users@
                    &&& final(self).authorizations@ == old(self).authorizations@
                    &&& final(self).next_host_id == old(self).next_host_id
                    &&& final(self).next_user_id == old(self).next_user_id
                },
                Err(e) => *final(self) == *old(self) && e is DatabaseError,
            },
    {
        match key_ident_index(&self.keys, &key_type, &key_base64) {
            Option::Some(_) => Err(
                SshClientError::DatabaseError("a key with this identity already exists".to_owned()),
            ),
            Option::None => {
                if self.next_key_id == i32::MAX {
                    return Err(
                        SshClientError::DatabaseError("key id space exhausted".to_owned()),
                    );
                }
                let id = self.next_key_id;
                self.keys.push(PublicKey { id, key_type, key_base64, comment, owner });
                self.next_key_id = id + 1;
                proof {
                    let oldkeys = old(self).keys@;
                    let last = self.keys@.len() - 1;
                    assert forall|i: int, j: int|
                        0 <= i < j < self.keys@.len() implies self.keys@[i].id
                        != self.keys@[j].id by {
                        if j == last {
                            assert(oldkeys[i].id < old(self).next_key_id);
                        }
                    }
                    assert forall|i: int, j: int|
                        0 <= i < j < self.keys@.len() implies rec_ident(self.keys@[i]) != rec_ident(
                        self.keys@[j],
                    ) by {
                        if j == last && rec_ident(self.keys@[i]) == rec_ident(self.keys@[j]) {
                            assert(rec_ident(oldkeys[i]) == (key_type@, key_base64@));
                            assert(has_ident(oldkeys, (key_type@, key_base64@)));
                        }
                    }
                }
                Ok(id)
            },
        }
    }

    /// Persists a new host.  Fails when the jump host does not exist
    /// or the id space is exhausted.  A new host can never create a
    /// jump cycle: nothing points at it yet.
    pub fn add_host(&mut self, new: NewHost) -> (r: Result<i32, SshClientError>)
        requires
            old(self).wf(),
        ensures
            final(self).wf(),
            r is Ok <==> (old(self).next_host_id < i32::MAX && match new.jump_via {
                Option::Some(j) => has_host(old(self).hosts@, j),
                Option::None => true,
            }),
            match r {
                Ok(id) => {
                    &&& id == old(self).next_host_id
                    &&& final(self).hosts@ == old(self).hosts@.push(new_host_record(new, id))
                    &&& final(self).next_host_id == id + 1
                    &&& final(self).users@ == old(self).users@
                    &&& final(self).keys@ == old(self).keys@
                    &&& final(self).authorizations@ == old(self).authorizations@
                    &&& final(self).next_user_id == old(self).next_user_id
                    &&& final(self).next_key_id == old(self).next_key_id
                },
                Err(e) => {
                    &&& *final(self) == *old(self)
                    &&& (e is DatabaseError <==> old(self).next_host_id == i32::MAX)
                    &&& (e is NoSuchHost <==> (old(self).next_host_id < i32::MAX
                        && match new.jump_via {
                        Option::Some(j) => !has_host(old(self).hosts@, j),
                        Option::None => false,
                    }))
                },
            },
    {
        if self.next_host_id == i32::MAX {
            return Err(SshClientError::DatabaseError("host id space exhausted".to_owned()));
        }
        match new.jump_via {
            Option::Some(j) => {
                if host_index_by_id(&self.hosts, j).is_none() {
                    return Err(SshClientError::NoSuchHost);
                }
            },
            Option::None => {},
        }
        let id = self.next_host_id;
        let ghost oldhosts = self.hosts@;
        let h = Host {
            id,
            name: new.name,
            hostname: new.hostname,
            port: new.port,
            username: new.username,
            key_fingerprint: new.key_fingerprint,
            jump_via: new.jump_via,
        };
        self.hosts.push(h);
        self.next_host_id = id + 1;
        proof {
            let newhosts = self.hosts@;
            let n = oldhosts.len() as int;
            assert(!has_host(oldhosts, id));
            assert(unique_host_ids(newhosts));
            assert forall|i: int|
                0 <= i < newhosts.len() implies chain_ok(
                newhosts,
                newhosts[i].id,
                newhosts.len() as nat,
            ) by {
                if i < n {
                    assert(chain_ok(oldhosts, oldhosts[i].id, oldhosts.len() as nat));
                    lemma_chain_ok_push(oldhosts, h, oldhosts[i].id, oldhosts.len() as nat);
                    lemma_chain_ok_mono(
                        newhosts,
                        oldhosts[i].id,
                        oldhosts.len() as nat,
                        newhosts.len() as nat,
                    );
                } else {
                    lemma_host_at(newhosts, n);
                    match new.jump_via {
                        Option::Some(j) => {
                            let jx = choose|jx: int| 0 <= jx < n && oldhosts[jx].id == j;
                            assert(chain_ok(oldhosts, oldhosts[jx].id, oldhosts.len() as nat));
                            lemma_chain_ok_push(oldhosts, h, j, oldhosts.len() as nat);
                        },
                        Option::None => {},
                    }
                }
            }
            lemma_has_host_same_ids(oldhosts, newhosts.take(n));
            assert forall|i: int|
                0 <= i < self.authorizations@.len() implies has_host(
                newhosts,
                (#[trigger] self.authorizations@[i]).host_id,
            ) by {
                assert(has_host(oldhosts, self.authorizations@[i].host_id));
                let w = choose|w: int|
                    0 <= w < oldhosts.len() && oldhosts[w].id == self.authorizations@[i].host_id;
                assert(newhosts[w].id == self.authorizations@[i].host_id);
            }
        }
        Ok(id)
    }

    /// Points a host at a new jump host (or none).  The whole jump
    /// graph as it would look after the change is checked first: an
    /// update whose chains would no longer terminate — in particular
    /// one that would create a cycle — is rejected and changes
    /// nothing.
    pub fn set_jump_via(&mut self, host_id: i32, jump: Option<i32>) -> (r: Result<
        (),
        SshClientError,
    >)
        requires
            old(self).wf(),
        ensures
            final(self).wf(),
            r is Ok <==> has_host(old(self).hosts@, host_id) && chains_ok(
                with_jump(old(self).hosts@, host_id, jump),
            ),
            match r {
                Ok(_) => {
                    &&& final(self).hosts@ == with_jump(old(self).hosts@, host_id, jump)
                    &&& final(self).users@ == old(self).users@
                    &&& final(self).keys@ == old(self).keys@
                    &&& final(self).authorizations@ == old(self).authorizations@
                    &&& final(self).next_host_id == old(self).next_host_id
                    &&& final(self).next_user_id == old(self).next_user_id
                    &&& final(self).next_key_id == old(self).next_key_id
                },
                Err(e) => *final(self) == *old(self),
            },
    {
        let idx = match host_index_by_id(&self.hosts, host_id) {
            Option::None => {
                return Err(SshClientError::NoSuchHost);
            },
            Option::Some(i) => i,
        };
        if !all_chains_ok_with(&self.hosts, host_id, jump) {
            return Err(
                SshClientError::SshError(
                    "this jump host would make a jump chain unresolvable".to_owned(),
                ),
            );
        }
        let ghost oldhosts = self.hosts@;
        let mut h = self.hosts.remove(idx);
        h.jump_via = jump;
        self.hosts.insert(idx, h);
        proof {
            let cand = with_jump(oldhosts, host_id, jump);
            assert(self.hosts@ =~= cand);
            assert(unique_host_ids(cand));
            lemma_has_host_same_ids(oldhosts, cand);
        }
        Ok(())
    }

    /// Grants (or re-grants) a user access on a host.  Reauthorizing
    /// an already-authorized user overwrites the options instead of
    /// adding a second authorization.
    pub fn authorize_user(&mut self, host_id: i32, user_id: i32, options: Option<String>) -> (r:
        Result<(), SshClientError>)
        requires
            old(self).wf(),
        ensures
            final(self).wf(),
            r is Ok <==> has_host(old(self).hosts@, host_id) && has_user(
                old(self).users@,
                user_id,
            ),
            match r {
                Ok(_) => {
                    &&& has_auth(final(self).authorizations@, host_id, user_id)
                    &&& if has_auth(old(self).authorizations@, host_id, user_id) {
                        exists|i: int|
                            0 <= i < old(self).authorizations@.len() && old(
                                self,
                            ).authorizations@[i].host_id == host_id && old(
                                self,
                            ).authorizations@[i].user_id == user_id && final(self).authorizations@
                                == old(self).authorizations@.update(
                                i,
                                auth_record(host_id, user_id, options),
                            )
                    } else {
                        final(self).authorizations@ == old(self).authorizations@.push(
                            auth_record(host_id, user_id, options),
                        )
                    }
                    &&& final(self).hosts@ == old(self).hosts@
                    &&& final(self).users@ == old(self).users@
                    &&& final(self).keys@ == old(self).keys@
                    &&& final(self).next_host_id == old(self).next_host_id
                    &&& final(self).next_user_id == old(self).next_user_id
                    &&& final(self).next_key_id == old(self).next_key_id
                },
                Err(e) => *final(self) == *old(self) && (e is NoSuchHost <==> !has_host(
                    old(self).hosts@,
                    host_id,
                )),
            },
    {
        if host_index_by_id(&self.hosts, host_id).is_none() {
            return Err(SshClientError::NoSuchHost);
        }
        if user_index_by_id(&self.users, user_id).is_none() {
            return Err(
                SshClientError::DatabaseError("the user doesn't exist in the database".to_owned()),
            );
        }
        match auth_pair_index(&self.authorizations, host_id, user_id) {
            Option::Some(i) => {
                self.authorizations.remove(i);
                self.authorizations.insert(i, Authorization { host_id, user_id, options });
                proof {
                    let olda = old(self).authorizations@;
                    assert(self.authorizations@ =~= olda.update(
                        i as int,
                        auth_record(host_id, user_id, options),
                    ));
                    assert(self.authorizations@[i as int].host_id == host_id);
                    assert(has_auth(self.authorizations@, host_id, user_id));
                    assert forall|x: int|
                        0 <= x < self.authorizations@.len() implies (
                        #[trigger] self.authorizations@[x]).host_id == olda[x].host_id
                        && self.authorizations@[x].user_id == olda[x].user_id by {}
                    assert(exists|j: int|
                        0 <= j < olda.len() && olda[j].host_id == host_id && olda[j].user_id
                            == user_id && self.authorizations@ == olda.update(
                            j,
                            auth_record(host_id, user_id, options),
                        ));
                }
            },
            Option::None => {
                self.authorizations.push(Authorization { host_id, user_id, options });
                proof {
                    let olda = old(self).authorizations@;
                    let last = self.authorizations@.len() - 1;
                    assert(self.authorizations@[last].host_id == host_id);
                    assert(has_auth(self.authorizations@, host_id, user_id));
                    assert forall|a: int, b: int|
                        0 <= a < b < self.authorizations@.len() implies !((
                        #[trigger] self.authorizations@[a]).host_id == (
                        #[trigger] self.authorizations@[b]).host_id && self.authorizations@[a].user_id
                            == self.authorizations@[b].user_id) by {
                        if b == last && self.authorizations@[a].host_id == host_id
                            && self.authorizations@[a].user_id == user_id {
                            assert(olda[a].host_id == host_id && olda[a].user_id == user_id);
                            assert(has_auth(olda, host_id, user_id));
                        }
                    }
                }
            },
        }
        Ok(())
    }

    /// Records a key discovered on a remote host, keyed by identity:
    /// if a key with the same type and base64 material is already
    /// stored (whoever owns it), nothing changes; otherwise the key
    /// is stored unassigned, awaiting triage.
    pub fn upsert_unowned_key(&mut self, key: SshPublicKey) -> (r: Result<(), SshClientError>)
        requires
            old(self).wf(),
        ensures
            final(self).wf(),
            r is Ok <==> has_ident(old(self).keys@, (key.key_type@, key.key_base64@)) || old(
                self,
            ).next_key_id < i32::MAX,
            match r {
                Ok(_) => {
                    &&& has_ident(final(self).keys@, (key.key_type@, key.key_base64@))
                    &&& if has_ident(old(self).keys@, (key.key_type@, key.key_base64@)) {
                        *final(self) == *old(self)
                    } else {
                        &&& final(self).keys@ == old(self).keys@.push(
                            discovered_record(key, old(self).next_key_id),
                        )
                        &&& final(self).next_key_id == old(self).next_key_id + 1
                        &&& final(self).hosts@ == old(self).hosts@
                        &&& final(self).users@ == old(self).users@
                        &&& final(self).authorizations@ == old(self).authorizations@
                        &&& final(self).next_host_id == old(self).next_host_id
                        &&& final(self).next_user_id == old(self).next_user_id
                    }
                },
                Err(e) => *final(self) == *old(self) && e is DatabaseError,
            },
    {
        match key_ident_index(&self.keys, &key.key_type, &key.key_base64) {
            Option::Some(_) => Ok(()),
            Option::None => {
                if self.next_key_id == i32::MAX {
                    return Err(
                        SshClientError::DatabaseError("key id space exhausted".to_owned()),
                    );
                }
                let id = self.next_key_id;
                self.keys.push(
                    PublicKey {
                        id,
                        key_type: key.key_type,
                        key_base64: key.key_base64,
                        comment: key.comment,
                        owner: KeyOwner::Unowned,
                    },
                );
                self.next_key_id = id + 1;
                proof {
                    let oldkeys = old(self).keys@;
                    let last = self.keys@.len() - 1;
                    assert(rec_ident(self.keys@[last]) == (key.key_type@, key.key_base64@));
                    assert(has_ident(self.keys@, (key.key_type@, key.key_base64@)));
                    assert forall|i: int, j: int|
                        0 <= i < j < self.keys@.len() implies self.keys@[i].id
                        != self.keys@[j].id by {
                        if j == last {
                            assert(oldkeys[i].id < old(self).next_key_id);
                        }
                    }
                    assert forall|i: int, j: int|
                        0 <= i < j < self.keys@.len() implies rec_ident(self.keys@[i]) != rec_ident(
                        self.keys@[j],
                    ) by {
                        if j == last && rec_ident(self.keys@[i]) == rec_ident(self.keys@[j]) {
                            assert(rec_ident(oldkeys[i]) == (key.key_type@, key.key_base64@));
                            assert(has_ident(oldkeys, (key.key_type@, key.key_base64@)));
                        }
                    }
                }
                Ok(())
            },
        }
    }

    /// Whether the (host, user) pair is authorized.
    pub fn is_authorized(&self, host_id: i32, user_id: i32) -> (r: bool)
        ensures
            r == has_auth(self.authorizations@, host_id, user_id),
    {
        match auth_pair_index(&self.authorizations, host_id, user_id) {
            Option::Some(_) => true,
            Option::None => false,
        }
    }

    /// The base64 material of every key stored as this host's own
    /// server key, in store order.  A connection attempt must try
    /// each of them.
    pub fn host_key_material(&self, host_id: i32) -> (r: Vec<String>)
        ensures
            r@.map_values(|s: String| s@) == host_key_material_of(self.keys@, host_id),
    {
        let mut out: Vec<String> = Vec::new();
        let mut i: usize = 0;
        proof {
            assert(out@.map_values(|s: String| s@) + key_material_from(self.keys@, host_id, 0)
                =~= host_key_material_of(self.keys@, host_id));
        }
        while i < self.keys.len()
            invariant
                i <= self.keys@.len(),
                out@.map_values(|s: String| s@) + key_material_from(
                    self.keys@,
                    host_id,
                    i as int,
                ) == host_key_material_of(self.keys@, host_id),
            decreases self.keys@.len() - i,
        {
            let ghost prev = out@;
            let k = &self.keys[i];
            let matches_owner = match k.owner {
                KeyOwner::Host(h) => h == host_id,
                KeyOwner::User(_) => false,
                KeyOwner::Unowned => false,
            };
            if matches_owner {
                out.push(k.key_base64.clone());
            }
            proof {
                assert(out@.map_values(|s: String| s@) + key_material_from(
                    self.keys@,
                    host_id,
                    i + 1,
                ) =~= prev.map_values(|s: String| s@) + key_material_from(
                    self.keys@,
                    host_id,
                    i as int,
                ));
            }
            i = i + 1;
        }
        proof {
            assert(out@.map_values(|s: String| s@) =~= host_key_material_of(self.keys@, host_id));
        }
        out
    }
}

} // verus!
