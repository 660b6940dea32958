use vstd::prelude::*;

use crate::router::ConnectionDetails;
use crate::store::NewHost;
use crate::store::Store;
use crate::store::has_host;

verus! {

/// Why a trust-protocol step failed.
#[derive(Debug, Clone, Copy, PartialEq, Eq, Structural)]
pub enum TrustError {
    /// No pending trust request carries this token.
    UnknownToken,
    /// The confirmed fingerprint differs from the offered one.
    FingerprintMismatch,
    /// The live authentication attempt failed.
    AuthenticationFailed,
    /// The store refused to persist the host.
    PersistenceFailed,
}

/// One pending trust request: the connection parameters the caller
/// supplied and the fingerprint the server presented during the
/// untrusted capture handshake, waiting for out-of-band confirmation.
#[derive(Debug)]
pub struct PendingTrust {
    pub token: u64,
    pub details: ConnectionDetails,
    pub username: String,
    pub jump_via: Option<i32>,
    pub offered_fingerprint: String,
}

/// The record `begin_trust` files for a capture handshake.
pub open spec fn pending_record(
    token: u64,
    details: ConnectionDetails,
    username: String,
    jump_via: Option<i32>,
    offered_fingerprint: String,
) -> PendingTrust {
    PendingTrust { token, details, username, jump_via, offered_fingerprint }
}

/// Some pending request carries this token.
pub open spec fn has_token(pending: Seq<PendingTrust>, token: u64) -> bool {
    exists|i: int| 0 <= i < pending.len() && pending[i].token == token
}

/// The pending request with this token (well defined while tokens
/// are unique).
pub open spec fn pending_at(pending: Seq<PendingTrust>, token: u64) -> PendingTrust {
    pending[choose|i: int| 0 <= i < pending.len() && pending[i].token == token]
}

/// The two-phase trust-on-first-use engine.  A host is added in two
/// steps: `begin_trust` files the fingerprint captured from the
/// server under a fresh one-shot token, and `confirm_trust` persists
/// the host only if the caller confirms exactly that fingerprint and
/// a live authentication attempt has succeeded.  No host record ever
/// carries a fingerprint nobody reviewed.
#[derive(Debug)]
pub struct TrustEngine {
    pub pending: Vec<PendingTrust>,
    pub next_token: u64,
}

impl TrustEngine {
    /// Tokens are unique and below the counter.
    pub open spec fn wf(&self) -> bool {
        &&& forall|i: int, j: int|
            0 <= i < j < self.pending@.len() ==> self.pending@[i].token != self.pending@[j].token
        &&& forall|i: int| 0 <= i < self.pending@.len() ==> (#[trigger] self.pending@[i]).token
            < self.next_token
    }

    /// An engine with no pending requests.
    pub fn new() -> (r: TrustEngine)
        ensures
            r.wf(),
            r.pending@.len() == 0,
    {
        TrustEngine { pending: Vec::new(), next_token: 1 }
    }

    /// Finds the index of the pending request with this token.
    fn token_index(&self, token: u64) -> (r: Option<usize>)
        ensures
            match r {
                Option::Some(i) => i < self.pending@.len() && self.pending@[i as int].token
                    == token,
                Option::None => !has_token(self.pending@, token),
            },
    {
        let mut i: usize = 0;
        while i < self.pending.len()
            invariant
                i <= self.pending@.len(),
                forall|j: int| 0 <= j < i ==> self.pending@[j].token != token,
            decreases self.pending@.len() - i,
        {
            if self.pending[i].token == token {
                return Option::Some(i);
            }
            i = i + 1;
        }
        Option::None
    }

    /// First phase.  The caller has dialed the given address without
    /// any trust check and captured whatever fingerprint the server
    /// presented; this files that fingerprint under a fresh token and
    /// hands the token back so the fingerprint can be reviewed out of
    /// band.  Nothing is persisted yet.
    pub fn begin_trust(
        &mut self,
        details: ConnectionDetails,
        username: String,
        jump_via: Option<i32>,
        offered_fingerprint: String,
    ) -> (r: Result<u64, TrustError>)
        requires
            old(self).wf(),
        ensures
            final(self).wf(),
            r is Ok <==> old(self).next_token < u64::MAX,
            r matches Ok(token) ==> {
                &&& token == old(self).next_token
                &&& final(self).pending@ == old(self).pending@.push(
                    pending_record(token, details, username, jump_via, offered_fingerprint),
                )
                &&& has_token(final(self).pending@, token)
                &&& final(self).next_token == token + 1
            },
            r matches Err(_) ==> *final(self) == *old(self),
    {
        if self.next_token == u64::MAX {
            return Err(TrustError::PersistenceFailed);
        }
        let token = self.next_token;
        self.pending.push(
            PendingTrust { token, details, username, jump_via, offered_fingerprint },
        );
        self.next_token = token + 1;
        proof {
            let p = self.pending@;
            let last = p.len() - 1;
            assert(p[last].token == token);
            assert(has_token(p, token));
            assert forall|i: int, j: int|
                0 <= i < j < p.len() implies p[i].token != p[j].token by {
                if j == last {
                    assert(old(self).pending@[i].token < old(self).next_token);
                }
            }
        }
        Ok(token)
    }

    /// Drops a pending request whose out-of-band confirmation never
    /// arrived, so a bounded wait ends in a timeout instead of an
    /// ever-growing table.
    pub fn expire_pending(&mut self, token: u64)
        requires
            old(self).wf(),
        ensures
            final(self).wf(),
            !has_token(final(self).pending@, token),
            final(self).next_token == old(self).next_token,
            !has_token(old(self).pending@, token) ==> *final(self) == *old(self),
            has_token(old(self).pending@, token) ==> exists|i: int|
                0 <= i < old(self).pending@.len() && old(self).pending@[i].token == token
                    && final(self).pending@ == old(self).pending@.remove(i),
    {
        match self.token_index(token) {
            Option::None => {},
            Option::Some(i) => {
                self.pending.remove(i);
                proof {
                    let oldp = old(self).pending@;
                    let p = self.pending@;
                    assert forall|a: int, b: int|
                        0 <= a < b < p.len() implies p[a].token != p[b].token by {
                        let ia: int = if a < i as int {
                            a
                        } else {
                            a + 1
                        };
                        let ib: int = if b < i as int {
                            b
                        } else {
                            b + 1
                        };
                        assert(p[a] == oldp[ia] && p[b] == oldp[ib]);
                    }
                    assert forall|a: int| 0 <= a < p.len() implies !(
                    (#[trigger] p[a]).token == token) by {
                        let ia: int = if a < i as int {
                            a
                        } else {
                            a + 1
                        };
                        assert(p[a] == oldp[ia]);
                        if ia != i as int && oldp[ia].token == token {
                            assert(oldp[i as int].token == token);
                        }
                    }
                }
            },
        }
    }

    /// Second phase.  The caller resubmits the token together with
    /// the fingerprint it reviewed, and reports in `auth_ok` whether
    /// its live authentication over a handshake that verified exactly
    /// that fingerprint succeeded.  The host is persisted — carrying
    /// exactly the confirmed fingerprint — only when the token is
    /// known, the fingerprint is the offered one, and authentication
    /// succeeded; on any failure the store keeps its exact previous
    /// contents.  When all three hold, persisting can only be refused
    /// for a missing jump host or an exhausted id space — otherwise
    /// success is guaranteed, the pending request is consumed and the
    /// new host's id is returned.
    pub fn confirm_trust(
        &mut self,
        store: &mut Store,
        token: u64,
        fingerprint: &String,
        name: String,
        auth_ok: bool,
    ) -> (r: Result<i32, TrustError>)
        requires
            old(self).wf(),
            old(store).wf(),
        ensures
            final(self).wf(),
            final(store).wf(),
            r is Err ==> *final(store) == *old(store) && *final(self) == *old(self),
            r is Ok ==> has_token(old(self).pending@, token) && pending_at(
                old(self).pending@,
                token,
            ).offered_fingerprint@ == fingerprint@ && auth_ok,
            !has_token(old(self).pending@, token) ==> (r matches Err(e) && e is UnknownToken),
            has_token(old(self).pending@, token) && pending_at(
                old(self).pending@,
                token,
            ).offered_fingerprint@ != fingerprint@ ==> (r matches Err(e)
                && e is FingerprintMismatch),
            has_token(old(self).pending@, token) && pending_at(
                old(self).pending@,
                token,
            ).offered_fingerprint@ == fingerprint@ && !auth_ok ==> (r matches Err(e)
                && e is AuthenticationFailed),
            has_token(old(self).pending@, token) && pending_at(
                old(self).pending@,
                token,
            ).offered_fingerprint@ == fingerprint@ && auth_ok && old(store).next_host_id
                < i32::MAX && (match pending_at(old(self).pending@, token).jump_via {
                Option::Some(j) => has_host(old(store).hosts@, j),
                Option::None => true,
            }) ==> r is Ok,
            r matches Ok(id) ==> {
                let p = pending_at(old(self).pending@, token);
                &&& final(store).hosts@.len() == old(store).hosts@.len() + 1
                &&& final(store).hosts@.drop_last() == old(store).hosts@
                &&& final(store).hosts@.last().id == id
                &&& final(store).hosts@.last().name@ == name@
                &&& final(store).hosts@.last().hostname@ == p.details.hostname@
                &&& final(store).hosts@.last().port == p.details.port
                &&& final(store).hosts@.last().username@ == p.username@
                &&& final(store).hosts@.last().key_fingerprint@ == fingerprint@
                &&& final(store).hosts@.last().jump_via == p.jump_via
                &&& exists|i: int|
                    0 <= i < old(self).pending@.len() && old(self).pending@[i].token == token
                        && final(self).pending@ == old(self).pending@.remove(i)
            },
    {
        let idx = match self.token_index(token) {
            Option::None => {
                return Err(TrustError::UnknownToken);
            },
            Option::Some(i) => i,
        };
        proof {
            lemma_pending_at(self.pending@, idx as int);
        }
        let offered_matches = {
            let p = &self.pending[idx];
            p.offered_fingerprint == *fingerprint
        };
        if !offered_matches {
            return Err(TrustError::FingerprintMismatch);
        }
        if !auth_ok {
            return Err(TrustError::AuthenticationFailed);
        }
        let new = {
            let p = &self.pending[idx];
            NewHost {
                name,
                hostname: p.details.hostname.clone(),
                port: p.details.port,
                username: p.username.clone(),
                key_fingerprint: fingerprint.clone(),
                jump_via: p.jump_via,
            }
        };
        match store.add_host(new) {
            Err(_) => Err(TrustError::PersistenceFailed),
            Ok(id) => {
                self.pending.remove(idx);
                proof {
                    let oldp = old(self).pending@;
                    let p = self.pending@;
                    assert forall|a: int, b: int|
                        0 <= a < b < p.len() implies p[a].token != p[b].token by {
                        let ia: int = if a < idx as int {
                            a
                        } else {
                            a + 1
                        };
                        let ib: int = if b < idx as int {
                            b
                        } else {
                            b + 1
                        };
                        assert(p[a] == oldp[ia] && p[b] == oldp[ib]);
                    }
                    assert forall|a: int| 0 <= a < p.len() implies (#[trigger] p[a]).token < self.next_token by {
                        let ia: int = if a < idx as int {
                            a
                        } else {
                            a + 1
                        };
                        assert(p[a] == oldp[ia]);
                    }
                    assert(store.hosts@.drop_last() =~= old(store).hosts@);
                    assert(self.pending@ == oldp.remove(idx as int));
                }
                Ok(id)
            },
        }
    }
}

/// The request `pending_at` denotes is the one at any index with that
/// token while tokens are unique.
pub proof fn lemma_pending_at(pending: Seq<PendingTrust>, i: int)
    requires
        forall|a: int, b: int| 0 <= a < b < pending.len() ==> pending[a].token != pending[b].token,
        0 <= i < pending.len(),
    ensures
        has_token(pending, pending[i].token),
        pending_at(pending, pending[i].token) == pending[i],
{
    let t = pending[i].token;
    assert(has_token(pending, t));
    let c = choose|c: int| 0 <= c < pending.len() && pending[c].token == t;
    if c != i {
        assert(pending[c].token != pending[i].token || pending[i].token != pending[c].token);
    }
}

} // verus!
