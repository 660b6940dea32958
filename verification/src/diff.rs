use vstd::prelude::*;

use crate::keys::KeyAbs;
use crate::keys::KeyOwner;
use crate::keys::SshPublicKey;
use crate::keys::key_ident;
use crate::keys::keys_view;
use crate::store::Authorization;
use crate::store::Host;
use crate::store::PublicKey;
use crate::store::Store;
use crate::store::has_auth;
use crate::store::has_ident;
use crate::store::rec_ident;

verus! {

/// The reconciliation result for one host: the keys expected from the
/// store and actually present, the expected keys that are absent, and
/// the present keys nobody declared.  Computed, never persisted.
#[derive(Debug)]
pub struct HostDiff {
    pub host_id: i32,
    pub matching: Vec<SshPublicKey>,
    pub expected_absent: Vec<SshPublicKey>,
    pub unexpected: Vec<SshPublicKey>,
}

/// The identity of one key value: type and base64 material.
pub open spec fn ident_of_key(k: SshPublicKey) -> (Seq<char>, Seq<char>) {
    (k.key_type@, k.key_base64@)
}

/// Some key in `s` has identity `id`.
pub open spec fn seq_has_ident(s: Seq<SshPublicKey>, id: (Seq<char>, Seq<char>)) -> bool {
    exists|i: int| 0 <= i < s.len() && ident_of_key(s[i]) == id
}

/// Some abstract key in `s` has identity `id`.
pub open spec fn abs_has_ident(s: Seq<KeyAbs>, id: (Seq<char>, Seq<char>)) -> bool {
    exists|i: int| 0 <= i < s.len() && key_ident(s[i]) == id
}

/// The set of key identities occurring in `s`.
pub open spec fn ident_set(s: Seq<SshPublicKey>) -> Set<(Seq<char>, Seq<char>)> {
    Set::new(|id: (Seq<char>, Seq<char>)| seq_has_ident(s, id))
}

/// The set of key identities occurring in an abstract key list.
pub open spec fn abs_ident_set(s: Seq<KeyAbs>) -> Set<(Seq<char>, Seq<char>)> {
    Set::new(|id: (Seq<char>, Seq<char>)| abs_has_ident(s, id))
}

/// No two keys in `s` share an identity.
pub open spec fn distinct_idents(s: Seq<SshPublicKey>) -> bool {
    forall|i: int, j: int| 0 <= i < j < s.len() ==> ident_of_key(s[i]) != ident_of_key(s[j])
}

/// Every key of `part` is, by abstract value, a key of `src`.
pub open spec fn all_from(part: Seq<SshPublicKey>, src: Seq<SshPublicKey>) -> bool {
    forall|i: int|
        0 <= i < part.len() ==> exists|j: int| 0 <= j < src.len() && #[trigger] part[i]@ == src[j]@
}

/// Pushing one key adds exactly its identity.
pub proof fn lemma_has_ident_push(s: Seq<SshPublicKey>, k: SshPublicKey)
    ensures
        forall|id: (Seq<char>, Seq<char>)|
            #[trigger] seq_has_ident(s.push(k), id) <==> (seq_has_ident(s, id) || id
                == ident_of_key(k)),
{
    assert forall|id: (Seq<char>, Seq<char>)|
        #[trigger] seq_has_ident(s.push(k), id) <==> (seq_has_ident(s, id) || id == ident_of_key(
            k,
        )) by {
        if seq_has_ident(s.push(k), id) {
            let w = choose|w: int| 0 <= w < s.push(k).len() && ident_of_key(s.push(k)[w]) == id;
            if w < s.len() {
                assert(ident_of_key(s[w]) == id);
            }
        }
        if seq_has_ident(s, id) {
            let w = choose|w: int| 0 <= w < s.len() && ident_of_key(s[w]) == id;
            assert(ident_of_key(s.push(k)[w]) == id);
        }
        if id == ident_of_key(k) {
            assert(ident_of_key(s.push(k)[s.len() as int]) == id);
        }
    }
}

/// Key values and their abstract views carry the same identities.
pub proof fn lemma_ident_set_views(v: Seq<SshPublicKey>)
    ensures
        abs_ident_set(keys_view(v)) == ident_set(v),
{
    assert forall|id: (Seq<char>, Seq<char>)|
        #[trigger] abs_has_ident(keys_view(v), id) <==> seq_has_ident(v, id) by {
        if abs_has_ident(keys_view(v), id) {
            let w = choose|w: int|
                0 <= w < keys_view(v).len() && key_ident(keys_view(v)[w]) == id;
            assert(ident_of_key(v[w]) == id);
        }
        if seq_has_ident(v, id) {
            let w = choose|w: int| 0 <= w < v.len() && ident_of_key(v[w]) == id;
            assert(key_ident(keys_view(v)[w]) == id);
        }
    }
    assert(abs_ident_set(keys_view(v)) =~= ident_set(v));
}

/// Whether some key of `v` has the same identity as `k`.
pub fn contains_ident(v: &Vec<SshPublicKey>, k: &SshPublicKey) -> (r: bool)
    ensures
        r == seq_has_ident(v@, ident_of_key(*k)),
{
    let mut i: usize = 0;
    while i < v.len()
        invariant
            i <= v@.len(),
            forall|j: int| 0 <= j < i ==> ident_of_key(v@[j]) != ident_of_key(*k),
        decreases v@.len() - i,
    {
        if v[i].key_type == k.key_type && v[i].key_base64 == k.key_base64 {
            return true;
        }
        i = i + 1;
    }
    false
}

/// Partitions the expected and observed key sets by key identity.
/// Every identity of `expected` lands in `matching` or
/// `expected_absent` according to whether it is observed; every
/// identity of `observed` lands in `matching` or `unexpected`
/// according to whether it is expected; no identity lands in two
/// partitions, and each partition holds one key per identity, drawn
/// from the corresponding input.
pub fn compute_diff(host_id: i32, expected: &Vec<SshPublicKey>, observed: &Vec<SshPublicKey>) -> (r:
    HostDiff)
    ensures
        r.host_id == host_id,
        ident_set(r.matching@) == ident_set(expected@).intersect(ident_set(observed@)),
        ident_set(r.expected_absent@) == ident_set(expected@).difference(ident_set(observed@)),
        ident_set(r.unexpected@) == ident_set(observed@).difference(ident_set(expected@)),
        distinct_idents(r.matching@),
        distinct_idents(r.expected_absent@),
        distinct_idents(r.unexpected@),
        all_from(r.matching@, expected@),
        all_from(r.expected_absent@, expected@),
        all_from(r.unexpected@, observed@),
{
    let mut matching: Vec<SshPublicKey> = Vec::new();
    let mut expected_absent: Vec<SshPublicKey> = Vec::new();
    let mut unexpected: Vec<SshPublicKey> = Vec::new();
    let mut i: usize = 0;
    while i < expected.len()
        invariant
            i <= expected@.len(),
            forall|id: (Seq<char>, Seq<char>)|
                #[trigger] seq_has_ident(matching@, id) <==> (seq_has_ident(
                    expected@.take(i as int),
                    id,
                ) && seq_has_ident(observed@, id)),
            forall|id: (Seq<char>, Seq<char>)|
                #[trigger] seq_has_ident(expected_absent@, id) <==> (seq_has_ident(
                    expected@.take(i as int),
                    id,
                ) && !seq_has_ident(observed@, id)),
            distinct_idents(matching@),
            distinct_idents(expected_absent@),
            all_from(matching@, expected@),
            all_from(expected_absent@, expected@),
        decreases expected@.len() - i,
    {
        let ghost prev_matching = matching@;
        let ghost prev_absent = expected_absent@;
        let k = &expected[i];
        if contains_ident(observed, k) {
            if !contains_ident(&matching, k) {
                let kk = k.duplicate();
                proof {
                    assert(ident_of_key(kk) == ident_of_key(*k));
                }
                matching.push(kk);
                proof {
                    lemma_has_ident_push(prev_matching, kk);
                }
            }
        } else {
            if !contains_ident(&expected_absent, k) {
                let kk = k.duplicate();
                proof {
                    assert(ident_of_key(kk) == ident_of_key(*k));
                }
                expected_absent.push(kk);
                proof {
                    lemma_has_ident_push(prev_absent, kk);
                }
            }
        }
        proof {
            assert(expected@.take(i + 1) =~= expected@.take(i as int).push(expected@[i as int]));
            lemma_has_ident_push(expected@.take(i as int), expected@[i as int]);
        }
        i = i + 1;
    }
    proof {
        assert(expected@.take(expected@.len() as int) =~= expected@);
    }
    let mut o: usize = 0;
    while o < observed.len()
        invariant
            o <= observed@.len(),
            forall|id: (Seq<char>, Seq<char>)|
                #[trigger] seq_has_ident(matching@, id) <==> (seq_has_ident(expected@, id)
                    && seq_has_ident(observed@, id)),
            forall|id: (Seq<char>, Seq<char>)|
                #[trigger] seq_has_ident(expected_absent@, id) <==> (seq_has_ident(expected@, id)
                    && !seq_has_ident(observed@, id)),
            forall|id: (Seq<char>, Seq<char>)|
                #[trigger] seq_has_ident(unexpected@, id) <==> (seq_has_ident(
                    observed@.take(o as int),
                    id,
                ) && !seq_has_ident(expected@, id)),
            distinct_idents(matching@),
            distinct_idents(expected_absent@),
            distinct_idents(unexpected@),
            all_from(matching@, expected@),
            all_from(expected_absent@, expected@),
            all_from(unexpected@, observed@),
        decreases observed@.len() - o,
    {
        let ghost prev_unexpected = unexpected@;
        let k = &observed[o];
        if !contains_ident(expected, k) {
            if !contains_ident(&unexpected, k) {
                let kk = k.duplicate();
                proof {
                    assert(ident_of_key(kk) == ident_of_key(*k));
                }
                unexpected.push(kk);
                proof {
                    lemma_has_ident_push(prev_unexpected, kk);
                }
            }
        }
        proof {
            assert(observed@.take(o + 1) =~= observed@.take(o as int).push(observed@[o as int]));
            lemma_has_ident_push(observed@.take(o as int), observed@[o as int]);
        }
        o = o + 1;
    }
    proof {
        assert(observed@.take(observed@.len() as int) =~= observed@);
        assert(ident_set(matching@) =~= ident_set(expected@).intersect(ident_set(observed@)));
        assert(ident_set(expected_absent@) =~= ident_set(expected@).difference(
            ident_set(observed@),
        ));
        assert(ident_set(unexpected@) =~= ident_set(observed@).difference(ident_set(expected@)));
    }
    HostDiff { host_id, matching, expected_absent, unexpected }
}

/// Diff partition totality: the matching and expected-but-absent
/// identities together are exactly the expected set, the matching and
/// present-but-unexpected identities together are exactly the
/// observed set, and no identity lies in more than one partition.
pub proof fn lemma_diff_partition_totality(
    e: Set<(Seq<char>, Seq<char>)>,
    o: Set<(Seq<char>, Seq<char>)>,
)
    ensures
        e.intersect(o).union(e.difference(o)) =~= e,
        e.intersect(o).union(o.difference(e)) =~= o,
        e.intersect(o).intersect(e.difference(o)) =~= Set::<(Seq<char>, Seq<char>)>::empty(),
        e.intersect(o).intersect(o.difference(e)) =~= Set::<(Seq<char>, Seq<char>)>::empty(),
        e.difference(o).intersect(o.difference(e)) =~= Set::<(Seq<char>, Seq<char>)>::empty(),
{
}

/// A stored key counts toward a host's expected set when its owner is
/// a user authorized on that host.
pub open spec fn is_expected_record(k: PublicKey, auths: Seq<Authorization>, host_id: i32) -> bool {
    match k.owner {
        KeyOwner::User(u) => has_auth(auths, host_id, u),
        KeyOwner::Host(_) => false,
        KeyOwner::Unowned => false,
    }
}

/// The stored keys from index `from` on that a host expects, in store
/// order: the join of the host's authorizations with the users' keys.
pub open spec fn expected_records_from(
    keys: Seq<PublicKey>,
    auths: Seq<Authorization>,
    host_id: i32,
    from: int,
) -> Seq<PublicKey>
    decreases keys.len() - from,
{
    if from < 0 || from >= keys.len() {
        Seq::empty()
    } else {
        let rest = expected_records_from(keys, auths, host_id, from + 1);
        if is_expected_record(keys[from], auths, host_id) {
            seq![keys[from]] + rest
        } else {
            rest
        }
    }
}

/// Abstract value of a stored key record.
pub open spec fn record_abs(k: PublicKey) -> KeyAbs {
    KeyAbs {
        key_type: k.key_type@,
        key_base64: k.key_base64@,
        comment: match k.comment {
            Option::Some(c) => Option::Some(c@),
            Option::None => Option::None,
        },
        owner: k.owner,
    }
}

/// The abstract expected key set of a host.
pub open spec fn spec_expected_keys(store: Store, host_id: i32) -> Seq<KeyAbs> {
    expected_records_from(store.keys@, store.authorizations@, host_id, 0).map_values(
        |k: PublicKey| record_abs(k),
    )
}

/// A stored key record as a codec key value.
pub fn key_from_record(k: &PublicKey) -> (r: SshPublicKey)
    ensures
        r@ == record_abs(*k),
{
    SshPublicKey {
        key_type: k.key_type.clone(),
        key_base64: k.key_base64.clone(),
        comment: match &k.comment {
            Option::Some(c) => Option::Some(c.clone()),
            Option::None => Option::None,
        },
        owner: k.owner,
    }
}

/// The keys a host expects in its `authorized_keys` file: every key
/// owned by a user who is authorized on the host, in store order.
pub fn expected_keys(store: &Store, host_id: i32) -> (r: Vec<SshPublicKey>)
    ensures
        keys_view(r@) == spec_expected_keys(*store, host_id),
{
    let mut out: Vec<SshPublicKey> = Vec::new();
    let mut i: usize = 0;
    proof {
        assert(keys_view(out@) + expected_records_from(
            store.keys@,
            store.authorizations@,
            host_id,
            0,
        ).map_values(|k: PublicKey| record_abs(k)) =~= spec_expected_keys(*store, host_id));
    }
    while i < store.keys.len()
        invariant
            i <= store.keys@.len(),
            keys_view(out@) + expected_records_from(
                store.keys@,
                store.authorizations@,
                host_id,
                i as int,
            ).map_values(|k: PublicKey| record_abs(k)) == spec_expected_keys(*store, host_id),
        decreases store.keys@.len() - i,
    {
        let ghost prev = out@;
        let k = &store.keys[i];
        let authorized = match k.owner {
            KeyOwner::User(u) => store.is_authorized(host_id, u),
            KeyOwner::Host(_) => false,
            KeyOwner::Unowned => false,
        };
        if authorized {
            out.push(key_from_record(k));
        }
        proof {
            assert(keys_view(out@) + expected_records_from(
                store.keys@,
                store.authorizations@,
                host_id,
                i + 1,
            ).map_values(|k: PublicKey| record_abs(k)) =~= keys_view(prev)
                + expected_records_from(
                store.keys@,
                store.authorizations@,
                host_id,
                i as int,
            ).map_values(|k: PublicKey| record_abs(k)));
        }
        i = i + 1;
    }
    proof {
        assert(keys_view(out@) =~= spec_expected_keys(*store, host_id));
    }
    out
}

/// Reconciles one host: partitions the expected keys (from the store)
/// against the keys observed in the host's `authorized_keys` file,
/// and records every present-but-unexpected key as an unassigned key,
/// once per identity, so it can be triaged later.  A failed write-back
/// is absorbed: the diff itself is always returned, and a key can
/// fail to be recorded only if the key id space cannot hold the
/// discovered keys — a bound the caller can check on the store it
/// passed in.  Running the same reconciliation again inserts nothing
/// new.
pub fn get_host_diff(store: &mut Store, host: &Host, observed: &Vec<SshPublicKey>) -> (r: HostDiff)
    requires
        old(store).wf(),
    ensures
        final(store).wf(),
        r.host_id == host.id,
        abs_ident_set(keys_view(r.matching@)) == abs_ident_set(
            spec_expected_keys(*old(store), host.id),
        ).intersect(abs_ident_set(keys_view(observed@))),
        abs_ident_set(keys_view(r.expected_absent@)) == abs_ident_set(
            spec_expected_keys(*old(store), host.id),
        ).difference(abs_ident_set(keys_view(observed@))),
        abs_ident_set(keys_view(r.unexpected@)) == abs_ident_set(keys_view(observed@)).difference(
            abs_ident_set(spec_expected_keys(*old(store), host.id)),
        ),
        distinct_idents(r.matching@),
        distinct_idents(r.expected_absent@),
        distinct_idents(r.unexpected@),
        all_from(r.unexpected@, observed@),
        final(store).hosts@ == old(store).hosts@,
        final(store).users@ == old(store).users@,
        final(store).authorizations@ == old(store).authorizations@,
        final(store).next_host_id == old(store).next_host_id,
        final(store).next_user_id == old(store).next_user_id,
        old(store).keys@.len() <= final(store).keys@.len(),
        old(store).next_key_id <= final(store).next_key_id <= old(store).next_key_id
            + r.unexpected@.len(),
        forall|x: int|
            0 <= x < old(store).keys@.len() ==> final(store).keys@[x] == old(store).keys@[x],
        forall|x: int|
            old(store).keys@.len() <= x < final(store).keys@.len()
                ==> (#[trigger] final(store).keys@[x]).owner == KeyOwner::Unowned
                && seq_has_ident(r.unexpected@, rec_ident(final(store).keys@[x])),
        forall|j: int|
            0 <= j < r.unexpected@.len() ==> has_ident(
                final(store).keys@,
                ident_of_key(#[trigger] r.unexpected@[j]),
            ) || old(store).next_key_id + r.unexpected@.len() > i32::MAX,
        (forall|j: int|
            0 <= j < r.unexpected@.len() ==> has_ident(
                old(store).keys@,
                ident_of_key(#[trigger] r.unexpected@[j]),
            )) ==> *final(store) == *old(store),
{
    let expected = expected_keys(store, host.id);
    let diff = compute_diff(host.id, &expected, observed);
    proof {
        lemma_ident_set_views(diff.matching@);
        lemma_ident_set_views(diff.expected_absent@);
        lemma_ident_set_views(diff.unexpected@);
        lemma_ident_set_views(expected@);
        lemma_ident_set_views(observed@);
    }
    let mut i: usize = 0;
    while i < diff.unexpected.len()
        invariant
            old(store).wf(),
            store.wf(),
            i <= diff.unexpected@.len(),
            store.hosts@ == old(store).hosts@,
            store.users@ == old(store).users@,
            store.authorizations@ == old(store).authorizations@,
            store.next_host_id == old(store).next_host_id,
            store.next_user_id == old(store).next_user_id,
            old(store).keys@.len() <= store.keys@.len(),
            old(store).next_key_id <= store.next_key_id <= old(store).next_key_id + i,
            forall|x: int|
                0 <= x < old(store).keys@.len() ==> store.keys@[x] == old(store).keys@[x],
            forall|x: int|
                old(store).keys@.len() <= x < store.keys@.len() ==> (#[trigger] store.keys@[x]).owner
                    == KeyOwner::Unowned && seq_has_ident(
                    diff.unexpected@,
                    rec_ident(store.keys@[x]),
                ),
            forall|j: int|
                0 <= j < i ==> has_ident(
                    store.keys@,
                    ident_of_key(#[trigger] diff.unexpected@[j]),
                ) || old(store).next_key_id + diff.unexpected@.len() > i32::MAX,
            (forall|j: int|
                0 <= j < i ==> has_ident(
                    old(store).keys@,
                    ident_of_key(#[trigger] diff.unexpected@[j]),
                )) ==> *store == *old(store),
        decreases diff.unexpected@.len() - i,
    {
        let ghost prev = *store;
        let k = diff.unexpected[i].duplicate();
        proof {
            assert(k@ == diff.unexpected@[i as int]@);
        }
        match store.upsert_unowned_key(k) {
            Ok(_) => {},
            Err(_) => {},
        }
        proof {
            assert forall|x: int|
                0 <= x < old(store).keys@.len() implies store.keys@[x]
                == old(store).keys@[x] by {}
            assert forall|j: int|
                0 <= j < i + 1 implies has_ident(
                store.keys@,
                ident_of_key(#[trigger] diff.unexpected@[j]),
            ) || old(store).next_key_id + diff.unexpected@.len() > i32::MAX by {
                if j < i {
                    if has_ident(prev.keys@, ident_of_key(diff.unexpected@[j])) {
                        let w = choose|w: int|
                            0 <= w < prev.keys@.len() && rec_ident(prev.keys@[w]) == ident_of_key(
                                diff.unexpected@[j],
                            );
                        assert(rec_ident(store.keys@[w]) == ident_of_key(diff.unexpected@[j]));
                    }
                }
            }
        }
        i = i + 1;
    }
    diff
}

} // verus!
