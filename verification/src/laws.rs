//! The store's laws: properties that hold of every well-formed store, proved
//! once and for all over the model.

use vstd::prelude::*;

use crate::decimal::spec_decimal;
use crate::model::{
    create_post, delete_backup_post, has_version_in, in_version, key_in_room, key_in_version,
    key_is, keys_unique, lemma_create_wf, lemma_filter_elements, lemma_filter_unique,
    lemma_latest_exists, lemma_replace_entry, mutated, outside_room, outside_session,
    outside_version, update_post, KeyEntry, StoreModel, VersionEntry,
};

verus! {

/// Monotonic versions: a created version carries an allocation number
/// strictly greater than every version already present, any user's
/// versions included, and it becomes exactly the creating user's latest
/// version, so the latest version is always the most recently created one
/// and identifiers are never reused. Being latest, the new version is at
/// once the one open to key mutation.
pub proof fn lemma_create_monotonic(
    pre: StoreModel,
    post: StoreModel,
    user: Seq<char>,
    algorithm: Seq<char>,
)
    requires
        pre.wf(),
        pre.next < u64::MAX,
        pre.next_etag < u64::MAX,
        create_post(pre, post, user, algorithm),
    ensures
        post.latest_version(user) == Some(spec_decimal(pre.next as nat)),
        post.guard_ok(user, spec_decimal(pre.next as nat)),
        post.versions.last().version == spec_decimal(pre.next as nat),
        forall|i: int|
            0 <= i < pre.versions.len() ==> (#[trigger] pre.versions[i]).num
                < post.versions.last().num,
{
    lemma_create_wf(pre, post, user, algorithm);
    assert(post.versions.last().num == pre.next);
    assert forall|i: int|
        0 <= i < pre.versions.len() implies (#[trigger] pre.versions[i]).num
        < post.versions.last().num by {
        assert(pre.versions[i].wf(pre.next, pre.next_etag));
    }
}

/// Mutation is restricted to the latest version: a version that another
/// version of the same user was created after is never the user's latest,
/// so the mutation guard rejects it.
pub proof fn lemma_older_version_not_latest(m: StoreModel, i: int, j: int)
    requires
        m.wf(),
        0 <= i < j < m.versions.len(),
        m.versions[i].user == m.versions[j].user,
    ensures
        !m.guard_ok(m.versions[i].user, m.versions[i].version),
{
    let user = m.versions[i].user;
    assert(m.has_user(user));
    lemma_latest_exists(m.versions, user);
    let l: int = m.latest_index(user);
    if l < j {
        assert(m.versions[j].user != user);
    }
    if m.guard_ok(user, m.versions[i].version) {
        assert(m.versions[l].version == m.versions[i].version);
        assert(i < l);
        assert(!(m.versions[i].user == m.versions[l].user && m.versions[i].version
            == m.versions[l].version));
        assert(false);
    }
}

/// Reads are unrestricted: creating a new version disturbs no other
/// version's readable state. Every previously existing version still
/// exists, and its stored keys, counts and room contents are exactly what
/// they were: reads of an old version are unaffected by a newer one.
pub proof fn lemma_create_preserves_reads(
    pre: StoreModel,
    post: StoreModel,
    user: Seq<char>,
    algorithm: Seq<char>,
    u2: Seq<char>,
    v2: Seq<char>,
    room: Seq<char>,
    session: Seq<char>,
)
    requires
        pre.wf(),
        pre.next < u64::MAX,
        pre.next_etag < u64::MAX,
        create_post(pre, post, user, algorithm),
        pre.has_version(u2, v2),
    ensures
        post.has_version(u2, v2),
        post.session_data(u2, v2, room, session) == pre.session_data(u2, v2, room, session),
        post.room_keys(u2, v2, room) == pre.room_keys(u2, v2, room),
        post.count_of(u2, v2) == pre.count_of(u2, v2),
{
    lemma_create_wf(pre, post, user, algorithm);
}

/// The set of distinct (room, session) pairs stored under one version.
pub open spec fn present_pairs(m: StoreModel, user: Seq<char>, version: Seq<char>) -> Set<
    (Seq<char>, Seq<char>),
> {
    Set::new(|p: (Seq<char>, Seq<char>)| m.has_key(user, version, p.0, p.1))
}

/// Count accuracy: the derived key count of a version always equals the
/// number of distinct (room, session) pairs stored under it, whatever
/// sequence of stores and deletes produced the state.
pub proof fn lemma_count_is_distinct_pairs(m: StoreModel, user: Seq<char>, version: Seq<char>)
    requires
        m.wf(),
    ensures
        present_pairs(m, user, version).finite(),
        m.count_of(user, version) == present_pairs(m, user, version).len(),
{
    broadcast use vstd::seq_lib::group_filter_ensures;

    let fs = m.keys.filter(in_version(user, version));
    let pairs = fs.map_values(|k: KeyEntry| (k.room, k.session));
    lemma_filter_unique(m.keys, in_version(user, version));
    lemma_filter_elements(m.keys, in_version(user, version));
    assert forall|a: int, b: int|
        0 <= a < pairs.len() && 0 <= b < pairs.len() && a != b implies pairs[a] != pairs[b] by {
        let x: int = if a < b {
            a
        } else {
            b
        };
        let y: int = if a < b {
            b
        } else {
            a
        };
        assert(in_version(user, version)(fs[x]));
        assert(in_version(user, version)(fs[y]));
        assert(!key_is(fs[x], (fs[y]).user, fs[y].version, fs[y].room, fs[y].session));
    }
    assert(pairs.no_duplicates());
    pairs.unique_seq_to_set();
    assert(pairs.to_set() =~= present_pairs(m, user, version)) by {
        assert forall|p: (Seq<char>, Seq<char>)| #[trigger]
            pairs.to_set().contains(p) implies present_pairs(m, user, version).contains(p) by {
            let a: int = choose|a: int| 0 <= a < pairs.len() && pairs[a] == p;
            let j: int = choose|j: int| 0 <= j < m.keys.len() && fs[a] == #[trigger] m.keys[j];
            assert(in_version(user, version)(fs[a]));
            assert(key_is(m.keys[j], user, version, p.0, p.1));
        }
        assert forall|p: (Seq<char>, Seq<char>)| #[trigger]
            present_pairs(m, user, version).contains(p) implies pairs.to_set().contains(p) by {
            let i: int = choose|i: int|
                0 <= i < m.keys.len() && key_is(#[trigger] m.keys[i], user, version, p.0, p.1);
            assert(in_version(user, version)(m.keys[i]));
            assert(fs.contains(m.keys[i]));
            let a: int = choose|a: int| 0 <= a < fs.len() && fs[a] == m.keys[i];
            assert(pairs[a] == p);
            assert(pairs.contains(p));
        }
    }
}

/// Etag change detection, for key mutations: a successful key mutation of
/// a version leaves it with an etag different from the one it had. Reads
/// take the store immutably, so a sequence of reads cannot change any
/// etag.
pub proof fn lemma_mutation_changes_etag(
    pre: StoreModel,
    post: StoreModel,
    user: Seq<char>,
    version: Seq<char>,
    new_keys: Seq<KeyEntry>,
)
    requires
        pre.wf(),
        pre.next_etag < u64::MAX,
        pre.has_version(user, version),
        mutated(pre, post, user, version, new_keys),
    ensures
        pre.etag_of(user, version) is Some,
        post.etag_of(user, version) is Some,
        post.etag_of(user, version) != pre.etag_of(user, version),
{
    lemma_replace_entry(
        pre,
        post.versions,
        user,
        version,
        (VersionEntry { etag: pre.next_etag, ..pre.version_at(user, version) }),
    );
    let i: int = pre.version_index(user, version);
    assert(pre.versions[i].wf(pre.next, pre.next_etag));
    assert(pre.etag_of(user, version) == Some(pre.versions[i].etag));
    assert(post.etag_of(user, version) == Some(pre.next_etag));
}

/// Etag change detection, for metadata updates: replacing a version's
/// algorithm leaves it with an etag different from the one it had.
pub proof fn lemma_update_changes_etag(
    pre: StoreModel,
    post: StoreModel,
    user: Seq<char>,
    version: Seq<char>,
    algorithm: Seq<char>,
)
    requires
        pre.wf(),
        pre.next_etag < u64::MAX,
        update_post(pre, post, user, version, algorithm),
    ensures
        pre.etag_of(user, version) is Some,
        post.etag_of(user, version) is Some,
        post.etag_of(user, version) != pre.etag_of(user, version),
{
    lemma_replace_entry(
        pre,
        post.versions,
        user,
        version,
        (VersionEntry {
            algorithm,
            etag: pre.next_etag,
            ..pre.version_at(user, version)
        }),
    );
    let i: int = pre.version_index(user, version);
    assert(pre.versions[i].wf(pre.next, pre.next_etag));
    assert(pre.etag_of(user, version) == Some(pre.versions[i].etag));
    assert(post.etag_of(user, version) == Some(pre.next_etag));
}

/// Cascade delete: after a backup version is deleted, the version is gone,
/// no key under it can be read, its count is zero, and none of its rooms
/// is listed any more.
pub proof fn lemma_delete_backup_cascade(
    pre: StoreModel,
    post: StoreModel,
    user: Seq<char>,
    version: Seq<char>,
    room: Seq<char>,
    session: Seq<char>,
)
    requires
        pre.wf(),
        delete_backup_post(pre, post, user, version),
    ensures
        !post.has_version(user, version),
        post.session_data(user, version, room, session) == None::<Seq<char>>,
        post.count_of(user, version) == 0,
        !post.room_present(user, version, room),
{
    broadcast use vstd::seq_lib::group_filter_ensures;

    if pre.has_version(user, version) {
        let i: int = pre.version_index(user, version);
        assert(0 <= i < pre.versions.len() && pre.versions[i].user == user
            && pre.versions[i].version == version);
        if post.has_version(user, version) {
            let w: int = choose|w: int|
                0 <= w < post.versions.len() && (#[trigger] post.versions[w]).user == user
                    && post.versions[w].version == version;
            let w2: int = if w < i {
                w
            } else {
                w + 1
            };
            assert(post.versions[w] == pre.versions[w2]);
            assert(false);
        }
        assert forall|a: int|
            0 <= a < post.keys.len() implies !key_in_version(
            #[trigger] post.keys[a],
            user,
            version,
        ) by {
            assert(outside_version(user, version)(post.keys[a]));
        }
        if post.has_key(user, version, room, session) {
            let a: int = choose|a: int|
                0 <= a < post.keys.len() && key_is(
                    #[trigger] post.keys[a],
                    user,
                    version,
                    room,
                    session,
                );
            assert(false);
        }
        if post.count_of(user, version) > 0 {
            let fs = post.keys.filter(in_version(user, version));
            lemma_filter_elements(post.keys, in_version(user, version));
            let j: int = choose|j: int| 0 <= j < post.keys.len() && fs[0] == #[trigger] post.keys[j];
            assert(in_version(user, version)(fs[0]));
            assert(false);
        }
        if post.room_present(user, version, room) {
            let a: int = choose|a: int|
                0 <= a < post.keys.len() && key_in_room(
                    #[trigger] post.keys[a],
                    user,
                    version,
                    room,
                );
            assert(false);
        }
    } else {
        assert(post == pre);
        lemma_absent_version_reads_empty(post, user, version, room, session);
    }
}

/// A version that does not exist holds nothing: no key, no count, no room.
pub proof fn lemma_absent_version_reads_empty(
    m: StoreModel,
    user: Seq<char>,
    version: Seq<char>,
    room: Seq<char>,
    session: Seq<char>,
)
    requires
        m.wf(),
        !m.has_version(user, version),
    ensures
        m.session_data(user, version, room, session) == None::<Seq<char>>,
        m.count_of(user, version) == 0,
        !m.room_present(user, version, room),
{
    broadcast use vstd::seq_lib::group_filter_ensures;

    assert forall|a: int|
        0 <= a < m.keys.len() implies !key_in_version(#[trigger] m.keys[a], user, version) by {
        assert(has_version_in(m.versions, m.keys[a].user, m.keys[a].version));
        if key_in_version(m.keys[a], user, version) {
            assert(m.has_version(user, version));
        }
    }
    if m.has_key(user, version, room, session) {
        let a: int = choose|a: int|
            0 <= a < m.keys.len() && key_is(#[trigger] m.keys[a], user, version, room, session);
        assert(false);
    }
    if m.count_of(user, version) > 0 {
        let fs = m.keys.filter(in_version(user, version));
        lemma_filter_elements(m.keys, in_version(user, version));
        let j: int = choose|j: int| 0 <= j < m.keys.len() && fs[0] == #[trigger] m.keys[j];
        assert(in_version(user, version)(fs[0]));
        assert(false);
    }
    if m.room_present(user, version, room) {
        let a: int = choose|a: int|
            0 <= a < m.keys.len() && key_in_room(#[trigger] m.keys[a], user, version, room);
        assert(false);
    }
}

/// Keeping everything is a no-op.
proof fn lemma_filter_all_true<A>(s: Seq<A>, p: spec_fn(A) -> bool)
    requires
        forall|i: int| 0 <= i < s.len() ==> p(#[trigger] s[i]),
    ensures
        s.filter(p) == s,
    decreases s.len(),
{
    reveal(Seq::filter);
    if s.len() > 0 {
        assert(forall|i: int| 0 <= i < s.drop_last().len() ==> p(#[trigger] s.drop_last()[i]));
        lemma_filter_all_true(s.drop_last(), p);
        assert(s.drop_last().push(s.last()) =~= s);
    }
}

/// Idempotent deletes: deleting a key, a room or a version's key set that
/// is already absent leaves the stored keys exactly as they were (the
/// delete is answered without error by the store's operations).
pub proof fn lemma_delete_absent_noop(
    m: StoreModel,
    user: Seq<char>,
    version: Seq<char>,
    room: Seq<char>,
    session: Seq<char>,
)
    requires
        m.wf(),
    ensures
        !m.has_key(user, version, room, session) ==> m.keys.filter(
            outside_session(user, version, room, session),
        ) == m.keys,
        !m.room_present(user, version, room) ==> m.keys.filter(outside_room(user, version, room))
            == m.keys,
        !m.has_version(user, version) ==> m.keys.filter(outside_version(user, version)) == m.keys,
{
    if !m.has_key(user, version, room, session) {
        assert forall|i: int|
            0 <= i < m.keys.len() implies outside_session(user, version, room, session)(
            #[trigger] m.keys[i],
        ) by {
            if key_is(m.keys[i], user, version, room, session) {
                assert(m.has_key(user, version, room, session));
            }
        }
        lemma_filter_all_true(m.keys, outside_session(user, version, room, session));
    }
    if !m.room_present(user, version, room) {
        assert forall|i: int|
            0 <= i < m.keys.len() implies outside_room(user, version, room)(
            #[trigger] m.keys[i],
        ) by {
            if key_in_room(m.keys[i], user, version, room) {
                assert(m.room_present(user, version, room));
            }
        }
        lemma_filter_all_true(m.keys, outside_room(user, version, room));
    }
    if !m.has_version(user, version) {
        assert forall|i: int|
            0 <= i < m.keys.len() implies outside_version(user, version)(
            #[trigger] m.keys[i],
        ) by {
            assert(has_version_in(m.versions, m.keys[i].user, m.keys[i].version));
            if key_in_version(m.keys[i], user, version) {
                assert(m.has_version(user, version));
            }
        }
        lemma_filter_all_true(m.keys, outside_version(user, version));
    }
}

} // verus!
