//! Mathematical model of the backup store.
//!
//! The executable store is viewed as a [`StoreModel`]: a sequence of version
//! entries in creation order, a sequence of stored session keys, and the
//! allocation counter that feeds both version numbers and etags. All public
//! contracts of the store speak in terms of this model.

use vstd::prelude::*;

use crate::decimal::spec_decimal;

verus! {

/// One stored session key: the composite identity and its opaque payload.
#[verifier::ext_equal]
pub ghost struct KeyEntry {
    pub user: Seq<char>,
    pub version: Seq<char>,
    pub room: Seq<char>,
    pub session: Seq<char>,
    pub data: Seq<char>,
}

/// Metadata of one backup version: owner, identifier (the decimal rendering
/// of `num`), the opaque algorithm blob, and the current etag.
#[verifier::ext_equal]
pub ghost struct VersionEntry {
    pub user: Seq<char>,
    pub version: Seq<char>,
    pub num: u64,
    pub algorithm: Seq<char>,
    pub etag: u64,
}

/// One session of a room, as handed in or out in bulk operations.
#[verifier::ext_equal]
pub ghost struct SessionView {
    pub session: Seq<char>,
    pub data: Seq<char>,
}

/// All sessions of one room, as handed in or out in bulk operations.
#[verifier::ext_equal]
pub ghost struct RoomView {
    pub room: Seq<char>,
    pub sessions: Seq<SessionView>,
}

/// The whole store: versions in creation order, stored keys, and the
/// counter from which version numbers and etags are allocated.
#[verifier::ext_equal]
pub ghost struct StoreModel {
    pub versions: Seq<VersionEntry>,
    pub keys: Seq<KeyEntry>,
    pub next: u64,
    pub next_etag: u64,
}

// ---------------------------------------------------------------------------
// Matching predicates on keys.
// ---------------------------------------------------------------------------

/// `k` belongs to the backup version `(user, version)`.
pub open spec fn key_in_version(k: KeyEntry, user: Seq<char>, version: Seq<char>) -> bool {
    k.user == user && k.version == version
}

/// `k` belongs to `room` of the backup version `(user, version)`.
pub open spec fn key_in_room(
    k: KeyEntry,
    user: Seq<char>,
    version: Seq<char>,
    room: Seq<char>,
) -> bool {
    key_in_version(k, user, version) && k.room == room
}

/// `k` is exactly the key of `session` in `room` of `(user, version)`.
pub open spec fn key_is(
    k: KeyEntry,
    user: Seq<char>,
    version: Seq<char>,
    room: Seq<char>,
    session: Seq<char>,
) -> bool {
    key_in_room(k, user, version, room) && k.session == session
}

// ---------------------------------------------------------------------------
// Lookup on key sequences.
// ---------------------------------------------------------------------------

/// The predicate selecting the keys of one backup version.
pub open spec fn in_version(user: Seq<char>, version: Seq<char>) -> spec_fn(KeyEntry) -> bool {
    |k: KeyEntry| key_in_version(k, user, version)
}

/// The predicate selecting the keys of one room of a backup version.
pub open spec fn in_room(user: Seq<char>, version: Seq<char>, room: Seq<char>) -> spec_fn(
    KeyEntry,
) -> bool {
    |k: KeyEntry| key_in_room(k, user, version, room)
}

/// The predicate keeping every key but those of one backup version.
pub open spec fn outside_version(user: Seq<char>, version: Seq<char>) -> spec_fn(
    KeyEntry,
) -> bool {
    |k: KeyEntry| !key_in_version(k, user, version)
}

/// The predicate keeping every key but those of one room.
pub open spec fn outside_room(user: Seq<char>, version: Seq<char>, room: Seq<char>) -> spec_fn(
    KeyEntry,
) -> bool {
    |k: KeyEntry| !key_in_room(k, user, version, room)
}

/// The predicate keeping every key but one session's.
pub open spec fn outside_session(
    user: Seq<char>,
    version: Seq<char>,
    room: Seq<char>,
    session: Seq<char>,
) -> spec_fn(KeyEntry) -> bool {
    |k: KeyEntry| !key_is(k, user, version, room, session)
}

/// Some stored key has the identity `(user, version, room, session)`.
pub open spec fn has_key_in(
    keys: Seq<KeyEntry>,
    user: Seq<char>,
    version: Seq<char>,
    room: Seq<char>,
    session: Seq<char>,
) -> bool {
    exists|i: int|
        0 <= i < keys.len() && key_is(#[trigger] keys[i], user, version, room, session)
}

/// The index of the key with identity `(user, version, room, session)`;
/// meaningful when `has_key_in` holds and the identities are unique.
pub open spec fn key_index_in(
    keys: Seq<KeyEntry>,
    user: Seq<char>,
    version: Seq<char>,
    room: Seq<char>,
    session: Seq<char>,
) -> int {
    choose|i: int|
        0 <= i < keys.len() && key_is(#[trigger] keys[i], user, version, room, session)
}

/// Insert-or-overwrite: last write for a given identity wins, everything
/// else is untouched; a fresh identity is appended.
pub open spec fn put_key(keys: Seq<KeyEntry>, e: KeyEntry) -> Seq<KeyEntry> {
    if has_key_in(keys, e.user, e.version, e.room, e.session) {
        keys.update(key_index_in(keys, e.user, e.version, e.room, e.session), e)
    } else {
        keys.push(e)
    }
}

/// The effect of storing every session of `ss` for `room`, in order.
pub open spec fn put_sessions(
    keys: Seq<KeyEntry>,
    user: Seq<char>,
    version: Seq<char>,
    room: Seq<char>,
    ss: Seq<SessionView>,
) -> Seq<KeyEntry>
    decreases ss.len(),
{
    if ss.len() == 0 {
        keys
    } else {
        put_key(
            put_sessions(keys, user, version, room, ss.drop_last()),
            (KeyEntry {
                user,
                version,
                room,
                session: ss.last().session,
                data: ss.last().data,
            }),
        )
    }
}

/// The effect of storing every room of `rs`, in order.
pub open spec fn put_rooms(
    keys: Seq<KeyEntry>,
    user: Seq<char>,
    version: Seq<char>,
    rs: Seq<RoomView>,
) -> Seq<KeyEntry>
    decreases rs.len(),
{
    if rs.len() == 0 {
        keys
    } else {
        put_sessions(
            put_rooms(keys, user, version, rs.drop_last()),
            user,
            version,
            rs.last().room,
            rs.last().sessions,
        )
    }
}

// ---------------------------------------------------------------------------
// Lookup on version sequences.
// ---------------------------------------------------------------------------

/// `user` owns at least one backup version.
pub open spec fn user_in(vs: Seq<VersionEntry>, user: Seq<char>) -> bool {
    exists|i: int| 0 <= i < vs.len() && (#[trigger] vs[i]).user == user
}

/// `i` points at the most recently created version of `user`.
pub open spec fn is_latest_in(vs: Seq<VersionEntry>, user: Seq<char>, i: int) -> bool {
    &&& 0 <= i < vs.len()
    &&& vs[i].user == user
    &&& forall|j: int| i < j < vs.len() ==> (#[trigger] vs[j]).user != user
}

/// The index of the most recently created version of `user`; meaningful
/// when `user_in` holds.
pub open spec fn latest_in(vs: Seq<VersionEntry>, user: Seq<char>) -> int {
    choose|i: int| is_latest_in(vs, user, i)
}

/// Some version entry has the identity `(user, version)`.
pub open spec fn has_version_in(
    vs: Seq<VersionEntry>,
    user: Seq<char>,
    version: Seq<char>,
) -> bool {
    exists|i: int|
        0 <= i < vs.len() && (#[trigger] vs[i]).user == user && vs[i].version == version
}

/// The index of the version entry `(user, version)`; meaningful when
/// `has_version_in` holds and identities are unique.
pub open spec fn version_index_in(
    vs: Seq<VersionEntry>,
    user: Seq<char>,
    version: Seq<char>,
) -> int {
    choose|i: int|
        0 <= i < vs.len() && (#[trigger] vs[i]).user == user && vs[i].version == version
}

// ---------------------------------------------------------------------------
// The model's observers and well-formedness.
// ---------------------------------------------------------------------------

impl VersionEntry {
    /// The identifier is the decimal rendering of the allocation number, and
    /// both the number and the etag were drawn from the counter.
    pub open spec fn wf(self, next: u64, next_etag: u64) -> bool {
        &&& self.version == spec_decimal(self.num as nat)
        &&& self.num < next
        &&& self.etag < next_etag
    }
}

impl StoreModel {
    pub open spec fn has_version(self, user: Seq<char>, version: Seq<char>) -> bool {
        has_version_in(self.versions, user, version)
    }

    pub open spec fn version_index(self, user: Seq<char>, version: Seq<char>) -> int {
        version_index_in(self.versions, user, version)
    }

    pub open spec fn version_at(self, user: Seq<char>, version: Seq<char>) -> VersionEntry {
        self.versions[self.version_index(user, version)]
    }

    /// The algorithm blob of `(user, version)`, if that version exists.
    pub open spec fn algorithm_of(self, user: Seq<char>, version: Seq<char>) -> Option<
        Seq<char>,
    > {
        if self.has_version(user, version) {
            Some(self.version_at(user, version).algorithm)
        } else {
            None
        }
    }

    /// The etag of `(user, version)`, if that version exists.
    pub open spec fn etag_of(self, user: Seq<char>, version: Seq<char>) -> Option<u64> {
        if self.has_version(user, version) {
            Some(self.version_at(user, version).etag)
        } else {
            None
        }
    }

    pub open spec fn has_user(self, user: Seq<char>) -> bool {
        user_in(self.versions, user)
    }

    pub open spec fn latest_index(self, user: Seq<char>) -> int {
        latest_in(self.versions, user)
    }

    /// The identifier of the most recently created version of `user`.
    pub open spec fn latest_version(self, user: Seq<char>) -> Option<Seq<char>> {
        if self.has_user(user) {
            Some(self.versions[self.latest_index(user)].version)
        } else {
            None
        }
    }

    /// The mutation guard: `version` names the most recently created version
    /// of `user`, so mutation is permitted.
    pub open spec fn guard_ok(self, user: Seq<char>, version: Seq<char>) -> bool {
        self.latest_version(user) == Some(version)
    }

    /// The number of stored keys of `(user, version)`: always derived from
    /// the key sequence, never cached.
    pub open spec fn count_of(self, user: Seq<char>, version: Seq<char>) -> nat {
        self.keys.filter(in_version(user, version)).len()
    }

    pub open spec fn has_key(
        self,
        user: Seq<char>,
        version: Seq<char>,
        room: Seq<char>,
        session: Seq<char>,
    ) -> bool {
        has_key_in(self.keys, user, version, room, session)
    }

    /// The payload of one stored session key, if present.
    pub open spec fn session_data(
        self,
        user: Seq<char>,
        version: Seq<char>,
        room: Seq<char>,
        session: Seq<char>,
    ) -> Option<Seq<char>> {
        if self.has_key(user, version, room, session) {
            Some(self.keys[key_index_in(self.keys, user, version, room, session)].data)
        } else {
            None
        }
    }

    /// The stored keys of one room of `(user, version)`, in storage order.
    pub open spec fn room_keys(self, user: Seq<char>, version: Seq<char>, room: Seq<char>) -> Seq<
        KeyEntry,
    > {
        self.keys.filter(in_room(user, version, room))
    }

    /// Some key of `(user, version)` lies in `room`.
    pub open spec fn room_present(
        self,
        user: Seq<char>,
        version: Seq<char>,
        room: Seq<char>,
    ) -> bool {
        exists|i: int|
            0 <= i < self.keys.len() && key_in_room(#[trigger] self.keys[i], user, version, room)
    }

    /// Version entries are well formed and strictly ordered by allocation
    /// number, identities are unique, and every stored key belongs to an
    /// existing version.
    pub open spec fn wf(self) -> bool {
        &&& versions_wf(self.versions, self.next, self.next_etag)
        &&& versions_ordered(self.versions)
        &&& versions_unique(self.versions)
        &&& keys_unique(self.keys)
        &&& keys_anchored(self.keys, self.versions)
    }
}

/// Every version entry is well formed against the counter.
pub open spec fn versions_wf(vs: Seq<VersionEntry>, next: u64, next_etag: u64) -> bool {
    forall|i: int| 0 <= i < vs.len() ==> (#[trigger] vs[i]).wf(next, next_etag)
}

/// Allocation numbers strictly increase in creation order.
pub open spec fn versions_ordered(vs: Seq<VersionEntry>) -> bool {
    forall|i: int, j: int|
        0 <= i < j < vs.len() ==> (#[trigger] vs[i]).num < (#[trigger] vs[j]).num
}

/// No two version entries share an identity `(user, version)`.
pub open spec fn versions_unique(vs: Seq<VersionEntry>) -> bool {
    forall|i: int, j: int|
        0 <= i < j < vs.len() ==> !((#[trigger] vs[i]).user == (#[trigger] vs[j]).user
            && vs[i].version == vs[j].version)
}

/// No two stored keys share an identity `(user, version, room, session)`.
pub open spec fn keys_unique(keys: Seq<KeyEntry>) -> bool {
    forall|i: int, j: int|
        0 <= i < j < keys.len() ==> !key_is(
            #[trigger] keys[i],
            (#[trigger] keys[j]).user,
            keys[j].version,
            keys[j].room,
            keys[j].session,
        )
}

/// Every stored key belongs to an existing version: no orphaned keys.
pub open spec fn keys_anchored(keys: Seq<KeyEntry>, vs: Seq<VersionEntry>) -> bool {
    forall|i: int|
        0 <= i < keys.len() ==> has_version_in(vs, (#[trigger] keys[i]).user, keys[i].version)
}

// ---------------------------------------------------------------------------
// Post-state predicates of the mutating operations.
// ---------------------------------------------------------------------------

/// A new version was appended: its number and initial etag are the old
/// counter value, its identifier that value's decimal rendering; keys are
/// untouched and the counter advanced.
pub open spec fn create_post(
    pre: StoreModel,
    post: StoreModel,
    user: Seq<char>,
    algorithm: Seq<char>,
) -> bool {
    &&& post.versions == pre.versions.push(
        (VersionEntry {
            user,
            version: spec_decimal(pre.next as nat),
            num: pre.next,
            algorithm,
            etag: pre.next_etag,
        }),
    )
    &&& post.keys == pre.keys
    &&& post.next == pre.next + 1
    &&& post.next_etag == pre.next_etag + 1
}

/// The algorithm blob of the existing version `(user, version)` was
/// replaced and its etag advanced; nothing else changed.
pub open spec fn update_post(
    pre: StoreModel,
    post: StoreModel,
    user: Seq<char>,
    version: Seq<char>,
    algorithm: Seq<char>,
) -> bool {
    &&& pre.has_version(user, version)
    &&& post.versions == pre.versions.update(
        pre.version_index(user, version),
        (VersionEntry { algorithm, etag: pre.next_etag, ..pre.version_at(user, version) }),
    )
    &&& post.keys == pre.keys
    &&& post.next == pre.next
    &&& post.next_etag == pre.next_etag + 1
}

/// The common shape of a successful key mutation of `(user, version)`: the
/// key sequence became `new_keys`, the version's etag advanced to the old
/// counter value, and the counter moved on.
pub open spec fn mutated(
    pre: StoreModel,
    post: StoreModel,
    user: Seq<char>,
    version: Seq<char>,
    new_keys: Seq<KeyEntry>,
) -> bool {
    &&& post.keys == new_keys
    &&& post.versions == pre.versions.update(
        pre.version_index(user, version),
        (VersionEntry { etag: pre.next_etag, ..pre.version_at(user, version) }),
    )
    &&& post.next == pre.next
    &&& post.next_etag == pre.next_etag + 1
}

/// The version `(user, version)` and every key under it are gone; other
/// versions, other keys and the counter are untouched. Deleting an absent
/// version changes nothing.
pub open spec fn delete_backup_post(
    pre: StoreModel,
    post: StoreModel,
    user: Seq<char>,
    version: Seq<char>,
) -> bool {
    if pre.has_version(user, version) {
        &&& post.versions == pre.versions.remove(pre.version_index(user, version))
        &&& post.keys == pre.keys.filter(outside_version(user, version))
        &&& post.next == pre.next
        &&& post.next_etag == pre.next_etag
    } else {
        post == pre
    }
}

// ---------------------------------------------------------------------------
// Basic lemmas about latest-version lookup.
// ---------------------------------------------------------------------------

/// At most one index is the latest for a user.
pub proof fn lemma_latest_unique(vs: Seq<VersionEntry>, user: Seq<char>, i: int, j: int)
    requires
        is_latest_in(vs, user, i),
        is_latest_in(vs, user, j),
    ensures
        i == j,
{
    if i < j {
        assert(vs[j].user != user);
    } else if j < i {
        assert(vs[i].user != user);
    }
}

/// A user with a version has a latest one.
pub proof fn lemma_latest_exists(vs: Seq<VersionEntry>, user: Seq<char>)
    requires
        user_in(vs, user),
    ensures
        is_latest_in(vs, user, latest_in(vs, user)),
    decreases vs.len(),
{
    let last: int = vs.len() - 1;
    if vs[last].user == user {
        assert(is_latest_in(vs, user, last));
    } else {
        let w: int = choose|i: int| 0 <= i < vs.len() && (#[trigger] vs[i]).user == user;
        assert(vs.drop_last()[w] == vs[w]);
        assert(user_in(vs.drop_last(), user));
        lemma_latest_exists(vs.drop_last(), user);
        let i: int = latest_in(vs.drop_last(), user);
        assert(vs[i] == vs.drop_last()[i]);
        assert(forall|j: int| i < j < vs.len() - 1 ==> (#[trigger] vs[j]).user != user) by {
            assert(forall|j: int|
                i < j < vs.len() - 1 ==> (#[trigger] vs.drop_last()[j]).user != user);
            assert(forall|j: int| i < j < vs.len() - 1 ==> vs.drop_last()[j] == vs[j]);
        }
        assert(is_latest_in(vs, user, i));
    }
}

/// With unique identities, any match determines the version index.
pub proof fn lemma_version_index(m: StoreModel, user: Seq<char>, version: Seq<char>, i: int)
    requires
        versions_unique(m.versions),
        0 <= i < m.versions.len(),
        m.versions[i].user == user,
        m.versions[i].version == version,
    ensures
        m.has_version(user, version),
        m.version_index(user, version) == i,
{
    assert(m.has_version(user, version));
    let k: int = m.version_index(user, version);
    if k < i {
        assert(!((m.versions[k]).user == (m.versions[i]).user && m.versions[k].version
            == m.versions[i].version));
    } else if i < k {
        assert(!((m.versions[i]).user == (m.versions[k]).user && m.versions[i].version
            == m.versions[k].version));
    }
}

/// With unique identities, any match determines the key index.
pub proof fn lemma_key_index(
    keys: Seq<KeyEntry>,
    user: Seq<char>,
    version: Seq<char>,
    room: Seq<char>,
    session: Seq<char>,
    i: int,
)
    requires
        keys_unique(keys),
        0 <= i < keys.len(),
        key_is(keys[i], user, version, room, session),
    ensures
        has_key_in(keys, user, version, room, session),
        key_index_in(keys, user, version, room, session) == i,
{
    assert(has_key_in(keys, user, version, room, session));
    let k: int = key_index_in(keys, user, version, room, session);
    if k < i {
        assert(!key_is(keys[k], (keys[i]).user, keys[i].version, keys[i].room, keys[i].session));
    } else if i < k {
        assert(!key_is(keys[i], (keys[k]).user, keys[k].version, keys[k].room, keys[k].session));
    }
}

/// A latest match determines the latest index and the latest version.
pub proof fn lemma_latest_at(m: StoreModel, user: Seq<char>, i: int)
    requires
        is_latest_in(m.versions, user, i),
    ensures
        m.has_user(user),
        m.latest_index(user) == i,
        m.latest_version(user) == Some(m.versions[i].version),
{
    assert(m.has_user(user));
    lemma_latest_unique(m.versions, user, m.latest_index(user), i);
}

/// Replacing the entry of `(user, version)` by one with the same identity
/// and allocation number and a freshly drawn etag preserves the version
/// invariants and changes no version's existence.
pub proof fn lemma_replace_entry(
    pre: StoreModel,
    vs2: Seq<VersionEntry>,
    user: Seq<char>,
    version: Seq<char>,
    e2: VersionEntry,
)
    requires
        pre.wf(),
        pre.has_version(user, version),
        pre.next_etag < u64::MAX,
        e2.user == pre.version_at(user, version).user,
        e2.version == pre.version_at(user, version).version,
        e2.num == pre.version_at(user, version).num,
        e2.etag == pre.next_etag,
        vs2 == pre.versions.update(pre.version_index(user, version), e2),
    ensures
        versions_wf(vs2, pre.next, (pre.next_etag + 1) as u64),
        versions_ordered(vs2),
        versions_unique(vs2),
        forall|u2: Seq<char>, v2: Seq<char>| #[trigger]
            has_version_in(vs2, u2, v2) == has_version_in(pre.versions, u2, v2),
        versions_unique(vs2) && has_version_in(vs2, user, version) && version_index_in(
            vs2,
            user,
            version,
        ) == pre.version_index(user, version),
        vs2[pre.version_index(user, version)].etag == pre.next_etag,
{
    let i: int = pre.version_index(user, version);
    assert(0 <= i < pre.versions.len() && pre.versions[i].user == user && pre.versions[i].version
        == version);
    assert(forall|j: int| 0 <= j < vs2.len() && j != i ==> vs2[j] == pre.versions[j]);
    assert(forall|j: int|
        0 <= j < vs2.len() ==> (#[trigger] vs2[j]).user == pre.versions[j].user && vs2[j].version
            == pre.versions[j].version && vs2[j].num == pre.versions[j].num);
    assert forall|j: int| 0 <= j < vs2.len() implies (#[trigger] vs2[j]).wf(
        pre.next,
        (pre.next_etag + 1) as u64,
    ) by {
        assert(pre.versions[j].wf(pre.next, pre.next_etag));
    }
    assert forall|u2: Seq<char>, v2: Seq<char>| #[trigger]
        has_version_in(vs2, u2, v2) == has_version_in(pre.versions, u2, v2) by {
        if has_version_in(vs2, u2, v2) {
            let w: int = choose|w: int|
                0 <= w < vs2.len() && (#[trigger] vs2[w]).user == u2 && vs2[w].version == v2;
            assert(pre.versions[w].user == u2 && pre.versions[w].version == v2);
            assert(has_version_in(pre.versions, u2, v2));
        }
        if has_version_in(pre.versions, u2, v2) {
            let w: int = choose|w: int|
                0 <= w < pre.versions.len() && (#[trigger] pre.versions[w]).user == u2
                    && pre.versions[w].version == v2;
            assert(vs2[w].user == u2 && vs2[w].version == v2);
            assert(has_version_in(vs2, u2, v2));
        }
    }
    let m2: StoreModel = StoreModel { versions: vs2, keys: pre.keys, next: pre.next, next_etag: pre.next_etag };
    lemma_version_index(m2, user, version, i);
}

/// Appending a freshly numbered version preserves the version invariants;
/// the new version becomes the user's latest.
pub proof fn lemma_create_wf(
    pre: StoreModel,
    post: StoreModel,
    user: Seq<char>,
    algorithm: Seq<char>,
)
    requires
        pre.wf(),
        pre.next < u64::MAX,
        pre.next_etag < u64::MAX,
        create_post(pre, post, user, algorithm),
    ensures
        post.wf(),
        post.latest_version(user) == Some(spec_decimal(pre.next as nat)),
        forall|u2: Seq<char>, v2: Seq<char>|
            has_version_in(pre.versions, u2, v2) ==> #[trigger] has_version_in(
                post.versions,
                u2,
                v2,
            ),
{
    let n: int = pre.versions.len() as int;
    assert(forall|j: int| 0 <= j < n ==> post.versions[j] == pre.versions[j]);
    assert forall|j: int| 0 <= j < post.versions.len() implies (#[trigger] post.versions[j]).wf(
        post.next,
        post.next_etag,
    ) by {
        if j < n {
            assert(pre.versions[j].wf(pre.next, pre.next_etag));
        }
    }
    assert forall|i: int, j: int| 0 <= i < j < post.versions.len() implies !((
    #[trigger] post.versions[i]).user == (#[trigger] post.versions[j]).user
        && post.versions[i].version == post.versions[j].version) by {
        if j == n && post.versions[i].version == post.versions[j].version {
            assert(pre.versions[i].wf(pre.next, pre.next_etag));
            crate::decimal::lemma_decimal_injective(
                pre.versions[i].num as nat,
                pre.next as nat,
            );
        }
    }
    assert forall|u2: Seq<char>, v2: Seq<char>|
        has_version_in(pre.versions, u2, v2) implies #[trigger] has_version_in(
        post.versions,
        u2,
        v2,
    ) by {
        let w: int = choose|w: int|
            0 <= w < pre.versions.len() && (#[trigger] pre.versions[w]).user == u2
                && pre.versions[w].version == v2;
        assert(post.versions[w].user == u2 && post.versions[w].version == v2);
    }
    assert forall|i: int|
        0 <= i < post.keys.len() implies has_version_in(
        post.versions,
        (#[trigger] post.keys[i]).user,
        post.keys[i].version,
    ) by {
        assert(has_version_in(pre.versions, pre.keys[i].user, pre.keys[i].version));
    }
    assert(is_latest_in(post.versions, user, n));
    lemma_latest_at(post, user, n);
}

/// The sessions carried by a sequence of keys, in order.
pub open spec fn sessions_of(ks: Seq<KeyEntry>) -> Seq<SessionView> {
    ks.map_values(|k: KeyEntry| SessionView { session: k.session, data: k.data })
}

/// Deleting a backup version preserves well-formedness.
pub proof fn lemma_delete_backup_wf(
    pre: StoreModel,
    post: StoreModel,
    user: Seq<char>,
    version: Seq<char>,
)
    requires
        pre.wf(),
        delete_backup_post(pre, post, user, version),
    ensures
        post.wf(),
{
    if pre.has_version(user, version) {
        let i: int = pre.version_index(user, version);
        assert(0 <= i < pre.versions.len() && pre.versions[i].user == user
            && pre.versions[i].version == version);
        let vs2 = post.versions;
        assert(forall|j: int| 0 <= j < i ==> vs2[j] == pre.versions[j]);
        assert(forall|j: int| i <= j < vs2.len() ==> vs2[j] == pre.versions[j + 1]);
        assert forall|a: int, b: int| 0 <= a < b < vs2.len() implies (#[trigger] vs2[a]).num < (
        #[trigger] vs2[b]).num by {
            let a2: int = if a < i { a } else { a + 1 };
            let b2: int = if b < i { b } else { b + 1 };
            assert(pre.versions[a2].num < pre.versions[b2].num);
        }
        assert forall|a: int, b: int| 0 <= a < b < vs2.len() implies !((#[trigger] vs2[a]).user
            == (#[trigger] vs2[b]).user && vs2[a].version == vs2[b].version) by {
            let a2: int = if a < i { a } else { a + 1 };
            let b2: int = if b < i { b } else { b + 1 };
            assert(!(pre.versions[a2].user == pre.versions[b2].user && pre.versions[a2].version
                == pre.versions[b2].version));
        }
        assert forall|j: int| 0 <= j < vs2.len() implies (#[trigger] vs2[j]).wf(
            post.next,
            post.next_etag,
        ) by {
            let j2: int = if j < i { j } else { j + 1 };
            assert(pre.versions[j2].wf(pre.next, pre.next_etag));
        }
        lemma_filter_unique(pre.keys, outside_version(user, version));
        lemma_filter_elements(pre.keys, outside_version(user, version));
        assert forall|a: int|
            0 <= a < post.keys.len() implies has_version_in(
            vs2,
            (#[trigger] post.keys[a]).user,
            post.keys[a].version,
        ) by {
            broadcast use vstd::seq_lib::group_filter_ensures;

            let k = post.keys[a];
            assert(outside_version(user, version)(k));
            let j: int = choose|j: int|
                0 <= j < pre.keys.len() && post.keys[a] == #[trigger] pre.keys[j];
            assert(has_version_in(pre.versions, k.user, k.version));
            let w: int = choose|w: int|
                0 <= w < pre.versions.len() && (#[trigger] pre.versions[w]).user == k.user
                    && pre.versions[w].version == k.version;
            if w == i {
                assert(key_in_version(k, user, version));
                assert(false);
            }
            let w2: int = if w < i { w } else { w - 1 };
            assert(vs2[w2] == pre.versions[w]);
            assert(has_version_in(vs2, k.user, k.version));
        }
    }
}

/// The grouped view of the keys of one backup version: rooms are listed
/// without repetition, exactly the rooms holding a key are listed, and each
/// room carries its keys in storage order.
pub open spec fn grouped_ok(
    keys: Seq<KeyEntry>,
    user: Seq<char>,
    version: Seq<char>,
    rv: Seq<RoomView>,
) -> bool {
    &&& forall|a: int, b: int|
        0 <= a < b < rv.len() ==> (#[trigger] rv[a]).room != (#[trigger] rv[b]).room
    &&& forall|a: int|
        0 <= a < rv.len() ==> (#[trigger] rv[a]).sessions == sessions_of(
            keys.filter(in_room(user, version, rv[a].room)),
        ) && exists|i: int|
            0 <= i < keys.len() && key_in_room(#[trigger] keys[i], user, version, rv[a].room)
    &&& forall|i: int|
        0 <= i < keys.len() && key_in_version(#[trigger] keys[i], user, version) ==> exists|a: int|
            0 <= a < rv.len() && (#[trigger] rv[a]).room == keys[i].room
}

/// Grouping is preserved when the next key belongs to another version.
pub proof fn lemma_group_step_skip(
    prefix: Seq<KeyEntry>,
    k: KeyEntry,
    user: Seq<char>,
    version: Seq<char>,
    rv: Seq<RoomView>,
)
    requires
        grouped_ok(prefix, user, version, rv),
        !key_in_version(k, user, version),
    ensures
        grouped_ok(prefix.push(k), user, version, rv),
{
    let keys2 = prefix.push(k);
    assert forall|a: int|
        0 <= a < rv.len() implies (#[trigger] rv[a]).sessions == sessions_of(
        keys2.filter(in_room(user, version, rv[a].room)),
    ) && exists|i: int|
        0 <= i < keys2.len() && key_in_room(#[trigger] keys2[i], user, version, rv[a].room) by {
        lemma_filter_push(prefix, k, in_room(user, version, rv[a].room));
        let i: int = choose|i: int|
            0 <= i < prefix.len() && key_in_room(#[trigger] prefix[i], user, version, rv[a].room);
        assert(key_in_room(keys2[i], user, version, rv[a].room));
    }
    assert forall|i: int|
        0 <= i < keys2.len() && key_in_version(#[trigger] keys2[i], user, version) implies exists|
        a: int,
    |
        0 <= a < rv.len() && (#[trigger] rv[a]).room == keys2[i].room by {
        assert(i < prefix.len() && keys2[i] == prefix[i]);
        let a: int = choose|a: int| 0 <= a < rv.len() && (#[trigger] rv[a]).room == prefix[i].room;
        assert(rv[a].room == keys2[i].room);
    }
}

/// Grouping is absorbed into an already listed room.
pub proof fn lemma_group_step_existing(
    prefix: Seq<KeyEntry>,
    k: KeyEntry,
    user: Seq<char>,
    version: Seq<char>,
    rv: Seq<RoomView>,
    a0: int,
)
    requires
        grouped_ok(prefix, user, version, rv),
        key_in_version(k, user, version),
        0 <= a0 < rv.len(),
        rv[a0].room == k.room,
    ensures
        grouped_ok(
            prefix.push(k),
            user,
            version,
            rv.update(
                a0,
                (RoomView {
                    room: rv[a0].room,
                    sessions: rv[a0].sessions.push(
                        (SessionView { session: k.session, data: k.data }),
                    ),
                }),
            ),
        ),
{
    let keys2 = prefix.push(k);
    let rv2 = rv.update(
        a0,
        (RoomView {
            room: rv[a0].room,
            sessions: rv[a0].sessions.push((SessionView { session: k.session, data: k.data })),
        }),
    );
    assert(forall|x: int| 0 <= x < rv2.len() ==> (#[trigger] rv2[x]).room == rv[x].room);
    assert forall|a: int|
        0 <= a < rv2.len() implies (#[trigger] rv2[a]).sessions == sessions_of(
        keys2.filter(in_room(user, version, rv2[a].room)),
    ) && exists|i: int|
        0 <= i < keys2.len() && key_in_room(#[trigger] keys2[i], user, version, rv2[a].room) by {
        lemma_filter_push(prefix, k, in_room(user, version, rv[a].room));
        if a == a0 {
            assert(in_room(user, version, rv[a0].room)(k));
            assert(sessions_of(
                prefix.filter(in_room(user, version, rv[a0].room)).push(k),
            ) =~= sessions_of(prefix.filter(in_room(user, version, rv[a0].room))).push(
                (SessionView { session: k.session, data: k.data }),
            ));
            assert(key_in_room(keys2[prefix.len() as int], user, version, rv2[a0].room));
        } else {
            if a < a0 {
                assert(rv[a].room != rv[a0].room);
            } else {
                assert(rv[a0].room != rv[a].room);
            }
            assert(!in_room(user, version, rv[a].room)(k));
            let i: int = choose|i: int|
                0 <= i < prefix.len() && key_in_room(
                    #[trigger] prefix[i],
                    user,
                    version,
                    rv[a].room,
                );
            assert(key_in_room(keys2[i], user, version, rv2[a].room));
        }
    }
    assert forall|i: int|
        0 <= i < keys2.len() && key_in_version(#[trigger] keys2[i], user, version) implies exists|
        a: int,
    |
        0 <= a < rv2.len() && (#[trigger] rv2[a]).room == keys2[i].room by {
        if i < prefix.len() {
            let a: int = choose|a: int|
                0 <= a < rv.len() && (#[trigger] rv[a]).room == prefix[i].room;
            assert(rv2[a].room == keys2[i].room);
        } else {
            assert(rv2[a0].room == keys2[i].room);
        }
    }
}

/// Grouping opens a new room for a key of a room not yet listed.
pub proof fn lemma_group_step_fresh(
    prefix: Seq<KeyEntry>,
    k: KeyEntry,
    user: Seq<char>,
    version: Seq<char>,
    rv: Seq<RoomView>,
)
    requires
        grouped_ok(prefix, user, version, rv),
        key_in_version(k, user, version),
        forall|b: int| 0 <= b < rv.len() ==> (#[trigger] rv[b]).room != k.room,
    ensures
        grouped_ok(
            prefix.push(k),
            user,
            version,
            rv.push(
                (RoomView {
                    room: k.room,
                    sessions: Seq::<SessionView>::empty().push(
                        (SessionView { session: k.session, data: k.data }),
                    ),
                }),
            ),
        ),
{
    broadcast use vstd::seq_lib::group_filter_ensures;

    let keys2 = prefix.push(k);
    let rv2 = rv.push(
        (RoomView {
            room: k.room,
            sessions: Seq::<SessionView>::empty().push(
                (SessionView { session: k.session, data: k.data }),
            ),
        }),
    );
    lemma_filter_elements(prefix, in_room(user, version, k.room));
    if prefix.filter(in_room(user, version, k.room)).len() > 0 {
        let j: int = choose|j: int|
            0 <= j < prefix.len() && prefix.filter(in_room(user, version, k.room))[0]
                == #[trigger] prefix[j];
        assert(in_room(user, version, k.room)(prefix.filter(in_room(user, version, k.room))[0]));
        assert(key_in_version(prefix[j], user, version));
        let a: int = choose|a: int| 0 <= a < rv.len() && (#[trigger] rv[a]).room == prefix[j].room;
        assert(false);
    }
    assert(prefix.filter(in_room(user, version, k.room)) =~= Seq::<KeyEntry>::empty());
    assert forall|a: int|
        0 <= a < rv2.len() implies (#[trigger] rv2[a]).sessions == sessions_of(
        keys2.filter(in_room(user, version, rv2[a].room)),
    ) && exists|i: int|
        0 <= i < keys2.len() && key_in_room(#[trigger] keys2[i], user, version, rv2[a].room) by {
        lemma_filter_push(prefix, k, in_room(user, version, rv2[a].room));
        if a < rv.len() {
            assert(rv[a].room != k.room);
            assert(!in_room(user, version, rv[a].room)(k));
            let i: int = choose|i: int|
                0 <= i < prefix.len() && key_in_room(
                    #[trigger] prefix[i],
                    user,
                    version,
                    rv[a].room,
                );
            assert(key_in_room(keys2[i], user, version, rv2[a].room));
        } else {
            assert(in_room(user, version, k.room)(k));
            assert(keys2.filter(in_room(user, version, k.room)) == Seq::<KeyEntry>::empty().push(
                k,
            ));
            assert(rv2[a].sessions =~= sessions_of(Seq::<KeyEntry>::empty().push(k)));
            assert(key_in_room(keys2[prefix.len() as int], user, version, rv2[a].room));
        }
    }
    assert forall|i: int|
        0 <= i < keys2.len() && key_in_version(#[trigger] keys2[i], user, version) implies exists|
        a: int,
    |
        0 <= a < rv2.len() && (#[trigger] rv2[a]).room == keys2[i].room by {
        if i < prefix.len() {
            let a: int = choose|a: int|
                0 <= a < rv.len() && (#[trigger] rv[a]).room == prefix[i].room;
            assert(rv2[a].room == keys2[i].room);
        } else {
            assert(rv2[rv.len() as int].room == keys2[i].room);
        }
    }
}

/// Filtering a pushed element keeps or drops it, element by element.
pub proof fn lemma_filter_push<A>(s: Seq<A>, x: A, p: spec_fn(A) -> bool)
    ensures
        s.push(x).filter(p) == (if p(x) {
            s.filter(p).push(x)
        } else {
            s.filter(p)
        }),
{
    reveal(Seq::filter);
    assert(s.push(x).drop_last() =~= s);
    assert(s.push(x).last() == x);
}

/// Every element of a filtered sequence stands somewhere in the original.
pub proof fn lemma_filter_elements<A>(s: Seq<A>, p: spec_fn(A) -> bool)
    ensures
        forall|a: int|
            0 <= a < s.filter(p).len() ==> exists|j: int|
                0 <= j < s.len() && #[trigger] s.filter(p)[a] == s[j],
    decreases s.len(),
{
    reveal(Seq::filter);
    if s.len() > 0 {
        lemma_filter_elements(s.drop_last(), p);
        let sub = s.drop_last().filter(p);
        assert forall|a: int| 0 <= a < s.filter(p).len() implies exists|j: int|
            0 <= j < s.len() && #[trigger] s.filter(p)[a] == s[j] by {
            if a < sub.len() {
                let j: int = choose|j: int| 0 <= j < s.drop_last().len() && sub[a] == #[trigger] s.drop_last()[j];
                assert(s.filter(p)[a] == sub[a]);
                assert(s.filter(p)[a] == s[j]);
            } else {
                assert(p(s.last()) && s.filter(p)[a] == s.last());
                assert(s.filter(p)[a] == s[s.len() - 1]);
            }
        }
    }
}

/// Filtering keeps key identities unique.
pub proof fn lemma_filter_unique(keys: Seq<KeyEntry>, p: spec_fn(KeyEntry) -> bool)
    requires
        keys_unique(keys),
    ensures
        keys_unique(keys.filter(p)),
    decreases keys.len(),
{
    reveal(Seq::filter);
    if keys.len() > 0 {
        let prefix = keys.drop_last();
        assert(forall|j: int| 0 <= j < prefix.len() ==> prefix[j] == keys[j]);
        assert(keys_unique(prefix));
        lemma_filter_unique(prefix, p);
        lemma_filter_elements(prefix, p);
        let sub = prefix.filter(p);
        if p(keys.last()) {
            assert forall|a: int, b: int|
                0 <= a < b < keys.filter(p).len() implies !key_is(
                #[trigger] keys.filter(p)[a],
                (#[trigger] keys.filter(p)[b]).user,
                keys.filter(p)[b].version,
                keys.filter(p)[b].room,
                keys.filter(p)[b].session,
            ) by {
                if b < sub.len() {
                    assert(keys.filter(p)[a] == sub[a] && keys.filter(p)[b] == sub[b]);
                } else {
                    assert(keys.filter(p)[b] == keys.last());
                    assert(keys.filter(p)[a] == sub[a]);
                    let j: int = choose|j: int| 0 <= j < prefix.len() && sub[a] == #[trigger] prefix[j];
                    assert(sub[a] == keys[j]);
                    assert(!key_is(
                        keys[j],
                        (keys[keys.len() - 1]).user,
                        keys[keys.len() - 1].version,
                        keys[keys.len() - 1].room,
                        keys[keys.len() - 1].session,
                    ));
                }
            }
        }
    }
}

/// Filtering keeps keys anchored.
pub proof fn lemma_filter_anchored(
    keys: Seq<KeyEntry>,
    vs: Seq<VersionEntry>,
    p: spec_fn(KeyEntry) -> bool,
)
    requires
        keys_anchored(keys, vs),
    ensures
        keys_anchored(keys.filter(p), vs),
{
    lemma_filter_elements(keys, p);
    assert forall|i: int|
        0 <= i < keys.filter(p).len() implies has_version_in(
        vs,
        (#[trigger] keys.filter(p)[i]).user,
        keys.filter(p)[i].version,
    ) by {
        let j: int = choose|j: int| 0 <= j < keys.len() && keys.filter(p)[i] == #[trigger] keys[j];
        assert(has_version_in(vs, keys[j].user, keys[j].version));
    }
}

/// Insert-or-overwrite keeps key identities unique and anchored.
pub proof fn lemma_put_key_wf(keys: Seq<KeyEntry>, vs: Seq<VersionEntry>, e: KeyEntry)
    requires
        keys_unique(keys),
        keys_anchored(keys, vs),
        has_version_in(vs, e.user, e.version),
    ensures
        keys_unique(put_key(keys, e)),
        keys_anchored(put_key(keys, e), vs),
{
    let out = put_key(keys, e);
    if has_key_in(keys, e.user, e.version, e.room, e.session) {
        let k: int = key_index_in(keys, e.user, e.version, e.room, e.session);
        assert(0 <= k < keys.len() && key_is(keys[k], e.user, e.version, e.room, e.session));
        assert(forall|j: int| 0 <= j < out.len() && j != k ==> out[j] == keys[j]);
        assert(out[k] == e);
        assert forall|a: int, b: int|
            0 <= a < b < out.len() implies !key_is(
            #[trigger] out[a],
            (#[trigger] out[b]).user,
            out[b].version,
            out[b].room,
            out[b].session,
        ) by {
            assert(!key_is(
                keys[a],
                (keys[b]).user,
                keys[b].version,
                keys[b].room,
                keys[b].session,
            ));
        }
    } else {
        assert(forall|j: int| 0 <= j < keys.len() ==> out[j] == keys[j]);
        assert(out.last() == e);
        assert forall|a: int, b: int|
            0 <= a < b < out.len() implies !key_is(
            #[trigger] out[a],
            (#[trigger] out[b]).user,
            out[b].version,
            out[b].room,
            out[b].session,
        ) by {
            if b == keys.len() {
                if key_is(out[a], e.user, e.version, e.room, e.session) {
                    assert(has_key_in(keys, e.user, e.version, e.room, e.session));
                }
            } else {
                assert(!key_is(
                    keys[a],
                    (keys[b]).user,
                    keys[b].version,
                    keys[b].room,
                    keys[b].session,
                ));
            }
        }
    }
}

/// A successful key mutation preserves well-formedness, provided the new
/// key sequence keeps unique identities anchored to the old versions, and
/// it stamps the mutated version's etag with the freshly drawn value.
pub proof fn lemma_mutated_wf(
    pre: StoreModel,
    post: StoreModel,
    user: Seq<char>,
    version: Seq<char>,
    new_keys: Seq<KeyEntry>,
)
    requires
        pre.wf(),
        pre.next_etag < u64::MAX,
        pre.has_version(user, version),
        mutated(pre, post, user, version, new_keys),
        keys_unique(new_keys),
        keys_anchored(new_keys, pre.versions),
    ensures
        post.wf(),
        post.etag_of(user, version) == Some(pre.next_etag),
        post.count_of(user, version) == new_keys.filter(in_version(user, version)).len(),
        forall|u2: Seq<char>, v2: Seq<char>| #[trigger]
            has_version_in(post.versions, u2, v2) == has_version_in(pre.versions, u2, v2),
{
    let i: int = pre.version_index(user, version);
    lemma_replace_entry(
        pre,
        post.versions,
        user,
        version,
        (VersionEntry { etag: pre.next_etag, ..pre.version_at(user, version) }),
    );
    assert forall|j: int|
        0 <= j < post.keys.len() implies has_version_in(
        post.versions,
        (#[trigger] post.keys[j]).user,
        post.keys[j].version,
    ) by {
        assert(has_version_in(pre.versions, new_keys[j].user, new_keys[j].version));
    }
    lemma_version_index(post, user, version, i);
    assert(post.versions[i].etag == pre.next_etag);
}

} // verus!
