//! The backup version and key store.
//!
//! [`KeyBackups`] holds every user's backup versions and stored session
//! keys. Versions are created with identifiers drawn from a monotonic
//! counter, only the most recently created version of a user accepts key
//! mutations, and every successful mutation advances the version's etag.
//! All contracts are stated over the store's model, a [`StoreModel`].

use vstd::prelude::*;

use crate::decimal::decimal_string;
use crate::decimal::spec_decimal;
use crate::model::{
    create_post, delete_backup_post, grouped_ok, has_version_in, in_room, in_version,
    is_latest_in, key_index_in, key_is, keys_anchored, keys_unique, lemma_create_wf,
    lemma_delete_backup_wf, lemma_filter_anchored, lemma_filter_push, lemma_filter_unique,
    lemma_group_step_existing, lemma_group_step_fresh, lemma_group_step_skip, lemma_key_index,
    lemma_latest_at, lemma_mutated_wf, lemma_put_key_wf, lemma_replace_entry,
    lemma_version_index, mutated, outside_room, outside_session, outside_version, put_key,
    put_rooms, put_sessions, sessions_of, update_post, versions_unique, KeyEntry, RoomView,
    SessionView, StoreModel, VersionEntry,
};
use crate::BackupError;

verus! {

/// Metadata of one backup version.
struct VersionRecord {
    user: String,
    version: String,
    num: u64,
    algorithm: String,
    etag: u64,
}

impl View for VersionRecord {
    type V = VersionEntry;

    closed spec fn view(&self) -> VersionEntry {
        VersionEntry {
            user: self.user@,
            version: self.version@,
            num: self.num,
            algorithm: self.algorithm@,
            etag: self.etag,
        }
    }
}

/// One stored session key.
struct KeyRecord {
    user: String,
    version: String,
    room_id: String,
    session_id: String,
    key_data: String,
}

impl View for KeyRecord {
    type V = KeyEntry;

    closed spec fn view(&self) -> KeyEntry {
        KeyEntry {
            user: self.user@,
            version: self.version@,
            room: self.room_id@,
            session: self.session_id@,
            data: self.key_data@,
        }
    }
}

/// One session's key material, as handed in and out of bulk operations.
#[derive(Debug)]
pub struct SessionData {
    pub session_id: String,
    pub key_data: String,
}

impl View for SessionData {
    type V = SessionView;

    open spec fn view(&self) -> SessionView {
        SessionView { session: self.session_id@, data: self.key_data@ }
    }
}

/// All sessions of one room, as handed in and out of bulk operations.
#[derive(Debug)]
pub struct RoomSessions {
    pub room_id: String,
    pub sessions: Vec<SessionData>,
}

impl View for RoomSessions {
    type V = RoomView;

    open spec fn view(&self) -> RoomView {
        RoomView {
            room: self.room_id@,
            sessions: self.sessions@.map_values(|s: SessionData| s@),
        }
    }
}

/// The outcome of a successful key mutation: the number of keys now stored
/// under the version, and its new etag.
#[derive(Debug)]
pub struct KeyStats {
    pub count: usize,
    pub etag: u64,
}

/// Metadata returned for one backup version.
#[derive(Debug)]
pub struct BackupInfo {
    pub version: String,
    pub algorithm: String,
    pub count: usize,
    pub etag: u64,
}

/// The store of all users' backup versions and session keys.
pub struct KeyBackups {
    versions: Vec<VersionRecord>,
    keys: Vec<KeyRecord>,
    next_version: u64,
    next_etag: u64,
}

impl View for KeyBackups {
    type V = StoreModel;

    closed spec fn view(&self) -> StoreModel {
        StoreModel {
            versions: self.versions@.map_values(|r: VersionRecord| r@),
            keys: self.keys@.map_values(|r: KeyRecord| r@),
            next: self.next_version,
            next_etag: self.next_etag,
        }
    }
}

impl KeyBackups {
    /// An empty store. The allocation counter starts at one, so the first
    /// created version gets the identifier `"1"`.
    pub fn new() -> (s: KeyBackups)
        ensures
            s@.wf(),
            s@.versions.len() == 0,
            s@.keys.len() == 0,
            s@.next == 1,
            s@.next_etag == 1,
    {
        KeyBackups { versions: Vec::new(), keys: Vec::new(), next_version: 1, next_etag: 1 }
    }

    /// Whether the allocation counter is exhausted: no further version can
    /// be created and no further mutation can draw a fresh etag.
    pub fn at_capacity(&self) -> (r: bool)
        ensures
            r == (self@.next == u64::MAX || self@.next_etag == u64::MAX),
    {
        self.next_version == u64::MAX || self.next_etag == u64::MAX
    }

    /// The index of the version entry `(user, version)`, if it exists.
    fn find_version_idx(&self, user: &String, version: &String) -> (r: Option<usize>)
        requires
            versions_unique(self@.versions),
        ensures
            match r {
                Some(i) => self@.has_version(user@, version@) && (i as int)
                    < self@.versions.len() && self@.version_index(user@, version@) == i as int,
                None => !self@.has_version(user@, version@),
            },
    {
        let n: usize = self.versions.len();
        let mut i: usize = 0;
        while i < n
            invariant
                n == self.versions.len(),
                i <= n,
                versions_unique(self@.versions),
                forall|j: int|
                    0 <= j < i as int ==> !((#[trigger] self@.versions[j]).user == user@
                        && self@.versions[j].version == version@),
            decreases n - i,
        {
            let rec = &self.versions[i];
            if rec.user == *user && rec.version == *version {
                proof {
                    lemma_version_index(self@, user@, version@, i as int);
                }
                return Some(i);
            }
            i = i + 1;
        }
        proof {
            if self@.has_version(user@, version@) {
                let w: int = choose|w: int|
                    0 <= w < self@.versions.len() && (#[trigger] self@.versions[w]).user == user@
                        && self@.versions[w].version == version@;
                assert(false);
            }
        }
        None
    }

    /// The index of the most recently created version of `user`, if any.
    fn latest_idx(&self, user: &String) -> (r: Option<usize>)
        ensures
            match r {
                Some(i) => (i as int) < self@.versions.len() && is_latest_in(
                    self@.versions,
                    user@,
                    i as int,
                ) && self@.latest_version(user@) == Some(self@.versions[i as int].version),
                None => !self@.has_user(user@) && self@.latest_version(user@) == None::<
                    Seq<char>,
                >,
            },
    {
        let n: usize = self.versions.len();
        let mut i: usize = n;
        while i > 0
            invariant
                n == self.versions.len(),
                i <= n,
                forall|j: int|
                    i as int <= j < self@.versions.len() ==> (#[trigger] self@.versions[j]).user
                        != user@,
            decreases i,
        {
            let idx: usize = i - 1;
            let rec = &self.versions[idx];
            if rec.user == *user {
                proof {
                    assert(is_latest_in(self@.versions, user@, idx as int));
                    lemma_latest_at(self@, user@, idx as int);
                }
                return Some(idx);
            }
            i = idx;
        }
        proof {
            if self@.has_user(user@) {
                let w: int = choose|w: int|
                    0 <= w < self@.versions.len() && (#[trigger] self@.versions[w]).user == user@;
                assert(false);
            }
        }
        None
    }

    /// The index of the stored key `(user, version, room, session)`, if any.
    fn find_key_idx(&self, user: &String, version: &String, room: &String, session: &String) -> (r:
        Option<usize>)
        requires
            keys_unique(self@.keys),
        ensures
            match r {
                Some(i) => self@.has_key(user@, version@, room@, session@) && (i as int)
                    < self@.keys.len() && key_index_in(self@.keys, user@, version@, room@, session@)
                    == i as int,
                None => !self@.has_key(user@, version@, room@, session@),
            },
    {
        let n: usize = self.keys.len();
        let mut i: usize = 0;
        while i < n
            invariant
                n == self.keys.len(),
                i <= n,
                keys_unique(self@.keys),
                forall|j: int|
                    0 <= j < i as int ==> !key_is(
                        #[trigger] self@.keys[j],
                        user@,
                        version@,
                        room@,
                        session@,
                    ),
            decreases n - i,
        {
            let rec = &self.keys[i];
            if rec.user == *user && rec.version == *version && rec.room_id == *room
                && rec.session_id == *session {
                proof {
                    lemma_key_index(self@.keys, user@, version@, room@, session@, i as int);
                }
                return Some(i);
            }
            i = i + 1;
        }
        proof {
            if self@.has_key(user@, version@, room@, session@) {
                let w: int = choose|w: int|
                    0 <= w < self@.keys.len() && key_is(
                        #[trigger] self@.keys[w],
                        user@,
                        version@,
                        room@,
                        session@,
                    );
                assert(false);
            }
        }
        None
    }

    /// The number of keys stored under `(user, version)`, derived by
    /// counting, never cached.
    pub fn count_keys(&self, user: &str, version: &str) -> (n: usize)
        ensures
            n as nat == self@.count_of(user@, version@),
    {
        let user_s: String = user.to_owned();
        let version_s: String = version.to_owned();
        let len: usize = self.keys.len();
        let mut n: usize = 0;
        let mut i: usize = 0;
        while i < len
            invariant
                len == self.keys.len(),
                i <= len,
                n <= i,
                user_s@ == user@,
                version_s@ == version@,
                n as nat == self@.keys.take(i as int).filter(in_version(user@, version@)).len(),
            decreases len - i,
        {
            proof {
                lemma_filter_push(
                    self@.keys.take(i as int),
                    self@.keys[i as int],
                    in_version(user@, version@),
                );
                assert(self@.keys.take(i as int + 1) =~= self@.keys.take(i as int).push(
                    self@.keys[i as int],
                ));
            }
            let rec = &self.keys[i];
            if rec.user == user_s && rec.version == version_s {
                n = n + 1;
            }
            i = i + 1;
        }
        proof {
            assert(self@.keys.take(len as int) =~= self@.keys);
        }
        n
    }

    /// The etag of `(user, version)`, or nothing if that version does not
    /// exist.
    pub fn get_etag(&self, user: &str, version: &str) -> (r: Option<u64>)
        requires
            self@.wf(),
        ensures
            r == self@.etag_of(user@, version@),
    {
        let user_s: String = user.to_owned();
        let version_s: String = version.to_owned();
        match self.find_version_idx(&user_s, &version_s) {
            Some(i) => Some(self.versions[i].etag),
            None => None,
        }
    }

    /// The identifier of the most recently created version of `user`, or
    /// nothing if the user never created one.
    pub fn get_latest_backup_version(&self, user: &str) -> (r: Option<String>)
        ensures
            match r {
                Some(v) => self@.latest_version(user@) == Some(v@),
                None => self@.latest_version(user@) == None::<Seq<char>>,
            },
    {
        let user_s: String = user.to_owned();
        match self.latest_idx(&user_s) {
            Some(i) => Some(self.versions[i].version.clone()),
            None => None,
        }
    }

    /// Creates a new backup version for `user`: its identifier is the
    /// decimal rendering of the freshly drawn counter value, strictly
    /// greater than every identifier handed out before, and it becomes the
    /// user's latest version. Returns the new identifier.
    pub fn create_backup(&mut self, user: &str, algorithm: &str) -> (version: String)
        requires
            old(self)@.wf(),
            old(self)@.next < u64::MAX,
            old(self)@.next_etag < u64::MAX,
        ensures
            final(self)@.wf(),
            create_post(old(self)@, final(self)@, user@, algorithm@),
            version@ == spec_decimal(old(self)@.next as nat),
            final(self)@.latest_version(user@) == Some(version@),
    {
        let num: u64 = self.next_version;
        let vid: String = decimal_string(num);
        let rec = VersionRecord {
            user: user.to_owned(),
            version: vid.clone(),
            num,
            algorithm: algorithm.to_owned(),
            etag: self.next_etag,
        };
        self.versions.push(rec);
        self.next_version = num + 1;
        self.next_etag = self.next_etag + 1;
        proof {
            assert(final(self)@.versions =~= old(self)@.versions.push(
                (VersionEntry {
                    user: user@,
                    version: spec_decimal(num as nat),
                    num,
                    algorithm: algorithm@,
                    etag: old(self)@.next_etag,
                }),
            ));
            lemma_create_wf(old(self)@, final(self)@, user@, algorithm@);
        }
        vid
    }

    /// Replaces the algorithm blob of the existing version `(user,
    /// version)` and advances its etag. The version need not be the user's
    /// latest; a missing version is reported as `NotFound` and changes
    /// nothing.
    pub fn update_backup(&mut self, user: &str, version: &str, algorithm: &str) -> (r: Result<
        (),
        BackupError,
    >)
        requires
            old(self)@.wf(),
            old(self)@.next_etag < u64::MAX,
        ensures
            final(self)@.wf(),
            match r {
                Ok(u) => update_post(old(self)@, final(self)@, user@, version@, algorithm@),
                Err(e) => e == BackupError::NotFound && !old(self)@.has_version(user@, version@)
                    && *final(self) == *old(self),
            },
    {
        let user_s: String = user.to_owned();
        let version_s: String = version.to_owned();
        match self.find_version_idx(&user_s, &version_s) {
            None => Err(BackupError::NotFound),
            Some(i) => {
                let mut rec = self.versions.remove(i);
                rec.algorithm = algorithm.to_owned();
                rec.etag = self.next_etag;
                self.versions.insert(i, rec);
                self.next_etag = self.next_etag + 1;
                proof {
                    assert(final(self)@.versions =~= old(self)@.versions.update(
                        i as int,
                        (VersionEntry {
                            algorithm: algorithm@,
                            etag: old(self)@.next_etag,
                            ..old(self)@.version_at(user@, version@)
                        }),
                    ));
                    lemma_replace_entry(
                        old(self)@,
                        final(self)@.versions,
                        user@,
                        version@,
                        (VersionEntry {
                            algorithm: algorithm@,
                            etag: old(self)@.next_etag,
                            ..old(self)@.version_at(user@, version@)
                        }),
                    );
                    assert forall|j: int|
                        0 <= j < final(self)@.keys.len() implies has_version_in(
                        final(self)@.versions,
                        (#[trigger] final(self)@.keys[j]).user,
                        final(self)@.keys[j].version,
                    ) by {
                        assert(has_version_in(
                            old(self)@.versions,
                            old(self)@.keys[j].user,
                            old(self)@.keys[j].version,
                        ));
                    }
                }
                Ok(())
            },
        }
    }

    /// Checks the mutation guard: `version` must name the user's most
    /// recently created version. On success returns that version's index.
    fn guard_latest(&self, user: &String, version: &String) -> (r: Option<usize>)
        requires
            self@.wf(),
        ensures
            match r {
                Some(i) => self@.guard_ok(user@, version@) && self@.has_version(user@, version@)
                    && (i as int) < self@.versions.len() && self@.version_index(user@, version@)
                    == i as int,
                None => !self@.guard_ok(user@, version@),
            },
    {
        match self.latest_idx(user) {
            None => None,
            Some(i) => {
                if self.versions[i].version == *version {
                    proof {
                        lemma_version_index(self@, user@, version@, i as int);
                    }
                    Some(i)
                } else {
                    None
                }
            },
        }
    }

    /// Advances the etag of the version at index `i` to a freshly drawn
    /// counter value.
    fn touch_at(&mut self, i: usize)
        requires
            (i as int) < old(self)@.versions.len(),
            old(self)@.next_etag < u64::MAX,
        ensures
            final(self)@.versions == old(self)@.versions.update(
                i as int,
                (VersionEntry { etag: old(self)@.next_etag, ..old(self)@.versions[i as int] }),
            ),
            final(self)@.keys == old(self)@.keys,
            final(self)@.next == old(self)@.next,
            final(self)@.next_etag == old(self)@.next_etag + 1,
    {
        let mut rec = self.versions.remove(i);
        rec.etag = self.next_etag;
        self.versions.insert(i, rec);
        self.next_etag = self.next_etag + 1;
        proof {
            assert(final(self)@.versions =~= old(self)@.versions.update(
                i as int,
                (VersionEntry { etag: old(self)@.next_etag, ..old(self)@.versions[i as int] }),
            ));
        }
    }

    /// Inserts or overwrites one session key: last write wins.
    fn put_one(
        &mut self,
        user: &String,
        version: &String,
        room: &String,
        session: &String,
        data: &String,
    )
        requires
            keys_unique(old(self)@.keys),
        ensures
            final(self)@.keys == put_key(
                old(self)@.keys,
                (KeyEntry {
                    user: user@,
                    version: version@,
                    room: room@,
                    session: session@,
                    data: data@,
                }),
            ),
            final(self)@.versions == old(self)@.versions,
            final(self)@.next == old(self)@.next,
            final(self)@.next_etag == old(self)@.next_etag,
    {
        match self.find_key_idx(user, version, room, session) {
            Some(i) => {
                let mut rec = self.keys.remove(i);
                rec.key_data = data.clone();
                self.keys.insert(i, rec);
                proof {
                    assert(final(self)@.keys =~= old(self)@.keys.update(
                        i as int,
                        (KeyEntry {
                            user: user@,
                            version: version@,
                            room: room@,
                            session: session@,
                            data: data@,
                        }),
                    ));
                }
            },
            None => {
                let rec = KeyRecord {
                    user: user.clone(),
                    version: version.clone(),
                    room_id: room.clone(),
                    session_id: session.clone(),
                    key_data: data.clone(),
                };
                self.keys.push(rec);
                proof {
                    assert(final(self)@.keys =~= old(self)@.keys.push(
                        (KeyEntry {
                            user: user@,
                            version: version@,
                            room: room@,
                            session: session@,
                            data: data@,
                        }),
                    ));
                }
            },
        }
    }

    /// Stores every session of `sessions` for `room`, in order.
    fn put_session_list(
        &mut self,
        user: &String,
        version: &String,
        room: &String,
        sessions: &Vec<SessionData>,
    )
        requires
            keys_unique(old(self)@.keys),
            keys_anchored(old(self)@.keys, old(self)@.versions),
            has_version_in(old(self)@.versions, user@, version@),
        ensures
            final(self)@.keys == put_sessions(
                old(self)@.keys,
                user@,
                version@,
                room@,
                session_views(sessions@),
            ),
            final(self)@.versions == old(self)@.versions,
            final(self)@.next == old(self)@.next,
            final(self)@.next_etag == old(self)@.next_etag,
            keys_unique(final(self)@.keys),
            keys_anchored(final(self)@.keys, old(self)@.versions),
    {
        let n: usize = sessions.len();
        let mut idx: usize = 0;
        while idx < n
            invariant
                n == sessions.len(),
                idx <= n,
                keys_unique(self@.keys),
                keys_anchored(self@.keys, self@.versions),
                has_version_in(self@.versions, user@, version@),
                self@.versions == old(self)@.versions,
                self@.next == old(self)@.next,
                self@.next_etag == old(self)@.next_etag,
                self@.keys == put_sessions(
                    old(self)@.keys,
                    user@,
                    version@,
                    room@,
                    session_views(sessions@).take(idx as int),
                ),
            decreases n - idx,
        {
            let ghost svs = session_views(sessions@);
            let ghost entry = KeyEntry {
                user: user@,
                version: version@,
                room: room@,
                session: svs[idx as int].session,
                data: svs[idx as int].data,
            };
            proof {
                lemma_put_key_wf(self@.keys, self@.versions, entry);
            }
            let sd = &sessions[idx];
            self.put_one(user, version, room, &sd.session_id, &sd.key_data);
            proof {
                assert(svs.take(idx as int + 1).drop_last() =~= svs.take(idx as int));
                assert(svs.take(idx as int + 1).last() == svs[idx as int]);
                assert(self@.keys == put_sessions(
                    old(self)@.keys,
                    user@,
                    version@,
                    room@,
                    svs.take(idx as int + 1),
                ));
            }
            idx = idx + 1;
        }
        proof {
            assert(session_views(sessions@).take(n as int) =~= session_views(sessions@));
        }
    }

    /// Rebuilds the key list without the keys of `(user, version)`.
    fn retain_outside_version(&mut self, user: &String, version: &String)
        ensures
            final(self)@.keys == old(self)@.keys.filter(outside_version(user@, version@)),
            final(self)@.versions == old(self)@.versions,
            final(self)@.next == old(self)@.next,
            final(self)@.next_etag == old(self)@.next_etag,
    {
        let mut kept: Vec<KeyRecord> = Vec::new();
        let len: usize = self.keys.len();
        let mut i: usize = 0;
        while i < len
            invariant
                len == self.keys.len(),
                i <= len,
                self@ == old(self)@,
                kept@.map_values(|r: KeyRecord| r@) == old(self)@.keys.take(i as int).filter(
                    outside_version(user@, version@),
                ),
            decreases len - i,
        {
            proof {
                lemma_filter_push(
                    old(self)@.keys.take(i as int),
                    old(self)@.keys[i as int],
                    outside_version(user@, version@),
                );
                assert(old(self)@.keys.take(i as int + 1) =~= old(self)@.keys.take(i as int).push(
                    old(self)@.keys[i as int],
                ));
            }
            let rec = &self.keys[i];
            let hit: bool = rec.user == *user && rec.version == *version;
            if !hit {
                let ghost before = kept@.map_values(|r: KeyRecord| r@);
                kept.push(
                    KeyRecord {
                        user: rec.user.clone(),
                        version: rec.version.clone(),
                        room_id: rec.room_id.clone(),
                        session_id: rec.session_id.clone(),
                        key_data: rec.key_data.clone(),
                    },
                );
                proof {
                    assert(kept@.map_values(|r: KeyRecord| r@) =~= before.push(
                        old(self)@.keys[i as int],
                    ));
                }
            }
            i = i + 1;
        }
        proof {
            assert(old(self)@.keys.take(len as int) =~= old(self)@.keys);
        }
        self.keys = kept;
    }

    /// Rebuilds the key list without the keys of one room.
    fn retain_outside_room(&mut self, user: &String, version: &String, room: &String)
        ensures
            final(self)@.keys == old(self)@.keys.filter(outside_room(user@, version@, room@)),
            final(self)@.versions == old(self)@.versions,
            final(self)@.next == old(self)@.next,
            final(self)@.next_etag == old(self)@.next_etag,
    {
        let mut kept: Vec<KeyRecord> = Vec::new();
        let len: usize = self.keys.len();
        let mut i: usize = 0;
        while i < len
            invariant
                len == self.keys.len(),
                i <= len,
                self@ == old(self)@,
                kept@.map_values(|r: KeyRecord| r@) == old(self)@.keys.take(i as int).filter(
                    outside_room(user@, version@, room@),
                ),
            decreases len - i,
        {
            proof {
                lemma_filter_push(
                    old(self)@.keys.take(i as int),
                    old(self)@.keys[i as int],
                    outside_room(user@, version@, room@),
                );
                assert(old(self)@.keys.take(i as int + 1) =~= old(self)@.keys.take(i as int).push(
                    old(self)@.keys[i as int],
                ));
            }
            let rec = &self.keys[i];
            let hit: bool = rec.user == *user && rec.version == *version && rec.room_id == *room;
            if !hit {
                let ghost before = kept@.map_values(|r: KeyRecord| r@);
                kept.push(
                    KeyRecord {
                        user: rec.user.clone(),
                        version: rec.version.clone(),
                        room_id: rec.room_id.clone(),
                        session_id: rec.session_id.clone(),
                        key_data: rec.key_data.clone(),
                    },
                );
                proof {
                    assert(kept@.map_values(|r: KeyRecord| r@) =~= before.push(
                        old(self)@.keys[i as int],
                    ));
                }
            }
            i = i + 1;
        }
        proof {
            assert(old(self)@.keys.take(len as int) =~= old(self)@.keys);
        }
        self.keys = kept;
    }

    /// Rebuilds the key list without one session's key.
    fn retain_outside_session(
        &mut self,
        user: &String,
        version: &String,
        room: &String,
        session: &String,
    )
        ensures
            final(self)@.keys == old(self)@.keys.filter(
                outside_session(user@, version@, room@, session@),
            ),
            final(self)@.versions == old(self)@.versions,
            final(self)@.next == old(self)@.next,
            final(self)@.next_etag == old(self)@.next_etag,
    {
        let mut kept: Vec<KeyRecord> = Vec::new();
        let len: usize = self.keys.len();
        let mut i: usize = 0;
        while i < len
            invariant
                len == self.keys.len(),
                i <= len,
                self@ == old(self)@,
                kept@.map_values(|r: KeyRecord| r@) == old(self)@.keys.take(i as int).filter(
                    outside_session(user@, version@, room@, session@),
                ),
            decreases len - i,
        {
            proof {
                lemma_filter_push(
                    old(self)@.keys.take(i as int),
                    old(self)@.keys[i as int],
                    outside_session(user@, version@, room@, session@),
                );
                assert(old(self)@.keys.take(i as int + 1) =~= old(self)@.keys.take(i as int).push(
                    old(self)@.keys[i as int],
                ));
            }
            let rec = &self.keys[i];
            let hit: bool = rec.user == *user && rec.version == *version && rec.room_id == *room
                && rec.session_id == *session;
            if !hit {
                let ghost before = kept@.map_values(|r: KeyRecord| r@);
                kept.push(
                    KeyRecord {
                        user: rec.user.clone(),
                        version: rec.version.clone(),
                        room_id: rec.room_id.clone(),
                        session_id: rec.session_id.clone(),
                        key_data: rec.key_data.clone(),
                    },
                );
                proof {
                    assert(kept@.map_values(|r: KeyRecord| r@) =~= before.push(
                        old(self)@.keys[i as int],
                    ));
                }
            }
            i = i + 1;
        }
        proof {
            assert(old(self)@.keys.take(len as int) =~= old(self)@.keys);
        }
        self.keys = kept;
    }

    /// Deletes the backup version `(user, version)` and every key stored
    /// under it. Deleting an absent version is not an error and changes
    /// nothing.
    pub fn delete_backup(&mut self, user: &str, version: &str)
        requires
            old(self)@.wf(),
        ensures
            final(self)@.wf(),
            delete_backup_post(old(self)@, final(self)@, user@, version@),
    {
        let user_s: String = user.to_owned();
        let version_s: String = version.to_owned();
        match self.find_version_idx(&user_s, &version_s) {
            None => {},
            Some(i) => {
                self.versions.remove(i);
                proof {
                    assert(self@.versions =~= old(self)@.versions.remove(i as int));
                    assert(self@.keys == old(self)@.keys);
                }
                self.retain_outside_version(&user_s, &version_s);
            },
        }
        proof {
            lemma_delete_backup_wf(old(self)@, self@, user@, version@);
        }
    }

    /// Stores one session key under the user's latest backup version and
    /// advances its etag. A version that is not the latest is rejected with
    /// `InvalidParam` and nothing changes.
    pub fn add_backup_key_session(
        &mut self,
        user: &str,
        version: &str,
        room_id: &str,
        session_id: &str,
        key_data: &str,
    ) -> (r: Result<KeyStats, BackupError>)
        requires
            old(self)@.wf(),
            old(self)@.next_etag < u64::MAX,
        ensures
            final(self)@.wf(),
            match r {
                Ok(st) => old(self)@.guard_ok(user@, version@) && mutated(
                    old(self)@,
                    final(self)@,
                    user@,
                    version@,
                    put_key(
                        old(self)@.keys,
                        (KeyEntry {
                            user: user@,
                            version: version@,
                            room: room_id@,
                            session: session_id@,
                            data: key_data@,
                        }),
                    ),
                ) && st.count as nat == final(self)@.count_of(user@, version@) && Some(st.etag)
                    == final(self)@.etag_of(user@, version@),
                Err(e) => e == BackupError::InvalidParam && !old(self)@.guard_ok(user@, version@)
                    && *final(self) == *old(self),
            },
    {
        let user_s: String = user.to_owned();
        let version_s: String = version.to_owned();
        let room_s: String = room_id.to_owned();
        let session_s: String = session_id.to_owned();
        let data_s: String = key_data.to_owned();
        let ghost entry = KeyEntry {
            user: user@,
            version: version@,
            room: room_id@,
            session: session_id@,
            data: key_data@,
        };
        match self.guard_latest(&user_s, &version_s) {
            None => Err(BackupError::InvalidParam),
            Some(li) => {
                proof {
                    lemma_put_key_wf(self@.keys, self@.versions, entry);
                }
                self.put_one(&user_s, &version_s, &room_s, &session_s, &data_s);
                let etag_v: u64 = self.next_etag;
                self.touch_at(li);
                proof {
                    lemma_mutated_wf(
                        old(self)@,
                        self@,
                        user@,
                        version@,
                        put_key(old(self)@.keys, entry),
                    );
                }
                let count: usize = self.count_keys(user, version);
                Ok(KeyStats { count, etag: etag_v })
            },
        }
    }

    /// Stores every handed-in session of one room under the user's latest
    /// backup version, in order, and advances its etag. A version that is
    /// not the latest is rejected with `InvalidParam` and nothing changes.
    pub fn add_backup_key_sessions(
        &mut self,
        user: &str,
        version: &str,
        room_id: &str,
        sessions: &Vec<SessionData>,
    ) -> (r: Result<KeyStats, BackupError>)
        requires
            old(self)@.wf(),
            old(self)@.next_etag < u64::MAX,
        ensures
            final(self)@.wf(),
            match r {
                Ok(st) => old(self)@.guard_ok(user@, version@) && mutated(
                    old(self)@,
                    final(self)@,
                    user@,
                    version@,
                    put_sessions(
                        old(self)@.keys,
                        user@,
                        version@,
                        room_id@,
                        session_views(sessions@),
                    ),
                ) && st.count as nat == final(self)@.count_of(user@, version@) && Some(st.etag)
                    == final(self)@.etag_of(user@, version@),
                Err(e) => e == BackupError::InvalidParam && !old(self)@.guard_ok(user@, version@)
                    && *final(self) == *old(self),
            },
    {
        let user_s: String = user.to_owned();
        let version_s: String = version.to_owned();
        let room_s: String = room_id.to_owned();
        match self.guard_latest(&user_s, &version_s) {
            None => Err(BackupError::InvalidParam),
            Some(li) => {
                self.put_session_list(&user_s, &version_s, &room_s, sessions);
                let etag_v: u64 = self.next_etag;
                self.touch_at(li);
                proof {
                    lemma_mutated_wf(
                        old(self)@,
                        self@,
                        user@,
                        version@,
                        put_sessions(
                            old(self)@.keys,
                            user@,
                            version@,
                            room_id@,
                            session_views(sessions@),
                        ),
                    );
                }
                let count: usize = self.count_keys(user, version);
                Ok(KeyStats { count, etag: etag_v })
            },
        }
    }

    /// Stores every handed-in session of every handed-in room under the
    /// user's latest backup version, in order, and advances its etag. A
    /// version that is not the latest is rejected with `InvalidParam` and
    /// nothing changes.
    pub fn add_backup_keys(&mut self, user: &str, version: &str, rooms: &Vec<RoomSessions>) -> (r:
        Result<KeyStats, BackupError>)
        requires
            old(self)@.wf(),
            old(self)@.next_etag < u64::MAX,
        ensures
            final(self)@.wf(),
            match r {
                Ok(st) => old(self)@.guard_ok(user@, version@) && mutated(
                    old(self)@,
                    final(self)@,
                    user@,
                    version@,
                    put_rooms(old(self)@.keys, user@, version@, room_views(rooms@)),
                ) && st.count as nat == final(self)@.count_of(user@, version@) && Some(st.etag)
                    == final(self)@.etag_of(user@, version@),
                Err(e) => e == BackupError::InvalidParam && !old(self)@.guard_ok(user@, version@)
                    && *final(self) == *old(self),
            },
    {
        let user_s: String = user.to_owned();
        let version_s: String = version.to_owned();
        match self.guard_latest(&user_s, &version_s) {
            None => Err(BackupError::InvalidParam),
            Some(li) => {
                let n: usize = rooms.len();
                let mut ridx: usize = 0;
                while ridx < n
                    invariant
                        n == rooms.len(),
                        ridx <= n,
                        user_s@ == user@,
                        version_s@ == version@,
                        keys_unique(self@.keys),
                        keys_anchored(self@.keys, self@.versions),
                        has_version_in(self@.versions, user@, version@),
                        self@.versions == old(self)@.versions,
                        self@.next == old(self)@.next,
                        self@.next_etag == old(self)@.next_etag,
                        self@.keys == put_rooms(
                            old(self)@.keys,
                            user@,
                            version@,
                            room_views(rooms@).take(ridx as int),
                        ),
                    decreases n - ridx,
                {
                    let ghost rvs = room_views(rooms@);
                    let room = &rooms[ridx];
                    self.put_session_list(&user_s, &version_s, &room.room_id, &room.sessions);
                    proof {
                        assert(rvs.take(ridx as int + 1).drop_last() =~= rvs.take(ridx as int));
                        assert(rvs.take(ridx as int + 1).last() == rvs[ridx as int]);
                        assert(self@.keys == put_rooms(
                            old(self)@.keys,
                            user@,
                            version@,
                            rvs.take(ridx as int + 1),
                        ));
                    }
                    ridx = ridx + 1;
                }
                proof {
                    assert(room_views(rooms@).take(n as int) =~= room_views(rooms@));
                }
                let etag_v: u64 = self.next_etag;
                self.touch_at(li);
                proof {
                    lemma_mutated_wf(
                        old(self)@,
                        self@,
                        user@,
                        version@,
                        put_rooms(old(self)@.keys, user@, version@, room_views(rooms@)),
                    );
                }
                let count: usize = self.count_keys(user, version);
                Ok(KeyStats { count, etag: etag_v })
            },
        }
    }

    /// Deletes every key of the user's latest backup version and advances
    /// its etag. A version that is not the latest is rejected with
    /// `InvalidParam` and nothing changes; a version with no keys is fine.
    pub fn delete_backup_keys(&mut self, user: &str, version: &str) -> (r: Result<
        KeyStats,
        BackupError,
    >)
        requires
            old(self)@.wf(),
            old(self)@.next_etag < u64::MAX,
        ensures
            final(self)@.wf(),
            match r {
                Ok(st) => old(self)@.guard_ok(user@, version@) && mutated(
                    old(self)@,
                    final(self)@,
                    user@,
                    version@,
                    old(self)@.keys.filter(outside_version(user@, version@)),
                ) && st.count as nat == final(self)@.count_of(user@, version@) && Some(st.etag)
                    == final(self)@.etag_of(user@, version@),
                Err(e) => e == BackupError::InvalidParam && !old(self)@.guard_ok(user@, version@)
                    && *final(self) == *old(self),
            },
    {
        let user_s: String = user.to_owned();
        let version_s: String = version.to_owned();
        match self.guard_latest(&user_s, &version_s) {
            None => Err(BackupError::InvalidParam),
            Some(li) => {
                proof {
                    lemma_filter_unique(self@.keys, outside_version(user@, version@));
                    lemma_filter_anchored(
                        self@.keys,
                        self@.versions,
                        outside_version(user@, version@),
                    );
                }
                self.retain_outside_version(&user_s, &version_s);
                let etag_v: u64 = self.next_etag;
                self.touch_at(li);
                proof {
                    lemma_mutated_wf(
                        old(self)@,
                        self@,
                        user@,
                        version@,
                        old(self)@.keys.filter(outside_version(user@, version@)),
                    );
                }
                let count: usize = self.count_keys(user, version);
                Ok(KeyStats { count, etag: etag_v })
            },
        }
    }

    /// Deletes every key of one room of the user's latest backup version
    /// and advances its etag. A version that is not the latest is rejected
    /// with `InvalidParam` and nothing changes; an absent room is fine.
    pub fn delete_backup_key_sessions(&mut self, user: &str, version: &str, room_id: &str) -> (r:
        Result<KeyStats, BackupError>)
        requires
            old(self)@.wf(),
            old(self)@.next_etag < u64::MAX,
        ensures
            final(self)@.wf(),
            match r {
                Ok(st) => old(self)@.guard_ok(user@, version@) && mutated(
                    old(self)@,
                    final(self)@,
                    user@,
                    version@,
                    old(self)@.keys.filter(outside_room(user@, version@, room_id@)),
                ) && st.count as nat == final(self)@.count_of(user@, version@) && Some(st.etag)
                    == final(self)@.etag_of(user@, version@),
                Err(e) => e == BackupError::InvalidParam && !old(self)@.guard_ok(user@, version@)
                    && *final(self) == *old(self),
            },
    {
        let user_s: String = user.to_owned();
        let version_s: String = version.to_owned();
        let room_s: String = room_id.to_owned();
        match self.guard_latest(&user_s, &version_s) {
            None => Err(BackupError::InvalidParam),
            Some(li) => {
                proof {
                    lemma_filter_unique(self@.keys, outside_room(user@, version@, room_id@));
                    lemma_filter_anchored(
                        self@.keys,
                        self@.versions,
                        outside_room(user@, version@, room_id@),
                    );
                }
                self.retain_outside_room(&user_s, &version_s, &room_s);
                let etag_v: u64 = self.next_etag;
                self.touch_at(li);
                proof {
                    lemma_mutated_wf(
                        old(self)@,
                        self@,
                        user@,
                        version@,
                        old(self)@.keys.filter(outside_room(user@, version@, room_id@)),
                    );
                }
                let count: usize = self.count_keys(user, version);
                Ok(KeyStats { count, etag: etag_v })
            },
        }
    }

    /// Deletes one session's key from the user's latest backup version and
    /// advances its etag. A version that is not the latest is rejected with
    /// `InvalidParam` and nothing changes; an absent key is fine.
    pub fn delete_backup_key_session(
        &mut self,
        user: &str,
        version: &str,
        room_id: &str,
        session_id: &str,
    ) -> (r: Result<KeyStats, BackupError>)
        requires
            old(self)@.wf(),
            old(self)@.next_etag < u64::MAX,
        ensures
            final(self)@.wf(),
            match r {
                Ok(st) => old(self)@.guard_ok(user@, version@) && mutated(
                    old(self)@,
                    final(self)@,
                    user@,
                    version@,
                    old(self)@.keys.filter(
                        outside_session(user@, version@, room_id@, session_id@),
                    ),
                ) && st.count as nat == final(self)@.count_of(user@, version@) && Some(st.etag)
                    == final(self)@.etag_of(user@, version@),
                Err(e) => e == BackupError::InvalidParam && !old(self)@.guard_ok(user@, version@)
                    && *final(self) == *old(self),
            },
    {
        let user_s: String = user.to_owned();
        let version_s: String = version.to_owned();
        let room_s: String = room_id.to_owned();
        let session_s: String = session_id.to_owned();
        match self.guard_latest(&user_s, &version_s) {
            None => Err(BackupError::InvalidParam),
            Some(li) => {
                proof {
                    lemma_filter_unique(
                        self@.keys,
                        outside_session(user@, version@, room_id@, session_id@),
                    );
                    lemma_filter_anchored(
                        self@.keys,
                        self@.versions,
                        outside_session(user@, version@, room_id@, session_id@),
                    );
                }
                self.retain_outside_session(&user_s, &version_s, &room_s, &session_s);
                let etag_v: u64 = self.next_etag;
                self.touch_at(li);
                proof {
                    lemma_mutated_wf(
                        old(self)@,
                        self@,
                        user@,
                        version@,
                        old(self)@.keys.filter(
                            outside_session(user@, version@, room_id@, session_id@),
                        ),
                    );
                }
                let count: usize = self.count_keys(user, version);
                Ok(KeyStats { count, etag: etag_v })
            },
        }
    }

    /// The algorithm blob, key count and etag of one existing backup
    /// version. A missing version is reported as `NotFound`.
    pub fn get_backup(&self, user: &str, version: &str) -> (r: Result<BackupInfo, BackupError>)
        requires
            self@.wf(),
        ensures
            match r {
                Ok(info) => self@.has_version(user@, version@) && info.version@ == version@
                    && Some(info.algorithm@) == self@.algorithm_of(user@, version@)
                    && info.count as nat == self@.count_of(user@, version@) && Some(info.etag)
                    == self@.etag_of(user@, version@),
                Err(e) => e == BackupError::NotFound && !self@.has_version(user@, version@),
            },
    {
        let user_s: String = user.to_owned();
        let version_s: String = version.to_owned();
        match self.find_version_idx(&user_s, &version_s) {
            None => Err(BackupError::NotFound),
            Some(i) => {
                let count: usize = self.count_keys(user, version);
                Ok(BackupInfo {
                    version: version.to_owned(),
                    algorithm: self.versions[i].algorithm.clone(),
                    count,
                    etag: self.versions[i].etag,
                })
            },
        }
    }

    /// The identifier, algorithm blob, key count and etag of the user's
    /// most recently created backup version. A user without a version is
    /// reported as `NotFound`.
    pub fn get_latest_backup(&self, user: &str) -> (r: Result<BackupInfo, BackupError>)
        requires
            self@.wf(),
        ensures
            match r {
                Ok(info) => self@.latest_version(user@) == Some(info.version@) && Some(
                    info.algorithm@,
                ) == self@.algorithm_of(user@, info.version@) && info.count as nat
                    == self@.count_of(user@, info.version@) && Some(info.etag) == self@.etag_of(
                    user@,
                    info.version@,
                ),
                Err(e) => e == BackupError::NotFound && self@.latest_version(user@) == None::<
                    Seq<char>,
                >,
            },
    {
        let user_s: String = user.to_owned();
        match self.latest_idx(&user_s) {
            None => Err(BackupError::NotFound),
            Some(i) => {
                let vstr: String = self.versions[i].version.clone();
                proof {
                    lemma_version_index(self@, user@, vstr@, i as int);
                }
                let count: usize = self.count_keys(user, vstr.as_str());
                Ok(BackupInfo {
                    algorithm: self.versions[i].algorithm.clone(),
                    count,
                    etag: self.versions[i].etag,
                    version: vstr,
                })
            },
        }
    }

    /// The stored payload of one session key. A missing version or a
    /// missing key is reported as `NotFound`.
    pub fn get_backup_key_session(
        &self,
        user: &str,
        version: &str,
        room_id: &str,
        session_id: &str,
    ) -> (r: Result<String, BackupError>)
        requires
            self@.wf(),
        ensures
            match r {
                Ok(d) => self@.has_version(user@, version@) && self@.session_data(
                    user@,
                    version@,
                    room_id@,
                    session_id@,
                ) == Some(d@),
                Err(e) => e == BackupError::NotFound && !(self@.has_version(user@, version@)
                    && self@.has_key(user@, version@, room_id@, session_id@)),
            },
    {
        let user_s: String = user.to_owned();
        let version_s: String = version.to_owned();
        let room_s: String = room_id.to_owned();
        let session_s: String = session_id.to_owned();
        match self.find_version_idx(&user_s, &version_s) {
            None => Err(BackupError::NotFound),
            Some(_) => {
                match self.find_key_idx(&user_s, &version_s, &room_s, &session_s) {
                    None => Err(BackupError::NotFound),
                    Some(k) => Ok(self.keys[k].key_data.clone()),
                }
            },
        }
    }

    /// Every stored key of one room of an existing backup version, in
    /// storage order; a room with no keys yields an empty list. A missing
    /// version is reported as `NotFound`.
    pub fn get_backup_key_sessions(&self, user: &str, version: &str, room_id: &str) -> (r: Result<
        Vec<SessionData>,
        BackupError,
    >)
        requires
            self@.wf(),
        ensures
            match r {
                Ok(v) => self@.has_version(user@, version@) && session_views(v@) == sessions_of(
                    self@.room_keys(user@, version@, room_id@),
                ),
                Err(e) => e == BackupError::NotFound && !self@.has_version(user@, version@),
            },
    {
        let user_s: String = user.to_owned();
        let version_s: String = version.to_owned();
        let room_s: String = room_id.to_owned();
        match self.find_version_idx(&user_s, &version_s) {
            None => Err(BackupError::NotFound),
            Some(_) => {
                let len: usize = self.keys.len();
                let mut out: Vec<SessionData> = Vec::new();
                let mut i: usize = 0;
                while i < len
                    invariant
                        len == self.keys.len(),
                        i <= len,
                        user_s@ == user@,
                        version_s@ == version@,
                        room_s@ == room_id@,
                        session_views(out@) == sessions_of(
                            self@.keys.take(i as int).filter(in_room(user@, version@, room_id@)),
                        ),
                    decreases len - i,
                {
                    proof {
                        lemma_filter_push(
                            self@.keys.take(i as int),
                            self@.keys[i as int],
                            in_room(user@, version@, room_id@),
                        );
                        assert(self@.keys.take(i as int + 1) =~= self@.keys.take(i as int).push(
                            self@.keys[i as int],
                        ));
                    }
                    let rec = &self.keys[i];
                    if rec.user == user_s && rec.version == version_s && rec.room_id == room_s {
                        let ghost before = session_views(out@);
                        let ghost k = self@.keys[i as int];
                        out.push(
                            SessionData {
                                session_id: rec.session_id.clone(),
                                key_data: rec.key_data.clone(),
                            },
                        );
                        proof {
                            assert(session_views(out@) =~= before.push(
                                (SessionView { session: k.session, data: k.data }),
                            ));
                            assert(sessions_of(
                                self@.keys.take(i as int + 1).filter(
                                    in_room(user@, version@, room_id@),
                                ),
                            ) =~= sessions_of(
                                self@.keys.take(i as int).filter(
                                    in_room(user@, version@, room_id@),
                                ),
                            ).push((SessionView { session: k.session, data: k.data })));
                        }
                    }
                    i = i + 1;
                }
                proof {
                    assert(self@.keys.take(len as int) =~= self@.keys);
                }
                Ok(out)
            },
        }
    }

    /// Every stored key of an existing backup version, grouped by room: the
    /// room list carries each room with at least one key exactly once, and
    /// each room its keys in storage order. A version with no keys yields
    /// an empty list; a missing version is reported as `NotFound`.
    #[verifier::rlimit(60)]
    pub fn get_backup_keys(&self, user: &str, version: &str) -> (r: Result<
        Vec<RoomSessions>,
        BackupError,
    >)
        requires
            self@.wf(),
        ensures
            match r {
                Ok(v) => self@.has_version(user@, version@) && grouped_ok(
                    self@.keys,
                    user@,
                    version@,
                    room_views(v@),
                ),
                Err(e) => e == BackupError::NotFound && !self@.has_version(user@, version@),
            },
    {
        let user_s: String = user.to_owned();
        let version_s: String = version.to_owned();
        match self.find_version_idx(&user_s, &version_s) {
            None => Err(BackupError::NotFound),
            Some(_) => {
                let len: usize = self.keys.len();
                let mut out: Vec<RoomSessions> = Vec::new();
                let mut t: usize = 0;
                while t < len
                    invariant
                        len == self.keys.len(),
                        t <= len,
                        user_s@ == user@,
                        version_s@ == version@,
                        grouped_ok(self@.keys.take(t as int), user@, version@, room_views(out@)),
                    decreases len - t,
                {
                    let ghost prefix = self@.keys.take(t as int);
                    let ghost k = self@.keys[t as int];
                    let ghost rv = room_views(out@);
                    proof {
                        assert(self@.keys.take(t as int + 1) =~= prefix.push(k));
                    }
                    let rec = &self.keys[t];
                    if rec.user == user_s && rec.version == version_s {
                        match find_room_idx(&out, &rec.room_id) {
                            Some(a0) => {
                                let mut entry = out.remove(a0);
                                entry.sessions.push(
                                    SessionData {
                                        session_id: rec.session_id.clone(),
                                        key_data: rec.key_data.clone(),
                                    },
                                );
                                out.insert(a0, entry);
                                proof {
                                    let rv2 = room_views(out@);
                                    assert(rv2 =~~= rv.update(
                                        a0 as int,
                                        (RoomView {
                                            room: rv[a0 as int].room,
                                            sessions: rv[a0 as int].sessions.push(
                                                (SessionView {
                                                    session: k.session,
                                                    data: k.data,
                                                }),
                                            ),
                                        }),
                                    ));
                                    lemma_group_step_existing(prefix, k, user@, version@, rv, a0 as int);
                                }
                            },
                            None => {
                                let mut first: Vec<SessionData> = Vec::new();
                                first.push(
                                    SessionData {
                                        session_id: rec.session_id.clone(),
                                        key_data: rec.key_data.clone(),
                                    },
                                );
                                out.push(
                                    RoomSessions { room_id: rec.room_id.clone(), sessions: first },
                                );
                                proof {
                                    let rv2 = room_views(out@);
                                    assert(rv2 =~~= rv.push(
                                        (RoomView {
                                            room: k.room,
                                            sessions: Seq::<SessionView>::empty().push(
                                                (SessionView {
                                                    session: k.session,
                                                    data: k.data,
                                                }),
                                            ),
                                        }),
                                    ));
                                    lemma_group_step_fresh(prefix, k, user@, version@, rv);
                                }
                            },
                        }
                    } else {
                        proof {
                            lemma_group_step_skip(prefix, k, user@, version@, rv);
                        }
                    }
                    t = t + 1;
                }
                proof {
                    assert(self@.keys.take(len as int) =~= self@.keys);
                }
                Ok(out)
            },
        }
    }
}

/// The index of `room` in an already grouped room list, if present.
fn find_room_idx(rooms: &Vec<RoomSessions>, room: &String) -> (r: Option<usize>)
    ensures
        match r {
            Some(a) => (a as int) < rooms@.len() && room_views(rooms@)[a as int].room == room@,
            None => forall|b: int|
                0 <= b < rooms@.len() ==> (#[trigger] room_views(rooms@)[b]).room != room@,
        },
{
    let n: usize = rooms.len();
    let mut a: usize = 0;
    while a < n
        invariant
            n == rooms.len(),
            a <= n,
            forall|b: int| 0 <= b < a as int ==> (#[trigger] room_views(rooms@)[b]).room != room@,
        decreases n - a,
    {
        if rooms[a].room_id == *room {
            return Some(a);
        }
        a = a + 1;
    }
    None
}

/// The models of a list of handed-in sessions.
pub open spec fn session_views(s: Seq<SessionData>) -> Seq<SessionView> {
    s.map_values(|x: SessionData| x@)
}

/// The models of a list of handed-in rooms.
pub open spec fn room_views(s: Seq<RoomSessions>) -> Seq<RoomView> {
    s.map_values(|x: RoomSessions| x@)
}

} // verus!
