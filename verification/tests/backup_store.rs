use key_backups::store::{KeyBackups, RoomSessions, SessionData};
use key_backups::BackupError;

const ALG: &str = "{\"algorithm\":\"m.megolm_backup.v1\"}";

#[test]
fn scenario_first_backup_lifecycle() {
    let mut store = KeyBackups::new();

    let v1 = store.create_backup("@alice:example.org", ALG);
    assert_eq!(v1, "1");
    let initial = store.get_etag("@alice:example.org", "1").unwrap();

    let stats = store
        .add_backup_key_session("@alice:example.org", "1", "!r:x", "s1", "{\"k\":1}")
        .unwrap();
    assert_eq!(stats.count, 1);
    assert_ne!(stats.etag, initial);

    let v2 = store.create_backup("@alice:example.org", ALG);
    assert_eq!(v2, "2");

    let err = store
        .add_backup_key_session("@alice:example.org", "1", "!r:x", "s2", "{\"k\":2}")
        .unwrap_err();
    assert_eq!(err, BackupError::InvalidParam);

    let keys = store.get_backup_keys("@alice:example.org", "1").unwrap();
    assert_eq!(keys.len(), 1);
    assert_eq!(keys[0].room_id, "!r:x");
    assert_eq!(keys[0].sessions.len(), 1);
    assert_eq!(keys[0].sessions[0].session_id, "s1");
    assert_eq!(keys[0].sessions[0].key_data, "{\"k\":1}");

    store.delete_backup("@alice:example.org", "1");
    let err = store
        .get_backup_key_session("@alice:example.org", "1", "!r:x", "s1")
        .unwrap_err();
    assert_eq!(err, BackupError::NotFound);
    assert_eq!(
        store.get_backup("@alice:example.org", "1").unwrap_err(),
        BackupError::NotFound
    );
}

#[test]
fn version_ids_increase_and_latest_follows() {
    let mut store = KeyBackups::new();
    let mut expected: u64 = 1;
    for _ in 0..12 {
        let v = store.create_backup("@u:x", ALG);
        assert_eq!(v, expected.to_string());
        assert_eq!(
            store.get_latest_backup_version("@u:x").unwrap(),
            expected.to_string()
        );
        expected += 1;
    }
    // A second user draws from the same counter and never reuses an id.
    let v = store.create_backup("@other:x", ALG);
    assert_eq!(v, "13");
    assert_eq!(store.get_latest_backup_version("@u:x").unwrap(), "12");
}

#[test]
fn mutation_restricted_to_latest() {
    let mut store = KeyBackups::new();
    let v1 = store.create_backup("@u:x", ALG);
    store
        .add_backup_key_session("@u:x", &v1, "!r:x", "s1", "d1")
        .unwrap();
    let v2 = store.create_backup("@u:x", ALG);

    assert_eq!(
        store
            .add_backup_key_session("@u:x", &v1, "!r:x", "s9", "d9")
            .unwrap_err(),
        BackupError::InvalidParam
    );
    assert_eq!(
        store.delete_backup_keys("@u:x", &v1).unwrap_err(),
        BackupError::InvalidParam
    );
    assert_eq!(
        store
            .delete_backup_key_sessions("@u:x", &v1, "!r:x")
            .unwrap_err(),
        BackupError::InvalidParam
    );
    assert_eq!(
        store
            .delete_backup_key_session("@u:x", &v1, "!r:x", "s1")
            .unwrap_err(),
        BackupError::InvalidParam
    );
    // The same calls against the latest version succeed.
    assert!(store
        .add_backup_key_session("@u:x", &v2, "!r:x", "s9", "d9")
        .is_ok());
    assert!(store.delete_backup_key_session("@u:x", &v2, "!r:x", "s9").is_ok());
    assert!(store.delete_backup_key_sessions("@u:x", &v2, "!r:x").is_ok());
    assert!(store.delete_backup_keys("@u:x", &v2).is_ok());
    // The failed calls left the old version's keys alone.
    assert_eq!(store.count_keys("@u:x", &v1), 1);
}

#[test]
fn reads_of_old_versions_are_unrestricted() {
    let mut store = KeyBackups::new();
    let v1 = store.create_backup("@u:x", ALG);
    store
        .add_backup_key_session("@u:x", &v1, "!r:x", "s1", "d1")
        .unwrap();
    let _v2 = store.create_backup("@u:x", "{\"algorithm\":\"other\"}");

    assert_eq!(
        store.get_backup_key_session("@u:x", &v1, "!r:x", "s1").unwrap(),
        "d1"
    );
    let room = store.get_backup_key_sessions("@u:x", &v1, "!r:x").unwrap();
    assert_eq!(room.len(), 1);
    assert_eq!(room[0].session_id, "s1");
    let all = store.get_backup_keys("@u:x", &v1).unwrap();
    assert_eq!(all.len(), 1);
    let info = store.get_backup("@u:x", &v1).unwrap();
    assert_eq!(info.version, v1);
    assert_eq!(info.algorithm, ALG);
    assert_eq!(info.count, 1);
}

#[test]
fn count_tracks_distinct_pairs() {
    let mut store = KeyBackups::new();
    let v = store.create_backup("@u:x", ALG);
    assert_eq!(store.count_keys("@u:x", &v), 0);

    let s = store
        .add_backup_key_session("@u:x", &v, "!a:x", "s1", "d1")
        .unwrap();
    assert_eq!(s.count, 1);
    let s = store
        .add_backup_key_session("@u:x", &v, "!a:x", "s2", "d2")
        .unwrap();
    assert_eq!(s.count, 2);
    // Overwriting an existing pair does not change the count.
    let s = store
        .add_backup_key_session("@u:x", &v, "!a:x", "s1", "d1bis")
        .unwrap();
    assert_eq!(s.count, 2);
    assert_eq!(
        store.get_backup_key_session("@u:x", &v, "!a:x", "s1").unwrap(),
        "d1bis"
    );
    let s = store
        .add_backup_key_session("@u:x", &v, "!b:x", "s1", "d3")
        .unwrap();
    assert_eq!(s.count, 3);
    let s = store.delete_backup_key_session("@u:x", &v, "!a:x", "s2").unwrap();
    assert_eq!(s.count, 2);
    let s = store.delete_backup_key_sessions("@u:x", &v, "!a:x").unwrap();
    assert_eq!(s.count, 1);
    let s = store.delete_backup_keys("@u:x", &v).unwrap();
    assert_eq!(s.count, 0);
    assert_eq!(store.count_keys("@u:x", &v), 0);
}

#[test]
fn etag_changes_on_every_mutation_and_only_then() {
    let mut store = KeyBackups::new();
    let v = store.create_backup("@u:x", ALG);
    let e0 = store.get_etag("@u:x", &v).unwrap();

    let s1 = store
        .add_backup_key_session("@u:x", &v, "!r:x", "s1", "d1")
        .unwrap();
    assert_ne!(s1.etag, e0);
    assert_eq!(store.get_etag("@u:x", &v).unwrap(), s1.etag);

    // Reads do not move the etag.
    let _ = store.get_backup("@u:x", &v).unwrap();
    let _ = store.get_backup_keys("@u:x", &v).unwrap();
    let _ = store.count_keys("@u:x", &v);
    assert_eq!(store.get_etag("@u:x", &v).unwrap(), s1.etag);

    let s2 = store.delete_backup_key_session("@u:x", &v, "!r:x", "s1").unwrap();
    assert_ne!(s2.etag, s1.etag);

    store.update_backup("@u:x", &v, "{\"algorithm\":\"new\"}").unwrap();
    let e3 = store.get_etag("@u:x", &v).unwrap();
    assert_ne!(e3, s2.etag);
}

#[test]
fn update_backup_works_on_any_existing_version() {
    let mut store = KeyBackups::new();
    let v1 = store.create_backup("@u:x", ALG);
    let _v2 = store.create_backup("@u:x", ALG);

    // Metadata updates are not guarded by the latest-version rule.
    store.update_backup("@u:x", &v1, "{\"algorithm\":\"renamed\"}").unwrap();
    let info = store.get_backup("@u:x", &v1).unwrap();
    assert_eq!(info.algorithm, "{\"algorithm\":\"renamed\"}");

    assert_eq!(
        store.update_backup("@u:x", "99", ALG).unwrap_err(),
        BackupError::NotFound
    );
    assert_eq!(
        store.update_backup("@nobody:x", &v1, ALG).unwrap_err(),
        BackupError::NotFound
    );
}

#[test]
fn cascade_delete_removes_all_keys() {
    let mut store = KeyBackups::new();
    let v1 = store.create_backup("@u:x", ALG);
    store.add_backup_key_session("@u:x", &v1, "!a:x", "s1", "d1").unwrap();
    store.add_backup_key_session("@u:x", &v1, "!b:x", "s2", "d2").unwrap();
    let v2 = store.create_backup("@u:x", ALG);
    store.add_backup_key_session("@u:x", &v2, "!a:x", "s1", "other").unwrap();

    store.delete_backup("@u:x", &v1);

    assert_eq!(
        store.get_backup_key_session("@u:x", &v1, "!a:x", "s1").unwrap_err(),
        BackupError::NotFound
    );
    assert_eq!(
        store.get_backup_keys("@u:x", &v1).unwrap_err(),
        BackupError::NotFound
    );
    assert_eq!(store.count_keys("@u:x", &v1), 0);
    assert_eq!(store.get_etag("@u:x", &v1), None);
    // The other version is untouched.
    assert_eq!(
        store.get_backup_key_session("@u:x", &v2, "!a:x", "s1").unwrap(),
        "other"
    );
}

#[test]
fn deletes_of_absent_things_are_not_errors() {
    let mut store = KeyBackups::new();
    let v = store.create_backup("@u:x", ALG);
    store.add_backup_key_session("@u:x", &v, "!r:x", "s1", "d1").unwrap();

    let s = store.delete_backup_key_session("@u:x", &v, "!r:x", "nope").unwrap();
    assert_eq!(s.count, 1);
    let s = store.delete_backup_key_sessions("@u:x", &v, "!nothing:x").unwrap();
    assert_eq!(s.count, 1);
    assert_eq!(
        store.get_backup_key_session("@u:x", &v, "!r:x", "s1").unwrap(),
        "d1"
    );
    // Deleting a version that does not exist is a no-op.
    store.delete_backup("@u:x", "99");
    store.delete_backup("@ghost:x", "1");
    assert_eq!(store.count_keys("@u:x", &v), 1);
    assert_eq!(store.get_latest_backup_version("@u:x").unwrap(), v);
}

#[test]
fn bulk_adds_store_every_session() {
    let mut store = KeyBackups::new();
    let v = store.create_backup("@u:x", ALG);

    let sessions = vec![
        SessionData { session_id: "s1".to_string(), key_data: "d1".to_string() },
        SessionData { session_id: "s2".to_string(), key_data: "d2".to_string() },
    ];
    let s = store
        .add_backup_key_sessions("@u:x", &v, "!a:x", &sessions)
        .unwrap();
    assert_eq!(s.count, 2);

    let rooms = vec![
        RoomSessions {
            room_id: "!a:x".to_string(),
            sessions: vec![SessionData {
                session_id: "s1".to_string(),
                key_data: "d1new".to_string(),
            }],
        },
        RoomSessions {
            room_id: "!b:x".to_string(),
            sessions: vec![
                SessionData { session_id: "t1".to_string(), key_data: "e1".to_string() },
                SessionData { session_id: "t2".to_string(), key_data: "e2".to_string() },
            ],
        },
    ];
    let s = store.add_backup_keys("@u:x", &v, &rooms).unwrap();
    assert_eq!(s.count, 4);
    // The overwrite in the bulk add won.
    assert_eq!(
        store.get_backup_key_session("@u:x", &v, "!a:x", "s1").unwrap(),
        "d1new"
    );

    let all = store.get_backup_keys("@u:x", &v).unwrap();
    assert_eq!(all.len(), 2);
    let room_a = all.iter().find(|r| r.room_id == "!a:x").unwrap();
    assert_eq!(room_a.sessions.len(), 2);
    let room_b = all.iter().find(|r| r.room_id == "!b:x").unwrap();
    assert_eq!(room_b.sessions.len(), 2);
    assert_eq!(room_b.sessions[0].session_id, "t1");
    assert_eq!(room_b.sessions[1].session_id, "t2");
}

#[test]
fn reads_of_missing_things_classify_as_not_found() {
    let mut store = KeyBackups::new();
    assert_eq!(
        store.get_latest_backup("@u:x").unwrap_err(),
        BackupError::NotFound
    );
    let v = store.create_backup("@u:x", ALG);
    // An existing version with no keys answers reads with empty results.
    assert_eq!(store.get_backup_keys("@u:x", &v).unwrap().len(), 0);
    assert_eq!(
        store.get_backup_key_sessions("@u:x", &v, "!r:x").unwrap().len(),
        0
    );
    assert_eq!(
        store.get_backup_key_session("@u:x", &v, "!r:x", "s1").unwrap_err(),
        BackupError::NotFound
    );
    // A version that does not exist answers every read with `NotFound`.
    assert_eq!(
        store.get_backup_keys("@u:x", "99").unwrap_err(),
        BackupError::NotFound
    );
    assert_eq!(
        store.get_backup_key_sessions("@u:x", "99", "!r:x").unwrap_err(),
        BackupError::NotFound
    );

    let info = store.get_latest_backup("@u:x").unwrap();
    assert_eq!(info.version, v);
    assert_eq!(info.count, 0);
}

#[test]
fn count_matches_reference_set_over_operation_sequence() {
    // A long, deterministically generated sequence of puts and deletes,
    // checked after every step against a reference set of (room, session)
    // pairs.
    let mut store = KeyBackups::new();
    let v = store.create_backup("@u:x", ALG);
    let mut reference: std::collections::BTreeSet<(String, String)> =
        std::collections::BTreeSet::new();
    let rooms = ["!a:x", "!b:x", "!c:x"];
    let sessions = ["s1", "s2", "s3", "s4"];
    let mut state: u64 = 0x2545_f491_4f6c_dd1d;
    for step in 0..200u64 {
        state = state.wrapping_mul(6364136223846793005).wrapping_add(1442695040888963407);
        let room = rooms[(state >> 16) as usize % rooms.len()];
        let session = sessions[(state >> 32) as usize % sessions.len()];
        match (state >> 48) % 4 {
            0 | 1 => {
                let payload = format!("{{\"step\":{step}}}");
                store
                    .add_backup_key_session("@u:x", &v, room, session, &payload)
                    .unwrap();
                reference.insert((room.to_string(), session.to_string()));
            }
            2 => {
                store
                    .delete_backup_key_session("@u:x", &v, room, session)
                    .unwrap();
                reference.remove(&(room.to_string(), session.to_string()));
            }
            _ => {
                store.delete_backup_key_sessions("@u:x", &v, room).unwrap();
                reference.retain(|(r, _)| r != room);
            }
        }
        assert_eq!(store.count_keys("@u:x", &v), reference.len());
    }
}
