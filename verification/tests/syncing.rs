use grammers_session::types::PeerId as Outside;
use tgfs::config::{PackConfig, MAX_DOCUMENT_SIZE};
use tgfs::crypto::Crypto;
use tgfs::diff::{
    normalize_path, scan, scan_changes, Changes, LocalFile, ScanEvent, ScanStats, ScanStep, Scanner,
};
use tgfs::file::{FileUpload, UploadedFile};
use tgfs::index::{
    now_unix, unix_timestamp, ChunkEntry, FileEntry, Index, IndexError, SnapshotRecord,
};
use tgfs::restore;
use tgfs::session::{
    self, ChannelKind, ChannelState, DcOption, FileSession, FileSessionError, PeerId, PeerInfo,
    PeerRow, SchemaAction, UpdateState, UpdatesState,
};
use tgfs::snapshot::{self, PinMove, PinStep, RemoteIndexInfo, SnapshotError};
use tgfs::sync::{
    check_push_key, progress_due, pull_gate, push_gate, Prepared, PullPlan, Push, PushSettings,
    PushStep, ReportLine, StatusReporter, SyncError, VersionState,
};

fn local(path: &str, size: u64, mtime: i64) -> LocalFile {
    LocalFile { rel_path: path.to_string(), abs_path: format!("/r/{path}"), size, mtime }
}

fn indexed(path: &str, size: u64, mtime: i64) -> FileEntry {
    FileEntry {
        path: path.to_string(),
        size,
        mtime,
        hash: "hash".to_string(),
        deleted: false,
        chunks: vec![],
    }
}

fn kinds(events: &[ScanEvent]) -> Vec<String> {
    events
        .iter()
        .map(|event| match event {
            ScanEvent::New(file) => format!("new:{}", file.rel_path),
            ScanEvent::Modified(file) => format!("modified:{}", file.rel_path),
            ScanEvent::Unchanged(file) => format!("same:{}", file.rel_path),
            ScanEvent::Deleted(path) => format!("deleted:{path}"),
            ScanEvent::Progress(_) => "progress".to_string(),
        })
        .collect()
}

#[test]
fn scan_classifies_files_and_emits_deletions_last() {
    let mut index = Index::new();
    index.upsert_file(&indexed("same", 3, 5)).unwrap();
    index.upsert_file(&indexed("changed", 1, 0)).unwrap();
    index.upsert_file(&indexed("deleted", 1, 0)).unwrap();
    let files = vec![local("changed", 6, 5), local("new", 3, 5), local("same", 3, 5)];
    let (events, changes) = scan(&index, &files, 0);
    assert_eq!(changes, Changes { new: 1, modified: 1, deleted: 1, unchanged: 1 });
    let kinds = kinds(&events);
    assert_eq!(kinds, vec!["modified:changed", "new:new", "same:same", "deleted:deleted"]);
    assert_eq!(kinds.last().unwrap(), "deleted:deleted");
    assert_eq!(scan_changes(&index, &files, 0), changes);
    assert!(!changes.is_clean());
}

#[test]
fn unwalked_files_become_deletions() {
    let mut index = Index::new();
    for path in ["skip.tmp", "b", "Z"] {
        index.upsert_file(&indexed(path, 4, 0)).unwrap();
    }
    index.upsert_file(&indexed("gone", 4, 0)).unwrap();
    assert!(index.tombstone_file("gone"));
    let (events, changes) = scan(&index, &vec![local("keep.txt", 4, 0)], 0);
    assert_eq!(
        kinds(&events),
        vec!["new:keep.txt", "deleted:Z", "deleted:b", "deleted:skip.tmp"]
    );
    assert_eq!(changes.deleted, 3);
    assert!(scan_changes(&Index::new(), &vec![], 0).is_clean());
    assert_eq!(normalize_path("a\\b/c"), "a/b/c");
}

#[test]
fn modification_is_size_or_time() {
    let mut index = Index::new();
    index.upsert_file(&indexed("f", 3, 5)).unwrap();
    for (size, mtime, expected) in [(3, 5, "same:f"), (4, 5, "modified:f"), (3, 6, "modified:f")] {
        let (events, _) = scan(&index, &vec![local("f", size, mtime)], 0);
        assert_eq!(kinds(&events), vec![expected]);
    }
}

#[test]
fn progress_is_reported_now_and_then() {
    let mut scanner = Scanner::new(&Index::new(), 100);
    scanner.walked_dir();
    for i in 0..256 {
        assert!(matches!(scanner.poll(100), ScanStep::Walk));
        scanner.walked_file(local(&i.to_string(), 2, 0), if i == 255 { 600 } else { 100 });
    }
    match scanner.poll(700) {
        ScanStep::Event(ScanEvent::Progress(stats)) => {
            assert_eq!(stats, ScanStats { scanned: 256, dirs: 1, bytes: 512 })
        }
        other => panic!("{other:?}"),
    }
    for i in 0..256 {
        scanner.walked_file(local(&format!("x{i}"), 2, 0), 1199);
    }
    assert!(matches!(scanner.poll(1199), ScanStep::Walk));
    scanner.walk_finished();
    assert!(matches!(scanner.poll(1199), ScanStep::Done));
}

fn chunk(hash: &str, size: u64, msg_id: i32) -> ChunkEntry {
    ChunkEntry { hash: hash.to_string(), size, msg_id, offset: 0, encrypted: false }
}

#[test]
fn file_roundtrip_and_dedup() {
    let mut index = Index::new();
    index.insert_chunk(&chunk("aa", 10, 1));
    index.insert_chunk(&chunk("bb", 5, 2));
    let entry = FileEntry {
        path: "photos/a.jpg".to_string(),
        size: 15,
        mtime: 100,
        hash: "filehash".to_string(),
        deleted: false,
        chunks: vec!["aa".to_string(), "bb".to_string()],
    };
    index.upsert_file(&entry).unwrap();

    let got = index.get_file("photos/a.jpg").unwrap();
    assert_eq!(got.chunks, vec!["aa".to_string(), "bb".to_string()]);
    assert_eq!(got.size, 15);
    assert!(index.chunk("aa").is_some());
    assert!(index.chunk("zz").is_none());

    let entry2 = FileEntry { chunks: vec!["bb".to_string()], mtime: 200, ..entry };
    index.upsert_file(&entry2).unwrap();
    let got = index.get_file("photos/a.jpg").unwrap();
    assert_eq!(got.chunks, vec!["bb".to_string()]);
    assert_eq!(got.mtime, 200);
}

#[test]
fn tombstone_and_export() {
    let mut index = Index::new();
    for name in ["docs/a.txt", "docs/b.txt"] {
        index.upsert_file(&indexed(name, 1, 1)).unwrap();
    }
    let n = index.tombstone_missing("docs/", &vec!["docs/a.txt".to_string()]);
    assert_eq!(n, 1);
    let visible = index.list_files(Some("docs/"), false);
    assert_eq!(visible.len(), 1);
    assert_eq!(visible[0].path, "docs/a.txt");

    let snapshot = index.export(now_unix());
    assert_eq!(snapshot.files.len(), 2);
    assert!(snapshot.files.iter().any(|f| f.deleted));
}

#[test]
fn index_edges() {
    let mut index = Index::new();
    let mut missing = indexed("f", 1, 1);
    missing.chunks = vec!["nope".to_string()];
    assert_eq!(index.upsert_file(&missing), Err(IndexError::UnknownChunk));
    assert!(index.get_file("f").is_none());
    assert!(!index.tombstone_file("f"));
    let mut entry = indexed("f", 1, 1);
    entry.deleted = true;
    index.upsert_file(&entry).unwrap();
    assert!(!index.get_file("f").unwrap().deleted);
    assert!(index.tombstone_file("f"));
    assert!(!index.tombstone_file("f"));
    assert!(index.get_file("f").unwrap().deleted);
    index.upsert_file(&indexed("é", 1, 1)).unwrap();
    index.upsert_file(&indexed("a", 1, 1)).unwrap();
    let paths = |list: Vec<FileEntry>| list.into_iter().map(|f| f.path).collect::<Vec<_>>();
    assert_eq!(paths(index.list_files(None, true)), vec!["a", "f", "é"]);
    assert_eq!(paths(index.list_files(None, false)), vec!["a", "é"]);
    index.insert_chunk(&chunk("c", 1, 1));
    index.insert_chunk(&chunk("c", 1, 2));
    assert_eq!(index.chunk("c").unwrap().msg_id, 2);
    index.set_version(4);
    assert_eq!(index.version(), 4);
    index.record_snapshot(4, 9, 7);
    let record = SnapshotRecord { version: 4, created_at: 9, msg_id: 7 };
    assert_eq!(index.snapshots(), &vec![record]);
    assert_eq!(index.stat_map().len(), 2);
}

#[test]
fn the_clock_gives_seconds() {
    assert!(now_unix() > 1_700_000_000);
    assert_eq!(unix_timestamp(None), 0);
    assert_eq!(unix_timestamp(Some(12)), 12);
    assert_eq!(unix_timestamp(Some(u64::MAX)), -1);
}

#[test]
fn exported_indexes_can_be_imported() {
    let mut index = Index::new();
    index.insert_chunk(&chunk("aa", 10, 1));
    let mut entry = indexed("x", 10, 3);
    entry.chunks = vec!["aa".to_string()];
    index.upsert_file(&entry).unwrap();
    index.upsert_file(&indexed("y", 0, 3)).unwrap();
    index.tombstone_file("y");
    index.set_version(9);
    let dump = index.export(55);
    assert_eq!((dump.version, dump.created_at), (9, 55));

    let mut other = Index::new();
    other.upsert_file(&indexed("old", 0, 3)).unwrap();
    let wrong = RemoteIndexInfo { version: 8, msg_id: 4 };
    assert_eq!(
        snapshot::import(&mut other, &dump, wrong).unwrap_err().message(),
        "pinned caption says v8 but snapshot contains v9 — refusing to import"
    );
    assert!(other.get_file("old").is_some());
    let right = RemoteIndexInfo { version: 9, msg_id: 4 };
    assert_eq!(snapshot::import(&mut other, &dump, right), Ok(()));
    assert!(other.get_file("old").is_none());
    assert_eq!(other.get_file("x").unwrap().chunks, vec!["aa"]);
    assert!(other.get_file("y").unwrap().deleted);
    assert_eq!(other.chunk("aa").unwrap().size, 10);
    assert_eq!(other.version(), 9);
    assert_eq!(
        other.snapshots(),
        &vec![SnapshotRecord { version: 9, created_at: 55, msg_id: 4 }]
    );
    let mut broken = index.export(56);
    broken.chunks.clear();
    assert_eq!(
        snapshot::import(&mut other, &broken, right),
        Err(SnapshotError::Incomplete)
    );
    assert_eq!(other.chunk("aa").unwrap().size, 10);
    snapshot::record_published(&mut other, &dump, 77);
    assert_eq!(other.snapshots()[1].msg_id, 77);
}

#[test]
fn snapshot_caption_roundtrip() {
    let caption = snapshot::caption(42, 10, 12, 1_752_000_000);
    assert_eq!(snapshot::parse_caption(&caption), Some(42));
    assert_eq!(snapshot::parse_caption("tgfs-index v7"), Some(7));
    assert_eq!(snapshot::parse_caption("something else"), None);
    assert_eq!(snapshot::parse_caption("tgfs-index vX"), None);
}

#[test]
fn captions_in_detail() {
    assert_eq!(
        snapshot::caption(42, 10, 12, -5),
        "tgfs-index v42 files=10 chunks=12 created=-5"
    );
    assert_eq!(
        snapshot::caption(u64::MAX, 0, 0, i64::MIN),
        "tgfs-index v18446744073709551615 files=0 chunks=0 created=-9223372036854775808"
    );
    assert_eq!(snapshot::parse_caption("tgfs-index v18446744073709551615"), Some(u64::MAX));
    assert_eq!(snapshot::parse_caption("tgfs-index v18446744073709551616"), None);
    assert_eq!(snapshot::parse_caption("tgfs-index v007x"), Some(7));
    assert_eq!(snapshot::parse_caption("tgfs-index v"), None);
    assert_eq!(snapshot::parse_caption(""), None);
    assert_eq!(snapshot::snapshot_name(3, false), "tgfs-index-v3.json.zst");
    assert_eq!(snapshot::snapshot_name(3, true), "tgfs-index-v3.json.zst.enc");
}

#[test]
fn snapshots_are_stored_and_opened() {
    let json = b"{\"version\":1}".repeat(50);
    let info = RemoteIndexInfo { version: 1, msg_id: 2 };
    let key = [6u8; 32];
    let crypto = Crypto::new(&key);

    let plain = snapshot::encode_snapshot(&json, None).unwrap();
    assert_ne!(plain, json);
    assert_eq!(zstd::decode_all(plain.as_slice()).unwrap(), json);
    assert_eq!(plain, zstd::encode_all(json.as_slice(), 9).unwrap());
    let fetched = snapshot::open_snapshot(info, plain.clone(), Some(&key)).unwrap();
    assert!(!fetched.encrypted);
    assert_eq!(snapshot::decode_snapshot(&fetched.plain).unwrap(), json);

    let sealed = snapshot::encode_snapshot(&json, Some(&crypto)).unwrap();
    assert_eq!(&sealed[8..40], blake3::hash(&plain).as_bytes());
    let fetched = snapshot::open_snapshot(info, sealed.clone(), Some(&key)).unwrap();
    assert!(fetched.encrypted);
    assert_eq!(fetched.info, info);
    assert_eq!(snapshot::decode_snapshot(&fetched.plain).unwrap(), json);

    let mut index = Index::new();
    index.set_version(3);
    let published = snapshot::publish(&index.export(9), &json, Some(&crypto)).unwrap();
    assert_eq!(published.name, "tgfs-index-v3.json.zst.enc");
    assert_eq!(published.caption, "tgfs-index v3 files=0 chunks=0 created=9");
    assert_eq!(published.bytes, sealed);

    assert_eq!(
        snapshot::open_snapshot(info, sealed.clone(), None).unwrap_err(),
        SnapshotError::KeyRequired
    );
    assert!(matches!(
        snapshot::open_snapshot(info, sealed.clone(), Some(&[7u8; 32])),
        Err(SnapshotError::Crypto(_))
    ));
    assert_eq!(snapshot::decode_snapshot(b"junk"), Err(SnapshotError::NotZstd));
    assert_eq!(snapshot::decode_snapshot(b"junk").unwrap_err().message(), "snapshot is not valid zstd");
    assert_eq!(snapshot::seal_snapshot(vec![1, 2], None).unwrap(), vec![1, 2]);
}

#[test]
fn only_one_snapshot_stays_pinned() {
    let messages = vec![
        ("tgfs-index v3 files=1".to_string(), 30),
        ("hello".to_string(), 31),
        ("tgfs-index v2".to_string(), 20),
        ("tgfs-index v4".to_string(), 40),
    ];
    let found = snapshot::pinned_indices(&messages);
    assert_eq!(found.iter().map(|i| i.version).collect::<Vec<_>>(), vec![3, 2, 4]);
    assert_eq!(snapshot::unpin_previous(&found, 40), vec![30, 20]);
    assert_eq!(
        snapshot::remote_index_info("tgfs-index v3", 30),
        Some(RemoteIndexInfo { version: 3, msg_id: 30 })
    );
    assert_eq!(snapshot::remote_index_info("x", 30), None);
}

#[test]
fn the_new_snapshot_is_pinned_before_the_old_are_unpinned() {
    let found = |ids: &[i32]| {
        ids.iter()
            .map(|id| RemoteIndexInfo { version: *id as u64, msg_id: *id })
            .collect::<Vec<_>>()
    };
    let mut pins = vec![20, 30];
    let mut steps = Vec::new();
    let mut change = PinMove::new(40);
    loop {
        let step = change.step();
        steps.push(step);
        match step {
            PinStep::Pin(id) => {
                pins.push(id);
                change.step_done();
            }
            PinStep::List => change.listed(&found(&pins)),
            PinStep::Unpin(id) => {
                pins.retain(|pin| *pin != id);
                change.step_done();
            }
            PinStep::Done => break,
        }
        assert!(!pins.is_empty());
    }
    assert_eq!(pins, [40]);
    assert_eq!(
        steps,
        [
            PinStep::Pin(40),
            PinStep::List,
            PinStep::Unpin(20),
            PinStep::Unpin(30),
            PinStep::Done,
        ]
    );
}

fn remote(version: u64) -> Option<RemoteIndexInfo> {
    Some(RemoteIndexInfo { version, msg_id: 1 })
}

#[test]
fn version_state() {
    assert!(matches!(VersionState::of(3, None), VersionState::NoRemote));
    assert!(matches!(VersionState::of(3, remote(3)), VersionState::UpToDate(3)));
    assert!(matches!(VersionState::of(2, remote(5)), VersionState::Behind(2, 5)));
    assert!(matches!(VersionState::of(5, remote(2)), VersionState::Ahead(5, 2)));
}

#[test]
fn versions_in_words() {
    assert_eq!(VersionState::NoRemote.describe(), "no remote index snapshot yet");
    assert_eq!(VersionState::UpToDate(3).describe(), "index up to date with remote (v3)");
    assert_eq!(
        VersionState::Behind(2, 5).describe(),
        "index BEHIND remote (local v2, remote v5) — run `tgfs pull`"
    );
    assert_eq!(
        VersionState::Ahead(5, 2).describe(),
        "index AHEAD of remote (local v5, remote v2) — a previous push may not have finished; `tgfs push` will re-publish"
    );
}

#[test]
fn pushes_and_pulls_are_gated() {
    assert_eq!(push_gate(3, None, false), Ok((VersionState::NoRemote, 4)));
    assert_eq!(push_gate(2, remote(5), true), Ok((VersionState::Behind(2, 5), 6)));
    assert_eq!(push_gate(5, remote(2), false), Ok((VersionState::Ahead(5, 2), 6)));
    assert!(push_gate(2, remote(u64::MAX), false).is_err());
    let error = push_gate(2, remote(5), false).unwrap_err();
    assert_eq!(
        error.message(),
        "index BEHIND remote (local v2, remote v5) — run `tgfs pull` (or use --force to overwrite the remote index)"
    );
    assert_eq!(check_push_key(true, false), Err(SyncError::KeyRequired));
    assert_eq!(check_push_key(true, true), Ok(()));
    assert_eq!(check_push_key(false, false), Ok(()));

    assert_eq!(pull_gate(3, None, false), Ok(PullPlan::NoRemote));
    assert_eq!(pull_gate(3, remote(3), false), Ok(PullPlan::UpToDate(3)));
    assert_eq!(pull_gate(2, remote(5), false), Ok(PullPlan::Fetch(remote(5).unwrap())));
    assert_eq!(pull_gate(5, remote(2), true), Ok(PullPlan::Fetch(remote(2).unwrap())));
    assert_eq!(
        pull_gate(5, remote(2), false).unwrap_err().message(),
        "local index (v5) is ahead of remote (v2) — pulling would discard local index state; use --force to roll back"
    );
    assert!(progress_due(None, 0));
    assert!(progress_due(Some(100), 600));
    assert!(!progress_due(Some(100), 599));
}

fn settings(encrypted: bool) -> PushSettings {
    PushSettings {
        pack: PackConfig { threshold: 10, target_size: 12 },
        chunk_size: 100,
        encrypted,
    }
}

fn small(path: &str, hash: &str, size: u64) -> (LocalFile, FileEntry) {
    let mut entry = indexed(path, size, 1);
    entry.chunks = vec![hash.to_string()];
    (local(path, size, 1), entry)
}

fn push_small(push: &mut Push, index: &mut Index, path: &str, hash: &str, size: u64) -> Prepared {
    let (file, entry) = small(path, hash, size);
    match push.take(ScanEvent::New(file), index) {
        PushStep::Prepare(file) => push.prepared(&file, entry, index).unwrap(),
        other => panic!("{other:?}"),
    }
}

#[test]
fn small_files_are_packed_once() {
    let mut index = Index::new();
    let mut push = Push::new(settings(false));
    assert!(push.plan_flush(&index).unwrap().is_none());
    assert!(matches!(push_small(&mut push, &mut index, "a", "h1", 5), Prepared::Queued));
    assert!(matches!(push_small(&mut push, &mut index, "b", "h1", 5), Prepared::Queued));
    assert!(matches!(push_small(&mut push, &mut index, "c", "h2", 7), Prepared::Queued));
    assert_eq!(push.pending_members().len(), 2);
    assert_eq!(push.pending_members()[1].offset, 5);
    let entry = match push_small(&mut push, &mut index, "d", "h3", 1) {
        Prepared::FlushFirst(entry) => entry,
        other => panic!("{other:?}"),
    };
    let plan = push.plan_flush(&index).unwrap().unwrap();
    assert_eq!(plan.stored_len, 12);
    assert!(plan.stored_len <= MAX_DOCUMENT_SIZE);
    assert_eq!(push.flushed(&mut index, &plan.hash, 70).unwrap(), vec!["a", "b", "c"]);
    assert_eq!(index.chunk("h2").unwrap().offset, 5);
    assert_eq!(index.get_file("b").unwrap().chunks, vec!["h1"]);
    let file = small("d", "h3", 1).0;
    assert!(matches!(push.prepared(&file, entry, &mut index), Ok(Prepared::Queued)));
    assert_eq!(push.pending_members()[0].offset, 0);
    assert!(matches!(push_small(&mut push, &mut index, "e", "h2", 7), Prepared::Recorded));
    let plan = push.plan_flush(&index).unwrap().unwrap();
    push.flushed(&mut index, &plan.hash, 71).unwrap();
    assert_eq!(
        push.finish(&mut index, 8),
        "push done: 5 uploaded (13 bytes), 0 unchanged, 0 tombstoned"
    );
    assert_eq!(index.version(), 8);
    for path in ["a", "b", "c", "d", "e"] {
        assert!(!index.get_file(path).unwrap().deleted);
    }
}

#[test]
fn a_push_handles_every_event() {
    let mut index = Index::new();
    index.upsert_file(&indexed("gone", 1, 1)).unwrap();
    let mut push = Push::new(settings(true));
    assert!(matches!(push.take(ScanEvent::Unchanged(local("u", 1, 1)), &mut index), PushStep::Done));
    let deleted = |p: &str| ScanEvent::Deleted(p.to_string());
    assert!(matches!(push.take(deleted("gone"), &mut index), PushStep::Done));
    assert!(matches!(push.take(deleted("never"), &mut index), PushStep::Done));
    assert!(index.get_file("gone").unwrap().deleted);
    let file = match push.take(ScanEvent::Modified(local("big", 10, 1)), &mut index) {
        PushStep::Upload(file) => file,
        other => panic!("{other:?}"),
    };
    assert_eq!(
        push.uploading_line(&file.rel_path),
        "\r\x1b[2Kuploading… big (1 changed, 0 uploaded)"
    );
    let mut entry = indexed("big", 10, 1);
    entry.chunks = vec!["c".repeat(64)];
    let mut upload = FileUpload::new(entry, 100, true);
    assert_eq!(upload.next_chunk(&index).unwrap().stored_len, 26);
    upload.chunk_done(&mut index, 3);
    push.uploaded(upload.finish(), &mut index).unwrap();
    let stats = ScanStats { scanned: 256, dirs: 2, bytes: 2048 };
    match push.take(ScanEvent::Progress(stats), &mut index) {
        PushStep::Progress(line) => assert_eq!(
            line,
            "\r\x1b[2Kpushing… 256 files, 2 dirs scanned (2.0 KiB), 1 changed, 1 uploaded"
        ),
        other => panic!("{other:?}"),
    }
    let mut empty = indexed("empty", 0, 1);
    empty.chunks = vec![];
    match push.take(ScanEvent::New(local("empty", 0, 1)), &mut index) {
        PushStep::Prepare(file) => {
            assert!(matches!(push.prepared(&file, empty, &mut index), Ok(Prepared::Recorded)))
        }
        other => panic!("{other:?}"),
    }
    assert_eq!(
        push.finish(&mut index, 1),
        "push done: 2 uploaded (10 bytes), 1 unchanged, 1 tombstoned"
    );
}

#[test]
fn a_push_leaves_the_tree_in_the_index() {
    let mut index = Index::new();
    index.upsert_file(&indexed("kept", 3, 4)).unwrap();
    index.upsert_file(&indexed("stale", 1, 1)).unwrap();
    index.upsert_file(&indexed("touched", 6, 0)).unwrap();
    let files = vec![local("kept", 3, 4), local("new", 2, 9), local("touched", 6, 7)];
    let mut push = Push::new(settings(false));
    for event in scan(&index, &files, 0).0 {
        if let PushStep::Prepare(file) = push.take(event, &mut index) {
            let mut entry = indexed(&file.rel_path, file.size, file.mtime);
            entry.chunks = vec![format!("chunk of {}", file.rel_path)];
            assert!(matches!(push.prepared(&file, entry, &mut index), Ok(Prepared::Queued)));
        }
    }
    let plan = push.plan_flush(&index).unwrap().unwrap();
    assert_eq!(push.flushed(&mut index, &plan.hash, 70).unwrap(), vec!["new", "touched"]);
    push.finish(&mut index, 1);
    let present: Vec<_> = index
        .list_files(None, false)
        .iter()
        .map(|file| (file.path.clone(), file.size, file.mtime))
        .collect();
    let walked: Vec<_> = files
        .iter()
        .map(|file| (file.rel_path.clone(), file.size, file.mtime))
        .collect();
    assert_eq!(present, walked);
    assert!(index.get_file("stale").unwrap().deleted);
}

#[test]
fn a_second_push_uploads_nothing() {
    let mut index = Index::new();
    let mut push = Push::new(settings(false));
    push_small(&mut push, &mut index, "a", "h1", 5);
    push_small(&mut push, &mut index, "b", "h2", 7);
    push_small(&mut push, &mut index, "c", "h1", 5);
    let plan = push.plan_flush(&index).unwrap().unwrap();
    push.flushed(&mut index, &plan.hash, 70).unwrap();
    push.finish(&mut index, 1);

    let before = index.export(0);
    let mut again = Push::new(settings(false));
    let files = vec![local("a", 5, 1), local("c", 5, 1)];
    let (events, _) = scan(&index, &files, 0);
    assert_eq!(kinds(&events), vec!["same:a", "same:c", "deleted:b"]);
    for event in events {
        assert!(matches!(again.take(event, &mut index), PushStep::Done));
    }
    assert!(again.plan_flush(&index).unwrap().is_none());
    assert_eq!(
        again.finish(&mut index, 2),
        "push done: 0 uploaded (0 bytes), 2 unchanged, 1 tombstoned"
    );
    assert_eq!(index.version(), 2);
    let after = index.export(0);
    assert_eq!(before.chunks.len(), after.chunks.len());
    assert_eq!(before.files.len(), after.files.len());
    for (old, new) in before.files.iter().zip(&after.files) {
        assert_eq!(
            (&old.path, &old.hash, old.size, old.mtime, &old.chunks),
            (&new.path, &new.hash, new.size, new.mtime, &new.chunks)
        );
        assert_eq!(new.deleted, new.path == "b");
    }
}

#[test]
fn scans_are_the_same_with_and_without_progress() {
    let mut index = Index::new();
    index.upsert_file(&indexed("gone", 1, 0)).unwrap();
    index.upsert_file(&indexed("5", 2, 0)).unwrap();
    let files: Vec<LocalFile> = (0..600).map(|i| local(&i.to_string(), 2, 0)).collect();
    let mut scanner = Scanner::new(&index, 0);
    let mut events = Vec::new();
    let mut clock = 0;
    let mut walk = files.iter();
    loop {
        clock += 100;
        match scanner.poll(clock) {
            ScanStep::Event(event) => events.push(event),
            ScanStep::Done => break,
            ScanStep::Walk => match walk.next() {
                Some(file) => events.push(scanner.walked_file(file.clone(), clock)),
                None => scanner.walk_finished(),
            },
        }
    }
    let mut told = kinds(&events);
    assert_eq!(told.iter().filter(|kind| *kind == "progress").count(), 2);
    told.retain(|kind| kind != "progress");
    assert_eq!(told, kinds(&scan(&index, &files, 0).0));
    assert_eq!(told[5], "same:5");
    assert_eq!(told.last().unwrap(), "deleted:gone");
}

#[test]
fn the_index_refuses_files_without_chunks() {
    let mut index = Index::new();
    let mut push = Push::new(settings(false));
    push.take(ScanEvent::New(local("big", 10, 1)), &mut index);
    let mut entry = indexed("big", 10, 1);
    entry.chunks = vec!["c".to_string()];
    let file = UploadedFile { entry, uploaded_bytes: 10 };
    assert_eq!(
        push.uploaded(file, &mut index),
        Err(SyncError::Index(IndexError::UnknownChunk))
    );
}

#[test]
fn the_status_lists_twenty_of_a_kind() {
    let mut report = StatusReporter::new(false, true);
    for i in 0..22 {
        let line = report.event(ScanEvent::New(local(&format!("f{i}"), 1, 1)));
        assert!(matches!(line, ReportLine::Nothing));
    }
    report.event(ScanEvent::Modified(local("m", 1, 1)));
    report.event(ScanEvent::Deleted("d".to_string()));
    report.event(ScanEvent::Unchanged(local("u", 1, 1)));
    let stats = ScanStats { scanned: 5, dirs: 4, bytes: 3 };
    match report.event(ScanEvent::Progress(stats)) {
        ReportLine::Progress(line) => {
            assert_eq!(line, "\r\x1b[2Kscanning… 5 files, 4 dirs (3 B), 24 changed")
        }
        other => panic!("{other:?}"),
    }
    let (lines, changes) = report.finish();
    assert_eq!(changes, Changes { new: 22, modified: 1, deleted: 1, unchanged: 1 });
    assert_eq!(lines.len(), 24);
    assert_eq!(lines[0], "  new:     f0");
    assert_eq!(lines[20], "  new:     … and 2 more (use -v to list all)");
    assert_eq!(lines[21], "  modified:m");
    assert_eq!(lines[22], "  deleted: d");
    assert_eq!(
        lines[23],
        "22 new, 1 modified, 1 deleted, 1 unchanged, 4 dirs — run `tgfs push` to upload"
    );
}

#[test]
fn a_verbose_status_lists_all_at_once() {
    let mut report = StatusReporter::new(true, false);
    match report.event(ScanEvent::Deleted("d".to_string())) {
        ReportLine::Line(line) => assert_eq!(line, "  deleted: d"),
        other => panic!("{other:?}"),
    }
    let (lines, _) = report.finish();
    assert_eq!(lines.len(), 1);
    let mut clean = StatusReporter::new(true, false);
    clean.event(ScanEvent::Unchanged(local("u", 1, 1)));
    assert!(matches!(
        clean.event(ScanEvent::Progress(ScanStats { scanned: 1, dirs: 3, bytes: 0 })),
        ReportLine::Nothing
    ));
    assert_eq!(
        clean.finish().0,
        vec!["0 new, 0 modified, 0 deleted, 1 unchanged, 3 dirs — working tree clean"]
    );
}

#[test]
fn files_and_folders_are_chosen_for_restoration() {
    let mut index = Index::new();
    for path in ["a", "a/x", "a/y", "ab", "gone"] {
        index.upsert_file(&indexed(path, 1, 1)).unwrap();
    }
    index.tombstone_file("gone");
    let paths = |remote: &str| {
        restore::get(&index, remote)
            .map(|list| list.into_iter().map(|f| f.path).collect::<Vec<_>>())
            .map_err(|e| e.path)
    };
    assert_eq!(paths("a"), Ok(vec!["a".to_string()]));
    assert_eq!(paths("a/"), Ok(vec!["a/x".to_string(), "a/y".to_string()]));
    assert_eq!(paths("a//"), Ok(vec!["a/x".to_string(), "a/y".to_string()]));
    assert_eq!(paths("gone"), Err("gone".to_string()));
    assert_eq!(paths("b"), Err("b".to_string()));
    assert_eq!(restore::folder_of("p/q//"), "p/q/");
    assert_eq!(restore::folder_of("/"), "/");
}

#[test]
fn session_round_trip() {
    let mut session = FileSession::new(2);
    let default_dc = session.home_dc_id();
    session.set_home_dc_id(default_dc + 1);
    assert_eq!(session.home_dc_id(), default_dc + 1);

    let me = PeerInfo::User { id: 42, auth: Some(1234), bot: Some(false), is_self: Some(true) };
    session.cache_peer(&me);
    match session.peer(PeerId::SelfUser) {
        Some(PeerInfo::User { id: 42, auth: Some(1234), bot: Some(false), is_self: Some(true) }) => {}
        other => panic!("{other:?}"),
    }

    let state = || UpdatesState {
        pts: 1,
        qts: 2,
        date: 3,
        seq: 4,
        channels: vec![ChannelState { id: 5, pts: 6 }],
    };
    session.set_update_state(UpdateState::All(state())).unwrap();
    let got = session.updates_state();
    assert_eq!((got.pts, got.qts, got.date, got.seq), (1, 2, 3, 4));
    assert_eq!(got.channels, state().channels);
}

#[test]
fn update_states_change_in_parts() {
    let mut session = FileSession::new(2);
    session.set_update_state(UpdateState::Secondary { qts: 9 }).unwrap();
    session.set_update_state(UpdateState::Primary { pts: 1, date: 2, seq: 3 }).unwrap();
    session.set_update_state(UpdateState::Channel { id: 7, pts: 5 }).unwrap();
    session.set_update_state(UpdateState::Channel { id: -7, pts: 4 }).unwrap();
    session.set_update_state(UpdateState::Channel { id: 7, pts: 6 }).unwrap();
    let got = session.updates_state();
    assert_eq!((got.pts, got.qts, got.date, got.seq), (1, 9, 2, 3));
    let expected = vec![ChannelState { id: -7, pts: 4 }, ChannelState { id: 7, pts: 6 }];
    assert_eq!(got.channels, expected);
    let twice = UpdatesState {
        pts: 0,
        qts: 0,
        date: 0,
        seq: 0,
        channels: vec![ChannelState { id: 1, pts: 1 }, ChannelState { id: 1, pts: 2 }],
    };
    assert_eq!(
        session.set_update_state(UpdateState::All(twice)),
        Err(FileSessionError::DuplicateChannel(1))
    );
    assert_eq!(session.updates_state().pts, 1);
}

#[test]
fn peers_are_merged_and_found() {
    let mut session = FileSession::new(2);
    let chan = |auth, kind| PeerInfo::Channel { id: 8, auth, kind };
    session.cache_peer(&chan(None, Some(ChannelKind::Megagroup)));
    session.cache_peer(&chan(Some(5), Some(ChannelKind::Broadcast)));
    assert!(matches!(
        session.peer(PeerId::Channel(8)),
        Some(PeerInfo::Channel { id: 8, auth: Some(5), kind: Some(ChannelKind::Megagroup) })
    ));
    for kind in [ChannelKind::Broadcast, ChannelKind::Gigagroup] {
        let mut fresh = FileSession::new(2);
        fresh.cache_peer(&chan(None, Some(kind)));
        match fresh.peer(PeerId::Channel(8)) {
            Some(PeerInfo::Channel { kind: found, .. }) => assert_eq!(found, Some(kind)),
            other => panic!("{other:?}"),
        }
    }
    session.cache_peer(&PeerInfo::Chat { id: 8 });
    assert!(matches!(session.peer(PeerId::Chat(8)), Some(PeerInfo::Chat { id: 8 })));
    assert!(session.peer(PeerId::User(8)).is_none());
    assert!(session.peer(PeerId::SelfUser).is_none());
    session.cache_peer(&PeerInfo::User { id: 3, auth: None, bot: Some(true), is_self: None });
    assert!(matches!(
        session.peer(PeerId::User(3)),
        Some(PeerInfo::User { id: 3, auth: None, bot: Some(true), is_self: Some(false) })
    ));
    session.load_peer(4, PeerRow { hash: Some(1), subtype: Some(3) });
    assert!(matches!(
        session.peer(PeerId::SelfUser),
        Some(PeerInfo::User { id: 4, auth: Some(1), bot: Some(true), is_self: Some(true) })
    ));
}

#[test]
fn dialog_keys_follow_the_session_crate() {
    for id in [
        -1, 0, 1, 42, 0xff_ffff_ffff, 0x100_0000_0000, 999_999_999_999, 1_000_000_000_000,
        997_852_516_352, 997_852_516_353, 1_002_147_483_648, 1_002_147_483_649,
        3_000_000_000_000, 3_000_000_000_001,
    ] {
        let dialog = |p: Option<Outside>| p.and_then(|p| p.bot_api_dialog_id());
        assert_eq!(PeerId::User(id).dialog_id(), dialog(Outside::user(id)));
        assert_eq!(PeerId::Chat(id).dialog_id(), dialog(Outside::chat(id)));
        assert_eq!(PeerId::Channel(id).dialog_id(), dialog(Outside::channel(id)));
    }
    assert_eq!(PeerId::Chat(42).dialog_id(), Some(-42));
    assert_eq!(PeerId::Channel(42).dialog_id(), Some(-1_000_000_000_042));
    assert_eq!(PeerId::SelfUser.dialog_id(), None);
}

#[test]
fn session_tables_and_data_centers() {
    assert_eq!(session::initialize(1), Ok(SchemaAction::Ready));
    assert_eq!(session::initialize(0), Ok(SchemaAction::Create));
    assert_eq!(
        session::initialize(2).unwrap_err().message(),
        "unsupported session database version 2"
    );
    let option = |len: Option<usize>| DcOption {
        id: 4,
        ipv4: "1.2.3.4:443".to_string(),
        ipv6: "[::1]:443".to_string(),
        auth_key: len.map(|n| vec![1u8; n]),
    };
    let opened = FileSession::open(2, Some(3), vec![option(None)], vec![option(Some(256))])
        .ok()
        .unwrap();
    assert_eq!(opened.home_dc_id(), 3);
    assert!(opened.dc_option(4).unwrap().auth_key.is_some());
    assert_eq!(
        FileSession::open(2, None, vec![], vec![option(None), option(Some(1))]).err(),
        Some(FileSessionError::InvalidAuthKeyLength(1))
    );
    let mut s = FileSession::open(2, None, vec![], vec![]).ok().unwrap();
    assert_eq!(s.home_dc_id(), 2);
    assert!(s.dc_option(4).is_none());
    assert_eq!(s.load_dc_option(option(None)), Ok(()));
    assert_eq!(s.load_dc_option(option(Some(256))), Ok(()));
    assert_eq!(s.dc_option(4).unwrap().auth_key.as_ref().unwrap().len(), 256);
    assert_eq!(
        s.load_dc_option(option(Some(255))).unwrap_err().message(),
        "invalid auth key length: expected 256, got 255"
    );
    assert_eq!(s.dc_option(4).unwrap().auth_key.as_ref().unwrap().len(), 256);
}
