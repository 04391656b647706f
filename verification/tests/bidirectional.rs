use bksync::cache::{Cache, CacheEntry};
use bksync::filter::Filter;
use bksync::keys::KeyMap;
use bksync::local::LocalFile;
use bksync::s3::S3Object;
use bksync::sync::bidirectional::{
    bidirectional, judge_sync, record_fetches, sync_reads_content, take_remote, SyncVerdict,
};
use bksync::sync::pull::Fetched;
use bksync::sync::transfer::Action;
use bksync::sync::{record_uploads, NoticeKind, Upload};
use bksync::time::Timestamp;

fn object(key: &str, tag: &str, secs: i64) -> S3Object {
    let nanos = i128::from(secs) * 1_000_000_000;
    S3Object::listed(Some(key), Some(tag), Some(nanos), Some(1))
}

fn file(secs: i64, md5: Option<&str>) -> LocalFile {
    LocalFile {
        modified: Timestamp::from_parts(secs, 0),
        md5: md5.map(|m| m.to_string()),
    }
}

fn remembered(md5: &str, secs: i64, etag: &str) -> CacheEntry {
    CacheEntry {
        md5: md5.to_string(),
        mtime: secs * 1_000_000_000,
        etag: etag.to_string(),
        last_modified: String::new(),
    }
}

fn all_but_tmp() -> Filter {
    match Filter::new(&[], &["*.tmp".to_string()]) {
        Ok(filter) => filter,
        Err(_) => panic!("the patterns make a filter"),
    }
}

fn words(actions: &[Action]) -> Vec<String> {
    actions
        .iter()
        .map(|action| match action {
            Action::Download { key, .. } => format!("download {}", key),
            Action::Upload { key, md5, mtime } => format!("upload {} {} {}", key, md5, mtime),
            Action::KeepLocal { key, conflict, .. } => format!("keep local {} {}", key, conflict),
            Action::KeepRemote { key, conflict, md5, mtime } => {
                format!("keep remote {} {} {} {}", key, conflict, md5, mtime)
            }
            Action::DeleteLocal { key } => format!("delete {}", key),
        })
        .collect()
}

#[test]
fn key_on_one_side_is_brought_to_the_other() {
    let theirs = object("k", "t", 5);
    let ours = file(5, Some("m"));
    assert!(matches!(judge_sync(Some(&theirs), None, None, false), SyncVerdict::Download));
    assert!(matches!(judge_sync(None, Some(&ours), None, false), SyncVerdict::Upload));
    assert!(matches!(judge_sync(None, None, None, false), SyncVerdict::Absent));
    let entry = remembered("m", 5, "");
    assert!(matches!(judge_sync(None, Some(&ours), Some(&entry), false), SyncVerdict::Skip));
}

#[test]
fn newer_version_wins() {
    let theirs = object("k", "t", 10);
    assert!(matches!(judge_sync(Some(&theirs), Some(&file(8, Some("t"))), None, false), SyncVerdict::Download));
    assert!(matches!(judge_sync(Some(&theirs), Some(&file(12, Some("m"))), None, false), SyncVerdict::Upload));
    assert!(matches!(judge_sync(Some(&theirs), Some(&file(12, Some("t"))), None, false), SyncVerdict::Record));
    let unknown = LocalFile { modified: None, md5: Some("t".to_string()) };
    assert!(matches!(judge_sync(Some(&theirs), Some(&unknown), None, false), SyncVerdict::Download));
}

#[test]
fn same_time_and_content_is_recorded() {
    let theirs = object("k", "t", 10);
    let within = LocalFile {
        modified: Timestamp::from_parts(10, 999_999_999),
        md5: Some("t".to_string()),
    };
    assert!(matches!(judge_sync(Some(&theirs), Some(&within), None, false), SyncVerdict::Record));
    let differs = LocalFile {
        modified: Timestamp::from_parts(10, 999_999_999),
        md5: Some("m".to_string()),
    };
    assert!(matches!(judge_sync(Some(&theirs), Some(&differs), None, false), SyncVerdict::KeepRemote));
    assert!(matches!(judge_sync(Some(&theirs), Some(&file(10, None)), None, false), SyncVerdict::KeepRemote));
}

#[test]
fn modified_file_is_spared_by_a_newer_object() {
    let theirs = object("k", "t", 10);
    let entry = remembered("m", 5, "s");
    assert!(matches!(
        judge_sync(Some(&theirs), Some(&file(8, Some("n"))), Some(&entry), false),
        SyncVerdict::KeepLocal
    ));
    assert!(matches!(
        judge_sync(Some(&theirs), Some(&file(5, Some("m"))), Some(&entry), false),
        SyncVerdict::Download
    ));
}

#[test]
fn unremembered_file_is_spared_by_a_newer_object() {
    let theirs = object("k", "t", 10);
    assert!(matches!(
        judge_sync(Some(&theirs), Some(&file(8, Some("m"))), None, false),
        SyncVerdict::KeepLocal
    ));
    assert!(matches!(
        judge_sync(Some(&theirs), Some(&file(8, None)), None, false),
        SyncVerdict::KeepLocal
    ));
}

#[test]
fn unchanged_key_is_skipped() {
    let mut by_version = remembered("m", 10, "t-2");
    by_version.last_modified = "1970-01-01T00:00:10+00:00".to_string();
    assert!(matches!(
        judge_sync(Some(&object("k", "t-2", 10)), Some(&file(10, None)), Some(&by_version), false),
        SyncVerdict::Skip
    ));
    let by_content = remembered("m", 5, "");
    assert!(matches!(
        judge_sync(Some(&object("k", "m", 10)), Some(&file(5, None)), Some(&by_content), false),
        SyncVerdict::Skip
    ));
    assert!(matches!(
        judge_sync(Some(&object("k", "x", 1)), Some(&file(5, None)), Some(&by_content), false),
        SyncVerdict::Skip
    ));
}

#[test]
fn restored_object_is_not_taken_for_what_was_sent() {
    let mut cache = Cache::load(None);
    let before = take_remote(&vec![object("k", "old", 3)]);
    let sent = vec![Upload {
        key: "k".to_string(),
        source: "k".to_string(),
        md5: "new".to_string(),
        mtime: 5_000_000_000,
    }];
    record_uploads(&mut cache, &sent, &before);
    let ours = file(5, Some("new"));
    let judge = |o: &S3Object| judge_sync(Some(o), Some(&ours), cache.get("k"), false);
    assert!(matches!(judge(&object("k", "old", 9)), SyncVerdict::Download));
    assert!(matches!(judge(&object("k", "old", 5)), SyncVerdict::KeepRemote));
    assert!(matches!(judge(&object("k", "new", 9)), SyncVerdict::Skip));
}

#[test]
fn content_decides_a_tie_whatever_is_remembered() {
    let theirs = object("k", "m", 10);
    let mut entry = remembered("m", 10, "m");
    entry.last_modified = "1970-01-01T00:00:10+00:00".to_string();
    let judge = |file: &LocalFile, delete: bool| {
        judge_sync(Some(&theirs), Some(file), Some(&entry), delete)
    };
    assert!(matches!(judge(&file(10, Some("n")), false), SyncVerdict::KeepRemote));
    assert!(matches!(judge(&file(10, Some("n")), true), SyncVerdict::KeepRemote));
    assert!(matches!(judge(&file(10, Some("m")), false), SyncVerdict::Record));
    assert!(matches!(judge(&file(10, None), false), SyncVerdict::KeepRemote));
    assert!(sync_reads_content(Some(&theirs), &file(10, None), Some(&entry), false));
    let in_parts = object("k", "m-2", 10);
    let mut kept = remembered("m", 10, "m-2");
    kept.last_modified = "1970-01-01T00:00:10+00:00".to_string();
    assert!(!sync_reads_content(Some(&in_parts), &file(10, None), Some(&kept), false));
}

#[test]
fn file_changed_within_its_time_is_sent_beside_a_conflict_file() {
    let objects = vec![object("k", "m", 10), object("same", "s", 10)];
    let mut local: KeyMap<LocalFile> = KeyMap::new();
    local.insert("k".to_string(), file(10, Some("n")));
    local.insert("same".to_string(), file(10, Some("s")));
    let mut cache = Cache::load(Some(vec![
        ("k".to_string(), remembered("m", 10, "m")),
        ("same".to_string(), remembered("s", 10, "s")),
    ]));
    let plan = bidirectional(&objects, &local, None, &all_but_tmp(), false, false, &mut cache);
    assert_eq!(
        words(&plan.actions),
        vec!["keep remote k k.conflict-10000000000 n 10000000000"]
    );
    assert_eq!(plan.notices.len(), 1);
    assert_eq!(plan.notices[0].key, "same");
    assert!(plan.notices[0].kind == NoticeKind::Skipped);
}

#[test]
fn content_is_read_only_where_it_matters() {
    let theirs = object("k", "t", 10);
    assert!(sync_reads_content(Some(&theirs), &file(8, None), None, false));
    assert!(!sync_reads_content(Some(&theirs), &file(8, None), Some(&remembered("m", 5, "")), false));
    assert!(!sync_reads_content(None, &file(12, None), None, true));
    assert!(sync_reads_content(Some(&theirs), &file(10, None), None, false));
    assert!(sync_reads_content(Some(&theirs), &file(12, None), None, false));
    assert!(sync_reads_content(None, &file(12, None), None, false));
    assert!(!sync_reads_content(None, &file(5, None), Some(&remembered("m", 5, "")), false));
}

#[test]
fn synchronization_is_planned_for_both_sides() {
    let objects = vec![
        object("dir", "0", 1),
        object("dir/theirs", "1", 5),
        object("both-same", "2", 7),
        object("both-clash", "3", 7),
        object("both-old", "4", 1),
        object("both-edited", "5", 9),
        object("x.tmp", "6", 1),
    ];
    let mut local: KeyMap<LocalFile> = KeyMap::new();
    local.insert("ours".to_string(), file(4, Some("a")));
    local.insert("both-same".to_string(), file(7, Some("2")));
    local.insert("both-clash".to_string(), file(7, Some("b")));
    local.insert("both-old".to_string(), file(6, Some("c")));
    local.insert("both-edited".to_string(), file(6, Some("d")));
    local.insert("y.tmp".to_string(), file(6, None));
    let mut cache = Cache::load(Some(vec![("both-edited".to_string(), remembered("e", 2, "x"))]));
    let plan = bidirectional(&objects, &local, None, &all_but_tmp(), false, false, &mut cache);
    assert_eq!(
        words(&plan.actions),
        vec![
            "keep remote both-clash both-clash.conflict-7000000000 b 7000000000",
            "keep local both-edited both-edited.conflict-6000000000",
            "upload both-old c 6000000000",
            "download dir/theirs",
            "upload ours a 4000000000",
        ]
    );
    assert_eq!(plan.total, 6);
    assert!(plan.deletes.is_empty());
    assert_eq!(plan.notices.len(), 1);
    assert_eq!(plan.notices[0].key, "both-same");
    assert_eq!(cache.get("both-same").unwrap().md5, "2");
    assert!(plan.remote.contains("dir/theirs") && !plan.remote.contains("dir"));
    match &plan.actions[3] {
        Action::Download { last_modified, .. } => {
            assert_eq!(last_modified.unix_nanos(), Some(5_000_000_000));
        }
        _ => panic!("the object is fetched"),
    }
}

#[test]
fn synchronization_keeps_to_its_scope() {
    let objects = vec![object("docs/theirs", "1", 5)];
    let mut local: KeyMap<LocalFile> = KeyMap::new();
    local.insert("docs/ours".to_string(), file(4, Some("a")));
    local.insert("other".to_string(), file(4, Some("b")));
    let mut cache = Cache::load(None);
    let plan = bidirectional(&objects, &local, Some("docs/"), &all_but_tmp(), false, false, &mut cache);
    assert_eq!(
        words(&plan.actions),
        vec!["upload docs/ours a 4000000000", "download docs/theirs"]
    );
    assert_eq!(plan.total, 2);
}

#[test]
fn dry_synchronization_only_reports() {
    let objects = vec![object("theirs", "1", 5), object("clash", "2", 7)];
    let mut local: KeyMap<LocalFile> = KeyMap::new();
    local.insert("ours".to_string(), file(4, Some("a")));
    local.insert("clash".to_string(), file(7, Some("b")));
    let mut cache = Cache::load(None);
    let plan = bidirectional(&objects, &local, None, &all_but_tmp(), false, true, &mut cache);
    assert!(plan.actions.is_empty() && plan.deletes.is_empty());
    let said: Vec<(bool, &str)> = plan
        .notices
        .iter()
        .map(|n| (n.kind == NoticeKind::Uploaded, n.key.as_str()))
        .collect();
    assert_eq!(said, vec![(true, "clash"), (true, "ours"), (false, "theirs")]);
    assert!(cache.save().is_none());
}

#[test]
fn what_was_synchronized_is_skipped_next() {
    let objects = vec![object("theirs", "t", 5)];
    let mut local: KeyMap<LocalFile> = KeyMap::new();
    local.insert("ours".to_string(), file(4, Some("a")));
    let mut cache = Cache::load(None);
    let plan = bidirectional(&objects, &local, None, &all_but_tmp(), false, false, &mut cache);
    assert_eq!(plan.actions.len(), 2);
    let done = vec![Fetched { key: "theirs".to_string(), file: file(5, Some("t")) }];
    record_fetches(&mut cache, &done, &plan.remote);
    let sent = vec![Upload {
        key: "ours".to_string(),
        source: "ours".to_string(),
        md5: "a".to_string(),
        mtime: 4_000_000_000,
    }];
    record_uploads(&mut cache, &sent, &plan.remote);
    local.insert("theirs".to_string(), file(5, Some("t")));
    let now = vec![object("theirs", "t", 5), object("ours", "a", 60)];
    local.insert("ours".to_string(), file(4, None));
    let next = bidirectional(&now, &local, None, &all_but_tmp(), false, false, &mut cache);
    assert!(next.actions.is_empty());
    assert_eq!(next.notices.len(), 2);
}

#[test]
fn fetched_file_without_content_is_remembered_without_checksum() {
    let objects = vec![object("k", "t", 5)];
    let mut cache = Cache::load(None);
    let plan =
        bidirectional(&objects, &KeyMap::new(), None, &all_but_tmp(), false, false, &mut cache);
    let done = vec![
        Fetched { key: "k".to_string(), file: file(5, None) },
        Fetched { key: "other".to_string(), file: file(5, Some("m")) },
    ];
    record_fetches(&mut cache, &done, &plan.remote);
    let entry = cache.get("k").unwrap();
    assert_eq!((entry.md5.as_str(), entry.mtime, entry.etag.as_str()), ("", 5_000_000_000, "t"));
    assert!(cache.get("other").is_none());
}

#[test]
fn objects_without_room_for_a_file_are_left_out() {
    let remote = take_remote(&vec![object("a", "1", 1), object("a/b", "2", 1), object("c", "3", 1)]);
    assert_eq!(remote.len(), 2);
    assert!(!remote.contains("a"));
    assert_eq!(remote.get("a/b").unwrap().etag, "2");
}

#[test]
fn what_is_missing_on_the_other_side_is_deleted_on_request() {
    let objects = vec![
        object("theirs", "1", 5),
        object("both", "2", 5),
        object("dir", "3", 5),
        object("dir/x", "4", 5),
        object("skip.tmp", "5", 5),
    ];
    let mut local: KeyMap<LocalFile> = KeyMap::new();
    local.insert("ours".to_string(), file(4, None));
    local.insert("both".to_string(), file(5, Some("2")));
    local.insert("dir".to_string(), file(5, None));
    local.insert("dir/x".to_string(), file(5, Some("4")));
    local.insert("y.tmp".to_string(), file(5, None));
    let mut cache = Cache::load(Some(vec![("ours".to_string(), remembered("m", 4, ""))]));
    let plan = bidirectional(&objects, &local, None, &all_but_tmp(), true, false, &mut cache);
    assert_eq!(words(&plan.actions), vec!["delete ours"]);
    assert_eq!(plan.deletes, vec!["theirs"]);
    let dry = bidirectional(&objects, &local, None, &all_but_tmp(), true, true, &mut cache);
    assert!(dry.actions.is_empty() && dry.deletes.is_empty());
    let gone: Vec<&str> = dry
        .notices
        .iter()
        .filter(|n| n.kind == NoticeKind::Deleted)
        .map(|n| n.key.as_str())
        .collect();
    assert_eq!(gone, vec!["ours", "theirs"]);
}

#[test]
fn version_is_kept_aside_under_a_free_name() {
    let objects = vec![object("k", "1", 9), object("k.conflict-6000000001", "2", 1)];
    let mut local: KeyMap<LocalFile> = KeyMap::new();
    local.insert("k".to_string(), file(6, Some("m")));
    local.insert("k.conflict-6000000000".to_string(), file(1, Some("n")));
    local.insert("k.conflict-6000000001".to_string(), file(1, Some("2")));
    let mut cache = Cache::load(None);
    let plan = bidirectional(&objects, &local, None, &all_but_tmp(), false, false, &mut cache);
    assert_eq!(
        words(&plan.actions),
        vec!["keep local k k.conflict-6000000002", "upload k.conflict-6000000000 n 1000000000"]
    );
}
