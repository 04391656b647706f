use bksync::cache::{Cache, CacheEntry};
use bksync::filter::Filter;
use bksync::keys::KeyMap;
use bksync::local::LocalFile;
use bksync::s3::{list_objects_map, S3Object};
use bksync::sync::push::{
    is_multipart, judge_push, push, push_reads_content, remote_key, PushVerdict,
};
use bksync::sync::{concerns, record_removals, record_uploads, was_sent, NoticeKind, Upload};
use bksync::time::Timestamp;

fn object(key: &str, tag: &str, secs: i64) -> S3Object {
    let nanos = i128::from(secs) * 1_000_000_000;
    S3Object::listed(Some(key), Some(tag), Some(nanos), Some(1))
}

fn file(secs: i64, md5: Option<&str>) -> LocalFile {
    LocalFile {
        modified: Timestamp::from_parts(secs, 0),
        md5: md5.map(|m| m.to_string()),
    }
}

fn remembered(md5: &str, secs: i64) -> CacheEntry {
    CacheEntry {
        md5: md5.to_string(),
        mtime: secs * 1_000_000_000,
        etag: String::new(),
        last_modified: String::new(),
    }
}

fn all_but_tmp() -> Filter {
    match Filter::new(&[], &["*.tmp".to_string()]) {
        Ok(filter) => filter,
        Err(_) => panic!("the patterns make a filter"),
    }
}

#[test]
fn file_is_sent_below_the_prefix() {
    assert_eq!(remote_key(Some("backups//"), "a/b"), "backups/a/b");
    assert_eq!(remote_key(Some("backups"), "a"), "backups/a");
    assert_eq!(remote_key(Some(""), "a"), "/a");
    assert_eq!(remote_key(None, "a"), "a");
    assert_ne!(remote_key(Some("p"), "a"), remote_key(Some("p"), "b"));
}

#[test]
fn scope_is_a_prefix_of_the_key() {
    assert!(concerns(None, "x"));
    assert!(concerns(Some("docs/"), "docs/a"));
    assert!(!concerns(Some("docs/"), "doc"));
}

#[test]
fn parts_show_in_the_tag() {
    assert!(is_multipart("abc-3"));
    assert!(!is_multipart("abc"));
}

#[test]
fn sent_file_is_skipped_while_its_time_stays() {
    let entry = remembered("m", 3);
    assert!(was_sent(Some(&entry), 3_000_000_000));
    assert!(!was_sent(Some(&entry), 4));
    assert!(!was_sent(Some(&remembered("", 3)), 3_000_000_000));
    assert!(!was_sent(None, 0));
    assert!(matches!(judge_push(None, &file(3, None), Some(&entry)), PushVerdict::Skip));
    assert!(!push_reads_content(&file(3, None), Some(&entry)));
    assert!(push_reads_content(&file(4, None), Some(&entry)));
}

#[test]
fn file_is_sent_when_the_object_differs() {
    assert!(matches!(judge_push(None, &file(3, Some("m")), None), PushVerdict::Upload));
    let same = object("k", "m", 9);
    assert!(matches!(judge_push(Some(&same), &file(3, Some("m")), None), PushVerdict::Record));
    assert!(matches!(judge_push(Some(&same), &file(3, Some("n")), None), PushVerdict::Upload));
    let parts = object("k", "m-1", 9);
    assert!(matches!(judge_push(Some(&parts), &file(10, Some("m")), None), PushVerdict::Upload));
    assert!(matches!(judge_push(Some(&parts), &file(9, Some("m")), None), PushVerdict::Record));
    let untagged = object("k", "", 9);
    assert!(matches!(judge_push(Some(&untagged), &file(3, None), None), PushVerdict::Record));
}

#[test]
fn push_is_planned_for_all_local_files() {
    let listed = list_objects_map(&vec![
        object("p/same", "s", 1),
        object("p/gone", "g", 1),
        object("p/gone.tmp", "g", 1),
    ]);
    let mut local: KeyMap<LocalFile> = KeyMap::new();
    local.insert("new".to_string(), file(2, Some("n")));
    local.insert("same".to_string(), file(2, Some("s")));
    local.insert("sent".to_string(), file(3, None));
    local.insert("x.tmp".to_string(), file(3, None));
    let mut cache = Cache::load(Some(vec![("p/sent".to_string(), remembered("m", 3))]));
    let plan = push(&listed, &local, Some("p/"), &all_but_tmp(), true, false, &mut cache);
    assert_eq!(plan.total, 3);
    assert_eq!(plan.uploads.len(), 1);
    assert_eq!(plan.uploads[0].key, "p/new");
    assert_eq!(plan.uploads[0].source, "new");
    assert_eq!(plan.uploads[0].md5, "n");
    assert_eq!(plan.uploads[0].mtime, 2_000_000_000);
    assert_eq!(plan.deletes, vec!["p/gone"]);
    let keys: Vec<&str> = plan.notices.iter().map(|n| n.key.as_str()).collect();
    assert_eq!(keys, vec!["p/same", "p/sent"]);
    assert_eq!(cache.get("p/same").unwrap().etag, "s");
}

#[test]
fn dry_push_only_reports() {
    let listed = list_objects_map(&vec![object("gone", "g", 1)]);
    let mut local: KeyMap<LocalFile> = KeyMap::new();
    local.insert("new".to_string(), file(2, Some("n")));
    let mut cache = Cache::load(None);
    let plan = push(&listed, &local, None, &all_but_tmp(), true, true, &mut cache);
    assert!(plan.uploads.is_empty() && plan.deletes.is_empty());
    assert!(plan.notices[0].kind == NoticeKind::Uploaded && plan.notices[0].key == "new");
    assert!(plan.notices[1].kind == NoticeKind::Deleted && plan.notices[1].key == "gone");
    let kept = push(&listed, &local, None, &all_but_tmp(), false, false, &mut cache);
    assert!(kept.deletes.is_empty());
}

#[test]
fn sent_and_deleted_files_are_recorded() {
    let listed = list_objects_map(&vec![object("a", "old", 1)]);
    let mut cache = Cache::load(None);
    let sent = |key: &str| Upload {
        key: key.to_string(),
        source: key.to_string(),
        md5: "m".to_string(),
        mtime: 4,
    };
    record_uploads(&mut cache, &vec![sent("a"), sent("b")], &listed);
    let known = cache.get("a").unwrap();
    assert_eq!((known.md5.as_str(), known.mtime, known.etag.as_str()), ("m", 4, "old"));
    assert_eq!(known.last_modified, "1970-01-01T00:00:01+00:00");
    let fresh = cache.get("b").unwrap();
    assert_eq!((fresh.etag.as_str(), fresh.last_modified.as_str()), ("", ""));
    let again = LocalFile { modified: Timestamp::from_parts(0, 4), md5: None };
    assert!(matches!(judge_push(None, &again, cache.get("b")), PushVerdict::Skip));
    record_removals(&mut cache, &vec!["a".to_string(), "zz".to_string()]);
    assert!(cache.get("a").is_none());
    assert!(cache.get("b").is_some());
}

#[test]
fn path_of_a_single_file_sends_that_file_alone() {
    assert_eq!(remote_key(Some("file.md"), "file.md"), "file.md");
    let mut local: KeyMap<LocalFile> = KeyMap::new();
    local.insert("file.md".to_string(), file(100, Some("abc")));
    local.insert("other".to_string(), file(100, Some("x")));
    let listed = list_objects_map(&vec![object("file.md.bak", "b", 1)]);
    let mut cache = Cache::load(None);
    let plan = push(&listed, &local, Some("file.md"), &all_but_tmp(), true, false, &mut cache);
    assert_eq!(plan.total, 1);
    let keys: Vec<&str> = plan.uploads.iter().map(|u| u.key.as_str()).collect();
    assert_eq!(keys, vec!["file.md"]);
    assert!(plan.deletes.is_empty());
}

#[test]
fn second_push_does_nothing() {
    let mut local: KeyMap<LocalFile> = KeyMap::new();
    local.insert("new".to_string(), file(2, Some("n")));
    local.insert("same".to_string(), file(2, Some("s")));
    let listed = list_objects_map(&vec![object("same", "s", 1), object("gone", "g", 1)]);
    let mut cache = Cache::load(None);
    let plan = push(&listed, &local, None, &all_but_tmp(), true, false, &mut cache);
    assert_eq!((plan.uploads.len(), plan.deletes.len()), (1, 1));
    record_uploads(&mut cache, &plan.uploads, &listed);
    record_removals(&mut cache, &plan.deletes);
    let later = list_objects_map(&vec![object("same", "s", 1), object("new", "whatever", 9)]);
    let again = push(&later, &local, None, &all_but_tmp(), true, false, &mut cache);
    assert!(again.uploads.is_empty() && again.deletes.is_empty());
    let mut unread: KeyMap<LocalFile> = KeyMap::new();
    unread.insert("new".to_string(), file(2, None));
    unread.insert("same".to_string(), file(2, None));
    let once_more = push(&later, &unread, None, &all_but_tmp(), true, false, &mut cache);
    assert!(once_more.uploads.is_empty() && once_more.deletes.is_empty());
}
