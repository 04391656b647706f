use bksync::cache::{Cache, CacheEntry};
use bksync::filter::Filter;
use bksync::keys::{KeyMap, KeySet};
use bksync::local::LocalFile;
use bksync::s3::S3Object;
use bksync::sync::pull::{
    delete_local_orphans, find_parent_keys, judge_pull, pull, pull_reads_content,
    record_downloads, Fetched, PullVerdict,
};
use bksync::sync::{Notice, NoticeKind};
use bksync::time::Timestamp;

fn object(key: &str, tag: &str, secs: i64) -> S3Object {
    let nanos = i128::from(secs) * 1_000_000_000;
    S3Object::listed(Some(key), Some(tag), Some(nanos), Some(1))
}

fn file(secs: i64, md5: Option<&str>) -> LocalFile {
    LocalFile {
        modified: Timestamp::from_parts(secs, 0),
        md5: md5.map(|m| m.to_string()),
    }
}

fn remembered(md5: &str, secs: i64, etag: &str) -> CacheEntry {
    CacheEntry {
        md5: md5.to_string(),
        mtime: secs * 1_000_000_000,
        etag: etag.to_string(),
        last_modified: String::new(),
    }
}

fn everything() -> Filter {
    match Filter::new(&[], &["*.tmp".to_string()]) {
        Ok(filter) => filter,
        Err(_) => panic!("the patterns make a filter"),
    }
}

fn said(notices: &[Notice]) -> Vec<String> {
    notices
        .iter()
        .map(|n| {
            let word = match n.kind {
                NoticeKind::Skipped => "skipped",
                NoticeKind::Downloaded => "downloaded",
                NoticeKind::Uploaded => "uploaded",
                NoticeKind::Deleted => "deleted",
            };
            format!("{} {}", word, n.key)
        })
        .collect()
}

#[test]
fn key_of_a_directory_is_found() {
    let objects = vec![object("a", "1", 1), object("a/b", "2", 1), object("ab", "3", 1)];
    let parents = find_parent_keys(&objects);
    assert!(parents.contains("a"));
    assert!(!parents.contains("a/b"));
    assert!(!parents.contains("ab"));
    assert_eq!(parents.len(), 1);
    assert_eq!(find_parent_keys(&[]).len(), 0);
}

#[test]
fn missing_file_is_fetched() {
    assert!(matches!(judge_pull(&object("k", "t", 5), None, None), PullVerdict::Download));
}

#[test]
fn remembered_file_is_skipped() {
    let entry = remembered("m", 3, "t");
    let local = file(3, None);
    assert!(matches!(
        judge_pull(&object("k", "t", 5), Some(&local), Some(&entry)),
        PullVerdict::Skip
    ));
    assert!(!pull_reads_content(&object("k", "t", 5), &local, Some(&entry)));
    let touched = file(4, Some("t"));
    assert!(matches!(
        judge_pull(&object("k", "t", 5), Some(&touched), Some(&entry)),
        PullVerdict::Record
    ));
    assert!(pull_reads_content(&object("k", "t", 5), &touched, Some(&entry)));
}

#[test]
fn object_in_parts_is_judged_by_its_time() {
    let newer = object("k", "t-2", 5);
    let older = object("k", "t-2", 2);
    let local = file(3, Some("m"));
    assert!(matches!(judge_pull(&newer, Some(&local), None), PullVerdict::Download));
    assert!(matches!(judge_pull(&older, Some(&local), None), PullVerdict::Record));
    assert!(!pull_reads_content(&newer, &local, None));
    assert!(pull_reads_content(&older, &local, None));
    let unknown = LocalFile { modified: None, md5: None };
    assert!(matches!(judge_pull(&older, Some(&unknown), None), PullVerdict::Download));
}

#[test]
fn file_with_other_content_is_fetched() {
    let wanted = object("k", "t", 1);
    assert!(matches!(judge_pull(&wanted, Some(&file(9, Some("u"))), None), PullVerdict::Download));
    assert!(matches!(judge_pull(&wanted, Some(&file(9, None)), None), PullVerdict::Download));
    assert!(matches!(judge_pull(&wanted, Some(&file(9, Some("t"))), None), PullVerdict::Record));
}

#[test]
fn pull_is_planned_for_the_whole_listing() {
    let objects = vec![
        object("dir", "0", 1),
        object("dir/new", "1", 5),
        object("dir/same", "2", 1),
        object("skip.tmp", "3", 1),
        object("old", "4", 1),
    ];
    let mut local: KeyMap<LocalFile> = KeyMap::new();
    local.insert("dir/same".to_string(), file(3, Some("2")));
    local.insert("old".to_string(), file(3, None));
    let mut cache = Cache::load(Some(vec![("old".to_string(), remembered("m", 3, "4"))]));
    let plan = pull(&objects, &local, &everything(), false, &mut cache);
    assert_eq!(plan.total, 5);
    let keys: Vec<&str> = plan.downloads.iter().map(|d| d.key.as_str()).collect();
    assert_eq!(keys, vec!["dir/new"]);
    assert_eq!(plan.downloads[0].last_modified.unix_nanos(), Some(5_000_000_000));
    assert_eq!(said(&plan.notices), vec!["skipped dir/same", "skipped old"]);
    assert!(plan.seen.contains("dir/new") && !plan.seen.contains("dir"));
    assert!(!plan.seen.contains("skip.tmp"));
    let entry = cache.get("dir/same").unwrap();
    assert_eq!((entry.md5.as_str(), entry.mtime), ("2", 3_000_000_000));
    assert_eq!(entry.last_modified, "1970-01-01T00:00:01+00:00");
    assert!(cache.get("dir/new").is_none());
}

#[test]
fn dry_pull_only_reports() {
    let objects = vec![object("a", "1", 5)];
    let mut cache = Cache::load(None);
    let plan = pull(&objects, &KeyMap::new(), &everything(), true, &mut cache);
    assert!(plan.downloads.is_empty());
    assert_eq!(said(&plan.notices), vec!["downloaded a"]);
    assert!(cache.save().is_none());
}

#[test]
fn fetched_files_are_remembered_and_skipped_next() {
    let objects = vec![object("a", "t", 5), object("b", "u", 6)];
    let mut cache = Cache::load(None);
    let done = vec![
        Fetched { key: "a".to_string(), file: file(5, Some("t")) },
        Fetched { key: "b".to_string(), file: file(6, None) },
        Fetched { key: "c".to_string(), file: file(7, Some("v")) },
    ];
    record_downloads(&mut cache, &done, &objects);
    assert!(cache.get("b").is_none() && cache.get("c").is_none());
    let entry = cache.get("a").unwrap();
    assert_eq!((entry.md5.as_str(), entry.etag.as_str()), ("t", "t"));
    assert!(matches!(
        judge_pull(&objects[0], Some(&file(5, None)), cache.get("a")),
        PullVerdict::Skip
    ));
}

#[test]
fn only_orphans_are_deleted() {
    let walked: Vec<String> =
        ["docs/a", "docs/b", "docs/c.tmp", "other"].iter().map(|k| k.to_string()).collect();
    let mut seen = KeySet::new();
    seen.insert("docs/a".to_string());
    let plan = delete_local_orphans(&walked, &seen, &everything(), Some("docs/"), false);
    assert_eq!(plan.deletes, vec!["docs/b"]);
    assert!(plan.notices.is_empty());
    let all = delete_local_orphans(&walked, &seen, &everything(), None, false);
    assert_eq!(all.deletes, vec!["docs/b", "other"]);
    let dry = delete_local_orphans(&walked, &seen, &everything(), None, true);
    assert!(dry.deletes.is_empty());
    assert_eq!(said(&dry.notices), vec!["deleted docs/b", "deleted other"]);
}

#[test]
fn second_pull_does_nothing() {
    let objects = vec![object("a", "t-2", 5), object("b", "u", 6)];
    let mut local: KeyMap<LocalFile> = KeyMap::new();
    local.insert("b".to_string(), file(9, Some("u")));
    let mut cache = Cache::load(None);
    let plan = pull(&objects, &local, &everything(), false, &mut cache);
    assert_eq!(plan.downloads.len(), 1);
    let done = vec![Fetched { key: "a".to_string(), file: file(5, Some("m")) }];
    record_downloads(&mut cache, &done, &objects);
    local.insert("a".to_string(), file(5, None));
    local.insert("b".to_string(), file(9, None));
    let again = pull(&objects, &local, &everything(), false, &mut cache);
    assert!(again.downloads.is_empty());
    let walked = vec!["a".to_string(), "b".to_string()];
    let orphans = delete_local_orphans(&walked, &again.seen, &everything(), None, false);
    assert!(orphans.deletes.is_empty());
}
