use bksync::cache::{Cache, CacheEntry};
use bksync::daemon::{
    carry_out, change_matters, change_needs_object, collect_events, handle_local_change,
    judge_change, judge_refresh, listed_keys, next_turn, pending_notices, pending_work,
    record_fetched, record_upload, refresh_from_s3, refresh_orphans, refresh_reads_content,
    seed_cache, setback, Change, ChangeKind, ChangeVerdict, RefreshVerdict, Setback, Turn, Wake,
    Work,
};
use bksync::filter::Filter;
use bksync::keys::{KeyMap, KeySet};
use bksync::local::LocalFile;
use bksync::s3::S3Object;
use bksync::sync::transfer::{Action, Step};
use bksync::sync::NoticeKind;
use bksync::time::Timestamp;

fn object(key: &str, tag: &str, secs: i64) -> S3Object {
    let nanos = i128::from(secs) * 1_000_000_000;
    S3Object::listed(Some(key), Some(tag), Some(nanos), Some(1))
}

fn file(secs: i64, md5: Option<&str>) -> LocalFile {
    LocalFile {
        modified: Timestamp::from_parts(secs, 0),
        md5: md5.map(|m| m.to_string()),
    }
}

fn remembered(md5: &str, secs: i64, etag: &str) -> CacheEntry {
    CacheEntry {
        md5: md5.to_string(),
        mtime: secs * 1_000_000_000,
        etag: etag.to_string(),
        last_modified: String::new(),
    }
}

fn all_but_tmp() -> Filter {
    match Filter::new(&[], &["*.tmp".to_string()]) {
        Ok(filter) => filter,
        Err(_) => panic!("the patterns make a filter"),
    }
}

fn change(kind: ChangeKind, keys: &[&str]) -> Change {
    Change { kind, keys: keys.iter().map(|k| Some(k.to_string())).collect() }
}

fn words(work: &[Work]) -> Vec<String> {
    work.iter()
        .map(|one| match one {
            Work::DeleteRemote { key } => format!("delete {}", key),
            Work::Examine { key } => format!("examine {}", key),
        })
        .collect()
}

#[test]
fn only_changes_to_watched_files_matter() {
    let filter = all_but_tmp();
    assert!(change_matters(&change(ChangeKind::Create, &["a"]), &filter, None));
    assert!(change_matters(&change(ChangeKind::Remove, &["a", "b"]), &filter, None));
    assert!(change_matters(&change(ChangeKind::Modify, &[]), &filter, None));
    assert!(!change_matters(&change(ChangeKind::Other, &["a"]), &filter, None));
    assert!(!change_matters(&change(ChangeKind::Modify, &["a", "b.tmp"]), &filter, None));
    assert!(!change_matters(&change(ChangeKind::Modify, &["a"]), &filter, Some("docs/")));
    assert!(change_matters(&change(ChangeKind::Modify, &["docs/a"]), &filter, Some("docs/")));
    let outside = Change { kind: ChangeKind::Modify, keys: vec![None] };
    assert!(!change_matters(&outside, &filter, None));
}

#[test]
fn last_change_to_a_file_counts() {
    let mut pending: KeyMap<ChangeKind> = KeyMap::new();
    collect_events(&mut pending, &change(ChangeKind::Create, &["b", "a"]));
    collect_events(&mut pending, &change(ChangeKind::Remove, &["a"]));
    collect_events(&mut pending, &Change { kind: ChangeKind::Modify, keys: vec![None] });
    assert_eq!(pending.len(), 2);
    assert!(*pending.get("a").unwrap() == ChangeKind::Remove);
    assert!(*pending.get("b").unwrap() == ChangeKind::Create);
    assert_eq!(words(&pending_work(&pending, true, false)), vec!["delete a", "examine b"]);
    assert_eq!(words(&pending_work(&pending, false, false)), vec!["examine b"]);
    assert_eq!(words(&pending_work(&pending, true, true)), vec!["examine b"]);
    assert!(pending_notices(&pending, true, false).is_empty());
    assert!(pending_notices(&pending, false, true).is_empty());
    let dry = pending_notices(&pending, true, true);
    assert_eq!(dry.len(), 1);
    assert!(dry[0].key == "a" && dry[0].kind == NoticeKind::Deleted);
}

#[test]
fn daemon_works_refreshes_or_stops() {
    let mut pending: KeyMap<ChangeKind> = KeyMap::new();
    collect_events(&mut pending, &change(ChangeKind::Modify, &["a"]));
    match next_turn(&Wake::Changes(pending), false, false) {
        Turn::Work { work, notices } => {
            assert_eq!(words(&work), vec!["examine a"]);
            assert!(notices.is_empty());
        }
        _ => panic!("there is work"),
    }
    match next_turn(&Wake::Changes(KeyMap::new()), true, false) {
        Turn::Work { work, .. } => assert!(work.is_empty()),
        _ => panic!("there is no work"),
    }
    assert!(matches!(next_turn(&Wake::RefreshDue, true, false), Turn::Refresh));
    assert!(matches!(next_turn(&Wake::Interrupted, true, false), Turn::Stop));
}

#[test]
fn dry_run_takes_no_step() {
    let action = Action::Upload { key: "k".to_string(), md5: "m".to_string(), mtime: 1 };
    let dry = carry_out(&action, true);
    assert!(dry.steps.is_empty());
    assert!(dry.notices[0].key == "k" && dry.notices[0].kind == NoticeKind::Uploaded);
    let real = carry_out(&action, false);
    assert!(real.notices.is_empty());
    assert!(matches!(&real.steps[0], Step::Send { key, .. } if key == "k"));
}

#[test]
fn changed_file_is_weighed_against_its_object() {
    let ours = file(10, Some("m"));
    let judge = |o: Option<&S3Object>| judge_change(Some(&ours), o, None);
    assert!(matches!(judge(None), ChangeVerdict::Upload));
    assert!(matches!(judge(Some(&object("k", "t", 9))), ChangeVerdict::Upload));
    assert!(matches!(judge(Some(&object("k", "t", 11))), ChangeVerdict::KeepLocal));
    assert!(matches!(judge(Some(&object("k", "t", 10))), ChangeVerdict::KeepRemote));
    assert!(matches!(judge(Some(&object("k", "m", 10))), ChangeVerdict::Record));
    assert!(matches!(judge_change(None, None, None), ChangeVerdict::Nothing));
    let far = object("k", "t", 20_000_000_000);
    assert!(matches!(judge(Some(&far)), ChangeVerdict::Upload));
}

#[test]
fn known_change_needs_no_object() {
    let entry = remembered("m", 10, "");
    assert!(!change_needs_object(None, None));
    assert!(!change_needs_object(Some(&file(10, None)), Some(&entry)));
    assert!(change_needs_object(Some(&file(11, None)), Some(&entry)));
    assert!(change_needs_object(Some(&file(10, None)), Some(&remembered("", 10, ""))));
}

#[test]
fn change_leads_to_an_action_or_is_recorded() {
    let key = "k".to_string();
    let ours = file(10, Some("m"));
    let mut cache = Cache::load(None);
    let same = object("k", "m", 10);
    assert!(handle_local_change(&key, Some(&ours), Some(&same), &KeySet::new(), &mut cache).is_none());
    let entry = cache.get("k").unwrap();
    assert_eq!((entry.md5.as_str(), entry.etag.as_str()), ("m", "m"));
    assert!(handle_local_change(&key, Some(&ours), None, &KeySet::new(), &mut cache).is_none());

    let mut fresh = Cache::load(None);
    match handle_local_change(&key, Some(&ours), Some(&object("k", "t", 11)), &KeySet::new(), &mut fresh) {
        Some(Action::KeepLocal { key, conflict, last_modified }) => {
            assert_eq!(key, "k");
            assert_eq!(conflict, "k.conflict-10000000000");
            assert_eq!(last_modified.unix_nanos(), Some(11_000_000_000));
        }
        _ => panic!("the local file is kept aside"),
    }
    match handle_local_change(&key, Some(&ours), Some(&object("k", "t", 10)), &KeySet::new(), &mut fresh) {
        Some(Action::KeepRemote { conflict, md5, mtime, .. }) => {
            assert_eq!((conflict.as_str(), md5.as_str()), ("k.conflict-10000000000", "m"));
            assert_eq!(mtime, 10_000_000_000);
        }
        _ => panic!("the object is kept aside"),
    }
    match handle_local_change(&key, Some(&ours), None, &KeySet::new(), &mut fresh) {
        Some(Action::Upload { md5, .. }) => assert_eq!(md5, "m"),
        _ => panic!("the file is sent"),
    }
    assert!(handle_local_change(&key, None, None, &KeySet::new(), &mut fresh).is_none());
    assert!(fresh.save().is_none());
}

#[test]
fn sent_file_is_left_alone() {
    let key = "k".to_string();
    let ours = file(10, Some("m"));
    let mut cache = Cache::load(None);
    let now = Timestamp::from_parts(1_700_000_000, 0).unwrap();
    record_upload(&mut cache, &key, &"m".to_string(), 10_000_000_000, &now);
    let entry = cache.get("k").unwrap();
    assert_eq!((entry.md5.as_str(), entry.etag.as_str()), ("m", ""));
    assert_eq!(entry.last_modified, "2023-11-14T22:13:20+00:00");
    assert!(matches!(judge_change(Some(&ours), None, cache.get("k")), ChangeVerdict::Nothing));
    let sent = object("k", "m", 1_700_000_000);
    assert!(matches!(judge_refresh(&sent, Some(&ours), cache.get("k")), RefreshVerdict::Skip));
}

#[test]
fn fetched_file_is_left_alone() {
    let theirs = object("k", "t", 10);
    let mut cache = Cache::load(None);
    record_fetched(&mut cache, &theirs, &file(12, None));
    assert!(cache.get("k").is_none());
    record_fetched(&mut cache, &theirs, &file(12, Some("t")));
    let ours = file(12, Some("t"));
    assert!(matches!(
        judge_change(Some(&ours), Some(&theirs), cache.get("k")),
        ChangeVerdict::Nothing
    ));
    assert!(matches!(judge_refresh(&theirs, Some(&ours), cache.get("k")), RefreshVerdict::Skip));
}

#[test]
fn object_is_weighed_against_its_file() {
    let theirs = object("k", "t", 10);
    let judge = |f: Option<&LocalFile>, c: Option<&CacheEntry>| judge_refresh(&theirs, f, c);
    assert!(matches!(judge(None, None), RefreshVerdict::Download));
    assert!(matches!(judge(None, Some(&remembered("m", 1, "t"))), RefreshVerdict::Download));
    assert!(matches!(judge(None, Some(&remembered("m", 1, "s"))), RefreshVerdict::Download));
    assert!(matches!(judge(Some(&file(9, None)), None), RefreshVerdict::KeepLocal));
    assert!(matches!(judge(Some(&file(9, Some("t"))), None), RefreshVerdict::Download));
    assert!(refresh_reads_content(&theirs, &file(9, None), None));
    assert!(!refresh_reads_content(&theirs, &file(10, None), None));
    assert!(matches!(judge(Some(&file(10, None)), None), RefreshVerdict::Skip));
    let mut known = remembered("m", 5, "t");
    assert!(matches!(judge(Some(&file(6, None)), Some(&known)), RefreshVerdict::KeepLocal));
    known.last_modified = "1970-01-01T00:00:10+00:00".to_string();
    assert!(matches!(judge(Some(&file(6, None)), Some(&known)), RefreshVerdict::Skip));
    let entry = remembered("m", 5, "s");
    assert!(matches!(judge(Some(&file(5, None)), Some(&entry)), RefreshVerdict::Download));
    assert!(matches!(judge(Some(&file(6, None)), Some(&entry)), RefreshVerdict::KeepLocal));
}

#[test]
fn refresh_fetches_what_is_new() {
    let objects = vec![
        object("docs/new", "1", 5),
        object("docs/edited", "2", 9),
        object("docs/x.tmp", "3", 5),
        object("other", "4", 5),
        object("docs/known", "5", 5),
    ];
    let mut local: KeyMap<LocalFile> = KeyMap::new();
    local.insert("docs/edited".to_string(), file(7, None));
    local.insert("docs/known".to_string(), file(1, None));
    let cache = Cache::load(Some(vec![
        ("docs/edited".to_string(), remembered("m", 6, "0")),
        ("docs/known".to_string(), remembered("5", 1, "")),
    ]));
    let names = KeySet::new();
    let actions = refresh_from_s3(&objects, &local, &names, &all_but_tmp(), Some("docs/"), &cache);
    assert_eq!(actions.len(), 2);
    match &actions[0] {
        Action::Download { key, .. } => assert_eq!(key, "docs/new"),
        _ => panic!("the object is fetched"),
    }
    match &actions[1] {
        Action::KeepLocal { key, conflict, .. } => {
            assert_eq!(key, "docs/edited");
            assert_eq!(conflict, "docs/edited.conflict-7000000000");
        }
        _ => panic!("the local file is kept aside"),
    }
    let mut named = KeySet::new();
    named.insert("docs/edited.conflict-7000000000".to_string());
    let renamed = refresh_from_s3(&objects, &local, &named, &all_but_tmp(), Some("docs/"), &cache);
    assert!(matches!(
        &renamed[1],
        Action::KeepLocal { conflict, .. } if conflict == "docs/edited.conflict-7000000001"
    ));
    let all = refresh_from_s3(&objects, &local, &names, &all_but_tmp(), None, &cache);
    assert_eq!(all.len(), 3);
}

#[test]
fn refresh_spares_what_it_kept_aside() {
    let objects = vec![object("k", "t", 9)];
    let actions = vec![Action::KeepLocal {
        key: "k".to_string(),
        conflict: "k.conflict-7".to_string(),
        last_modified: Timestamp::epoch(),
    }];
    let walked: Vec<String> =
        ["k", "k.conflict-7", "orphan", "x.tmp"].iter().map(|k| k.to_string()).collect();
    let plan = refresh_orphans(&walked, &objects, &actions, &all_but_tmp(), None, false);
    assert_eq!(plan.deletes, vec!["orphan"]);
    assert!(plan.notices.is_empty());
    let dry = refresh_orphans(&walked, &objects, &actions, &all_but_tmp(), None, true);
    assert!(dry.deletes.is_empty());
    assert_eq!(dry.notices.len(), 1);
    let scoped = refresh_orphans(&walked, &objects, &vec![], &all_but_tmp(), Some("k"), false);
    assert_eq!(scoped.deletes, vec!["k.conflict-7"]);
}

#[test]
fn failed_rename_ends_the_refresh() {
    let rename = Step::Rename { from: "a".to_string(), to: "b".to_string() };
    assert!(setback(&rename) == Setback::EndRefresh);
    let fetch = Step::Fetch { key: "a".to_string(), to: "a".to_string() };
    assert!(setback(&fetch) == Setback::NextObject);
}

#[test]
fn files_that_match_at_the_start_are_remembered() {
    let objects = vec![
        object("a", "m", 5),
        object("b", "u", 6),
        object("c", "v", 7),
        object("d", "w", 14),
    ];
    let mut local: KeyMap<LocalFile> = KeyMap::new();
    local.insert("a".to_string(), file(9, Some("m")));
    local.insert("b".to_string(), file(9, None));
    local.insert("d".to_string(), file(9, Some("other")));
    let mut cache = Cache::load(None);
    seed_cache(&mut cache, &objects, &local);
    let entry = cache.get("a").unwrap();
    assert_eq!((entry.md5.as_str(), entry.mtime, entry.etag.as_str()), ("m", 9_000_000_000, "m"));
    assert_eq!(entry.last_modified, "1970-01-01T00:00:05+00:00");
    assert!(cache.get("b").is_none() && cache.get("c").is_none() && cache.get("d").is_none());
    assert!(matches!(
        judge_refresh(&objects[3], local.get("d"), cache.get("d")),
        RefreshVerdict::KeepLocal
    ));
    let keys = listed_keys(&objects);
    assert_eq!(keys.len(), 4);
    assert!(keys.contains("c") && !keys.contains("e"));
}
