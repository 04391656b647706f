use std::collections::BTreeMap;

use bksync::keys::KeySet;
use bksync::sync::transfer::{
    completed, conflict_name, notice_of, plan_steps, send_step, Action, Completed, Step,
};
use bksync::sync::{NoticeKind, Upload};
use bksync::time::Timestamp;

fn words(steps: &[Step]) -> Vec<String> {
    steps
        .iter()
        .map(|step| match step {
            Step::Rename { from, to } => format!("rename {} {}", from, to),
            Step::Fetch { key, to } => format!("fetch {} {}", key, to),
            Step::Stamp { file, last_modified } => {
                format!("stamp {} {}", file, last_modified.unix_nanos().unwrap())
            }
            Step::Send { key, from, md5, mtime } => {
                format!("send {} {} {} {}", key, from, md5, mtime)
            }
            Step::Remove { file } => format!("remove {}", file),
        })
        .collect()
}

fn time() -> Timestamp {
    Timestamp::from_parts(3, 0).unwrap()
}

#[test]
fn conflict_file_is_named_after_the_time() {
    let none = KeySet::new();
    assert_eq!(conflict_name("a/b.txt", 42, &none), "a/b.txt.conflict-42");
    assert_eq!(conflict_name("a", -1, &none), "a.conflict--1");
    assert_ne!(conflict_name("a", 1, &none), conflict_name("b", 1, &none));
    let mut taken = KeySet::new();
    taken.insert("a.conflict-7".to_string());
    taken.insert("a.conflict-8".to_string());
    assert_eq!(conflict_name("a", 7, &taken), "a.conflict-9");
    assert_eq!(conflict_name("a", 6, &taken), "a.conflict-6");
    let mut last = KeySet::new();
    last.insert("a.conflict-9223372036854775807".to_string());
    assert_eq!(conflict_name("a", i64::MAX, &last), "a.conflict-9223372036854775808");
}

#[test]
fn fetched_file_gets_the_time_of_its_object() {
    let action = Action::Download { key: "k".to_string(), last_modified: time() };
    assert_eq!(words(&plan_steps(&action, true)), vec!["fetch k k", "stamp k 3000000000"]);
    assert_eq!(words(&plan_steps(&action, false)), vec!["fetch k k"]);
}

#[test]
fn local_file_is_kept_aside_before_the_object_is_fetched() {
    let action = Action::KeepLocal {
        key: "k".to_string(),
        conflict: "k.conflict-7".to_string(),
        last_modified: time(),
    };
    assert_eq!(
        words(&plan_steps(&action, true)),
        vec!["rename k k.conflict-7", "fetch k k", "stamp k 3000000000"]
    );
    assert_eq!(words(&plan_steps(&action, false)), vec!["rename k k.conflict-7", "fetch k k"]);
}

#[test]
fn object_is_kept_aside_before_the_local_file_is_sent() {
    let action = Action::KeepRemote {
        key: "k".to_string(),
        conflict: "k.conflict-7".to_string(),
        md5: "m".to_string(),
        mtime: 7,
    };
    assert_eq!(words(&plan_steps(&action, true)), vec!["fetch k k.conflict-7", "send k k m 7"]);
}

#[test]
fn sending_and_deleting_take_one_step() {
    let send = Action::Upload { key: "k".to_string(), md5: "m".to_string(), mtime: 7 };
    assert_eq!(words(&plan_steps(&send, true)), vec!["send k k m 7"]);
    let gone = Action::DeleteLocal { key: "k".to_string() };
    assert_eq!(words(&plan_steps(&gone, true)), vec!["remove k"]);
}

#[test]
fn completed_action_is_a_fetch_a_sending_or_a_deletion() {
    let kept = Action::KeepLocal {
        key: "k".to_string(),
        conflict: "c".to_string(),
        last_modified: time(),
    };
    assert!(matches!(completed(&kept), Completed::Fetched { key } if key == "k"));
    let fetched = Action::Download { key: "d".to_string(), last_modified: time() };
    assert!(matches!(completed(&fetched), Completed::Fetched { key } if key == "d"));
    let sent = Action::KeepRemote {
        key: "k".to_string(),
        conflict: "c".to_string(),
        md5: "m".to_string(),
        mtime: 7,
    };
    match completed(&sent) {
        Completed::Sent { upload } => {
            assert_eq!((upload.key.as_str(), upload.source.as_str()), ("k", "k"));
            assert_eq!((upload.md5.as_str(), upload.mtime), ("m", 7));
        }
        _ => panic!("the file was sent"),
    }
    let gone = Action::DeleteLocal { key: "g".to_string() };
    assert!(matches!(completed(&gone), Completed::Deleted { key } if key == "g"));
}

#[test]
fn upload_is_sent_from_its_source() {
    let upload = Upload {
        key: "p/k".to_string(),
        source: "k".to_string(),
        md5: "m".to_string(),
        mtime: 7,
    };
    assert_eq!(words(&[send_step(&upload)]), vec!["send p/k k m 7"]);
}

struct World {
    local: BTreeMap<String, String>,
    remote: BTreeMap<String, String>,
}

impl World {
    fn new(local: &[(&str, &str)], remote: &[(&str, &str)]) -> World {
        let side = |entries: &[(&str, &str)]| {
            entries.iter().map(|(k, v)| (k.to_string(), v.to_string())).collect()
        };
        World { local: side(local), remote: side(remote) }
    }

    fn act(&mut self, action: &Action) {
        for step in plan_steps(action, true) {
            match step {
                Step::Rename { from, to } => {
                    let content = self.local.remove(&from).unwrap();
                    self.local.insert(to, content);
                }
                Step::Fetch { key, to } => {
                    let content = self.remote[&key].clone();
                    self.local.insert(to, content);
                }
                Step::Stamp { file, .. } => assert!(self.local.contains_key(&file)),
                Step::Send { key, from, .. } => {
                    let content = self.local[&from].clone();
                    self.remote.insert(key, content);
                }
                Step::Remove { file } => {
                    self.local.remove(&file).unwrap();
                }
            }
        }
    }

    fn holds(&self, content: &str) -> bool {
        self.local.values().any(|c| c == content) || self.remote.values().any(|c| c == content)
    }
}

#[test]
fn conflict_keeps_both_versions() {
    let mut world = World::new(&[("k", "ours")], &[("k", "theirs")]);
    world.act(&Action::KeepLocal {
        key: "k".to_string(),
        conflict: conflict_name("k", 7, &KeySet::new()),
        last_modified: time(),
    });
    assert_eq!(world.local["k"], "theirs");
    assert_eq!(world.local["k.conflict-7"], "ours");
    assert!(world.holds("ours") && world.holds("theirs"));

    let mut other = World::new(&[("k", "ours")], &[("k", "theirs")]);
    other.act(&Action::KeepRemote {
        key: "k".to_string(),
        conflict: conflict_name("k", 7, &KeySet::new()),
        md5: "m".to_string(),
        mtime: 7,
    });
    assert_eq!(other.remote["k"], "ours");
    assert_eq!(other.local["k"], "ours");
    assert_eq!(other.local["k.conflict-7"], "theirs");
}

#[test]
fn transfers_make_the_sides_agree() {
    let mut world = World::new(
        &[("sent", "a"), ("clash", "b"), ("idle", "c")],
        &[("fetched", "d"), ("clash", "e"), ("idle", "f")],
    );
    world.act(&Action::Download { key: "fetched".to_string(), last_modified: time() });
    world.act(&Action::Upload { key: "sent".to_string(), md5: "m".to_string(), mtime: 1 });
    world.act(&Action::KeepLocal {
        key: "clash".to_string(),
        conflict: conflict_name("clash", 1, &KeySet::new()),
        last_modified: time(),
    });
    for key in ["sent", "fetched", "clash"] {
        assert_eq!(world.local[key], world.remote[key]);
    }
    assert_eq!(world.local["idle"], "c");
    assert_eq!(world.remote["idle"], "f");
}

#[test]
fn action_is_reported_by_what_it_does() {
    let gone = Action::DeleteLocal { key: "g".to_string() };
    assert!(notice_of(&gone).kind == NoticeKind::Deleted);
    let sent = Action::Upload { key: "u".to_string(), md5: "m".to_string(), mtime: 1 };
    assert!(notice_of(&sent).kind == NoticeKind::Uploaded);
    assert_eq!(notice_of(&sent).key, "u");
    let fetched = Action::Download { key: "d".to_string(), last_modified: time() };
    assert!(notice_of(&fetched).kind == NoticeKind::Downloaded);
}
