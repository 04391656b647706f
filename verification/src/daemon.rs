//! Continuous synchronization: what to do about local changes as they come, and about the
//! bucket from time to time.
use vstd::prelude::*;
use vstd::string::*;

use crate::cache::{entry_view, Cache, CacheEntry, CacheView, EntryView};
use crate::checksum::{
    law_plain_etag_drops_only_quotes, md5_matches, plain_etag, shows_same_content,
};
use crate::filter::{texts, Filter, Patterns};
use crate::keys::{in_order, lemma_in_order, KeyMap, KeySet};
use crate::local::{file_view, LocalFile, LocalView};
use crate::s3::{object_views, ObjectView, S3Object};
use crate::sync::pull::{
    delete_local_orphans, file_under, has_key, is_orphan, keys_differ, OrphanPlan,
};
use crate::sync::push::object_view;
use crate::sync::transfer::{
    action_notice, action_views, conflict_for, conflict_name, keeps_aside,
    law_conflict_keeps_both, law_conflict_names_are_free, law_steps_carry_what_is_known,
    notice_of, plan_steps, step_views, steps_of, Action, ActionView, Sides, Step,
};
use crate::sync::{
    at_risk, concerns, content_known, entry_for, entry_of, in_scope, is_at_risk, knows_content,
    knows_version, lemma_filter_ascending, lemma_filter_holds, lemma_filter_push, lemma_take_set,
    notice_views, notices_on, notify, sent_before, text_view, version_known, was_sent, Notice,
    NoticeKind, NoticeView,
};
use crate::text::{lemma_less_asymmetric, same_text, text_less};
use crate::time::{rfc3339, Timestamp};

verus! {

/// What happened to a local file.
#[derive(Clone, Copy, PartialEq, Eq, Structural)]
pub enum ChangeKind {
    Create,
    Modify,
    Remove,
    /// Something that leaves the file as it is, such as reading it.
    Other,
}

impl View for ChangeKind {
    type V = ChangeKind;

    open spec fn view(&self) -> ChangeKind {
        *self
    }
}

/// A change that the file system reports, with the keys of the files; none for a file outside
/// the local directory.
pub struct Change {
    pub kind: ChangeKind,
    pub keys: Vec<Option<String>>,
}

/// What a [`Change`] says.
#[verifier::ext_equal]
pub struct ChangeView {
    pub kind: ChangeKind,
    pub keys: Seq<Option<Seq<char>>>,
}

/// A key that may be missing.
pub open spec fn key_view(key: Option<String>) -> Option<Seq<char>> {
    match key {
        Some(k) => Some(k@),
        None => None,
    }
}

impl View for Change {
    type V = ChangeView;

    open spec fn view(&self) -> ChangeView {
        ChangeView {
            kind: self.kind,
            keys: Seq::new(self.keys@.len(), |i: int| key_view(self.keys@[i])),
        }
    }
}

/// Whether a file that a change is about is watched: it is in the local directory, the filter
/// lets it through, and the operation has to do with it.
pub open spec fn is_watched(
    patterns: Patterns,
    prefix: Option<Seq<char>>,
    key: Option<Seq<char>>,
) -> bool {
    key matches Some(k) && patterns.select(k) && in_scope(prefix, k)
}

/// Whether a change matters: it may change content, and is about watched files alone.
pub open spec fn is_relevant(
    patterns: Patterns,
    prefix: Option<Seq<char>>,
    change: ChangeView,
) -> bool {
    change.kind !is Other && forall|i: int|
        0 <= i < change.keys.len() ==> is_watched(patterns, prefix, #[trigger] change.keys[i])
}

/// Whether a change matters.
pub fn change_matters(change: &Change, filter: &Filter, prefix: Option<&str>) -> (yes: bool)
    ensures
        yes == is_relevant(filter@, text_view(prefix), change@),
{
    match change.kind {
        ChangeKind::Other => {
            return false;
        },
        _ => {},
    }
    let ghost keys = change@.keys;
    let mut i: usize = 0;
    while i < change.keys.len()
        invariant
            i <= change.keys@.len(),
            keys == change@.keys,
            forall|j: int|
                0 <= j < i ==> is_watched(filter@, text_view(prefix), #[trigger] keys[j]),
        decreases change.keys@.len() - i,
    {
        let watched: bool = match &change.keys[i] {
            Some(key) => filter.matches(key.as_str()) && concerns(prefix, key.as_str()),
            None => false,
        };
        assert(watched == is_watched(filter@, text_view(prefix), keys[i as int]));
        if !watched {
            return false;
        }
        i = i + 1;
    }
    true
}

/// The changes that wait to be dealt with, once `kind` happened to the first `n` of the keys:
/// of several changes to one file the last counts.
pub open spec fn collected(
    pending: Map<Seq<char>, ChangeKind>,
    change: ChangeView,
    n: nat,
) -> Map<Seq<char>, ChangeKind>
    decreases n,
{
    if n == 0 {
        pending
    } else {
        let before = collected(pending, change, (n - 1) as nat);
        match change.keys[n - 1] {
            Some(key) => before.insert(key, change.kind),
            None => before,
        }
    }
}

/// Adds a change to those that wait to be dealt with.
pub fn collect_events(pending: &mut KeyMap<ChangeKind>, change: &Change)
    ensures
        final(pending)@ == collected(old(pending)@, change@, change@.keys.len()),
{
    let ghost start = pending@;
    let mut i: usize = 0;
    while i < change.keys.len()
        invariant
            i <= change.keys@.len(),
            pending@ == collected(start, change@, i as nat),
        decreases change.keys@.len() - i,
    {
        assert(change@.keys[i as int] == key_view(change.keys@[i as int]));
        match &change.keys[i] {
            Some(key) => {
                pending.insert(key.clone(), change.kind);
            },
            None => {},
        }
        i = i + 1;
    }
}

/// What to do about a local file that changed.
pub enum Work {
    /// Delete its object, and forget its key.
    DeleteRemote { key: String },
    /// See how the file stands to its object.
    Examine { key: String },
}

/// What a [`Work`] says.
pub enum WorkView {
    DeleteRemote { key: Seq<char> },
    Examine { key: Seq<char> },
}

impl View for Work {
    type V = WorkView;

    open spec fn view(&self) -> WorkView {
        match self {
            Work::DeleteRemote { key } => WorkView::DeleteRemote { key: key@ },
            Work::Examine { key } => WorkView::Examine { key: key@ },
        }
    }
}

/// What a list of work says.
pub open spec fn work_views(list: Seq<Work>) -> Seq<WorkView> {
    Seq::new(list.len(), |i: int| list[i]@)
}

/// Whether there is anything to do about a change: the removal of a file is passed over where
/// deletions are not wanted, and in a dry run.
pub open spec fn calls_for_work(kind: ChangeKind, delete: bool, dry_run: bool) -> bool {
    kind is Remove ==> delete && !dry_run
}

/// What to do about a change.
pub open spec fn work_on(key: Seq<char>, kind: ChangeKind) -> WorkView {
    if kind is Remove {
        WorkView::DeleteRemote { key }
    } else {
        WorkView::Examine { key }
    }
}

/// What to do about the changes that wait, in the order of their keys.
pub open spec fn all_work(
    pending: Map<Seq<char>, ChangeKind>,
    delete: bool,
    dry_run: bool,
) -> Seq<WorkView> {
    in_order(pending.dom()).filter(
        |key: Seq<char>| calls_for_work(pending[key], delete, dry_run),
    ).map_values(|key: Seq<char>| work_on(key, pending[key]))
}

/// What to do about the changes that wait, in the order of their keys.
pub fn pending_work(pending: &KeyMap<ChangeKind>, delete: bool, dry_run: bool) -> (work: Vec<Work>)
    ensures
        work_views(work@) == all_work(pending@, delete, dry_run),
{
    let mut work: Vec<Work> = Vec::new();
    let n: usize = pending.len();
    let ghost keys = pending.key_seq();
    let ghost wanted = |key: Seq<char>| calls_for_work(pending@[key], delete, dry_run);
    let ghost made = |key: Seq<char>| work_on(key, pending@[key]);
    let mut i: usize = 0;
    proof {
        reveal(Seq::filter);
        assert(keys.take(0).filter(wanted) =~= Seq::empty());
        assert(work_views(work@) =~= keys.take(0).filter(wanted).map_values(made));
    }
    while i < n
        invariant
            i <= n,
            n == keys.len(),
            keys == pending.key_seq(),
            wanted == (|key: Seq<char>| calls_for_work(pending@[key], delete, dry_run)),
            made == (|key: Seq<char>| work_on(key, pending@[key])),
            work_views(work@) == keys.take(i as int).filter(wanted).map_values(made),
        decreases n - i,
    {
        let ghost part = keys.take(i as int).filter(wanted);
        proof {
            lemma_filter_push(keys, wanted, i as int);
        }
        let key = pending.key_at(i);
        let removed: bool = match pending.value_at(i) {
            ChangeKind::Remove => true,
            _ => false,
        };
        if !removed || (delete && !dry_run) {
            let ghost held = work@;
            let one: Work = if removed {
                Work::DeleteRemote { key: key.clone() }
            } else {
                Work::Examine { key: key.clone() }
            };
            let ghost said = one@;
            work.push(one);
            proof {
                assert(work_views(work@) =~= work_views(held).push(said));
                assert(part.push(key@).map_values(made) =~= part.map_values(made).push(
                    made(key@),
                ));
            }
        }
        i = i + 1;
    }
    assert(keys.take(i as int) =~= keys);
    work
}

/// The files whose removal a dry run reports: those whose objects would be deleted.
pub open spec fn dry_removals(
    pending: Map<Seq<char>, ChangeKind>,
    delete: bool,
    dry_run: bool,
) -> Seq<Seq<char>> {
    in_order(pending.dom()).filter(
        |key: Seq<char>| pending[key] is Remove && delete && dry_run,
    )
}

/// What a dry run reports of the changes that wait, in the order of their keys.
pub fn pending_notices(pending: &KeyMap<ChangeKind>, delete: bool, dry_run: bool) -> (notices: Vec<
    Notice,
>)
    ensures
        notice_views(notices@) == notices_on(
            NoticeKind::Deleted,
            dry_removals(pending@, delete, dry_run),
        ),
{
    let mut notices: Vec<Notice> = Vec::new();
    let n: usize = pending.len();
    let ghost keys = pending.key_seq();
    let ghost wanted = |key: Seq<char>| pending@[key] is Remove && delete && dry_run;
    let mut i: usize = 0;
    proof {
        reveal(Seq::filter);
        assert(keys.take(0).filter(wanted) =~= Seq::empty());
        assert(notice_views(notices@) =~= notices_on(
            NoticeKind::Deleted,
            keys.take(0).filter(wanted),
        ));
    }
    while i < n
        invariant
            i <= n,
            n == keys.len(),
            keys == pending.key_seq(),
            wanted == (|key: Seq<char>| pending@[key] is Remove && delete && dry_run),
            notice_views(notices@) == notices_on(
                NoticeKind::Deleted,
                keys.take(i as int).filter(wanted),
            ),
        decreases n - i,
    {
        let ghost part = keys.take(i as int).filter(wanted);
        proof {
            lemma_filter_push(keys, wanted, i as int);
        }
        let removed: bool = match pending.value_at(i) {
            ChangeKind::Remove => true,
            _ => false,
        };
        if removed && delete && dry_run {
            let key = pending.key_at(i);
            notify(&mut notices, NoticeKind::Deleted, key.as_str());
            assert(notices_on(NoticeKind::Deleted, part.push(key@)) =~= notices_on(
                NoticeKind::Deleted,
                part,
            ).push(NoticeView { kind: NoticeKind::Deleted, key: key@ }));
        }
        i = i + 1;
    }
    assert(keys.take(i as int) =~= keys);
    notices
}

/// Why the daemon wakes up.
pub enum Wake {
    /// Changes were collected.
    Changes(KeyMap<ChangeKind>),
    /// It is time to look at the bucket.
    RefreshDue,
    /// The daemon is told to stop.
    Interrupted,
}

/// What the daemon does next.
pub enum Turn {
    /// Deals with local changes, makes these reports, and waits again.
    Work { work: Vec<Work>, notices: Vec<Notice> },
    /// Looks at the bucket, and waits again.
    Refresh,
    /// Stores what it remembers, and stops.
    Stop,
}

/// What the daemon does next when it wakes up.
pub fn next_turn(wake: &Wake, delete: bool, dry_run: bool) -> (turn: Turn)
    ensures
        match wake {
            Wake::Changes(pending) => turn matches Turn::Work { work, notices } && work_views(
                work@,
            ) == all_work(pending@, delete, dry_run) && notice_views(notices@) == notices_on(
                NoticeKind::Deleted,
                dry_removals(pending@, delete, dry_run),
            ),
            Wake::RefreshDue => turn is Refresh,
            Wake::Interrupted => turn is Stop,
        },
{
    match wake {
        Wake::Changes(pending) => Turn::Work {
            work: pending_work(pending, delete, dry_run),
            notices: pending_notices(pending, delete, dry_run),
        },
        Wake::RefreshDue => Turn::Refresh,
        Wake::Interrupted => Turn::Stop,
    }
}

/// How the daemon carries out an action: the steps to take, or in a dry run what to report in
/// their stead.
pub struct Execution {
    pub steps: Vec<Step>,
    pub notices: Vec<Notice>,
}

/// How the daemon carries out an action. A fetched file keeps the time at which it is written.
pub fn carry_out(action: &Action, dry_run: bool) -> (execution: Execution)
    ensures
        step_views(execution.steps@) == if dry_run {
            Seq::empty()
        } else {
            steps_of(action@, false)
        },
        notice_views(execution.notices@) == if dry_run {
            seq![action_notice(action@)]
        } else {
            Seq::empty()
        },
        dry_run <==> execution.steps@.len() == 0,
        dry_run <==> execution.notices@.len() == 1,
{
    let mut notices: Vec<Notice> = Vec::new();
    if dry_run {
        let steps: Vec<Step> = Vec::new();
        notices.push(notice_of(action));
        assert(step_views(steps@) =~= Seq::empty());
        assert(notice_views(notices@) =~= seq![action_notice(action@)]);
        Execution { steps, notices }
    } else {
        assert(notice_views(notices@) =~= Seq::empty());
        let steps: Vec<Step> = plan_steps(action, false);
        proof {
            law_steps_carry_what_is_known(action@, false);
            assert(step_views(steps@).len() > 0);
        }
        Execution { steps, notices }
    }
}

/// What becomes of a local file that changed.
pub enum ChangeVerdict {
    /// The file is gone again, or is as it is remembered.
    Nothing,
    /// The file is the same as the object, which is remembered.
    Record,
    /// The file is sent.
    Upload,
    /// The object is newer: the file is kept aside, and the object is fetched.
    KeepLocal,
    /// Both have the same time and different content: the object is kept aside, and the file is
    /// sent.
    KeepRemote,
}

/// The time of an object as it is compared with recorded modification times: nanoseconds after
/// the epoch, zero where they do not fit in 64 bits.
pub open spec fn object_mtime(object: ObjectView) -> int {
    if i64::MIN <= object.last_modified <= i64::MAX {
        object.last_modified
    } else {
        0
    }
}

/// What becomes of a local file that changed, given the object under its key and what is
/// remembered.
pub open spec fn change_verdict(
    local: Option<LocalView>,
    object: Option<ObjectView>,
    cached: Option<EntryView>,
) -> ChangeVerdict {
    match local {
        None => ChangeVerdict::Nothing,
        Some(file) => if sent_before(cached, file.mtime()) {
            ChangeVerdict::Nothing
        } else {
            match object {
                None => ChangeVerdict::Upload,
                Some(o) => if file.mtime() > object_mtime(o) {
                    ChangeVerdict::Upload
                } else if file.mtime() < object_mtime(o) {
                    ChangeVerdict::KeepLocal
                } else if file.checksum() != o.etag {
                    ChangeVerdict::KeepRemote
                } else {
                    ChangeVerdict::Record
                },
            }
        },
    }
}

/// Whether the object has to be asked about, and the file's content has to be read, to say what
/// becomes of a local file that changed. Where not, nothing does, whatever they are.
pub fn change_needs_object(local: Option<&LocalFile>, cached: Option<&CacheEntry>) -> (needed: bool)
    ensures
        needed == (local is Some && !sent_before(entry_view(cached), file_view(local)->0.mtime())),
        !needed ==> forall|object: Option<ObjectView>|
            #[trigger] change_verdict(file_view(local), object, entry_view(cached)) is Nothing,
{
    match local {
        Some(file) => !was_sent(cached, file.mtime()),
        None => false,
    }
}

/// What becomes of a local file that changed.
pub fn judge_change(
    local: Option<&LocalFile>,
    object: Option<&S3Object>,
    cached: Option<&CacheEntry>,
) -> (verdict: ChangeVerdict)
    ensures
        verdict == change_verdict(file_view(local), object_view(object), entry_view(cached)),
{
    match local {
        None => ChangeVerdict::Nothing,
        Some(file) => {
            let mtime: i64 = file.mtime();
            if was_sent(cached, mtime) {
                return ChangeVerdict::Nothing;
            }
            match object {
                None => ChangeVerdict::Upload,
                Some(o) => {
                    let theirs: i64 = match o.last_modified.unix_nanos() {
                        Some(nanos) => nanos,
                        None => 0,
                    };
                    if mtime > theirs {
                        ChangeVerdict::Upload
                    } else if mtime < theirs {
                        ChangeVerdict::KeepLocal
                    } else if !same_text(file.checksum().as_str(), o.etag.as_str()) {
                        ChangeVerdict::KeepRemote
                    } else {
                        ChangeVerdict::Record
                    }
                },
            }
        },
    }
}

/// What is done about a local file that changed.
pub open spec fn change_action(
    key: Seq<char>,
    local: Option<LocalView>,
    object: Option<ObjectView>,
    cached: Option<EntryView>,
    taken: Set<Seq<char>>,
) -> Option<ActionView> {
    let file = local->0;
    match change_verdict(local, object, cached) {
        ChangeVerdict::Upload => Some(
            ActionView::Upload { key, md5: file.checksum(), mtime: file.mtime() },
        ),
        ChangeVerdict::KeepLocal => Some(
            ActionView::KeepLocal {
                key,
                conflict: conflict_for(key, file.mtime(), taken),
                last_modified: object->0.last_modified,
            },
        ),
        ChangeVerdict::KeepRemote => Some(
            ActionView::KeepRemote {
                key,
                conflict: conflict_for(key, file.mtime(), taken),
                md5: file.checksum(),
                mtime: file.mtime(),
            },
        ),
        _ => None,
    }
}

/// What is remembered once a local file that changed was weighed against its object.
pub open spec fn after_change(
    cache: CacheView,
    key: Seq<char>,
    local: Option<LocalView>,
    object: Option<ObjectView>,
) -> CacheView {
    if change_verdict(local, object, cache.recall(key)) is Record {
        cache.set(key, entry_of(local->0.checksum(), local->0.mtime(), object->0))
    } else {
        cache
    }
}

/// What is said of an action that may be missing.
pub open spec fn action_view(action: Option<Action>) -> Option<ActionView> {
    match action {
        Some(a) => Some(a@),
        None => None,
    }
}

/// What to do about a local file that changed, given the object under its key and the names of
/// local files, under which no version may be kept aside. A file that is found to be the same as
/// its object is remembered as such.
pub fn handle_local_change(
    key: &String,
    local: Option<&LocalFile>,
    object: Option<&S3Object>,
    taken: &KeySet,
    cache: &mut Cache,
) -> (action: Option<Action>)
    ensures
        action_view(action) == change_action(
            key@,
            file_view(local),
            object_view(object),
            old(cache)@.recall(key@),
            taken@,
        ),
        final(cache)@ == if change_verdict(
            file_view(local),
            object_view(object),
            old(cache)@.recall(key@),
        ) is Record {
            old(cache)@.set(
                key@,
                entry_of(
                    file_view(local)->0.checksum(),
                    file_view(local)->0.mtime(),
                    object_view(object)->0,
                ),
            )
        } else {
            old(cache)@
        },
        final(cache)@ == after_change(old(cache)@, key@, file_view(local), object_view(object)),
{
    let verdict = judge_change(local, object, cache.get(key.as_str()));
    match local {
        None => None,
        Some(file) => match verdict {
            ChangeVerdict::Nothing => None,
            ChangeVerdict::Upload => Some(
                Action::Upload { key: key.clone(), md5: file.checksum(), mtime: file.mtime() },
            ),
            ChangeVerdict::KeepRemote => Some(
                Action::KeepRemote {
                    key: key.clone(),
                    conflict: conflict_name(key.as_str(), file.mtime(), taken),
                    md5: file.checksum(),
                    mtime: file.mtime(),
                },
            ),
            ChangeVerdict::KeepLocal => match object {
                Some(o) => Some(
                    Action::KeepLocal {
                        key: key.clone(),
                        conflict: conflict_name(key.as_str(), file.mtime(), taken),
                        last_modified: o.last_modified,
                    },
                ),
                None => None,
            },
            ChangeVerdict::Record => {
                match object {
                    Some(o) => {
                        cache.set(key.clone(), entry_for(file.checksum(), file.mtime(), o));
                    },
                    None => {},
                }
                None
            },
        },
    }
}

/// What is remembered of a file that was sent at the time `now`. The tag of the object that
/// came of it is not known.
pub open spec fn entry_sent_at(md5: Seq<char>, mtime: i64, now: int) -> EntryView {
    EntryView { md5, mtime, etag: Seq::empty(), last_modified: rfc3339(now) }
}

/// Remembers a file that was sent at the time `now`.
pub fn record_upload(cache: &mut Cache, key: &String, md5: &String, mtime: i64, now: &Timestamp)
    ensures
        final(cache)@ == old(cache)@.set(key@, entry_sent_at(md5@, mtime, now@)),
{
    cache.set(
        key.clone(),
        CacheEntry {
            md5: md5.clone(),
            mtime,
            etag: String::new(),
            last_modified: now.to_rfc3339(),
        },
    );
}

/// The cache once the file, as it is found under the object's key, is known to stand for the
/// object; nothing is remembered of a file whose content cannot be read.
pub open spec fn remember(cache: CacheView, object: ObjectView, file: LocalView) -> CacheView {
    match file.md5 {
        Some(md5) => cache.set(object.key, entry_of(md5, file.mtime(), object)),
        None => cache,
    }
}

/// Remembers a file that stands for the object.
pub fn record_fetched(cache: &mut Cache, object: &S3Object, file: &LocalFile)
    ensures
        final(cache)@ == remember(old(cache)@, object@, file@),
{
    match &file.md5 {
        Some(md5) => {
            cache.set(object.key.clone(), entry_for(md5.clone(), file.mtime(), object));
        },
        None => {},
    }
}

/// The cache once the local files that are shown to have the content of their objects are
/// remembered, for the first `n` objects.
pub open spec fn seeded(
    cache: CacheView,
    objects: Seq<ObjectView>,
    local: Map<Seq<char>, LocalView>,
    n: nat,
) -> CacheView
    decreases n,
{
    if n == 0 {
        cache
    } else {
        let before = seeded(cache, objects, local, (n - 1) as nat);
        let object = objects[n - 1];
        if local.contains_key(object.key) && shows_same_content(
            local[object.key].md5,
            object.etag,
        ) {
            remember(before, object, local[object.key])
        } else {
            before
        }
    }
}

/// Remembers the local files that are shown to have the content of their objects when the
/// daemon starts.
pub fn seed_cache(cache: &mut Cache, objects: &Vec<S3Object>, local: &KeyMap<LocalFile>)
    ensures
        final(cache)@ == seeded(
            old(cache)@,
            object_views(objects@),
            local@,
            objects@.len(),
        ),
{
    let ghost views = object_views(objects@);
    let ghost start = cache@;
    let mut i: usize = 0;
    while i < objects.len()
        invariant
            i <= objects@.len(),
            views == object_views(objects@),
            cache@ == seeded(start, views, local@, i as nat),
        decreases objects@.len() - i,
    {
        assert(views[i as int] == objects@[i as int]@);
        match local.get(objects[i].key.as_str()) {
            Some(file) => {
                if md5_matches(file.md5_ref(), objects[i].etag.as_str()) {
                    record_fetched(cache, &objects[i], file);
                }
            },
            None => {},
        }
        i = i + 1;
    }
}

/// What becomes of an object when the bucket is looked at.
pub enum RefreshVerdict {
    /// The object is as it is remembered, or no newer than the file.
    Skip,
    /// The object is fetched.
    Download,
    /// The object is newer, but the file could be lost: the file is kept aside, and the object
    /// is fetched.
    KeepLocal,
}

/// Whether an object that has a file is known already: it is the one that is remembered, or it
/// has the content that is remembered and the file is as it is remembered too.
pub open spec fn is_known(
    object: ObjectView,
    file: LocalView,
    cached: Option<EntryView>,
) -> bool {
    cached matches Some(entry) && (version_known(entry, object) || (entry.mtime == file.mtime()
        && content_known(entry, object)))
}

/// What becomes of an object when the bucket is looked at.
pub open spec fn refresh_verdict(
    object: ObjectView,
    local: Option<LocalView>,
    cached: Option<EntryView>,
) -> RefreshVerdict {
    match local {
        None => RefreshVerdict::Download,
        Some(file) => if is_known(object, file, cached) {
            RefreshVerdict::Skip
        } else if object.last_modified <= file.instant() {
            RefreshVerdict::Skip
        } else if at_risk(object, file, cached) {
            RefreshVerdict::KeepLocal
        } else {
            RefreshVerdict::Download
        },
    }
}

/// Whether an object that has a file is known already.
fn knows(object: &S3Object, file: &LocalFile, cached: Option<&CacheEntry>) -> (yes: bool)
    ensures
        yes == is_known(object@, file@, entry_view(cached)),
{
    match cached {
        Some(entry) => knows_version(entry, object) || (entry.mtime == file.mtime()
            && knows_content(entry, object)),
        None => false,
    }
}

/// What becomes of an object when the bucket is looked at.
pub fn judge_refresh(
    object: &S3Object,
    local: Option<&LocalFile>,
    cached: Option<&CacheEntry>,
) -> (verdict: RefreshVerdict)
    ensures
        verdict == refresh_verdict(object@, file_view(local), entry_view(cached)),
{
    match local {
        None => RefreshVerdict::Download,
        Some(file) => {
            if knows(object, file, cached) || !object.last_modified.is_after(&file.time()) {
                RefreshVerdict::Skip
            } else if is_at_risk(object, file, cached) {
                RefreshVerdict::KeepLocal
            } else {
                RefreshVerdict::Download
            }
        },
    }
}

/// Whether the checksum of the file is needed to say what becomes of the object. Where it is
/// not, the verdict is the same whatever the content.
pub fn refresh_reads_content(
    object: &S3Object,
    file: &LocalFile,
    cached: Option<&CacheEntry>,
) -> (needed: bool)
    ensures
        needed == (cached is None && object@.last_modified > file@.instant()),
        !needed ==> forall|md5: Option<Seq<char>>|
            refresh_verdict(object@, Some(#[trigger] file@.with_md5(md5)), entry_view(cached))
                == refresh_verdict(object@, Some(file@), entry_view(cached)),
{
    match cached {
        None => object.last_modified.is_after(&file.time()),
        Some(_) => false,
    }
}

/// The names under which no version may be kept aside: those of local files and of objects.
pub open spec fn taken_names(names: Set<Seq<char>>, objects: Seq<ObjectView>) -> Set<Seq<char>> {
    names.union(Set::new(|key: Seq<char>| has_key(objects, key)))
}

/// The names under which no version may be kept aside.
fn collect_names(names: &KeySet, objects: &Vec<S3Object>) -> (taken: KeySet)
    ensures
        taken@ == taken_names(names@, object_views(objects@)),
{
    let mut taken: KeySet = listed_keys(objects);
    let ghost listed = taken@;
    let n: usize = names.len();
    let ghost keys = names.key_seq();
    let mut i: usize = 0;
    assert(taken@ =~= listed.union(keys.take(0).to_set()));
    while i < n
        invariant
            i <= n,
            n == keys.len(),
            keys == names.key_seq(),
            taken@ == listed.union(keys.take(i as int).to_set()),
        decreases n - i,
    {
        taken.insert(names.key_at(i).clone());
        proof {
            lemma_take_set(keys, i as int);
            assert(taken@ =~= listed.union(keys.take(i + 1).to_set()));
        }
        i = i + 1;
    }
    assert(keys.take(i as int) =~= keys);
    assert(taken@ =~= taken_names(names@, object_views(objects@)));
    taken
}

/// Whether an object is fetched when the bucket is looked at: the filter lets it through, the
/// operation has to do with it, and its verdict is not to skip it.
pub open spec fn refresh_takes(
    object: ObjectView,
    local: Map<Seq<char>, LocalView>,
    patterns: Patterns,
    prefix: Option<Seq<char>>,
    cache: CacheView,
) -> bool {
    patterns.select(object.key) && in_scope(prefix, object.key) && refresh_verdict(
        object,
        file_under(local, object.key),
        cache.recall(object.key),
    ) !is Skip
}

/// How an object is fetched when the bucket is looked at.
pub open spec fn refresh_action(
    object: ObjectView,
    local: Map<Seq<char>, LocalView>,
    cache: CacheView,
    taken: Set<Seq<char>>,
) -> ActionView {
    let key = object.key;
    match refresh_verdict(object, file_under(local, key), cache.recall(key)) {
        RefreshVerdict::KeepLocal => ActionView::KeepLocal {
            key,
            conflict: conflict_for(key, local[key].mtime(), taken),
            last_modified: object.last_modified,
        },
        _ => ActionView::Download { key, last_modified: object.last_modified },
    }
}

/// What to fetch when the bucket is looked at, in the order of the listing, where these names are
/// those of all local files.
pub open spec fn refresh_plan(
    objects: Seq<ObjectView>,
    local: Map<Seq<char>, LocalView>,
    names: Set<Seq<char>>,
    patterns: Patterns,
    prefix: Option<Seq<char>>,
    cache: CacheView,
) -> Seq<ActionView> {
    objects.filter(
        |object: ObjectView| refresh_takes(object, local, patterns, prefix, cache),
    ).map_values(
        |object: ObjectView| refresh_action(object, local, cache, taken_names(names, objects)),
    )
}

/// One object more at the end of a filtered listing.
proof fn lemma_objects_push(
    objects: Seq<ObjectView>,
    wanted: spec_fn(ObjectView) -> bool,
    i: int,
)
    requires
        0 <= i < objects.len(),
    ensures
        objects.take(i + 1).filter(wanted) == if wanted(objects[i]) {
            objects.take(i).filter(wanted).push(objects[i])
        } else {
            objects.take(i).filter(wanted)
        },
{
    reveal(Seq::filter);
    assert(objects.take(i + 1).drop_last() =~= objects.take(i));
}

/// What to fetch when the bucket is looked at, in the order of the listing, given the files of
/// the objects and the names of all local files.
pub fn refresh_from_s3(
    objects: &Vec<S3Object>,
    local: &KeyMap<LocalFile>,
    names: &KeySet,
    filter: &Filter,
    prefix: Option<&str>,
    cache: &Cache,
) -> (actions: Vec<Action>)
    ensures
        action_views(actions@) == object_views(objects@).filter(
            |object: ObjectView|
                refresh_takes(object, local@, filter@, text_view(prefix), cache@),
        ).map_values(
            |object: ObjectView|
                refresh_action(
                    object,
                    local@,
                    cache@,
                    taken_names(names@, object_views(objects@)),
                ),
        ),
        action_views(actions@) == refresh_plan(
            object_views(objects@),
            local@,
            names@,
            filter@,
            text_view(prefix),
            cache@,
        ),
{
    let taken: KeySet = collect_names(names, objects);
    let mut actions: Vec<Action> = Vec::new();
    let ghost views = object_views(objects@);
    let ghost wanted = |object: ObjectView|
        refresh_takes(object, local@, filter@, text_view(prefix), cache@);
    let ghost made = |object: ObjectView| refresh_action(object, local@, cache@, taken@);
    let mut i: usize = 0;
    proof {
        reveal(Seq::filter);
        assert(views.take(0).filter(wanted) =~= Seq::empty());
        assert(action_views(actions@) =~= views.take(0).filter(wanted).map_values(made));
    }
    while i < objects.len()
        invariant
            i <= objects@.len(),
            views == object_views(objects@),
            wanted == (|object: ObjectView|
                refresh_takes(object, local@, filter@, text_view(prefix), cache@)),
            made == (|object: ObjectView| refresh_action(object, local@, cache@, taken@)),
            action_views(actions@) == views.take(i as int).filter(wanted).map_values(made),
        decreases objects@.len() - i,
    {
        let object = &objects[i];
        let key = object.key.as_str();
        let ghost part = views.take(i as int).filter(wanted);
        proof {
            lemma_objects_push(views, wanted, i as int);
            assert(views[i as int] == object@);
        }
        if filter.matches(key) && concerns(prefix, key) {
            let file = local.get(key);
            assert(file_view(file) == file_under(local@, key@));
            let action: Option<Action> = match judge_refresh(object, file, cache.get(key)) {
                RefreshVerdict::Skip => None,
                RefreshVerdict::Download => Some(
                    Action::Download {
                        key: object.key.clone(),
                        last_modified: object.last_modified,
                    },
                ),
                RefreshVerdict::KeepLocal => match file {
                    Some(found) => Some(
                        Action::KeepLocal {
                            key: object.key.clone(),
                            conflict: conflict_name(key, found.mtime(), &taken),
                            last_modified: object.last_modified,
                        },
                    ),
                    None => None,
                },
            };
            match action {
                Some(one) => {
                    let ghost held = actions@;
                    let ghost said = one@;
                    actions.push(one);
                    proof {
                        assert(action_views(actions@) =~= action_views(held).push(said));
                        assert(part.push(object@).map_values(made) =~= part.map_values(
                            made,
                        ).push(made(object@)));
                    }
                },
                None => {},
            }
        }
        i = i + 1;
    }
    assert(views.take(i as int) =~= views);
    actions
}

/// The keys of the objects of a listing.
pub fn listed_keys(objects: &Vec<S3Object>) -> (keys: KeySet)
    ensures
        keys@ == Set::new(|key: Seq<char>| has_key(object_views(objects@), key)),
{
    let mut keys: KeySet = KeySet::new();
    let ghost views = object_views(objects@);
    let mut i: usize = 0;
    while i < objects.len()
        invariant
            i <= objects@.len(),
            views == object_views(objects@),
            forall|k: Seq<char>| #[trigger]
                keys@.contains(k) <==> exists|j: int|
                    0 <= j < i && (#[trigger] views[j]).key == k,
        decreases objects@.len() - i,
    {
        let ghost before = keys@;
        keys.insert(objects[i].key.clone());
        proof {
            assert forall|k: Seq<char>| #[trigger] keys@.contains(k) <==> exists|j: int|
                0 <= j < i + 1 && (#[trigger] views[j]).key == k by {
                assert(views[i as int].key == objects@[i as int].key@);
                if before.contains(k) {
                    let j = choose|j: int| 0 <= j < i && (#[trigger] views[j]).key == k;
                    assert(views[j].key == k);
                }
            }
        }
        i = i + 1;
    }
    assert(keys@ =~= Set::new(|key: Seq<char>| has_key(views, key)));
    keys
}

/// Whether one of the actions keeps a version aside under `name`.
fn is_kept_aside(actions: &Vec<Action>, name: &str) -> (yes: bool)
    ensures
        yes == keeps_aside(action_views(actions@), name@),
{
    let ghost views = action_views(actions@);
    let mut i: usize = 0;
    while i < actions.len()
        invariant
            i <= actions@.len(),
            views == action_views(actions@),
            forall|j: int| 0 <= j < i ==> (#[trigger] views[j]).aside() != Some(name@),
        decreases actions@.len() - i,
    {
        assert(views[i as int] == actions@[i as int]@);
        let found: bool = match &actions[i] {
            Action::KeepLocal { conflict, .. } => same_text(conflict.as_str(), name),
            Action::KeepRemote { conflict, .. } => same_text(conflict.as_str(), name),
            _ => false,
        };
        if found {
            assert(views[i as int].aside() == Some(name@));
            return true;
        }
        i = i + 1;
    }
    false
}

/// Whether the local file under `key` is an orphan when the bucket is looked at: the filter
/// lets it through, the operation has to do with it, no listed object has its key, and it is no
/// version that was kept aside on this occasion.
pub open spec fn is_refresh_orphan(
    objects: Seq<ObjectView>,
    actions: Seq<ActionView>,
    patterns: Patterns,
    prefix: Option<Seq<char>>,
    key: Seq<char>,
) -> bool {
    is_orphan(patterns, prefix, Set::new(|k: Seq<char>| has_key(objects, k)), key)
        && !keeps_aside(actions, key)
}

/// Plans the deletion of the local files that no listed object has the key of, among those
/// that were found once the actions were carried out. In a dry run they are reported as deleted
/// instead.
pub fn refresh_orphans(
    walked: &Vec<String>,
    objects: &Vec<S3Object>,
    actions: &Vec<Action>,
    filter: &Filter,
    prefix: Option<&str>,
    dry_run: bool,
) -> (plan: OrphanPlan)
    ensures
        ({
            let orphans = texts(walked@).filter(
                |key: Seq<char>|
                    is_refresh_orphan(
                        object_views(objects@),
                        action_views(actions@),
                        filter@,
                        text_view(prefix),
                        key,
                    ),
            );
            &&& texts(plan.deletes@) == if dry_run {
                Seq::empty()
            } else {
                orphans
            }
            &&& notice_views(plan.notices@) == if dry_run {
                notices_on(NoticeKind::Deleted, orphans)
            } else {
                Seq::empty()
            }
        }),
        forall|i: int, j: int|
            0 <= i < plan.deletes@.len() && 0 <= j < actions@.len() ==> (
            #[trigger] actions@[j])@.aside() != Some((#[trigger] plan.deletes@[i])@),
        forall|key: Seq<char>| #[trigger]
            texts(plan.deletes@).contains(key) <==> !dry_run && texts(walked@).contains(key)
                && filter@.select(key) && in_scope(text_view(prefix), key) && !has_key(
                object_views(objects@),
                key,
            ) && !keeps_aside(action_views(actions@), key),
{
    let seen: KeySet = listed_keys(objects);
    let mut left: Vec<String> = Vec::new();
    let ghost keys = texts(walked@);
    let ghost views = action_views(actions@);
    let ghost free = |key: Seq<char>| !keeps_aside(views, key);
    let ghost orphan = |key: Seq<char>| is_orphan(filter@, text_view(prefix), seen@, key);
    let ghost wanted = |key: Seq<char>|
        is_refresh_orphan(object_views(objects@), views, filter@, text_view(prefix), key);
    let mut i: usize = 0;
    proof {
        reveal(Seq::filter);
        assert(keys.take(0).filter(free) =~= Seq::empty());
        assert(texts(left@) =~= Seq::empty());
    }
    while i < walked.len()
        invariant
            i <= walked@.len(),
            keys == texts(walked@),
            views == action_views(actions@),
            free == (|key: Seq<char>| !keeps_aside(views, key)),
            texts(left@) == keys.take(i as int).filter(free),
        decreases walked@.len() - i,
    {
        proof {
            lemma_filter_push(keys, free, i as int);
        }
        if !is_kept_aside(actions, walked[i].as_str()) {
            let ghost held = left@;
            left.push(walked[i].clone());
            assert(texts(left@) =~= texts(held).push(keys[i as int]));
        }
        i = i + 1;
    }
    let plan = delete_local_orphans(&left, &seen, filter, prefix, dry_run);
    proof {
        assert(keys.take(i as int) =~= keys);
        lemma_filter_twice(keys, free, orphan, wanted);
        assert(texts(left@).filter(orphan) == keys.filter(wanted));
        assert forall|key: Seq<char>| #[trigger]
            texts(plan.deletes@).contains(key) <==> !dry_run && keys.contains(key)
                && filter@.select(key) && in_scope(text_view(prefix), key) && !has_key(
                object_views(objects@),
                key,
            ) && !keeps_aside(views, key) by {
            lemma_filter_holds(keys, wanted, key);
        }
        assert forall|a: int, b: int|
            0 <= a < plan.deletes@.len() && 0 <= b < actions@.len() implies (
        #[trigger] actions@[b])@.aside() != Some((#[trigger] plan.deletes@[a])@) by {
            let name = plan.deletes@[a]@;
            assert(texts(plan.deletes@)[a] == name);
            assert(texts(plan.deletes@).contains(name));
            lemma_filter_holds(keys, wanted, name);
            assert(views[b] == actions@[b]@);
        }
    }
    plan
}

/// Filtering twice is filtering once by both.
proof fn lemma_filter_twice(
    keys: Seq<Seq<char>>,
    first: spec_fn(Seq<char>) -> bool,
    second: spec_fn(Seq<char>) -> bool,
    both: spec_fn(Seq<char>) -> bool,
)
    requires
        forall|key: Seq<char>| #[trigger] both(key) == (first(key) && second(key)),
    ensures
        keys.filter(first).filter(second) == keys.filter(both),
    decreases keys.len(),
{
    reveal(Seq::filter);
    if keys.len() > 0 {
        let rest = keys.drop_last();
        lemma_filter_twice(rest, first, second, both);
        let part = rest.filter(first);
        assert(both(keys.last()) == (first(keys.last()) && second(keys.last())));
        if first(keys.last()) {
            assert(part.push(keys.last()).drop_last() =~= part);
        }
    } else {
        assert(keys.filter(first) =~= Seq::empty());
        assert(keys.filter(both) =~= Seq::empty());
    }
}

/// What a failed step means for the rest of a look at the bucket.
#[derive(Clone, Copy, PartialEq, Eq, Structural)]
pub enum Setback {
    /// The object is left as it is, and the next one is dealt with.
    NextObject,
    /// The look at the bucket ends here.
    EndRefresh,
}

/// What a failed step means for the rest of a look at the bucket: where a file cannot be kept
/// aside nothing more is done.
pub fn setback(step: &Step) -> (meaning: Setback)
    ensures
        meaning is EndRefresh <==> step is Rename,
{
    match step {
        Step::Rename { .. } => Setback::EndRefresh,
        _ => Setback::NextObject,
    }
}

/// Of the changes to a file that were collected one after the other the last counts, and
/// changes to other files do not touch it.
pub proof fn law_last_change_counts(
    pending: Map<Seq<char>, ChangeKind>,
    change: ChangeView,
    key: Seq<char>,
    n: nat,
)
    requires
        n <= change.keys.len(),
    ensures
        ({
            let after = collected(pending, change, n);
            if exists|i: int| 0 <= i < n && #[trigger] change.keys[i] == Some(key) {
                after.contains_key(key) && after[key] == change.kind
            } else {
                &&& after.contains_key(key) <==> pending.contains_key(key)
                &&& pending.contains_key(key) ==> after[key] == pending[key]
            }
        }),
    decreases n,
{
    if n > 0 {
        let m = (n - 1) as nat;
        law_last_change_counts(pending, change, key, m);
        if exists|i: int| 0 <= i < m && #[trigger] change.keys[i] == Some(key) {
            let i = choose|i: int| 0 <= i < m && #[trigger] change.keys[i] == Some(key);
            assert(0 <= i < n && change.keys[i] == Some(key));
        } else if change.keys[n - 1] != Some(key) {
            assert forall|i: int| 0 <= i < n implies #[trigger] change.keys[i] != Some(key) by {
                if i < m {
                    assert(change.keys[i] != Some(key));
                }
            }
        }
    }
}

/// Only watched files are ever dealt with: collecting nothing but changes that matter leaves
/// no other key waiting.
pub proof fn law_only_watched_files_wait(
    patterns: Patterns,
    prefix: Option<Seq<char>>,
    pending: Map<Seq<char>, ChangeKind>,
    change: ChangeView,
    key: Seq<char>,
    n: nat,
)
    requires
        n <= change.keys.len(),
        is_relevant(patterns, prefix, change),
        forall|k: Seq<char>| #[trigger]
            pending.contains_key(k) ==> patterns.select(k) && in_scope(prefix, k),
        collected(pending, change, n).contains_key(key),
    ensures
        patterns.select(key),
        in_scope(prefix, key),
    decreases n,
{
    if n > 0 {
        let m = (n - 1) as nat;
        if collected(pending, change, m).contains_key(key) {
            law_only_watched_files_wait(patterns, prefix, pending, change, key, m);
        } else {
            assert(is_watched(patterns, prefix, change.keys[n - 1]));
        }
    }
}

/// No object is deleted unless deletions are wanted and it is no dry run, and then only that of
/// a file whose last change was its removal.
pub proof fn law_daemon_deletes_only_removed(
    pending: Map<Seq<char>, ChangeKind>,
    delete: bool,
    dry_run: bool,
    i: int,
)
    requires
        pending.dom().finite(),
        0 <= i < all_work(pending, delete, dry_run).len(),
        all_work(pending, delete, dry_run)[i] is DeleteRemote,
    ensures
        delete,
        !dry_run,
        pending.contains_key(all_work(pending, delete, dry_run)[i]->DeleteRemote_key),
        pending[all_work(pending, delete, dry_run)[i]->DeleteRemote_key] is Remove,
{
    let order = in_order(pending.dom());
    let wanted = |key: Seq<char>| calls_for_work(pending[key], delete, dry_run);
    let kept = order.filter(wanted);
    lemma_in_order(pending.dom());
    assert(kept.contains(kept[i]));
    lemma_filter_holds(order, wanted, kept[i]);
    assert(order.to_set().contains(kept[i]));
}

/// A conflict over a local change loses nothing: what was on the two sides before is still
/// somewhere on them once the action was taken, where every local file's name counts as taken.
pub proof fn law_change_conflict_keeps_both(
    sides: Sides,
    key: Seq<char>,
    file: LocalView,
    object: ObjectView,
    cached: Option<EntryView>,
    taken: Set<Seq<char>>,
    content: Seq<u8>,
)
    requires
        change_verdict(Some(file), Some(object), cached) is KeepLocal || change_verdict(
            Some(file),
            Some(object),
            cached,
        ) is KeepRemote,
        sides.local.contains_key(key),
        sides.remote.contains_key(key),
        taken.finite(),
        forall|name: Seq<char>| #[trigger] sides.local.contains_key(name) ==> taken.contains(name),
        sides.hold(content),
    ensures
        sides.act(change_action(key, Some(file), Some(object), cached, taken)->0, false).hold(
            content,
        ),
{
    let action = change_action(key, Some(file), Some(object), cached, taken)->0;
    law_conflict_names_are_free(key, file.mtime(), taken, key, file.mtime());
    law_conflict_keeps_both(sides, action, false, content, steps_of(action, false).len());
}

/// An object that has no file is always fetched when the bucket is looked at.
pub proof fn law_refresh_fetches_missing(
    object: ObjectView,
    local: Map<Seq<char>, LocalView>,
    patterns: Patterns,
    prefix: Option<Seq<char>>,
    cache: CacheView,
    taken: Set<Seq<char>>,
)
    requires
        patterns.select(object.key),
        in_scope(prefix, object.key),
        !local.contains_key(object.key),
    ensures
        refresh_takes(object, local, patterns, prefix, cache),
        refresh_action(object, local, cache, taken) == (ActionView::Download {
            key: object.key,
            last_modified: object.last_modified,
        }),
{
}

/// Looking at the bucket loses nothing of a file that was modified since it was remembered, or
/// of which nothing is remembered and whose content is not shown to be the object's: it is kept
/// aside before an object is fetched in its place.
pub proof fn law_refresh_conflict_keeps_both(
    sides: Sides,
    object: ObjectView,
    local: Map<Seq<char>, LocalView>,
    patterns: Patterns,
    prefix: Option<Seq<char>>,
    cache: CacheView,
    taken: Set<Seq<char>>,
    content: Seq<u8>,
)
    requires
        refresh_takes(object, local, patterns, prefix, cache),
        local.contains_key(object.key),
        match cache.recall(object.key) {
            Some(entry) => entry.mtime != local[object.key].mtime(),
            None => !shows_same_content(local[object.key].md5, object.etag),
        },
        sides.local.contains_key(object.key),
        sides.remote.contains_key(object.key),
        taken.finite(),
        forall|name: Seq<char>| #[trigger] sides.local.contains_key(name) ==> taken.contains(name),
        sides.hold(content),
    ensures
        refresh_action(object, local, cache, taken) is KeepLocal,
        sides.act(refresh_action(object, local, cache, taken), false).hold(content),
{
    let action = refresh_action(object, local, cache, taken);
    let mtime = local[object.key].mtime();
    law_conflict_names_are_free(object.key, mtime, taken, object.key, mtime);
    law_conflict_keeps_both(sides, action, false, content, steps_of(action, false).len());
}

/// Looking at the bucket deletes exactly the files that no listed object has the key of, among
/// those that the filter lets through and that it has to do with, and no version that it has
/// just kept aside.
pub proof fn law_refresh_deletes_exactly_orphans(
    walked: Seq<Seq<char>>,
    objects: Seq<ObjectView>,
    actions: Seq<ActionView>,
    patterns: Patterns,
    prefix: Option<Seq<char>>,
    key: Seq<char>,
)
    ensures
        walked.filter(
            |k: Seq<char>| is_refresh_orphan(objects, actions, patterns, prefix, k),
        ).contains(key) <==> walked.contains(key) && patterns.select(key) && in_scope(prefix, key)
            && !has_key(objects, key) && !keeps_aside(actions, key),
{
    lemma_filter_holds(
        walked,
        |k: Seq<char>| is_refresh_orphan(objects, actions, patterns, prefix, k),
        key,
    );
}

/// The newer side wins: a file that is newer than its object, or has none, is sent, and one
/// that is older makes way for the object.
pub proof fn law_newer_side_wins(file: LocalView, object: ObjectView, cached: Option<EntryView>)
    requires
        !sent_before(cached, file.mtime()),
    ensures
        change_verdict(Some(file), None, cached) is Upload,
        file.mtime() > object_mtime(object) ==> change_verdict(
            Some(file),
            Some(object),
            cached,
        ) is Upload,
        file.mtime() < object_mtime(object) ==> change_verdict(
            Some(file),
            Some(object),
            cached,
        ) is KeepLocal,
{
}

/// What was sent is left alone from then on, as long as the file does not change: by further
/// reports of the same change, and when the object that came of it is found in the bucket.
pub proof fn law_sent_file_is_left_alone(
    file: LocalView,
    md5: Seq<char>,
    now: int,
    object: Option<ObjectView>,
    sent: ObjectView,
)
    requires
        md5.len() > 0,
        shows_same_content(Some(md5), sent.etag),
    ensures
        change_verdict(Some(file), object, Some(entry_sent_at(md5, file.mtime(), now))) is Nothing,
        refresh_verdict(sent, Some(file), Some(entry_sent_at(md5, file.mtime(), now))) is Skip,
{
}

/// What was fetched is left alone from then on, as long as neither side changes, provided its
/// content could be read and is not without a checksum.
pub proof fn law_fetched_file_is_left_alone(
    cache: CacheView,
    object: ObjectView,
    file: LocalView,
    md5: Seq<char>,
)
    requires
        file.md5 == Some(md5),
        md5.len() > 0,
    ensures
        ({
            let cached = remember(cache, object, file).recall(object.key);
            &&& change_verdict(Some(file), Some(object), cached) is Nothing
            &&& refresh_verdict(object, Some(file), cached) is Skip
        }),
{
}

/// Every change that waits is dealt with: a file whose last change is not its removal is
/// examined, whether deletions are wanted or not and in a dry run too; the object of a file whose
/// last change is its removal is deleted exactly where deletions are wanted and it is no dry run,
/// and reported as deleted exactly where they are wanted and it is one. No file is dealt with
/// twice.
pub proof fn law_every_change_is_dealt_with(
    pending: Map<Seq<char>, ChangeKind>,
    delete: bool,
    dry_run: bool,
    key: Seq<char>,
)
    requires
        pending.dom().finite(),
    ensures
        ({
            let work = all_work(pending, delete, dry_run);
            &&& work.contains(WorkView::Examine { key }) <==> pending.contains_key(key)
                && pending[key] !is Remove
            &&& work.contains(WorkView::DeleteRemote { key }) <==> pending.contains_key(key)
                && pending[key] is Remove && delete && !dry_run
            &&& dry_removals(pending, delete, dry_run).contains(key) <==> pending.contains_key(key)
                && pending[key] is Remove && delete && dry_run
            &&& work.no_duplicates()
        }),
{
    let order = in_order(pending.dom());
    let wanted = |k: Seq<char>| calls_for_work(pending[k], delete, dry_run);
    let made = |k: Seq<char>| work_on(k, pending[k]);
    let kept = order.filter(wanted);
    let work = all_work(pending, delete, dry_run);
    lemma_in_order(pending.dom());
    lemma_filter_holds(order, wanted, key);
    lemma_filter_holds(
        order,
        |k: Seq<char>| pending[k] is Remove && delete && dry_run,
        key,
    );
    lemma_filter_ascending(order, wanted);
    assert(order.to_set().contains(key) <==> pending.contains_key(key));
    assert forall|i: int| 0 <= i < work.len() implies #[trigger] work[i] == work_on(
        kept[i],
        pending[kept[i]],
    ) && kept.contains(kept[i]) by {}
    if kept.contains(key) {
        let at = kept.index_of(key);
        assert(work[at] == work_on(key, pending[key]));
    }
    if work.contains(WorkView::Examine { key }) {
        let at = work.index_of(WorkView::Examine { key });
        assert(work[at] == work_on(kept[at], pending[kept[at]]));
    }
    if work.contains(WorkView::DeleteRemote { key }) {
        let at = work.index_of(WorkView::DeleteRemote { key });
        assert(work[at] == work_on(kept[at], pending[kept[at]]));
    }
    assert forall|i: int, j: int| 0 <= i < j < work.len() implies work[i] != work[j] by {
        assert(text_less(kept[i], kept[j]));
        lemma_less_asymmetric(kept[i], kept[j]);
        assert(work[i] == work_on(kept[i], pending[kept[i]]));
        assert(work[j] == work_on(kept[j], pending[kept[j]]));
    }
}

/// The work of two sets of changes that agree on a key agrees on that key, whatever else waits.
pub proof fn law_changes_are_dealt_with_one_by_one(
    pending: Map<Seq<char>, ChangeKind>,
    others: Map<Seq<char>, ChangeKind>,
    delete: bool,
    dry_run: bool,
    key: Seq<char>,
)
    requires
        pending.dom().finite(),
        others.dom().finite(),
        pending.contains_key(key),
        others.contains_key(key),
        pending[key] == others[key],
    ensures
        all_work(pending, delete, dry_run).contains(WorkView::Examine { key }) == all_work(
            others,
            delete,
            dry_run,
        ).contains(WorkView::Examine { key }),
        all_work(pending, delete, dry_run).contains(WorkView::DeleteRemote { key }) == all_work(
            others,
            delete,
            dry_run,
        ).contains(WorkView::DeleteRemote { key }),
{
    law_every_change_is_dealt_with(pending, delete, dry_run, key);
    law_every_change_is_dealt_with(others, delete, dry_run, key);
}

/// A change matters exactly when it may change content and every file that it is about is in the
/// local directory, let through by the filter, and one that the operation has to do with.
pub proof fn law_change_matters_for_watched_files(
    patterns: Patterns,
    prefix: Option<Seq<char>>,
    change: ChangeView,
)
    ensures
        is_relevant(patterns, prefix, change) <==> (change.kind is Create || change.kind is Modify
            || change.kind is Remove) && forall|i: int|
            0 <= i < change.keys.len() ==> (#[trigger] change.keys[i] matches Some(key)
                && patterns.select(key) && in_scope(prefix, key)),
{
    if is_relevant(patterns, prefix, change) {
        assert forall|i: int| 0 <= i < change.keys.len() implies (
        #[trigger] change.keys[i] matches Some(key) && patterns.select(key) && in_scope(
            prefix,
            key,
        )) by {
            assert(is_watched(patterns, prefix, change.keys[i]));
        }
    }
}

/// What becomes of a local file that changed, whatever is remembered but that it was sent with
/// the time that it has, which leaves nothing to do: without an object it is sent, and a newer
/// file is sent; an older one is kept aside for the object; and of two with the same time the
/// object is kept aside and the file sent, unless its checksum is the tag, which is remembered. An
/// object whose time does not fit in 64 bits of nanoseconds counts as old as the epoch.
pub proof fn law_changed_file_is_weighed(
    file: LocalView,
    object: ObjectView,
    cached: Option<EntryView>,
)
    ensures
        ({
            let theirs = if i64::MIN <= object.last_modified <= i64::MAX {
                object.last_modified
            } else {
                0
            };
            let sent = cached matches Some(entry) && entry.mtime == file.mtime()
                && entry.md5.len() > 0;
            let alone = change_verdict(Some(file), None, cached);
            let verdict = change_verdict(Some(file), Some(object), cached);
            let ahead = file.mtime() - theirs;
            let same = file.checksum() == object.etag;
            &&& change_verdict(None, Some(object), cached) is Nothing
            &&& change_verdict(None, None, cached) is Nothing
            &&& alone is Nothing <==> sent
            &&& alone is Upload <==> !sent
            &&& verdict is Nothing <==> sent
            &&& verdict is Upload <==> !sent && ahead > 0
            &&& verdict is KeepLocal <==> !sent && ahead < 0
            &&& verdict is KeepRemote <==> !sent && ahead == 0 && !same
            &&& verdict is Record <==> !sent && ahead == 0 && same
        }),
{
}

/// What is done about a local file that changed tells what is known of it: the checksum and time
/// of the file that is sent, the time of the object that is fetched, and for a version that is
/// kept aside a name with the file's time that is not taken.
pub proof fn law_change_action_tells_what_is_known(
    key: Seq<char>,
    file: LocalView,
    object: Option<ObjectView>,
    cached: Option<EntryView>,
    taken: Set<Seq<char>>,
)
    ensures
        ({
            let verdict = change_verdict(Some(file), object, cached);
            let action = change_action(key, Some(file), object, cached, taken);
            let name = conflict_for(key, file.mtime(), taken);
            &&& verdict is Upload ==> action == Some(
                ActionView::Upload { key, md5: file.checksum(), mtime: file.mtime() },
            )
            &&& verdict is KeepLocal ==> action == Some(
                ActionView::KeepLocal {
                    key,
                    conflict: name,
                    last_modified: object->0.last_modified,
                },
            )
            &&& verdict is KeepRemote ==> action == Some(
                ActionView::KeepRemote {
                    key,
                    conflict: name,
                    md5: file.checksum(),
                    mtime: file.mtime(),
                },
            )
            &&& verdict is Nothing || verdict is Record ==> action is None
            &&& change_action(key, None, object, cached, taken) is None
        }),
{
}

/// What the daemon has sent is remembered with the checksum and time that were sent and the time
/// of the sending, and without a tag, so that no object counts as the one that came of it for its
/// tag alone.
pub proof fn law_daemon_remembers_what_it_sent(
    cache: CacheView,
    key: Seq<char>,
    md5: Seq<char>,
    mtime: i64,
    now: int,
)
    ensures
        ({
            let entry = cache.set(key, entry_sent_at(md5, mtime, now)).recall(key);
            entry == Some(
                EntryView { md5, mtime, etag: Seq::empty(), last_modified: rfc3339(now) },
            )
        }),
{
}

/// What the daemon has fetched and could read is remembered with the file's checksum and time and
/// the object's tag and time; what it could not read changes nothing, and neither does it change
/// what is remembered of another key.
pub proof fn law_daemon_remembers_what_it_fetched(
    cache: CacheView,
    object: ObjectView,
    file: LocalView,
    other: Seq<char>,
)
    requires
        other != object.key,
    ensures
        remember(cache, object, file).recall(other) == cache.recall(other),
        file.md5 is None ==> remember(cache, object, file) == cache,
        file.md5 matches Some(md5) ==> remember(cache, object, file).recall(object.key) == Some(
            EntryView {
                md5,
                mtime: file.mtime(),
                etag: object.etag,
                last_modified: rfc3339(object.last_modified),
            },
        ),
{
}

proof fn lemma_seeded(
    cache: CacheView,
    objects: Seq<ObjectView>,
    local: Map<Seq<char>, LocalView>,
    key: Seq<char>,
    n: nat,
)
    requires
        n <= objects.len(),
        forall|i: int| 0 <= i < n ==> (#[trigger] objects[i]).key != key,
    ensures
        seeded(cache, objects, local, n).recall(key) == cache.recall(key),
    decreases n,
{
    if n > 0 {
        lemma_seeded(cache, objects, local, key, (n - 1) as nat);
        assert(objects[n - 1].key != key);
    }
}

/// When the daemon starts it comes to remember exactly the files that are shown to have the
/// content of their objects, each with its checksum and time and the object's tag and time; of
/// all else it remembers what it did.
pub proof fn law_daemon_starts_with_what_is_the_same(
    cache: CacheView,
    objects: Seq<ObjectView>,
    local: Map<Seq<char>, LocalView>,
    at: int,
    other: Seq<char>,
    n: nat,
)
    requires
        keys_differ(objects),
        0 <= at < n <= objects.len(),
        !has_key(objects, other),
    ensures
        ({
            let object = objects[at];
            let file = local[object.key];
            let later = seeded(cache, objects, local, n);
            &&& later.recall(other) == cache.recall(other)
            &&& later.recall(object.key) == if local.contains_key(object.key) && file.md5 == Some(
                plain_etag(object.etag),
            ) && !object.etag.contains('-') {
                Some(
                    EntryView {
                        md5: plain_etag(object.etag),
                        mtime: file.mtime(),
                        etag: object.etag,
                        last_modified: rfc3339(object.last_modified),
                    },
                )
            } else {
                cache.recall(object.key)
            }
        }),
    decreases n,
{
    let m = (n - 1) as nat;
    assert forall|i: int| 0 <= i < n implies (#[trigger] objects[i]).key != other by {
        assert(!has_key(objects, other));
    }
    lemma_seeded(cache, objects, local, other, n);
    law_plain_etag_drops_only_quotes(objects[at].etag);
    if at < m {
        law_daemon_starts_with_what_is_the_same(cache, objects, local, at, other, m);
        assert(objects[at].key != objects[n - 1].key);
    } else {
        assert forall|i: int| 0 <= i < m implies (#[trigger] objects[i]).key
            != objects[at].key by {
            assert(objects[i].key != objects[n - 1].key);
        }
        lemma_seeded(cache, objects, local, objects[at].key, m);
    }
}

/// What becomes of an object when the bucket is looked at. One without a file is fetched. One
/// that is later than its file is fetched too, whatever else is remembered, unless it is the very
/// object that is remembered, by tag and time, or has the content that is remembered of a file
/// with the time that it has; and the file is kept aside first where its time is not the one that
/// is remembered, or where nothing is remembered and it is not shown to have the object's content.
/// One that is not later is left.
pub proof fn law_refresh_fetches_what_is_newer(
    object: ObjectView,
    file: LocalView,
    cached: Option<EntryView>,
)
    ensures
        refresh_verdict(object, None, cached) is Download,
        ({
            let verdict = refresh_verdict(object, Some(file), cached);
            let tag = plain_etag(object.etag);
            let parts = object.etag.contains('-');
            if object.last_modified <= file.instant() {
                verdict is Skip
            } else {
                match cached {
                    None => if file.md5 == Some(tag) && !parts {
                        verdict is Download
                    } else {
                        verdict is KeepLocal
                    },
                    Some(entry) => {
                        let version = entry.etag == object.etag && entry.last_modified == rfc3339(
                            object.last_modified,
                        );
                        let unmodified = entry.mtime == file.mtime();
                        let content = entry.md5.len() > 0 && entry.md5 == tag && !parts;
                        &&& verdict is Skip <==> version || (unmodified && content)
                        &&& verdict is Download <==> !version && unmodified && !content
                        &&& verdict is KeepLocal <==> !version && !unmodified
                    },
                }
            }
        }),
{
    law_plain_etag_drops_only_quotes(object.etag);
}

/// The names that are taken when the bucket is looked at are those of the local files and of the
/// listed objects.
pub proof fn law_names_of_both_sides_are_taken(
    names: Set<Seq<char>>,
    objects: Seq<ObjectView>,
    name: Seq<char>,
)
    ensures
        taken_names(names, objects).contains(name) <==> names.contains(name) || exists|i: int|
            0 <= i < objects.len() && (#[trigger] objects[i]).key == name,
{
}

/// How an object is fetched when the bucket is looked at tells what is known of it: its time, and
/// where its file is kept aside a name with that file's time that is not taken.
pub proof fn law_refresh_action_tells_what_is_known(
    object: ObjectView,
    local: Map<Seq<char>, LocalView>,
    cache: CacheView,
    taken: Set<Seq<char>>,
)
    ensures
        ({
            let key = object.key;
            let action = refresh_action(object, local, cache, taken);
            let kept = local.contains_key(key) && refresh_verdict(
                object,
                Some(local[key]),
                cache.recall(key),
            ) is KeepLocal;
            &&& kept ==> action == (ActionView::KeepLocal {
                key,
                conflict: conflict_for(key, local[key].mtime(), taken),
                last_modified: object.last_modified,
            })
            &&& !kept ==> action == (ActionView::Download {
                key,
                last_modified: object.last_modified,
            })
        }),
{
}

/// The keys of a listing are finitely many.
proof fn lemma_listed_finite(objects: Seq<ObjectView>)
    ensures
        Set::new(|key: Seq<char>| has_key(objects, key)).finite(),
    decreases objects.len(),
{
    let all = Set::new(|key: Seq<char>| has_key(objects, key));
    if objects.len() == 0 {
        assert(all =~= Set::empty());
    } else {
        let rest = objects.drop_last();
        lemma_listed_finite(rest);
        let fewer = Set::new(|key: Seq<char>| has_key(rest, key));
        assert forall|key: Seq<char>| all.contains(key) implies fewer.insert(
            objects.last().key,
        ).contains(key) by {
            let i = choose|i: int| 0 <= i < objects.len() && (#[trigger] objects[i]).key == key;
            if i < rest.len() {
                assert(rest[i].key == key);
            }
        }
        assert(all.subset_of(fewer.insert(objects.last().key)));
        vstd::set_lib::lemma_set_subset_finite(fewer.insert(objects.last().key), all);
    }
}

proof fn lemma_objects_hold(
    objects: Seq<ObjectView>,
    wanted: spec_fn(ObjectView) -> bool,
    object: ObjectView,
)
    ensures
        objects.filter(wanted).contains(object) <==> objects.contains(object) && wanted(object),
    decreases objects.len(),
{
    reveal(Seq::filter);
    if objects.len() > 0 {
        let rest = objects.drop_last();
        lemma_objects_hold(rest, wanted, object);
        assert(objects =~= rest.push(objects.last()));
        lemma_more_contain(rest, objects.last(), object);
        lemma_more_contain(rest.filter(wanted), objects.last(), object);
    }
}

proof fn lemma_more_contain(s: Seq<ObjectView>, x: ObjectView, y: ObjectView)
    ensures
        s.push(x).contains(y) <==> s.contains(y) || x == y,
{
    let all = s.push(x);
    if s.contains(y) {
        assert(all[s.index_of(y)] == y);
    }
    assert(all[s.len() as int] == x);
    if all.contains(y) {
        let i = all.index_of(y);
        if i < s.len() {
            assert(s[i] == y);
        }
    }
}

/// A whole look at the bucket fetches every listed object that the filter lets through, that it
/// has to do with, and that is missing, or is later than a file that is as it is remembered and
/// is neither the object nor has the content that is remembered, and altogether every one of them
/// that is not to be skipped, and none that is. It fetches nothing but listed objects that the
/// filter lets through and that it has to do with, and keeps versions aside under names that
/// neither a local file nor a listed object has.
pub proof fn law_refresh_acts_on_what_is_newer(
    objects: Seq<ObjectView>,
    local: Map<Seq<char>, LocalView>,
    names: Set<Seq<char>>,
    patterns: Patterns,
    prefix: Option<Seq<char>>,
    cache: CacheView,
    at: int,
)
    requires
        0 <= at < objects.len(),
        names.finite(),
    ensures
        ({
            let actions = refresh_plan(objects, local, names, patterns, prefix, cache);
            let object = objects[at];
            let file = local[object.key];
            let newer = object.last_modified > file.instant() && (cache.recall(
                object.key,
            ) matches Some(entry) && entry.mtime == file.mtime() && (entry.etag != object.etag
                || entry.last_modified != rfc3339(object.last_modified)) && entry.md5
                != plain_etag(object.etag));
            &&& patterns.select(object.key) && in_scope(prefix, object.key) && (
            !local.contains_key(object.key) || newer) ==> actions.contains(
                ActionView::Download { key: object.key, last_modified: object.last_modified },
            )
            &&& patterns.select(object.key) && in_scope(prefix, object.key) && refresh_verdict(
                object,
                file_under(local, object.key),
                cache.recall(object.key),
            ) !is Skip ==> exists|i: int|
                0 <= i < actions.len() && (#[trigger] actions[i]).key() == object.key
            &&& keys_differ(objects) && refresh_verdict(
                object,
                file_under(local, object.key),
                cache.recall(object.key),
            ) is Skip ==> forall|i: int|
                0 <= i < actions.len() ==> (#[trigger] actions[i]).key() != object.key
            &&& forall|i: int|
                0 <= i < actions.len() ==> {
                    let key = (#[trigger] actions[i]).key();
                    &&& patterns.select(key) && in_scope(prefix, key) && has_key(objects, key)
                    &&& actions[i].aside() matches Some(name) ==> !names.contains(name) && !has_key(
                        objects,
                        name,
                    )
                }
        }),
{
    let taken = taken_names(names, objects);
    lemma_listed_finite(objects);
    assert(taken.finite());
    let wanted = |object: ObjectView| refresh_takes(object, local, patterns, prefix, cache);
    let made = |object: ObjectView| refresh_action(object, local, cache, taken);
    let kept = objects.filter(wanted);
    let actions = kept.map_values(made);
    let object = objects[at];
    lemma_objects_hold(objects, wanted, object);
    law_refresh_fetches_what_is_newer(object, local[object.key], cache.recall(object.key));
    if kept.contains(object) {
        let i = kept.index_of(object);
        assert(actions[i] == made(object));
        assert(actions[i].key() == object.key);
    }
    if keys_differ(objects) && !wanted(object) {
        assert forall|i: int| 0 <= i < actions.len() implies (#[trigger] actions[i]).key()
            != object.key by {
            assert(kept.contains(kept[i]));
            lemma_objects_hold(objects, wanted, kept[i]);
            let j = objects.index_of(kept[i]);
            if objects[j].key == object.key && j != at {
                assert(objects[if j < at { j } else { at }].key != objects[if j < at {
                    at
                } else {
                    j
                }].key);
            }
        }
    }
    assert(objects.contains(object));
    assert forall|i: int| 0 <= i < actions.len() implies {
        let key = (#[trigger] actions[i]).key();
        &&& patterns.select(key) && in_scope(prefix, key) && has_key(objects, key)
        &&& actions[i].aside() matches Some(name) ==> !names.contains(name) && !has_key(
            objects,
            name,
        )
    } by {
        let key = kept[i].key;
        let mtime = local[key].mtime();
        law_conflict_names_are_free(key, mtime, taken, key, mtime);
        assert(kept.contains(kept[i]));
        lemma_objects_hold(objects, wanted, kept[i]);
        let j = objects.index_of(kept[i]);
        assert(objects[j].key == kept[i].key);
    }
}

/// Weighing a local file that changed comes to remember it exactly when it was not sent with the
/// time that it has, has the time of its object, and its checksum is the object's tag; nothing
/// else that is remembered changes.
pub proof fn law_change_remembers_what_is_the_same(
    cache: CacheView,
    key: Seq<char>,
    file: LocalView,
    object: ObjectView,
    other: Seq<char>,
)
    requires
        other != key,
    ensures
        ({
            let theirs = if i64::MIN <= object.last_modified <= i64::MAX {
                object.last_modified
            } else {
                0
            };
            let sent = cache.recall(key) matches Some(entry) && entry.mtime == file.mtime()
                && entry.md5.len() > 0;
            let later = after_change(cache, key, Some(file), Some(object));
            &&& later.recall(other) == cache.recall(other)
            &&& later.recall(key) == if !sent && file.mtime() == theirs && file.checksum()
                == object.etag {
                Some(
                    EntryView {
                        md5: object.etag,
                        mtime: file.mtime(),
                        etag: object.etag,
                        last_modified: rfc3339(object.last_modified),
                    },
                )
            } else {
                cache.recall(key)
            }
            &&& after_change(cache, key, Some(file), None) == cache
            &&& after_change(cache, key, None, Some(object)) == cache
        }),
{
}

} // verus!
