//! Synchronization in both directions.
use vstd::prelude::*;
use vstd::string::*;

use crate::cache::{entry_view, Cache, CacheEntry, CacheView, EntryView};
use crate::checksum::{
    is_multipart_etag, law_plain_etag_drops_only_quotes, md5_matches, multipart, normalize_etag,
    plain_etag, shows_same_content,
};
use crate::filter::{texts, Filter, Patterns};
use crate::keys::{ascending, in_order, lemma_in_order, KeyMap, KeySet};
use crate::local::{file_view, unmodified, LocalFile, LocalView};
use crate::s3::{
    by_key, law_last_listed_counts, list_objects_map, object_views, ObjectView, S3Object,
};
use crate::sync::pull::{
    fetched_views, file_under, find_parent_keys, law_pull_leaves_out_directories, parent_keys,
    Fetched, FetchedView,
};
use crate::sync::push::{object_under, object_view};
use crate::sync::transfer::{
    action_views, conflict_for, conflict_name, keeps_aside, kept_aside, law_conflict_keeps_both,
    law_conflict_names_are_free, law_transfers_make_sides_agree, steps_of, Action, ActionView,
    Sides,
};
use crate::sync::{
    after_removals, after_uploads, at_risk, concerns, content_known, entry_for, entry_of,
    entry_sent, in_scope, is_at_risk, keys_with, knows_content, knows_version,
    law_prefix_limits_the_keys, lemma_filter_ascending, lemma_filter_holds, lemma_filter_push,
    lemma_keys_with_none, lemma_keys_with_push, lemma_removals_recall, lemma_take_set,
    lemma_uploads_recall, notice_views, notify, sent_before, text_view, version_known, was_sent,
    Notice, NoticeKind, NoticeView, UploadView,
};
use crate::text::{lemma_less_asymmetric, text_less};
use crate::time::{law_whole_seconds_leave_less_than_one, rfc3339, whole_seconds};

verus! {

/// What becomes of a key.
pub enum SyncVerdict {
    /// The key is on neither side.
    Absent,
    /// Nothing changed.
    Skip,
    /// Both sides have the same content, which is remembered.
    Record,
    /// The object is fetched.
    Download,
    /// The local file is sent.
    Upload,
    /// The object is newer, but the file could be lost: the file is kept aside, and the object
    /// is fetched.
    KeepLocal,
    /// Both have the same time and different content: the object is kept aside, and the file is
    /// sent.
    KeepRemote,
    /// There is no object, and the file is deleted.
    DeleteLocal,
    /// There is no file, and the object is deleted.
    DeleteRemote,
}

/// Whether the file and the object are as they are remembered, going by the file's modification
/// time and not by its content: the file has the time that is remembered, and the object the
/// content, or it is the very object that is remembered and the file has its time, as a fetched
/// file does.
pub open spec fn as_remembered(
    object: ObjectView,
    file: LocalView,
    cached: Option<EntryView>,
) -> bool {
    cached matches Some(entry) && entry.mtime == file.mtime() && (content_known(entry, object) || (
    version_known(entry, object) && file.instant() == object.last_modified))
}

/// What becomes of a key, given what is under it on the two sides and what is remembered.
/// Times that differ by less than a second count as the same. Of two versions with the same
/// time the content decides, whatever is remembered, as far as the entity tag shows it. With
/// `delete`, what is on one side only is deleted there.
pub open spec fn sync_verdict(
    object: Option<ObjectView>,
    local: Option<LocalView>,
    cached: Option<EntryView>,
    delete: bool,
) -> SyncVerdict {
    match (object, local) {
        (None, None) => SyncVerdict::Absent,
        (Some(_), None) => if delete {
            SyncVerdict::DeleteRemote
        } else {
            SyncVerdict::Download
        },
        (None, Some(file)) => if delete {
            SyncVerdict::DeleteLocal
        } else if sent_before(cached, file.mtime()) {
            SyncVerdict::Skip
        } else {
            SyncVerdict::Upload
        },
        (Some(o), Some(file)) => {
            let ahead = whole_seconds(o.last_modified - file.instant());
            if ahead == 0 && !multipart(plain_etag(o.etag)) {
                if shows_same_content(file.md5, o.etag) {
                    SyncVerdict::Record
                } else {
                    SyncVerdict::KeepRemote
                }
            } else if as_remembered(o, file, cached) {
                SyncVerdict::Skip
            } else if ahead > 0 {
                if at_risk(o, file, cached) {
                    SyncVerdict::KeepLocal
                } else {
                    SyncVerdict::Download
                }
            } else if ahead < 0 && sent_before(cached, file.mtime()) {
                SyncVerdict::Skip
            } else if shows_same_content(file.md5, o.etag) {
                SyncVerdict::Record
            } else if ahead < 0 {
                SyncVerdict::Upload
            } else {
                SyncVerdict::KeepRemote
            }
        },
    }
}

/// Whether the file and the object are as they are remembered.
fn is_as_remembered(
    object: &S3Object,
    file: &LocalFile,
    cached: Option<&CacheEntry>,
) -> (yes: bool)
    ensures
        yes == as_remembered(object@, file@, entry_view(cached)),
{
    match cached {
        Some(entry) => {
            let time = file.time();
            entry.mtime == file.mtime() && (knows_content(entry, object) || (knows_version(
                entry,
                object,
            ) && !time.is_after(&object.last_modified) && !object.last_modified.is_after(&time)))
        },
        None => false,
    }
}

/// What becomes of a key, given what is under it on the two sides and what is remembered.
pub fn judge_sync(
    object: Option<&S3Object>,
    local: Option<&LocalFile>,
    cached: Option<&CacheEntry>,
    delete: bool,
) -> (verdict: SyncVerdict)
    ensures
        verdict == sync_verdict(
            object_view(object),
            file_view(local),
            entry_view(cached),
            delete,
        ),
{
    match object {
        None => match local {
            None => SyncVerdict::Absent,
            Some(file) => {
                if delete {
                    SyncVerdict::DeleteLocal
                } else if was_sent(cached, file.mtime()) {
                    SyncVerdict::Skip
                } else {
                    SyncVerdict::Upload
                }
            },
        },
        Some(o) => match local {
            None => {
                if delete {
                    SyncVerdict::DeleteRemote
                } else {
                    SyncVerdict::Download
                }
            },
            Some(file) => {
                let ahead: i64 = o.last_modified.seconds_after(&file.time());
                if ahead == 0 && !is_multipart_etag(normalize_etag(o.etag.as_str())) {
                    if md5_matches(file.md5_ref(), o.etag.as_str()) {
                        SyncVerdict::Record
                    } else {
                        SyncVerdict::KeepRemote
                    }
                } else if is_as_remembered(o, file, cached) {
                    SyncVerdict::Skip
                } else if ahead > 0 {
                    if is_at_risk(o, file, cached) {
                        SyncVerdict::KeepLocal
                    } else {
                        SyncVerdict::Download
                    }
                } else if ahead < 0 && was_sent(cached, file.mtime()) {
                    SyncVerdict::Skip
                } else if md5_matches(file.md5_ref(), o.etag.as_str()) {
                    SyncVerdict::Record
                } else if ahead < 0 {
                    SyncVerdict::Upload
                } else {
                    SyncVerdict::KeepRemote
                }
            },
        },
    }
}

/// Whether the checksum of the file is needed to say what becomes of its key: the file may be
/// sent, its content remembered, or an object fetched over a file of which nothing is
/// remembered.
pub open spec fn content_matters(
    object: Option<ObjectView>,
    file: LocalView,
    cached: Option<EntryView>,
    delete: bool,
) -> bool {
    match sync_verdict(object, Some(file), cached, delete) {
        SyncVerdict::Record => true,
        SyncVerdict::Upload => true,
        SyncVerdict::KeepRemote => true,
        SyncVerdict::Download => cached is None,
        SyncVerdict::KeepLocal => cached is None,
        _ => false,
    }
}

/// Whether the checksum of the file is needed to say what becomes of its key. Where it is not,
/// the verdict is the same whatever the content.
pub fn sync_reads_content(
    object: Option<&S3Object>,
    file: &LocalFile,
    cached: Option<&CacheEntry>,
    delete: bool,
) -> (needed: bool)
    ensures
        needed == content_matters(object_view(object), file@, entry_view(cached), delete),
        !needed ==> forall|md5: Option<Seq<char>>|
            sync_verdict(
                object_view(object),
                Some(#[trigger] file@.with_md5(md5)),
                entry_view(cached),
                delete,
            ) == sync_verdict(object_view(object), Some(file@), entry_view(cached), delete),
{
    let fresh: bool = match cached {
        None => true,
        Some(_) => false,
    };
    match judge_sync(object, Some(file), cached, delete) {
        SyncVerdict::Record => true,
        SyncVerdict::Upload => true,
        SyncVerdict::KeepRemote => true,
        SyncVerdict::Download => fresh,
        SyncVerdict::KeepLocal => fresh,
        _ => false,
    }
}

/// How far a synchronization has been planned: what to do, which objects to delete, what to
/// report, and what is remembered.
#[verifier::ext_equal]
pub struct SyncState {
    pub actions: Seq<ActionView>,
    pub deletes: Seq<Seq<char>>,
    pub notices: Seq<NoticeView>,
    pub cache: CacheView,
}

/// What is done about a key, under a name that is not taken where a version is kept aside.
pub open spec fn sync_action(
    verdict: SyncVerdict,
    key: Seq<char>,
    object: Option<ObjectView>,
    local: Option<LocalView>,
    taken: Set<Seq<char>>,
) -> ActionView {
    match verdict {
        SyncVerdict::Download => ActionView::Download {
            key,
            last_modified: object->0.last_modified,
        },
        SyncVerdict::Upload => ActionView::Upload {
            key,
            md5: local->0.checksum(),
            mtime: local->0.mtime(),
        },
        SyncVerdict::KeepLocal => ActionView::KeepLocal {
            key,
            conflict: conflict_for(key, local->0.mtime(), taken),
            last_modified: object->0.last_modified,
        },
        SyncVerdict::DeleteLocal => ActionView::DeleteLocal { key },
        _ => ActionView::KeepRemote {
            key,
            conflict: conflict_for(key, local->0.mtime(), taken),
            md5: local->0.checksum(),
            mtime: local->0.mtime(),
        },
    }
}

/// What is reported in a dry run of what would be done about a key.
pub open spec fn sync_notice(verdict: SyncVerdict) -> NoticeKind {
    match verdict {
        SyncVerdict::Download => NoticeKind::Downloaded,
        SyncVerdict::KeepLocal => NoticeKind::Downloaded,
        SyncVerdict::Upload => NoticeKind::Uploaded,
        SyncVerdict::KeepRemote => NoticeKind::Uploaded,
        _ => NoticeKind::Deleted,
    }
}

/// The plan with one key more.
pub open spec fn sync_step(
    state: SyncState,
    key: Seq<char>,
    object: Option<ObjectView>,
    local: Option<LocalView>,
    delete: bool,
    dry_run: bool,
    taken: Set<Seq<char>>,
) -> SyncState {
    let verdict = sync_verdict(object, local, state.cache.recall(key), delete);
    match verdict {
        SyncVerdict::Absent => state,
        SyncVerdict::Skip => SyncState {
            notices: state.notices.push(NoticeView { kind: NoticeKind::Skipped, key }),
            ..state
        },
        SyncVerdict::Record => SyncState {
            notices: state.notices.push(NoticeView { kind: NoticeKind::Skipped, key }),
            cache: state.cache.set(
                key,
                entry_of(local->0.checksum(), local->0.mtime(), object->0),
            ),
            ..state
        },
        _ => if dry_run {
            SyncState {
                notices: state.notices.push(NoticeView { kind: sync_notice(verdict), key }),
                ..state
            }
        } else if verdict is DeleteRemote {
            SyncState { deletes: state.deletes.push(key), ..state }
        } else {
            SyncState {
                actions: state.actions.push(sync_action(verdict, key, object, local, taken)),
                ..state
            }
        },
    }
}

/// The plan for the first `n` keys.
pub open spec fn sync_after(
    keys: Seq<Seq<char>>,
    remote: Map<Seq<char>, ObjectView>,
    local: Map<Seq<char>, LocalView>,
    delete: bool,
    dry_run: bool,
    taken: Set<Seq<char>>,
    cache: CacheView,
    n: nat,
) -> SyncState
    decreases n,
{
    if n == 0 {
        SyncState {
            actions: Seq::empty(),
            deletes: Seq::empty(),
            notices: Seq::empty(),
            cache,
        }
    } else {
        let key = keys[n - 1];
        sync_step(
            sync_after(keys, remote, local, delete, dry_run, taken, cache, (n - 1) as nat),
            key,
            object_under(remote, key),
            file_under(local, key),
            delete,
            dry_run,
            taken,
        )
    }
}

/// The objects that can have files of their own, by key.
pub open spec fn remote_side(objects: Seq<ObjectView>) -> Map<Seq<char>, ObjectView> {
    by_key(objects).remove_keys(parent_keys(objects))
}

/// The local files that take part: the filter lets them through, and the operation has to do
/// with them. Where it deletes, a file whose key is both that of an object and a directory for
/// others is left alone.
pub open spec fn local_side(
    objects: Seq<ObjectView>,
    local: Map<Seq<char>, LocalView>,
    patterns: Patterns,
    prefix: Option<Seq<char>>,
    delete: bool,
) -> Map<Seq<char>, LocalView> {
    local.restrict(
        local.dom().filter(
            |key: Seq<char>|
                patterns.select(key) && in_scope(prefix, key) && !(delete && parent_keys(
                    objects,
                ).contains(key)),
        ),
    )
}

/// The keys that take part: those of the files that do, and those of the objects that the
/// filter lets through.
pub open spec fn sync_keys(
    remote: Map<Seq<char>, ObjectView>,
    side: Map<Seq<char>, LocalView>,
    patterns: Patterns,
) -> Set<Seq<char>> {
    remote.dom().filter(|key: Seq<char>| patterns.select(key)).union(side.dom())
}

/// The objects that can have files of their own, by key.
pub fn take_remote(objects: &Vec<S3Object>) -> (remote: KeyMap<S3Object>)
    ensures
        remote@ == remote_side(object_views(objects@)),
{
    let parents: KeySet = find_parent_keys(objects.as_slice());
    let mut remote: KeyMap<S3Object> = list_objects_map(objects);
    let n: usize = parents.len();
    let ghost all = remote@;
    let ghost keys = parents.key_seq();
    let mut i: usize = 0;
    proof {
        assert(keys.take(0).to_set() =~= Set::empty());
        assert(all.remove_keys(Set::empty()) =~= all);
    }
    while i < n
        invariant
            i <= n,
            n == keys.len(),
            keys == parents.key_seq(),
            remote@ == all.remove_keys(keys.take(i as int).to_set()),
        decreases n - i,
    {
        remote.remove(parents.key_at(i).as_str());
        proof {
            lemma_take_set(keys, i as int);
            assert(all.remove_keys(keys.take(i + 1).to_set()) =~= all.remove_keys(
                keys.take(i as int).to_set(),
            ).remove(keys[i as int]));
        }
        i = i + 1;
    }
    assert(keys.take(n as int) =~= keys);
    remote
}

/// The keys that take part, and those of them that have a local file.
fn take_keys(
    objects: &Vec<S3Object>,
    remote: &KeyMap<S3Object>,
    local: &KeyMap<LocalFile>,
    prefix: Option<&str>,
    filter: &Filter,
    delete: bool,
) -> (taken: (KeySet, KeySet))
    ensures
        taken.0@ == sync_keys(remote@, local_side(
                object_views(objects@),
                local@,
                filter@,
                text_view(prefix),
                delete,
            ), filter@),
        taken.1@ == local_side(
                object_views(objects@),
                local@,
                filter@,
                text_view(prefix),
                delete,
            ).dom(),
{
    let parents: KeySet = find_parent_keys(objects.as_slice());
    let mut all: KeySet = KeySet::new();
    let mut with_file: KeySet = KeySet::new();
    let n: usize = remote.len();
    let ghost theirs = remote.key_seq();
    let mut i: usize = 0;
    proof {
        assert(all@ =~= Set::empty());
    }
    while i < n
        invariant
            i <= n,
            n == theirs.len(),
            theirs == remote.key_seq(),
            forall|k: Seq<char>| #[trigger]
                all@.contains(k) <==> theirs.take(i as int).to_set().contains(k) && filter@.select(
                    k,
                ),
        decreases n - i,
    {
        let key = remote.key_at(i);
        if filter.matches(key.as_str()) {
            all.insert(key.clone());
        }
        proof {
            lemma_take_set(theirs, i as int);
        }
        i = i + 1;
    }
    let m: usize = local.len();
    let ghost ours = local.key_seq();
    let ghost scope = text_view(prefix);
    let mut j: usize = 0;
    proof {
        assert(theirs.take(n as int) =~= theirs);
        assert(theirs.to_set() =~= remote@.dom());
    }
    while j < m
        invariant
            j <= m,
            m == ours.len(),
            ours == local.key_seq(),
            scope == text_view(prefix),
            forall|k: Seq<char>| #[trigger]
                with_file@.contains(k) <==> ours.take(j as int).to_set().contains(k)
                    && filter@.select(k) && in_scope(scope, k) && !(delete && parents@.contains(k)),
            forall|k: Seq<char>| #[trigger]
                all@.contains(k) <==> (remote@.contains_key(k) && filter@.select(k))
                    || with_file@.contains(k),
        decreases m - j,
    {
        let key = local.key_at(j);
        if filter.matches(key.as_str()) && concerns(prefix, key.as_str()) && !(delete
            && parents.contains(key.as_str())) {
            all.insert(key.clone());
            with_file.insert(key.clone());
        }
        proof {
            lemma_take_set(ours, j as int);
        }
        j = j + 1;
    }
    proof {
        assert(ours.take(m as int) =~= ours);
        assert(ours.to_set() =~= local@.dom());
        let side = local_side(object_views(objects@), local@, filter@, scope, delete);
        assert(with_file@ =~= side.dom());
        assert(all@ =~= sync_keys(remote@, side, filter@));
    }
    (all, with_file)
}

/// The names of all files and objects.
fn all_names(local: &KeyMap<LocalFile>, remote: &KeyMap<S3Object>) -> (names: KeySet)
    ensures
        names@ == local@.dom().union(remote@.dom()),
{
    let mut names: KeySet = KeySet::new();
    let n: usize = local.len();
    let ghost ours = local.key_seq();
    let mut i: usize = 0;
    while i < n
        invariant
            i <= n,
            n == ours.len(),
            ours == local.key_seq(),
            names@ == ours.take(i as int).to_set(),
        decreases n - i,
    {
        names.insert(local.key_at(i).clone());
        proof {
            lemma_take_set(ours, i as int);
        }
        i = i + 1;
    }
    let m: usize = remote.len();
    let ghost theirs = remote.key_seq();
    let mut j: usize = 0;
    proof {
        assert(ours.take(n as int) =~= ours);
        assert(ours.to_set() =~= local@.dom());
        assert(names@ =~= local@.dom().union(theirs.take(0).to_set()));
    }
    while j < m
        invariant
            j <= m,
            m == theirs.len(),
            theirs == remote.key_seq(),
            names@ == local@.dom().union(theirs.take(j as int).to_set()),
        decreases m - j,
    {
        names.insert(remote.key_at(j).clone());
        proof {
            lemma_take_set(theirs, j as int);
            assert(names@ =~= local@.dom().union(theirs.take(j + 1).to_set()));
        }
        j = j + 1;
    }
    proof {
        assert(theirs.take(m as int) =~= theirs);
        assert(theirs.to_set() =~= remote@.dom());
    }
    names
}

/// The action for a key that calls for one.
fn make_action(
    verdict: &SyncVerdict,
    key: &String,
    object: Option<&S3Object>,
    local: Option<&LocalFile>,
    taken: &KeySet,
) -> (action: Option<Action>)
    requires
        *verdict is Download || *verdict is KeepLocal ==> object is Some,
        *verdict is Upload || *verdict is KeepLocal || *verdict is KeepRemote ==> local is Some,
    ensures
        action is Some <==> calls_for_action(*verdict),
        action matches Some(a) ==> a@ == sync_action(
            *verdict,
            key@,
            object_view(object),
            file_view(local),
            taken@,
        ),
{
    match verdict {
        SyncVerdict::Download => match object {
            Some(o) => Some(
                Action::Download { key: key.clone(), last_modified: o.last_modified },
            ),
            None => None,
        },
        SyncVerdict::Upload => match local {
            Some(file) => Some(
                Action::Upload { key: key.clone(), md5: file.checksum(), mtime: file.mtime() },
            ),
            None => None,
        },
        SyncVerdict::KeepLocal => match (object, local) {
            (Some(o), Some(file)) => Some(
                Action::KeepLocal {
                    key: key.clone(),
                    conflict: conflict_name(key.as_str(), file.mtime(), taken),
                    last_modified: o.last_modified,
                },
            ),
            _ => None,
        },
        SyncVerdict::KeepRemote => match local {
            Some(file) => Some(
                Action::KeepRemote {
                    key: key.clone(),
                    conflict: conflict_name(key.as_str(), file.mtime(), taken),
                    md5: file.checksum(),
                    mtime: file.mtime(),
                },
            ),
            None => None,
        },
        SyncVerdict::DeleteLocal => Some(Action::DeleteLocal { key: key.clone() }),
        _ => None,
    }
}

/// What a synchronization is to do: the transfers and deletions of files, the objects to
/// delete, what to report at once, how many keys take part, and the objects that it went by.
pub struct SyncPlan {
    pub actions: Vec<Action>,
    pub deletes: Vec<String>,
    pub notices: Vec<Notice>,
    pub total: usize,
    pub remote: KeyMap<S3Object>,
}

/// The whole plan. Versions are kept aside under names that no file and no object has.
pub open spec fn sync_plan(
    objects: Seq<ObjectView>,
    local: Map<Seq<char>, LocalView>,
    prefix: Option<Seq<char>>,
    patterns: Patterns,
    delete: bool,
    dry_run: bool,
    cache: CacheView,
) -> SyncState {
    let remote = remote_side(objects);
    let side = local_side(objects, local, patterns, prefix, delete);
    let order = in_order(sync_keys(remote, side, patterns));
    sync_after(
        order,
        remote,
        side,
        delete,
        dry_run,
        local.dom().union(remote.dom()),
        cache,
        order.len(),
    )
}

/// Plans the synchronization of these objects and these local files: all that there are in the
/// local directory, whether they take part or not.
pub fn bidirectional(
    objects: &Vec<S3Object>,
    local: &KeyMap<LocalFile>,
    prefix: Option<&str>,
    filter: &Filter,
    delete: bool,
    dry_run: bool,
    cache: &mut Cache,
) -> (plan: SyncPlan)
    ensures
        ({
            let want = sync_plan(
                object_views(objects@),
                local@,
                text_view(prefix),
                filter@,
                delete,
                dry_run,
                old(cache)@,
            );
            &&& action_views(plan.actions@) == want.actions
            &&& texts(plan.deletes@) == want.deletes
            &&& notice_views(plan.notices@) == want.notices
            &&& final(cache)@ == want.cache
        }),
        plan.remote@ == remote_side(object_views(objects@)),
        plan.total == in_order(
            sync_keys(
                remote_side(object_views(objects@)),
                local_side(
                object_views(objects@),
                local@,
                filter@,
                text_view(prefix),
                delete,
            ),
                filter@,
            ),
        ).len(),
{
    let remote: KeyMap<S3Object> = take_remote(objects);
    let (all, with_file) = take_keys(objects, &remote, local, prefix, filter, delete);
    let taken: KeySet = all_names(local, &remote);
    let ghost side = local_side(
                object_views(objects@),
                local@,
                filter@,
                text_view(prefix),
                delete,
            );
    let ghost start = cache@;
    let mut actions: Vec<Action> = Vec::new();
    let mut deletes: Vec<String> = Vec::new();
    let mut notices: Vec<Notice> = Vec::new();
    let n: usize = all.len();
    let ghost order = all.key_seq();
    let mut i: usize = 0;
    proof {
        assert(action_views(actions@) =~= Seq::empty());
        assert(texts(deletes@) =~= Seq::empty());
        assert(notice_views(notices@) =~= Seq::empty());
    }
    while i < n
        invariant
            i <= n,
            n == order.len(),
            order == all.key_seq(),
            with_file@ == side.dom(),
            side == local_side(
                object_views(objects@),
                local@,
                filter@,
                text_view(prefix),
                delete,
            ),
            ({
                let state = sync_after(
                    order,
                    remote@,
                    side,
                    delete,
                    dry_run,
                    taken@,
                    start,
                    i as nat,
                );
                &&& action_views(actions@) == state.actions
                &&& texts(deletes@) == state.deletes
                &&& notice_views(notices@) == state.notices
                &&& cache@ == state.cache
            }),
        decreases n - i,
    {
        let key = all.key_at(i);
        let object = remote.get(key.as_str());
        let file = if with_file.contains(key.as_str()) {
            local.get(key.as_str())
        } else {
            None
        };
        assert(file_view(file) == file_under(side, key@));
        assert(object_view(object) == object_under(remote@, key@));
        let verdict = judge_sync(object, file, cache.get(key.as_str()), delete);
        match verdict {
            SyncVerdict::Absent => {},
            SyncVerdict::Skip => {
                notify(&mut notices, NoticeKind::Skipped, key.as_str());
            },
            SyncVerdict::Record => {
                match (object, file) {
                    (Some(o), Some(found)) => {
                        cache.set(
                            key.clone(),
                            entry_for(found.checksum(), found.mtime(), o),
                        );
                    },
                    _ => {},
                }
                notify(&mut notices, NoticeKind::Skipped, key.as_str());
            },
            _ => {
                if dry_run {
                    let kind: NoticeKind = match verdict {
                        SyncVerdict::Download => NoticeKind::Downloaded,
                        SyncVerdict::KeepLocal => NoticeKind::Downloaded,
                        SyncVerdict::Upload => NoticeKind::Uploaded,
                        SyncVerdict::KeepRemote => NoticeKind::Uploaded,
                        _ => NoticeKind::Deleted,
                    };
                    notify(&mut notices, kind, key.as_str());
                } else {
                    match make_action(&verdict, key, object, file, &taken) {
                        Some(action) => {
                            let ghost held = actions@;
                            let ghost said = action@;
                            actions.push(action);
                            assert(action_views(actions@) =~= action_views(held).push(said));
                        },
                        None => {
                            let ghost held = deletes@;
                            deletes.push(key.clone());
                            assert(texts(deletes@) =~= texts(held).push(key@));
                        },
                    }
                }
            },
        }
        i = i + 1;
    }
    SyncPlan { actions, deletes, notices, total: n, remote }
}

/// The cache once the files of `done` were fetched: each is remembered with the object that it
/// came from, its checksum empty where its content could not be read.
pub open spec fn after_fetches(
    cache: CacheView,
    done: Seq<FetchedView>,
    remote: Map<Seq<char>, ObjectView>,
) -> CacheView
    decreases done.len(),
{
    if done.len() == 0 {
        cache
    } else {
        let before = after_fetches(cache, done.drop_last(), remote);
        let last = done.last();
        if remote.contains_key(last.key) {
            before.set(
                last.key,
                entry_of(last.file.checksum(), last.file.mtime(), remote[last.key]),
            )
        } else {
            before
        }
    }
}

/// Remembers the files that were fetched.
pub fn record_fetches(cache: &mut Cache, done: &Vec<Fetched>, remote: &KeyMap<S3Object>)
    ensures
        final(cache)@ == after_fetches(old(cache)@, fetched_views(done@), remote@),
{
    let ghost views = fetched_views(done@);
    let ghost start = cache@;
    let mut i: usize = 0;
    while i < done.len()
        invariant
            i <= done@.len(),
            views == fetched_views(done@),
            cache@ == after_fetches(start, views.take(i as int), remote@),
        decreases done@.len() - i,
    {
        proof {
            assert(views.take(i + 1).drop_last() =~= views.take(i as int));
            assert(views.take(i + 1).last() == done@[i as int]@);
        }
        let one = &done[i];
        match remote.get(one.key.as_str()) {
            Some(object) => {
                cache.set(
                    one.key.clone(),
                    entry_for(one.file.checksum(), one.file.mtime(), object),
                );
            },
            None => {},
        }
        i = i + 1;
    }
    assert(views.take(i as int) =~= views);
}

/// What becomes of a key of which nothing is remembered: what is on one side only is brought
/// to the other, or deleted if that is asked; of two versions the newer wins, and a file with
/// other content that would lose is kept aside; of two with the same time, the local one wins
/// and the other is kept aside, unless they have the same content.
pub proof fn law_first_sync(object: ObjectView, file: LocalView, delete: bool)
    ensures
        sync_verdict(Some(object), None, None, false) is Download,
        sync_verdict(Some(object), None, None, true) is DeleteRemote,
        sync_verdict(None, Some(file), None, false) is Upload,
        sync_verdict(None, Some(file), None, true) is DeleteLocal,
        ({
            let ahead = whole_seconds(object.last_modified - file.instant());
            let same = shows_same_content(file.md5, object.etag);
            let verdict = sync_verdict(Some(object), Some(file), None, delete);
            &&& ahead > 0 && same ==> verdict is Download
            &&& ahead > 0 && !same ==> verdict is KeepLocal
            &&& ahead < 0 && !same ==> verdict is Upload
            &&& ahead == 0 && !same ==> verdict is KeepRemote
            &&& ahead <= 0 && same ==> verdict is Record
        }),
{
}

/// An object never takes the place of a file that was modified since it was remembered, or of
/// which nothing is remembered and whose content is not shown to be the object's: where the
/// object is newer, the file is kept aside first.
pub proof fn law_newer_object_spares_file(
    object: ObjectView,
    file: LocalView,
    cached: Option<EntryView>,
    delete: bool,
)
    requires
        match cached {
            Some(entry) => entry.mtime != file.mtime(),
            None => !shows_same_content(file.md5, object.etag),
        },
    ensures
        sync_verdict(Some(object), Some(file), cached, delete) !is Download,
        whole_seconds(object.last_modified - file.instant()) > 0 ==> sync_verdict(
            Some(object),
            Some(file),
            cached,
            delete,
        ) is KeepLocal,
{
}

/// A conflict loses nothing: what was on the two sides before is still somewhere on them once
/// the action for the key was taken, where every local file's name counts as taken.
pub proof fn law_sync_conflict_keeps_both(
    sides: Sides,
    key: Seq<char>,
    object: ObjectView,
    file: LocalView,
    cached: Option<EntryView>,
    delete: bool,
    taken: Set<Seq<char>>,
    content: Seq<u8>,
)
    requires
        sync_verdict(Some(object), Some(file), cached, delete) is KeepLocal || sync_verdict(
            Some(object),
            Some(file),
            cached,
            delete,
        ) is KeepRemote,
        sides.local.contains_key(key),
        sides.remote.contains_key(key),
        taken.finite(),
        forall|name: Seq<char>| #[trigger] sides.local.contains_key(name) ==> taken.contains(name),
        sides.hold(content),
    ensures
        sides.act(
            sync_action(
                sync_verdict(Some(object), Some(file), cached, delete),
                key,
                Some(object),
                Some(file),
                taken,
            ),
            true,
        ).hold(content),
{
    let action = sync_action(
        sync_verdict(Some(object), Some(file), cached, delete),
        key,
        Some(object),
        Some(file),
        taken,
    );
    law_conflict_names_are_free(key, file.mtime(), taken, key, file.mtime());
    law_conflict_keeps_both(sides, action, true, content, steps_of(action, true).len());
}

/// What becomes of two versions with the same time does not depend on what is remembered, where
/// the entity tag is a checksum: if they have the same content nothing is done, and if not the
/// object is kept aside and the file is sent.
pub proof fn law_content_decides_a_tie(
    object: ObjectView,
    file: LocalView,
    cached: Option<EntryView>,
    delete: bool,
)
    requires
        whole_seconds(object.last_modified - file.instant()) == 0,
        !multipart(plain_etag(object.etag)),
    ensures
        sync_verdict(Some(object), Some(file), cached, delete) == if shows_same_content(
            file.md5,
            object.etag,
        ) {
            SyncVerdict::Record
        } else {
            SyncVerdict::KeepRemote
        },
{
}

/// Nothing is done about a file that was fetched the next time, as long as neither side changes;
/// it has the time of its object, and the content where the entity tag shows it.
pub proof fn law_sync_after_download_skips(
    object: ObjectView,
    file: LocalView,
    md5: Seq<char>,
    delete: bool,
)
    requires
        file.instant() == object.last_modified,
        multipart(plain_etag(object.etag)) || shows_same_content(file.md5, object.etag),
    ensures
        sync_verdict(
            Some(object),
            Some(file),
            Some(entry_of(md5, file.mtime(), object)),
            delete,
        ) == if multipart(plain_etag(object.etag)) {
            SyncVerdict::Skip
        } else {
            SyncVerdict::Record
        },
{
}

/// Nothing is done about what was sent the next time, as long as the file does not change, once
/// the object that came of it, with the file's checksum for a tag, is listed; and where it is
/// not listed yet, unless it is to be deleted for that. Where the object has the file's time,
/// the file is read again.
pub proof fn law_sync_after_upload_skips(
    upload: UploadView,
    listed: Map<Seq<char>, ObjectView>,
    sent: ObjectView,
    file: LocalView,
    delete: bool,
)
    requires
        file.mtime() == upload.mtime,
        upload.md5.len() > 0,
        shows_same_content(Some(upload.md5), sent.etag),
        whole_seconds(sent.last_modified - file.instant()) == 0 ==> file.md5 == Some(upload.md5),
    ensures
        ({
            let tie = whole_seconds(sent.last_modified - file.instant()) == 0;
            let verdict = sync_verdict(
                Some(sent),
                Some(file),
                Some(entry_sent(upload, listed)),
                delete,
            );
            &&& tie ==> verdict is Record
            &&& !tie ==> verdict is Skip
        }),
        sync_verdict(None, Some(file), Some(entry_sent(upload, listed)), false) is Skip,
{
}

/// An object that comes back in place of one that was sent over it is not taken for what was
/// sent: with the tag that it had before but another time and other content, it is fetched
/// where it is newer, and kept aside where it has the file's time.
pub proof fn law_sync_notices_restored_object(
    upload: UploadView,
    listed: Map<Seq<char>, ObjectView>,
    restored: ObjectView,
    file: LocalView,
    delete: bool,
)
    requires
        file.mtime() == upload.mtime,
        file.md5 == Some(upload.md5),
        !shows_same_content(file.md5, restored.etag),
        listed.contains_key(upload.key),
        rfc3339(listed[upload.key].last_modified) != rfc3339(restored.last_modified),
    ensures
        ({
            let verdict = sync_verdict(
                Some(restored),
                Some(file),
                Some(entry_sent(upload, listed)),
                delete,
            );
            let ahead = whole_seconds(restored.last_modified - file.instant());
            &&& ahead > 0 ==> verdict is Download
            &&& ahead == 0 ==> verdict is KeepRemote
        }),
{
}

/// Whether a key with this verdict calls for an action.
pub open spec fn calls_for_action(verdict: SyncVerdict) -> bool {
    verdict is Download || verdict is Upload || verdict is KeepLocal || verdict is KeepRemote
        || verdict is DeleteLocal
}

/// What is decided about `key`, from what is on the two sides and what is remembered at the
/// start.
pub open spec fn verdict_on(
    key: Seq<char>,
    remote: Map<Seq<char>, ObjectView>,
    local: Map<Seq<char>, LocalView>,
    cache: CacheView,
    delete: bool,
) -> SyncVerdict {
    sync_verdict(object_under(remote, key), file_under(local, key), cache.recall(key), delete)
}

/// What is done about `key`.
pub open spec fn action_on(
    key: Seq<char>,
    remote: Map<Seq<char>, ObjectView>,
    local: Map<Seq<char>, LocalView>,
    cache: CacheView,
    delete: bool,
    taken: Set<Seq<char>>,
) -> ActionView {
    sync_action(
        verdict_on(key, remote, local, cache, delete),
        key,
        object_under(remote, key),
        file_under(local, key),
        taken,
    )
}

/// What is remembered of `key` once the plan was made.
spec fn recorded_on(
    key: Seq<char>,
    remote: Map<Seq<char>, ObjectView>,
    local: Map<Seq<char>, LocalView>,
    cache: CacheView,
    delete: bool,
) -> Option<EntryView> {
    if verdict_on(key, remote, local, cache, delete) is Record {
        Some(entry_of(local[key].checksum(), local[key].mtime(), remote[key]))
    } else {
        cache.recall(key)
    }
}

proof fn lemma_sync_acts(
    keys: Seq<Seq<char>>,
    remote: Map<Seq<char>, ObjectView>,
    local: Map<Seq<char>, LocalView>,
    delete: bool,
    taken: Set<Seq<char>>,
    cache: CacheView,
    n: nat,
)
    requires
        ascending(keys),
        n <= keys.len(),
    ensures
        ({
            let state = sync_after(keys, remote, local, delete, false, taken, cache, n);
            &&& state.actions == keys.take(n as int).filter(
                |key: Seq<char>| calls_for_action(verdict_on(key, remote, local, cache, delete)),
            ).map_values(
                |key: Seq<char>| action_on(key, remote, local, cache, delete, taken),
            )
            &&& state.deletes == keys.take(n as int).filter(
                |key: Seq<char>| verdict_on(key, remote, local, cache, delete) is DeleteRemote,
            )
            &&& forall|i: int|
                n <= i < keys.len() ==> state.cache.recall(#[trigger] keys[i]) == cache.recall(
                    keys[i],
                )
            &&& forall|i: int|
                0 <= i < n ==> state.cache.recall(#[trigger] keys[i]) == recorded_on(
                    keys[i],
                    remote,
                    local,
                    cache,
                    delete,
                )
        }),
    decreases n,
{
    let wanted = |key: Seq<char>| calls_for_action(verdict_on(key, remote, local, cache, delete));
    let made = |key: Seq<char>| action_on(key, remote, local, cache, delete, taken);
    let dropped = |key: Seq<char>| verdict_on(key, remote, local, cache, delete) is DeleteRemote;
    reveal(Seq::filter);
    let state = sync_after(keys, remote, local, delete, false, taken, cache, n);
    if n == 0 {
        assert(keys.take(0).filter(wanted) =~= Seq::empty());
        assert(keys.take(0).filter(dropped) =~= Seq::empty());
        assert(state.actions =~= keys.take(0).filter(wanted).map_values(made));
    } else {
        let m = (n - 1) as nat;
        lemma_sync_acts(keys, remote, local, delete, taken, cache, m);
        let before = sync_after(keys, remote, local, delete, false, taken, cache, m);
        let key = keys[n - 1];
        assert(before.cache.recall(keys[m as int]) == cache.recall(key));
        assert forall|i: int| n <= i < keys.len() implies state.cache.recall(#[trigger] keys[i])
            == cache.recall(keys[i]) by {
            assert(before.cache.recall(keys[i]) == cache.recall(keys[i]));
            assert(text_less(keys[n - 1], keys[i]));
            lemma_less_asymmetric(keys[n - 1], keys[i]);
        }
        assert forall|i: int| 0 <= i < n implies state.cache.recall(#[trigger] keys[i])
            == recorded_on(keys[i], remote, local, cache, delete) by {
            if i < m {
                assert(before.cache.recall(keys[i]) == recorded_on(
                    keys[i],
                    remote,
                    local,
                    cache,
                    delete,
                ));
                assert(text_less(keys[i], keys[n - 1]));
                lemma_less_asymmetric(keys[i], keys[n - 1]);
            }
        }
        lemma_filter_push(keys, wanted, m as int);
        lemma_filter_push(keys, dropped, m as int);
        let part = keys.take(m as int).filter(wanted);
        if wanted(key) {
            assert(part.push(key).map_values(made) =~= part.map_values(made).push(made(key)));
        }
    }
}

/// The actions and the deleted objects of a synchronization, in the order of their keys, are
/// those that the keys that take part call for: each is decided from what is on the two sides
/// under it and from what is remembered of it at the start, whatever becomes of the other keys.
pub proof fn law_sync_acts_exactly(
    keys: Seq<Seq<char>>,
    remote: Map<Seq<char>, ObjectView>,
    local: Map<Seq<char>, LocalView>,
    delete: bool,
    taken: Set<Seq<char>>,
    cache: CacheView,
)
    requires
        ascending(keys),
    ensures
        ({
            let end = sync_after(keys, remote, local, delete, false, taken, cache, keys.len());
            &&& end.actions == keys.filter(
                |key: Seq<char>| calls_for_action(verdict_on(key, remote, local, cache, delete)),
            ).map_values(
                |key: Seq<char>| action_on(key, remote, local, cache, delete, taken),
            )
            &&& end.deletes == keys.filter(
                |key: Seq<char>| verdict_on(key, remote, local, cache, delete) is DeleteRemote,
            )
        }),
{
    lemma_sync_acts(keys, remote, local, delete, taken, cache, keys.len());
    assert(keys.take(keys.len() as int) =~= keys);
}

/// Each key that is on one of the two sides is dealt with once, by an action, a deletion or a
/// report, and a dry run does nothing.
pub proof fn law_sync_accounts_for_all(
    keys: Seq<Seq<char>>,
    remote: Map<Seq<char>, ObjectView>,
    local: Map<Seq<char>, LocalView>,
    delete: bool,
    dry_run: bool,
    taken: Set<Seq<char>>,
    cache: CacheView,
    n: nat,
)
    requires
        n <= keys.len(),
        forall|i: int|
            0 <= i < keys.len() ==> remote.contains_key(#[trigger] keys[i]) || local.contains_key(
                keys[i],
            ),
    ensures
        ({
            let state = sync_after(keys, remote, local, delete, dry_run, taken, cache, n);
            &&& state.actions.len() + state.deletes.len() + state.notices.len() == n
            &&& dry_run ==> state.actions.len() == 0 && state.deletes.len() == 0
        }),
    decreases n,
{
    if n > 0 {
        law_sync_accounts_for_all(
            keys,
            remote,
            local,
            delete,
            dry_run,
            taken,
            cache,
            (n - 1) as nat,
        );
        assert(remote.contains_key(keys[n - 1]) || local.contains_key(keys[n - 1]));
    }
}

/// A key is dealt with exactly when the filter lets it through and it is that of an object
/// that can have a file, or that of a file that the operation has to do with; where it deletes,
/// a file whose key is also a directory for objects is left alone.
pub proof fn law_sync_touches_only_selected(
    objects: Seq<ObjectView>,
    local: Map<Seq<char>, LocalView>,
    prefix: Option<Seq<char>>,
    patterns: Patterns,
    delete: bool,
    key: Seq<char>,
)
    ensures
        sync_keys(
            remote_side(objects),
            local_side(objects, local, patterns, prefix, delete),
            patterns,
        ).contains(key) <==> patterns.select(key) && ((by_key(objects).contains_key(key) && !parent_keys(
            objects,
        ).contains(key)) || (local.contains_key(key) && in_scope(prefix, key) && !(delete
            && parent_keys(objects).contains(key)))),
{
}

/// The keys of a listing are finitely many.
proof fn lemma_by_key_finite(objects: Seq<ObjectView>)
    ensures
        by_key(objects).dom().finite(),
    decreases objects.len(),
{
    if objects.len() > 0 {
        lemma_by_key_finite(objects.drop_last());
    }
}

/// The keys of a synchronization, in order.
proof fn lemma_sync_order(
    objects: Seq<ObjectView>,
    local: Map<Seq<char>, LocalView>,
    prefix: Option<Seq<char>>,
    patterns: Patterns,
    delete: bool,
)
    requires
        local.dom().finite(),
    ensures
        ({
            let remote = remote_side(objects);
            let side = local_side(objects, local, patterns, prefix, delete);
            let keys = sync_keys(remote, side, patterns);
            &&& ascending(in_order(keys))
            &&& in_order(keys).to_set() == keys
            &&& local.dom().union(remote.dom()).finite()
        }),
{
    let remote = remote_side(objects);
    let side = local_side(objects, local, patterns, prefix, delete);
    lemma_by_key_finite(objects);
    assert(remote.dom() =~= by_key(objects).dom().difference(parent_keys(objects)));
    assert(remote.dom().finite());
    assert(side.dom() =~= local.dom().filter(
        |key: Seq<char>|
            patterns.select(key) && in_scope(prefix, key) && !(delete && parent_keys(
                objects,
            ).contains(key)),
    ));
    assert(side.dom().finite());
    lemma_in_order(sync_keys(remote, side, patterns));
}

/// With `delete`, what takes part and is on one side only is deleted there and not brought to
/// the other; what is on both sides is not deleted. Without it nothing is deleted.
pub proof fn law_sync_deletes_what_is_missing(
    objects: Seq<ObjectView>,
    local: Map<Seq<char>, LocalView>,
    prefix: Option<Seq<char>>,
    patterns: Patterns,
    delete: bool,
    cache: CacheView,
    key: Seq<char>,
)
    requires
        local.dom().finite(),
        sync_keys(
            remote_side(objects),
            local_side(objects, local, patterns, prefix, delete),
            patterns,
        ).contains(key),
    ensures
        ({
            let plan = sync_plan(objects, local, prefix, patterns, delete, false, cache);
            let there = remote_side(objects).contains_key(key);
            let here = local_side(objects, local, patterns, prefix, delete).contains_key(key);
            &&& plan.deletes.contains(key) <==> delete && there && !here
            &&& plan.actions.contains(ActionView::DeleteLocal { key }) <==> delete && here && !there
            &&& delete && there != here ==> forall|i: int|
                0 <= i < plan.actions.len() && (#[trigger] plan.actions[i]).key() == key
                    ==> plan.actions[i] == (ActionView::DeleteLocal { key })
        }),
{
    let remote = remote_side(objects);
    let side = local_side(objects, local, patterns, prefix, delete);
    let taken = local.dom().union(remote.dom());
    let order = in_order(sync_keys(remote, side, patterns));
    let plan = sync_plan(objects, local, prefix, patterns, delete, false, cache);
    let wanted = |k: Seq<char>| calls_for_action(verdict_on(k, remote, side, cache, delete));
    let dropped = |k: Seq<char>| verdict_on(k, remote, side, cache, delete) is DeleteRemote;
    let kept = order.filter(wanted);
    lemma_sync_order(objects, local, prefix, patterns, delete);
    law_sync_acts_exactly(order, remote, side, delete, taken, cache);
    assert(order.to_set().contains(key));
    lemma_filter_holds(order, dropped, key);
    lemma_filter_holds(order, wanted, key);
    assert forall|i: int| 0 <= i < plan.actions.len() implies (#[trigger] plan.actions[i]).key()
        == kept[i] && plan.actions[i] == action_on(
        kept[i],
        remote,
        side,
        cache,
        delete,
        taken,
    ) && calls_for_action(verdict_on(kept[i], remote, side, cache, delete)) by {
        assert(kept.contains(kept[i]));
        lemma_filter_holds(order, wanted, kept[i]);
    }
    if delete && side.contains_key(key) && !remote.contains_key(key) {
        let at = kept.index_of(key);
        assert(plan.actions[at] == (ActionView::DeleteLocal { key }));
    }
    if plan.actions.contains(ActionView::DeleteLocal { key }) {
        let at = plan.actions.index_of(ActionView::DeleteLocal { key });
        assert(plan.actions[at].key() == key);
    }
}

/// What is known of the `i`-th action of a synchronization.
proof fn lemma_action_at(
    keys: Seq<Seq<char>>,
    remote: Map<Seq<char>, ObjectView>,
    local: Map<Seq<char>, LocalView>,
    delete: bool,
    taken: Set<Seq<char>>,
    cache: CacheView,
    i: int,
)
    requires
        ascending(keys),
        0 <= i < sync_after(
            keys,
            remote,
            local,
            delete,
            false,
            taken,
            cache,
            keys.len(),
        ).actions.len(),
    ensures
        ({
            let action = sync_after(
                keys,
                remote,
                local,
                delete,
                false,
                taken,
                cache,
                keys.len(),
            ).actions[i];
            let key = keys.filter(
                |k: Seq<char>| calls_for_action(verdict_on(k, remote, local, cache, delete)),
            )[i];
            &&& keys.contains(key)
            &&& calls_for_action(verdict_on(key, remote, local, cache, delete))
            &&& action == action_on(key, remote, local, cache, delete, taken)
            &&& action.key() == key
            &&& action !is Download ==> local.contains_key(key)
            &&& action is Download || action is KeepLocal || action is KeepRemote
                ==> remote.contains_key(key)
            &&& action.aside() is Some ==> action.aside() == Some(
                conflict_for(key, local[key].mtime(), taken),
            )
        }),
{
    let wanted = |k: Seq<char>| calls_for_action(verdict_on(k, remote, local, cache, delete));
    let kept = keys.filter(wanted);
    law_sync_acts_exactly(keys, remote, local, delete, taken, cache);
    assert(kept.contains(kept[i]));
    lemma_filter_holds(keys, wanted, kept[i]);
}

/// Once every action of a synchronization succeeded, the two sides agree on each key that was
/// to be brought from one to the other, and every version that was to be kept aside is there,
/// where the names of all files and all keys that take part count as taken.
pub proof fn law_sync_makes_sides_agree(
    keys: Seq<Seq<char>>,
    remote: Map<Seq<char>, ObjectView>,
    local: Map<Seq<char>, LocalView>,
    delete: bool,
    taken: Set<Seq<char>>,
    cache: CacheView,
    sides: Sides,
    key: Seq<char>,
)
    requires
        ascending(keys),
        keys.contains(key),
        calls_for_action(verdict_on(key, remote, local, cache, delete)),
        forall|k: Seq<char>| #[trigger] local.contains_key(k) ==> sides.local.contains_key(k),
        forall|k: Seq<char>| #[trigger] remote.contains_key(k) ==> sides.remote.contains_key(k),
        taken.finite(),
        forall|k: Seq<char>| #[trigger] keys.contains(k) ==> taken.contains(k),
    ensures
        ({
            let actions = sync_after(
                keys,
                remote,
                local,
                delete,
                false,
                taken,
                cache,
                keys.len(),
            ).actions;
            let end = sides.act_all(actions, true, actions.len());
            let action = action_on(key, remote, local, cache, delete, taken);
            &&& action !is DeleteLocal ==> end.agree_on(key)
            &&& action is DeleteLocal ==> !end.local.contains_key(key)
            &&& action.aside() matches Some(name) ==> end.local.contains_key(name)
                && end.local[name] == kept_aside(sides, action)
        }),
{
    let wanted = |k: Seq<char>| calls_for_action(verdict_on(k, remote, local, cache, delete));
    let kept = keys.filter(wanted);
    let actions = sync_after(
        keys,
        remote,
        local,
        delete,
        false,
        taken,
        cache,
        keys.len(),
    ).actions;
    law_sync_acts_exactly(keys, remote, local, delete, taken, cache);
    lemma_filter_ascending(keys, wanted);
    assert forall|i: int| 0 <= i < actions.len() implies sides.allow(#[trigger] actions[i]) by {
        lemma_action_at(keys, remote, local, delete, taken, cache, i);
    }
    assert forall|i: int, j: int| 0 <= i < j < actions.len() implies (
    #[trigger] actions[i]).key() != (#[trigger] actions[j]).key() by {
        lemma_action_at(keys, remote, local, delete, taken, cache, i);
        lemma_action_at(keys, remote, local, delete, taken, cache, j);
        assert(text_less(kept[i], kept[j]));
        lemma_less_asymmetric(kept[i], kept[j]);
    }
    assert forall|i: int, j: int| 0 <= i < actions.len() && 0 <= j < actions.len() implies (
    #[trigger] actions[i]).aside() != Some((#[trigger] actions[j]).key()) by {
        lemma_action_at(keys, remote, local, delete, taken, cache, i);
        lemma_action_at(keys, remote, local, delete, taken, cache, j);
        law_conflict_names_are_free(
            kept[i],
            local[kept[i]].mtime(),
            taken,
            kept[i],
            local[kept[i]].mtime(),
        );
    }
    assert forall|i: int, j: int|
        0 <= i < j < actions.len() && (#[trigger] actions[i]).aside() is Some implies
        actions[i].aside() != (#[trigger] actions[j]).aside() by {
        lemma_action_at(keys, remote, local, delete, taken, cache, i);
        lemma_action_at(keys, remote, local, delete, taken, cache, j);
        assert(text_less(kept[i], kept[j]));
        lemma_less_asymmetric(kept[i], kept[j]);
        law_conflict_names_are_free(
            kept[i],
            local[kept[i]].mtime(),
            taken,
            kept[j],
            local[kept[j]].mtime(),
        );
    }
    law_transfers_make_sides_agree(sides, actions, true, actions.len());
    lemma_filter_holds(keys, wanted, key);
    let at = kept.index_of(key);
    lemma_action_at(keys, remote, local, delete, taken, cache, at);
    assert(actions[at].key() == key);
}

/// What is remembered once files were fetched: of a file that was, what was recorded of one of
/// its fetchings; of any other, what it was.
proof fn lemma_fetches_recall(
    cache: CacheView,
    done: Seq<FetchedView>,
    remote: Map<Seq<char>, ObjectView>,
    key: Seq<char>,
)
    ensures
        ({
            let after = after_fetches(cache, done, remote).recall(key);
            if remote.contains_key(key) && exists|i: int|
                0 <= i < done.len() && (#[trigger] done[i]).key == key {
                exists|i: int|
                    0 <= i < done.len() && (#[trigger] done[i]).key == key && after == Some(
                        entry_of(done[i].file.checksum(), done[i].file.mtime(), remote[key]),
                    )
            } else {
                after == cache.recall(key)
            }
        }),
    decreases done.len(),
{
    if done.len() > 0 {
        let rest = done.drop_last();
        let last = done.len() - 1;
        lemma_fetches_recall(cache, rest, remote, key);
        if done[last].key != key && remote.contains_key(key) {
            if exists|i: int| 0 <= i < done.len() && (#[trigger] done[i]).key == key {
                let i = choose|i: int| 0 <= i < done.len() && (#[trigger] done[i]).key == key;
                assert(rest[i].key == key);
                let j = choose|j: int|
                    0 <= j < rest.len() && (#[trigger] rest[j]).key == key && after_fetches(
                        cache,
                        rest,
                        remote,
                    ).recall(key) == Some(
                        entry_of(rest[j].file.checksum(), rest[j].file.mtime(), remote[key]),
                    );
                assert(done[j].key == key);
            } else {
                assert forall|i: int| 0 <= i < rest.len() implies (#[trigger] rest[i]).key
                    != key by {
                    assert(done[i].key != key);
                }
            }
        }
    }
}

/// Whether an object is fetched under a key with this verdict.
pub open spec fn fetches_object(verdict: SyncVerdict) -> bool {
    verdict is Download || verdict is KeepLocal
}

/// Whether the local file is sent under a key with this verdict.
pub open spec fn sends_file(verdict: SyncVerdict) -> bool {
    verdict is Upload || verdict is KeepRemote
}

/// Whether the file that may be under a key is the same as before: it has the same modification
/// time, and the same content where that is looked at again.
pub open spec fn same_file(
    file: Option<LocalView>,
    object_later: Option<ObjectView>,
    file_later: Option<LocalView>,
    cached_later: Option<EntryView>,
    delete: bool,
) -> bool {
    &&& unmodified(file, file_later)
    &&& file_later matches Some(f) ==> content_matters(object_later, f, cached_later, delete)
        ==> f.md5 == file->0.md5
}

/// How the two sides stand under a key once what was decided about it was carried out: a
/// fetched file has the time of its object, and the content where the entity tag shows it; the
/// object that came of a file has its checksum for a tag; what was deleted is gone; all else is
/// as it was.
pub open spec fn settled(
    verdict: SyncVerdict,
    object: Option<ObjectView>,
    file: Option<LocalView>,
    object_later: Option<ObjectView>,
    file_later: Option<LocalView>,
    cached_later: Option<EntryView>,
    delete: bool,
) -> bool {
    if fetches_object(verdict) {
        object_later == object && (file_later matches Some(f) && f.modified == Some(
            object->0.last_modified,
        ) && (multipart(plain_etag(object->0.etag)) || shows_same_content(
            f.md5,
            object->0.etag,
        )))
    } else if sends_file(verdict) {
        same_file(file, object_later, file_later, cached_later, delete)
            && file->0.checksum().len() > 0 && (object_later matches Some(o)
            && shows_same_content(Some(file->0.checksum()), o.etag))
    } else if verdict is DeleteLocal || verdict is DeleteRemote {
        object_later is None && file_later is None
    } else {
        object_later == object && same_file(
            file,
            object_later,
            file_later,
            cached_later,
            delete,
        )
    }
}

/// Whether exactly the files that were fetched and sent were recorded, with the times that they
/// have.
pub open spec fn recorded_in_full(
    keys: Set<Seq<char>>,
    remote: Map<Seq<char>, ObjectView>,
    local: Map<Seq<char>, LocalView>,
    delete: bool,
    cache: CacheView,
    fetched: Seq<FetchedView>,
    sent: Seq<UploadView>,
    local_later: Map<Seq<char>, LocalView>,
) -> bool {
    &&& forall|i: int|
        0 <= i < fetched.len() ==> {
            let key = (#[trigger] fetched[i]).key;
            &&& keys.contains(key)
            &&& fetches_object(verdict_on(key, remote, local, cache, delete))
            &&& fetched[i].file.mtime() == local_later[key].mtime()
        }
    &&& forall|i: int|
        0 <= i < sent.len() ==> {
            let key = (#[trigger] sent[i]).key;
            &&& keys.contains(key)
            &&& sends_file(verdict_on(key, remote, local, cache, delete))
            &&& sent[i].md5 == local[key].checksum()
            &&& sent[i].mtime == local[key].mtime()
        }
    &&& forall|key: Seq<char>| #[trigger]
        keys.contains(key) && fetches_object(verdict_on(key, remote, local, cache, delete))
            ==> exists|i: int| 0 <= i < fetched.len() && (#[trigger] fetched[i]).key == key
    &&& forall|key: Seq<char>| #[trigger]
        keys.contains(key) && sends_file(verdict_on(key, remote, local, cache, delete))
            ==> exists|i: int| 0 <= i < sent.len() && (#[trigger] sent[i]).key == key
}

/// What is remembered once a synchronization was carried out and recorded.
pub open spec fn after_sync(
    plan: SyncState,
    remote: Map<Seq<char>, ObjectView>,
    fetched: Seq<FetchedView>,
    sent: Seq<UploadView>,
) -> CacheView {
    after_removals(
        after_uploads(after_fetches(plan.cache, fetched, remote), sent, remote),
        plan.deletes,
    )
}

/// Once a synchronization was carried out and recorded, a key that took part calls for nothing
/// more.
proof fn lemma_sync_settles(
    order: Seq<Seq<char>>,
    remote: Map<Seq<char>, ObjectView>,
    local: Map<Seq<char>, LocalView>,
    delete: bool,
    taken: Set<Seq<char>>,
    cache: CacheView,
    fetched: Seq<FetchedView>,
    sent: Seq<UploadView>,
    remote_later: Map<Seq<char>, ObjectView>,
    local_later: Map<Seq<char>, LocalView>,
    key: Seq<char>,
)
    requires
        ascending(order),
        order.contains(key),
        recorded_in_full(
            order.to_set(),
            remote,
            local,
            delete,
            cache,
            fetched,
            sent,
            local_later,
        ),
        settled(
            verdict_on(key, remote, local, cache, delete),
            object_under(remote, key),
            file_under(local, key),
            object_under(remote_later, key),
            file_under(local_later, key),
            after_sync(
                sync_after(order, remote, local, delete, false, taken, cache, order.len()),
                remote,
                fetched,
                sent,
            ).recall(key),
            delete,
        ),
    ensures
        ({
            let plan = sync_after(
                order,
                remote,
                local,
                delete,
                false,
                taken,
                cache,
                order.len(),
            );
            let later = after_sync(plan, remote, fetched, sent);
            let verdict = verdict_on(key, remote_later, local_later, later, delete);
            !calls_for_action(verdict) && verdict !is DeleteRemote
        }),
{
    let plan = sync_after(order, remote, local, delete, false, taken, cache, order.len());
    let verdict = verdict_on(key, remote, local, cache, delete);
    let keys = order.to_set();
    let at = order.index_of(key);
    lemma_sync_acts(order, remote, local, delete, taken, cache, order.len());
    assert(plan.cache.recall(order[at]) == recorded_on(key, remote, local, cache, delete));
    law_sync_acts_exactly(order, remote, local, delete, taken, cache);
    lemma_filter_holds(
        order,
        |k: Seq<char>| verdict_on(k, remote, local, cache, delete) is DeleteRemote,
        key,
    );
    let then = after_fetches(plan.cache, fetched, remote);
    if verdict !is DeleteRemote {
        lemma_removals_recall(after_uploads(then, sent, remote), plan.deletes, key);
        lemma_uploads_recall(then, sent, remote, key);
        lemma_fetches_recall(plan.cache, fetched, remote, key);
        assert(keys.contains(key));
        if fetches_object(verdict) {
            assert(exists|i: int| 0 <= i < fetched.len() && (#[trigger] fetched[i]).key == key);
            assert forall|i: int| 0 <= i < sent.len() implies (#[trigger] sent[i]).key != key by {
                assert(sends_file(verdict_on(sent[i].key, remote, local, cache, delete)));
            }
        } else if sends_file(verdict) {
            assert(exists|i: int| 0 <= i < sent.len() && (#[trigger] sent[i]).key == key);
        } else {
            assert forall|i: int| 0 <= i < sent.len() implies (#[trigger] sent[i]).key != key by {
                assert(sends_file(verdict_on(sent[i].key, remote, local, cache, delete)));
            }
            assert forall|i: int| 0 <= i < fetched.len() implies (#[trigger] fetched[i]).key
                != key by {
                assert(fetches_object(
                    verdict_on(fetched[i].key, remote, local, cache, delete),
                ));
            }
        }
    }
}

/// A second synchronization does nothing: once one succeeded and was recorded, the same with
/// the two sides as they are then fetches, sends and deletes nothing, but for files that the
/// first one kept aside. Entity tags of what was sent are its checksums, fetched files have the
/// times of their objects and the content that a tag shows, and nothing else is new on either
/// side. A file need not be read again where its content is not looked at.
pub proof fn law_sync_again_does_nothing(
    objects: Seq<ObjectView>,
    local: Map<Seq<char>, LocalView>,
    prefix: Option<Seq<char>>,
    patterns: Patterns,
    delete: bool,
    cache: CacheView,
    fetched: Seq<FetchedView>,
    sent: Seq<UploadView>,
    objects_later: Seq<ObjectView>,
    local_later: Map<Seq<char>, LocalView>,
)
    requires
        local.dom().finite(),
        local_later.dom().finite(),
        ({
            let remote = remote_side(objects);
            let side = local_side(objects, local, patterns, prefix, delete);
            let keys = sync_keys(remote, side, patterns);
            let plan = sync_plan(objects, local, prefix, patterns, delete, false, cache);
            let remote_later = remote_side(objects_later);
            let side_later = local_side(objects_later, local_later, patterns, prefix, delete);
            &&& recorded_in_full(keys, remote, side, delete, cache, fetched, sent, side_later)
            &&& forall|key: Seq<char>| #[trigger]
                keys.contains(key) ==> settled(
                    verdict_on(key, remote, side, cache, delete),
                    object_under(remote, key),
                    file_under(side, key),
                    object_under(remote_later, key),
                    file_under(side_later, key),
                    after_sync(plan, remote, fetched, sent).recall(key),
                    delete,
                )
            &&& forall|key: Seq<char>| #[trigger]
                sync_keys(remote_later, side_later, patterns).contains(key) ==> keys.contains(key)
                    || keeps_aside(plan.actions, key)
        }),
    ensures
        ({
            let plan = sync_plan(objects, local, prefix, patterns, delete, false, cache);
            let later = after_sync(plan, remote_side(objects), fetched, sent);
            let again = sync_plan(
                objects_later,
                local_later,
                prefix,
                patterns,
                delete,
                false,
                later,
            );
            &&& forall|i: int|
                0 <= i < again.actions.len() ==> keeps_aside(
                    plan.actions,
                    (#[trigger] again.actions[i]).key(),
                )
            &&& forall|i: int|
                0 <= i < again.deletes.len() ==> keeps_aside(
                    plan.actions,
                    #[trigger] again.deletes[i],
                )
            &&& (forall|i: int|
                0 <= i < plan.actions.len() ==> (#[trigger] plan.actions[i]).aside() is None)
                ==> again.actions.len() == 0 && again.deletes.len() == 0
        }),
{
    let remote = remote_side(objects);
    let side = local_side(objects, local, patterns, prefix, delete);
    let keys = sync_keys(remote, side, patterns);
    let order = in_order(keys);
    let taken = local.dom().union(remote.dom());
    let plan = sync_plan(objects, local, prefix, patterns, delete, false, cache);
    let later = after_sync(plan, remote, fetched, sent);
    let remote_later = remote_side(objects_later);
    let side_later = local_side(objects_later, local_later, patterns, prefix, delete);
    let keys_later = sync_keys(remote_later, side_later, patterns);
    let order_later = in_order(keys_later);
    let taken_later = local_later.dom().union(remote_later.dom());
    let again = sync_plan(objects_later, local_later, prefix, patterns, delete, false, later);
    lemma_sync_order(objects, local, prefix, patterns, delete);
    lemma_sync_order(objects_later, local_later, prefix, patterns, delete);
    law_sync_acts_exactly(order_later, remote_later, side_later, delete, taken_later, later);
    let wanted = |k: Seq<char>|
        calls_for_action(verdict_on(k, remote_later, side_later, later, delete));
    let dropped = |k: Seq<char>|
        verdict_on(k, remote_later, side_later, later, delete) is DeleteRemote;
    assert forall|key: Seq<char>|
        keys_later.contains(key) && (calls_for_action(
            verdict_on(key, remote_later, side_later, later, delete),
        ) || verdict_on(key, remote_later, side_later, later, delete) is DeleteRemote) implies
        #[trigger] keeps_aside(plan.actions, key) by {
        if keys.contains(key) {
            assert(order.to_set().contains(key));
            lemma_sync_settles(
                order,
                remote,
                side,
                delete,
                taken,
                cache,
                fetched,
                sent,
                remote_later,
                side_later,
                key,
            );
        }
    }
    assert forall|i: int| 0 <= i < again.actions.len() implies keeps_aside(
        plan.actions,
        (#[trigger] again.actions[i]).key(),
    ) by {
        lemma_action_at(
            order_later,
            remote_later,
            side_later,
            delete,
            taken_later,
            later,
            i,
        );
        let key = again.actions[i].key();
        assert(order_later.to_set().contains(key));
    }
    assert forall|i: int| 0 <= i < again.deletes.len() implies keeps_aside(
        plan.actions,
        #[trigger] again.deletes[i],
    ) by {
        let key = again.deletes[i];
        assert(order_later.filter(dropped).contains(key));
        lemma_filter_holds(order_later, dropped, key);
        assert(order_later.to_set().contains(key));
    }
    if again.actions.len() > 0 {
        assert(keeps_aside(plan.actions, again.actions[0].key()));
    }
    if again.deletes.len() > 0 {
        assert(keeps_aside(plan.actions, again.deletes[0]));
    }
}

/// A file that is newer than its object by a second or more is sent, whatever else is remembered
/// of it, unless it was sent with the time that it has, or is shown to have the object's content:
/// nothing is done about it then, and in the second case that is remembered.
pub proof fn law_newer_file_is_sent(
    object: ObjectView,
    file: LocalView,
    cached: Option<EntryView>,
    delete: bool,
)
    requires
        file.instant() - object.last_modified >= 1_000_000_000,
    ensures
        ({
            let verdict = sync_verdict(Some(object), Some(file), cached, delete);
            let sent = cached matches Some(entry) && entry.mtime == file.mtime()
                && entry.md5.len() > 0;
            let same = file.md5 == Some(plain_etag(object.etag)) && !object.etag.contains('-');
            &&& verdict is Upload <==> !sent && !same
            &&& verdict is Skip <==> sent
            &&& verdict is Record <==> !sent && same
        }),
{
    law_plain_etag_drops_only_quotes(object.etag);
    law_whole_seconds_leave_less_than_one(object.last_modified - file.instant());
}

/// An object that is newer than its file by a second or more is fetched, unless the file is as it
/// is remembered and the object has the content that is remembered of it. A file that was
/// modified since it was remembered, or of which nothing is remembered and that is not shown to
/// have the object's content, is kept aside first.
pub proof fn law_newer_object_is_fetched(
    object: ObjectView,
    file: LocalView,
    cached: Option<EntryView>,
    delete: bool,
)
    requires
        object.last_modified - file.instant() >= 1_000_000_000,
    ensures
        ({
            let verdict = sync_verdict(Some(object), Some(file), cached, delete);
            let tag = plain_etag(object.etag);
            let parts = object.etag.contains('-');
            match cached {
                None => if file.md5 == Some(tag) && !parts {
                    verdict is Download
                } else {
                    verdict is KeepLocal
                },
                Some(entry) => if entry.mtime != file.mtime() {
                    verdict is KeepLocal
                } else if entry.md5.len() > 0 && entry.md5 == tag && !parts {
                    verdict is Skip
                } else {
                    verdict is Download
                },
            }
        }),
{
    law_plain_etag_drops_only_quotes(object.etag);
    law_whole_seconds_leave_less_than_one(object.last_modified - file.instant());
}

/// Of two versions whose times differ by less than a second the file is sent and the object kept
/// aside, whatever is remembered, unless the file is shown to have the object's content, which is
/// remembered then. Where the tag shows no content, nothing is done if the object is the very one
/// that is remembered and the file has its time and the time that is remembered.
pub proof fn law_tie_goes_to_the_file(
    object: ObjectView,
    file: LocalView,
    cached: Option<EntryView>,
    delete: bool,
)
    requires
        -1_000_000_000 < object.last_modified - file.instant() < 1_000_000_000,
    ensures
        ({
            let verdict = sync_verdict(Some(object), Some(file), cached, delete);
            let same = file.md5 == Some(plain_etag(object.etag));
            let known = cached matches Some(entry) && entry.mtime == file.mtime() && entry.etag
                == object.etag && entry.last_modified == rfc3339(object.last_modified)
                && file.instant() == object.last_modified;
            if object.etag.contains('-') {
                &&& verdict is Skip <==> known
                &&& verdict is KeepRemote <==> !known
            } else {
                &&& verdict is Record <==> same
                &&& verdict is KeepRemote <==> !same
            }
        }),
{
    law_plain_etag_drops_only_quotes(object.etag);
    law_whole_seconds_leave_less_than_one(object.last_modified - file.instant());
}

/// What is on one side only is brought to the other, or deleted if that is asked. An object
/// without a file is fetched whatever is remembered, and a file without an object is sent unless
/// it was sent with the time that it has.
pub proof fn law_what_is_on_one_side_is_brought_over(
    object: ObjectView,
    file: LocalView,
    cached: Option<EntryView>,
    delete: bool,
)
    ensures
        sync_verdict(None, None, cached, delete) is Absent,
        sync_verdict(Some(object), None, cached, false) is Download,
        sync_verdict(Some(object), None, cached, true) is DeleteRemote,
        sync_verdict(None, Some(file), cached, true) is DeleteLocal,
        ({
            let sent = cached matches Some(entry) && entry.mtime == file.mtime()
                && entry.md5.len() > 0;
            let verdict = sync_verdict(None, Some(file), cached, false);
            &&& verdict is Upload <==> !sent
            &&& verdict is Skip <==> sent
        }),
{
}

/// Whether deletions are wanted makes no difference to a key that is on both sides, which is
/// never deleted.
pub proof fn law_deletions_leave_common_keys_alone(
    object: ObjectView,
    file: LocalView,
    cached: Option<EntryView>,
)
    ensures
        sync_verdict(Some(object), Some(file), cached, true) == sync_verdict(
            Some(object),
            Some(file),
            cached,
            false,
        ),
        sync_verdict(Some(object), Some(file), cached, true) !is DeleteLocal,
        sync_verdict(Some(object), Some(file), cached, true) !is DeleteRemote,
        sync_verdict(Some(object), Some(file), cached, true) !is Absent,
{
}

/// What is done about a key tells what is known of it: the time of the object that is fetched,
/// the checksum and time of the file that is sent, and for a version that is kept aside a name
/// with the file's time that is not taken.
pub proof fn law_sync_action_tells_what_is_known(
    verdict: SyncVerdict,
    key: Seq<char>,
    object: ObjectView,
    file: LocalView,
    taken: Set<Seq<char>>,
)
    ensures
        ({
            let action = sync_action(verdict, key, Some(object), Some(file), taken);
            let name = conflict_for(key, file.mtime(), taken);
            &&& verdict is Download ==> action == (ActionView::Download {
                key,
                last_modified: object.last_modified,
            })
            &&& verdict is Upload ==> action == (ActionView::Upload {
                key,
                md5: file.checksum(),
                mtime: file.mtime(),
            })
            &&& verdict is KeepLocal ==> action == (ActionView::KeepLocal {
                key,
                conflict: name,
                last_modified: object.last_modified,
            })
            &&& verdict is KeepRemote ==> action == (ActionView::KeepRemote {
                key,
                conflict: name,
                md5: file.checksum(),
                mtime: file.mtime(),
            })
            &&& verdict is DeleteLocal ==> action == (ActionView::DeleteLocal { key })
        }),
{
}

/// The objects that take part are those that no key of the listing goes on from with a slash; of
/// several with one key the last counts. The files that take part are those that the filter lets
/// through and that begin with the prefix, as they are.
pub proof fn law_sync_goes_by_what_is_there(
    objects: Seq<ObjectView>,
    local: Map<Seq<char>, LocalView>,
    patterns: Patterns,
    prefix: Seq<char>,
    key: Seq<char>,
    at: int,
)
    requires
        0 <= at < objects.len(),
        forall|j: int| at < j < objects.len() ==> (#[trigger] objects[j]).key != objects[at].key,
    ensures
        remote_side(objects).contains_key(objects[at].key) <==> forall|i: int, rest: Seq<char>|
            0 <= i < objects.len() ==> #[trigger] objects[i].key != #[trigger] (
            objects[at].key.push('/') + rest),
        remote_side(objects).contains_key(objects[at].key) ==> remote_side(objects)[objects[at].key]
            == objects[at],
        local_side(objects, local, patterns, Some(prefix), false).contains_key(key)
            <==> local.contains_key(key) && patterns.select(key) && exists|rest: Seq<char>|
            key == #[trigger] (prefix + rest),
        local_side(objects, local, patterns, None, false).contains_key(key) <==> local.contains_key(
            key,
        ) && patterns.select(key),
        local_side(objects, local, patterns, None, false).contains_key(key) ==> local_side(
            objects,
            local,
            patterns,
            None,
            false,
        )[key] == local[key],
{
    law_last_listed_counts(objects, objects[at].key, at);
    law_pull_leaves_out_directories(objects, patterns, at);
    law_prefix_limits_the_keys(prefix, key);
}

/// What is done about a key in a whole synchronization is what the two sides and what is
/// remembered of it call for: exactly then there is an action about it, and it is that one.
pub proof fn law_sync_plan_goes_key_by_key(
    objects: Seq<ObjectView>,
    local: Map<Seq<char>, LocalView>,
    prefix: Option<Seq<char>>,
    patterns: Patterns,
    delete: bool,
    cache: CacheView,
    key: Seq<char>,
)
    requires
        local.dom().finite(),
        sync_keys(
            remote_side(objects),
            local_side(objects, local, patterns, prefix, delete),
            patterns,
        ).contains(key),
    ensures
        ({
            let remote = remote_side(objects);
            let side = local_side(objects, local, patterns, prefix, delete);
            let plan = sync_plan(objects, local, prefix, patterns, delete, false, cache);
            let verdict = verdict_on(key, remote, side, cache, delete);
            &&& calls_for_action(verdict) ==> plan.actions.contains(
                action_on(key, remote, side, cache, delete, local.dom().union(remote.dom())),
            )
            &&& !calls_for_action(verdict) ==> forall|i: int|
                0 <= i < plan.actions.len() ==> (#[trigger] plan.actions[i]).key() != key
        }),
{
    let remote = remote_side(objects);
    let side = local_side(objects, local, patterns, prefix, delete);
    let taken = local.dom().union(remote.dom());
    let order = in_order(sync_keys(remote, side, patterns));
    let plan = sync_plan(objects, local, prefix, patterns, delete, false, cache);
    let wanted = |k: Seq<char>| calls_for_action(verdict_on(k, remote, side, cache, delete));
    let kept = order.filter(wanted);
    lemma_sync_order(objects, local, prefix, patterns, delete);
    law_sync_acts_exactly(order, remote, side, delete, taken, cache);
    assert(order.to_set().contains(key));
    lemma_filter_holds(order, wanted, key);
    if wanted(key) {
        let at = kept.index_of(key);
        assert(plan.actions[at] == action_on(key, remote, side, cache, delete, taken));
    } else {
        assert forall|i: int| 0 <= i < plan.actions.len() implies (
        #[trigger] plan.actions[i]).key() != key by {
            lemma_action_at(order, remote, side, delete, taken, cache, i);
            assert(kept.contains(kept[i]));
        }
    }
}

/// A whole synchronization sends every file that takes part and was edited since it was
/// remembered, as it is, where there is no object or an older one with other content.
pub proof fn law_sync_sends_edited_files(
    objects: Seq<ObjectView>,
    local: Map<Seq<char>, LocalView>,
    prefix: Option<Seq<char>>,
    patterns: Patterns,
    cache: CacheView,
    key: Seq<char>,
)
    requires
        local.dom().finite(),
        local_side(objects, local, patterns, prefix, false).contains_key(key),
        cache.recall(key) matches Some(entry) ==> entry.mtime != local[key].mtime()
            || entry.md5.len() == 0,
        remote_side(objects).contains_key(key) ==> local[key].instant() - remote_side(
            objects,
        )[key].last_modified >= 1_000_000_000 && local[key].md5 != Some(
            plain_etag(remote_side(objects)[key].etag),
        ),
    ensures
        sync_plan(objects, local, prefix, patterns, false, false, cache).actions.contains(
            ActionView::Upload { key, md5: local[key].checksum(), mtime: local[key].mtime() },
        ),
{
    let remote = remote_side(objects);
    law_sync_plan_goes_key_by_key(objects, local, prefix, patterns, false, cache, key);
    if remote.contains_key(key) {
        law_newer_file_is_sent(remote[key], local[key], cache.recall(key), false);
    }
}

/// A whole synchronization fetches every object that takes part and has no file, or an older one
/// that is as it is remembered, with other content than is remembered.
pub proof fn law_sync_fetches_newer_objects(
    objects: Seq<ObjectView>,
    local: Map<Seq<char>, LocalView>,
    prefix: Option<Seq<char>>,
    patterns: Patterns,
    cache: CacheView,
    key: Seq<char>,
)
    requires
        local.dom().finite(),
        remote_side(objects).contains_key(key),
        patterns.select(key),
        local_side(objects, local, patterns, prefix, false).contains_key(key) ==> remote_side(
            objects,
        )[key].last_modified - local[key].instant() >= 1_000_000_000 && (cache.recall(
            key,
        ) matches Some(entry) && entry.mtime == local[key].mtime() && entry.md5 != plain_etag(
            remote_side(objects)[key].etag,
        )),
    ensures
        sync_plan(objects, local, prefix, patterns, false, false, cache).actions.contains(
            ActionView::Download { key, last_modified: remote_side(objects)[key].last_modified },
        ),
{
    let remote = remote_side(objects);
    law_sync_plan_goes_key_by_key(objects, local, prefix, patterns, false, cache, key);
    if local_side(objects, local, patterns, prefix, false).contains_key(key) {
        law_newer_object_is_fetched(remote[key], local[key], cache.recall(key), false);
    }
}

/// The keys of the actions that fetch objects, in order.
pub open spec fn fetch_keys(actions: Seq<ActionView>) -> Seq<Seq<char>> {
    actions.filter(|action: ActionView| action is Download || action is KeepLocal).map_values(
        |action: ActionView| action.key(),
    )
}

/// The keys of the actions that send files, in order.
pub open spec fn send_keys(actions: Seq<ActionView>) -> Seq<Seq<char>> {
    actions.filter(|action: ActionView| action is Upload || action is KeepRemote).map_values(
        |action: ActionView| action.key(),
    )
}

proof fn lemma_action_keys_push(actions: Seq<ActionView>, action: ActionView)
    ensures
        fetch_keys(actions.push(action)) == if action is Download || action is KeepLocal {
            fetch_keys(actions).push(action.key())
        } else {
            fetch_keys(actions)
        },
        send_keys(actions.push(action)) == if action is Upload || action is KeepRemote {
            send_keys(actions).push(action.key())
        } else {
            send_keys(actions)
        },
{
    reveal(Seq::filter);
    assert(actions.push(action).drop_last() =~= actions);
    assert(fetch_keys(actions.push(action)) =~= if action is Download || action is KeepLocal {
        fetch_keys(actions).push(action.key())
    } else {
        fetch_keys(actions)
    });
    assert(send_keys(actions.push(action)) =~= if action is Upload || action is KeepRemote {
        send_keys(actions).push(action.key())
    } else {
        send_keys(actions)
    });
}

/// A dry synchronization foretells the real one: it reports as downloaded exactly the keys whose
/// objects the real one fetches and as uploaded those whose files it sends, in order, as deleted
/// those that it deletes on either side, and as skipped what it skips; and it comes to remember
/// the same. The real one reports nothing but what it skips.
pub proof fn law_dry_sync_foretells(
    keys: Seq<Seq<char>>,
    remote: Map<Seq<char>, ObjectView>,
    local: Map<Seq<char>, LocalView>,
    delete: bool,
    taken: Set<Seq<char>>,
    cache: CacheView,
    key: Seq<char>,
    n: nat,
)
    requires
        n <= keys.len(),
    ensures
        ({
            let dry = sync_after(keys, remote, local, delete, true, taken, cache, n);
            let live = sync_after(keys, remote, local, delete, false, taken, cache, n);
            &&& dry.actions.len() == 0 && dry.deletes.len() == 0
            &&& keys_with(dry.notices, NoticeKind::Downloaded) == fetch_keys(live.actions)
            &&& keys_with(dry.notices, NoticeKind::Uploaded) == send_keys(live.actions)
            &&& keys_with(dry.notices, NoticeKind::Deleted).contains(key)
                <==> live.deletes.contains(key) || live.actions.contains(
                ActionView::DeleteLocal { key },
            )
            &&& keys_with(dry.notices, NoticeKind::Skipped) == keys_with(
                live.notices,
                NoticeKind::Skipped,
            )
            &&& keys_with(live.notices, NoticeKind::Skipped).len() == live.notices.len()
            &&& dry.cache == live.cache
        }),
    decreases n,
{
    let dry = sync_after(keys, remote, local, delete, true, taken, cache, n);
    let live = sync_after(keys, remote, local, delete, false, taken, cache, n);
    if n == 0 {
        reveal(Seq::filter);
        lemma_keys_with_none(NoticeKind::Downloaded);
        lemma_keys_with_none(NoticeKind::Uploaded);
        lemma_keys_with_none(NoticeKind::Deleted);
        lemma_keys_with_none(NoticeKind::Skipped);
        assert(fetch_keys(live.actions) =~= Seq::empty());
        assert(send_keys(live.actions) =~= Seq::empty());
    } else {
        let m = (n - 1) as nat;
        law_dry_sync_foretells(keys, remote, local, delete, taken, cache, key, m);
        let dry_before = sync_after(keys, remote, local, delete, true, taken, cache, m);
        let live_before = sync_after(keys, remote, local, delete, false, taken, cache, m);
        let k = keys[n - 1];
        let verdict = sync_verdict(
            object_under(remote, k),
            file_under(local, k),
            live_before.cache.recall(k),
            delete,
        );
        let action = sync_action(
            verdict,
            k,
            object_under(remote, k),
            file_under(local, k),
            taken,
        );
        if verdict is Absent {
        } else if verdict is Skip || verdict is Record {
            let said = NoticeView { kind: NoticeKind::Skipped, key: k };
            lemma_report_everywhere(dry_before.notices, said);
            lemma_report_everywhere(live_before.notices, said);
        } else {
            let said = NoticeView { kind: sync_notice(verdict), key: k };
            lemma_report_everywhere(dry_before.notices, said);
            lemma_action_keys_push(live_before.actions, action);
            let named = keys_with(dry_before.notices, NoticeKind::Deleted);
            lemma_push_contains(named, k, key);
            lemma_push_contains(live_before.deletes, k, key);
            lemma_push_contains(live_before.actions, action, ActionView::DeleteLocal { key });
        }
    }
}

/// One notice more at the end of a list, for every kind.
proof fn lemma_report_everywhere(notices: Seq<NoticeView>, notice: NoticeView)
    ensures
        forall|kind: NoticeKind|
            #[trigger] keys_with(notices.push(notice), kind) == if notice.kind == kind {
                keys_with(notices, kind).push(notice.key)
            } else {
                keys_with(notices, kind)
            },
{
    assert forall|kind: NoticeKind|
        #[trigger] keys_with(notices.push(notice), kind) == if notice.kind == kind {
            keys_with(notices, kind).push(notice.key)
        } else {
            keys_with(notices, kind)
        } by {
        lemma_keys_with_push(notices, notice, kind);
    }
}

proof fn lemma_push_contains<A>(s: Seq<A>, x: A, y: A)
    ensures
        s.push(x).contains(y) <==> s.contains(y) || x == y,
{
    let all = s.push(x);
    if s.contains(y) {
        assert(all[s.index_of(y)] == y);
    }
    assert(all[s.len() as int] == x);
    if all.contains(y) {
        let i = all.index_of(y);
        if i < s.len() {
            assert(s[i] == y);
        }
    }
}

/// What is remembered of a key that takes no part stays.
proof fn lemma_sync_keeps_others(
    keys: Seq<Seq<char>>,
    remote: Map<Seq<char>, ObjectView>,
    local: Map<Seq<char>, LocalView>,
    delete: bool,
    taken: Set<Seq<char>>,
    cache: CacheView,
    key: Seq<char>,
    n: nat,
)
    requires
        n <= keys.len(),
        !keys.contains(key),
    ensures
        sync_after(keys, remote, local, delete, false, taken, cache, n).cache.recall(key)
            == cache.recall(key),
    decreases n,
{
    if n > 0 {
        lemma_sync_keeps_others(
            keys,
            remote,
            local,
            delete,
            taken,
            cache,
            key,
            (n - 1) as nat,
        );
        assert(keys.contains(keys[n - 1]));
    }
}

/// Planning a synchronization comes to remember a file exactly when it is shown to have the
/// content of its object, which is not newer by a second or more, and was not remembered with the
/// time that it has where the object is older by that much: then its checksum and time and the
/// object's tag and time. Of all else is remembered what was.
pub proof fn law_sync_remembers_what_is_the_same(
    keys: Seq<Seq<char>>,
    remote: Map<Seq<char>, ObjectView>,
    local: Map<Seq<char>, LocalView>,
    delete: bool,
    taken: Set<Seq<char>>,
    cache: CacheView,
    at: int,
    other: Seq<char>,
)
    requires
        ascending(keys),
        0 <= at < keys.len(),
        !keys.contains(other),
    ensures
        ({
            let later = sync_after(
                keys,
                remote,
                local,
                delete,
                false,
                taken,
                cache,
                keys.len(),
            ).cache;
            let key = keys[at];
            let object = remote[key];
            let file = local[key];
            let before = cache.recall(key);
            let ahead = object.last_modified - file.instant();
            let sent = before matches Some(entry) && entry.mtime == file.mtime()
                && entry.md5.len() > 0;
            let same = file.md5 == Some(plain_etag(object.etag)) && !object.etag.contains('-');
            &&& later.recall(other) == cache.recall(other)
            &&& later.recall(key) == if remote.contains_key(key) && local.contains_key(key) && same
                && ahead < 1_000_000_000 && (ahead > -1_000_000_000 || !sent) {
                Some(
                    EntryView {
                        md5: plain_etag(object.etag),
                        mtime: file.mtime(),
                        etag: object.etag,
                        last_modified: rfc3339(object.last_modified),
                    },
                )
            } else {
                before
            }
        }),
{
    let key = keys[at];
    let later = sync_after(keys, remote, local, delete, false, taken, cache, keys.len()).cache;
    lemma_sync_acts(keys, remote, local, delete, taken, cache, keys.len());
    lemma_sync_keeps_others(keys, remote, local, delete, taken, cache, other, keys.len());
    assert(later.recall(keys[at]) == recorded_on(key, remote, local, cache, delete));
    law_plain_etag_drops_only_quotes(remote[key].etag);
    law_whole_seconds_leave_less_than_one(remote[key].last_modified - local[key].instant());
}

/// Once a file was fetched last under the key of an object that took part, what is remembered of
/// it is its checksum, empty where it could not be read, and its time, and the object's tag and
/// time; of a key that was not fetched, or whose object took no part, is remembered what was.
pub proof fn law_fetches_are_remembered(
    cache: CacheView,
    done: Seq<FetchedView>,
    remote: Map<Seq<char>, ObjectView>,
    key: Seq<char>,
    at: int,
)
    ensures
        0 <= at < done.len() && done[at].key == key && (forall|j: int|
            at < j < done.len() ==> (#[trigger] done[j]).key != key) && remote.contains_key(key)
            ==> after_fetches(cache, done, remote).recall(key) == Some(
            EntryView {
                md5: done[at].file.checksum(),
                mtime: done[at].file.mtime(),
                etag: remote[key].etag,
                last_modified: rfc3339(remote[key].last_modified),
            },
        ),
        !remote.contains_key(key) || (forall|j: int|
            0 <= j < done.len() ==> (#[trigger] done[j]).key != key) ==> after_fetches(
            cache,
            done,
            remote,
        ).recall(key) == cache.recall(key),
    decreases done.len(),
{
    if done.len() > 0 {
        let rest = done.drop_last();
        law_fetches_are_remembered(cache, rest, remote, key, at);
        assert(forall|j: int| 0 <= j < rest.len() ==> #[trigger] rest[j] == done[j]);
        assert(done[done.len() - 1] == done.last());
    }
}

/// A whole synchronization keeps versions aside under names that no local file has, whether it
/// takes part or not, and no object that takes part.
pub proof fn law_sync_plan_overwrites_no_file(
    objects: Seq<ObjectView>,
    local: Map<Seq<char>, LocalView>,
    prefix: Option<Seq<char>>,
    patterns: Patterns,
    delete: bool,
    cache: CacheView,
    i: int,
)
    requires
        local.dom().finite(),
        0 <= i < sync_plan(objects, local, prefix, patterns, delete, false, cache).actions.len(),
    ensures
        sync_plan(
            objects,
            local,
            prefix,
            patterns,
            delete,
            false,
            cache,
        ).actions[i].aside() matches Some(name) ==> !local.contains_key(name) && !remote_side(
            objects,
        ).contains_key(name),
{
    let remote = remote_side(objects);
    let side = local_side(objects, local, patterns, prefix, delete);
    let taken = local.dom().union(remote.dom());
    let order = in_order(sync_keys(remote, side, patterns));
    lemma_sync_order(objects, local, prefix, patterns, delete);
    lemma_action_at(order, remote, side, delete, taken, cache, i);
    let key = sync_plan(
        objects,
        local,
        prefix,
        patterns,
        delete,
        false,
        cache,
    ).actions[i].key();
    let mtime = side[key].mtime();
    law_conflict_names_are_free(key, mtime, taken, key, mtime);
}

/// A whole dry synchronization foretells the real one, and does nothing itself.
pub proof fn law_dry_sync_plan_foretells(
    objects: Seq<ObjectView>,
    local: Map<Seq<char>, LocalView>,
    prefix: Option<Seq<char>>,
    patterns: Patterns,
    delete: bool,
    cache: CacheView,
    key: Seq<char>,
)
    ensures
        ({
            let dry = sync_plan(objects, local, prefix, patterns, delete, true, cache);
            let live = sync_plan(objects, local, prefix, patterns, delete, false, cache);
            &&& dry.actions.len() == 0 && dry.deletes.len() == 0
            &&& keys_with(dry.notices, NoticeKind::Downloaded) == fetch_keys(live.actions)
            &&& keys_with(dry.notices, NoticeKind::Uploaded) == send_keys(live.actions)
            &&& keys_with(dry.notices, NoticeKind::Deleted).contains(key)
                <==> live.deletes.contains(key) || live.actions.contains(
                ActionView::DeleteLocal { key },
            )
            &&& keys_with(dry.notices, NoticeKind::Skipped) == keys_with(
                live.notices,
                NoticeKind::Skipped,
            )
            &&& dry.cache == live.cache
        }),
{
    let remote = remote_side(objects);
    let side = local_side(objects, local, patterns, prefix, delete);
    let taken = local.dom().union(remote.dom());
    let order = in_order(sync_keys(remote, side, patterns));
    law_dry_sync_foretells(order, remote, side, delete, taken, cache, key, order.len());
}

/// A whole synchronization reports as skipped exactly the keys that take part and about which it
/// does nothing, and comes to remember of them the files that are shown to have the content of
/// their objects, where it did not remember them as sent.
pub proof fn law_sync_plan_reports_what_it_leaves(
    objects: Seq<ObjectView>,
    local: Map<Seq<char>, LocalView>,
    prefix: Option<Seq<char>>,
    patterns: Patterns,
    delete: bool,
    cache: CacheView,
    key: Seq<char>,
)
    requires
        local.dom().finite(),
    ensures
        ({
            let remote = remote_side(objects);
            let side = local_side(objects, local, patterns, prefix, delete);
            let plan = sync_plan(objects, local, prefix, patterns, delete, false, cache);
            let verdict = verdict_on(key, remote, side, cache, delete);
            let part = sync_keys(remote, side, patterns).contains(key);
            &&& keys_with(plan.notices, NoticeKind::Skipped).contains(key) <==> part && (
            verdict is Skip || verdict is Record)
            &&& plan.cache.recall(key) == if part && verdict is Record {
                Some(
                    EntryView {
                        md5: plain_etag(remote[key].etag),
                        mtime: side[key].mtime(),
                        etag: remote[key].etag,
                        last_modified: rfc3339(remote[key].last_modified),
                    },
                )
            } else {
                cache.recall(key)
            }
        }),
{
    let remote = remote_side(objects);
    let side = local_side(objects, local, patterns, prefix, delete);
    let taken = local.dom().union(remote.dom());
    let keys = sync_keys(remote, side, patterns);
    let order = in_order(keys);
    lemma_sync_order(objects, local, prefix, patterns, delete);
    lemma_sync_skips(order, remote, side, delete, taken, cache, key, order.len());
    lemma_sync_acts(order, remote, side, delete, taken, cache, order.len());
    assert(order.take(order.len() as int) =~= order);
    assert(order.to_set().contains(key) <==> keys.contains(key));
    let plan = sync_plan(objects, local, prefix, patterns, delete, false, cache);
    if keys.contains(key) {
        let at = order.index_of(key);
        assert(plan.cache.recall(order[at]) == recorded_on(key, remote, side, cache, delete));
    } else {
        lemma_sync_keeps_others(order, remote, side, delete, taken, cache, key, order.len());
    }
}

proof fn lemma_sync_skips(
    keys: Seq<Seq<char>>,
    remote: Map<Seq<char>, ObjectView>,
    local: Map<Seq<char>, LocalView>,
    delete: bool,
    taken: Set<Seq<char>>,
    cache: CacheView,
    key: Seq<char>,
    n: nat,
)
    requires
        ascending(keys),
        n <= keys.len(),
    ensures
        ({
            let state = sync_after(keys, remote, local, delete, false, taken, cache, n);
            let verdict = verdict_on(key, remote, local, cache, delete);
            keys_with(state.notices, NoticeKind::Skipped).contains(key) <==> keys.take(
                n as int,
            ).contains(key) && (verdict is Skip || verdict is Record)
        }),
    decreases n,
{
    if n == 0 {
        lemma_keys_with_none(NoticeKind::Skipped);
    } else {
        let m = (n - 1) as nat;
        let k = keys[n - 1];
        lemma_sync_skips(keys, remote, local, delete, taken, cache, key, m);
        lemma_sync_acts(keys, remote, local, delete, taken, cache, m);
        let before = sync_after(keys, remote, local, delete, false, taken, cache, m);
        assert(before.cache.recall(keys[m as int]) == cache.recall(k));
        let said = NoticeView { kind: NoticeKind::Skipped, key: k };
        lemma_keys_with_push(before.notices, said, NoticeKind::Skipped);
        lemma_push_contains(keys_with(before.notices, NoticeKind::Skipped), k, key);
        lemma_push_contains(keys.take(m as int), k, key);
        assert(keys.take(n as int) =~= keys.take(m as int).push(k));
    }
}

/// A file is read exactly where that makes a difference: it is sent or remembered, or an object
/// would be fetched in its place though nothing is remembered of it. What is skipped or deleted
/// is not read.
pub proof fn law_files_are_read_where_it_matters(
    object: Option<ObjectView>,
    file: LocalView,
    cached: Option<EntryView>,
    delete: bool,
)
    ensures
        ({
            let verdict = sync_verdict(object, Some(file), cached, delete);
            let read = content_matters(object, file, cached, delete);
            &&& verdict is Upload || verdict is KeepRemote || verdict is Record ==> read
            &&& verdict is Skip || verdict is DeleteLocal ==> !read
            &&& verdict is Download || verdict is KeepLocal ==> (read <==> cached is None)
        }),
{
}

} // verus!
