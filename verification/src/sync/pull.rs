//! Download from the bucket to the local directory.
use vstd::prelude::*;
use vstd::string::*;

use crate::cache::{entry_view, Cache, CacheEntry, CacheView, EntryView};
use crate::checksum::{
    is_multipart_etag, law_plain_etag_drops_only_quotes, md5_matches, multipart, plain_etag,
    shows_same_content,
};
use crate::filter::{texts, Filter, Patterns};
use crate::keys::{KeyMap, KeySet};
use crate::local::{file_view, unmodified, LocalFile, LocalView};
use crate::s3::{object_views, ObjectView, S3Object};
use crate::sync::transfer::{law_transfers_make_sides_agree, ActionView, Sides};
use crate::sync::{
    concerns, entry_for, entry_of, in_scope, keys_with, lemma_filter_holds, lemma_filter_push,
    lemma_keys_with_none, lemma_keys_with_push, notice_views, notices_on, notify, text_view,
    Notice, NoticeKind, NoticeView,
};
use crate::text::{has_prefix, join, same_text, starts_with};
use crate::time::{rfc3339, Timestamp};

verus! {

/// Whether `key` is also a directory for one of the objects: the key of one begins with it and
/// a slash.
pub open spec fn is_directory(objects: Seq<ObjectView>, key: Seq<char>) -> bool {
    exists|i: int|
        0 <= i < objects.len() && has_prefix((#[trigger] objects[i]).key, key.push('/'))
}

/// Whether one of the objects has the key `key`.
pub open spec fn has_key(objects: Seq<ObjectView>, key: Seq<char>) -> bool {
    exists|i: int| 0 <= i < objects.len() && (#[trigger] objects[i]).key == key
}

/// The keys of objects that are also directories for other objects. Such an object can have no
/// file of its own.
pub open spec fn parent_keys(objects: Seq<ObjectView>) -> Set<Seq<char>> {
    Set::new(|key: Seq<char>| has_key(objects, key) && is_directory(objects, key))
}

/// Whether `key` is also a directory for one of the objects.
fn names_directory(objects: &[S3Object], key: &str) -> (yes: bool)
    ensures
        yes == is_directory(object_views(objects@), key@),
{
    proof {
        reveal_strlit("/");
    }
    let directory: String = join(key, "/");
    assert(directory@ =~= key@.push('/'));
    let ghost views = object_views(objects@);
    let mut i: usize = 0;
    while i < objects.len()
        invariant
            i <= objects@.len(),
            views == object_views(objects@),
            directory@ == key@.push('/'),
            forall|j: int|
                0 <= j < i ==> !has_prefix((#[trigger] views[j]).key, key@.push('/')),
        decreases objects@.len() - i,
    {
        if starts_with(objects[i].key.as_str(), directory.as_str()) {
            assert(has_prefix(views[i as int].key, key@.push('/')));
            return true;
        }
        i = i + 1;
    }
    false
}

/// The keys of objects that are also directories for other objects.
pub fn find_parent_keys(objects: &[S3Object]) -> (parents: KeySet)
    ensures
        parents@ == parent_keys(object_views(objects@)),
{
    let mut parents: KeySet = KeySet::new();
    let ghost views = object_views(objects@);
    let mut i: usize = 0;
    while i < objects.len()
        invariant
            i <= objects@.len(),
            views == object_views(objects@),
            forall|k: Seq<char>| #[trigger]
                parents@.contains(k) <==> has_key(views.take(i as int), k) && is_directory(
                    views,
                    k,
                ),
        decreases objects@.len() - i,
    {
        let ghost before = parents@;
        if names_directory(objects, objects[i].key.as_str()) {
            parents.insert(objects[i].key.clone());
        }
        proof {
            let part = views.take(i as int);
            let more = views.take(i + 1);
            assert forall|k: Seq<char>| has_key(more, k) <==> has_key(part, k) || k
                == views[i as int].key by {
                if has_key(part, k) {
                    let j = choose|j: int| 0 <= j < part.len() && (#[trigger] part[j]).key == k;
                    assert(more[j].key == k);
                }
                if k == views[i as int].key {
                    assert(more[i as int].key == k);
                }
                if has_key(more, k) {
                    let j = choose|j: int| 0 <= j < more.len() && (#[trigger] more[j]).key == k;
                    if j < i {
                        assert(part[j].key == k);
                    }
                }
            }
            assert forall|k: Seq<char>| #[trigger] parents@.contains(k) <==> has_key(more, k)
                && is_directory(views, k) by {
                assert(before.contains(k) <==> has_key(part, k) && is_directory(views, k));
            }
        }
        i = i + 1;
    }
    proof {
        assert(views.take(i as int) =~= views);
        assert(parents@ =~= parent_keys(views));
    }
    parents
}

/// No key that is kept is a directory for another: once the parent keys are left out, every
/// remaining key can have a file of its own.
pub proof fn law_no_kept_key_is_a_directory(
    objects: Seq<ObjectView>,
    kept: Seq<char>,
    other: Seq<char>,
)
    requires
        has_key(objects, kept),
        has_key(objects, other),
        !parent_keys(objects).contains(kept),
    ensures
        !has_prefix(other, kept.push('/')),
{
    let j = choose|j: int| 0 <= j < objects.len() && (#[trigger] objects[j]).key == other;
    if has_prefix(other, kept.push('/')) {
        assert(has_prefix(objects[j].key, kept.push('/')));
    }
}

/// What becomes of an object that takes part.
pub enum PullVerdict {
    /// The file is as it is remembered, and so is the object.
    Skip,
    /// The file is missing, or not the same.
    Download,
    /// The file is the same, and is remembered as such.
    Record,
}

/// Whether the file and the object are both as they are remembered.
pub open spec fn remembered(
    object: ObjectView,
    file: LocalView,
    cached: Option<EntryView>,
) -> bool {
    cached matches Some(entry) && entry.etag == object.etag && entry.mtime == file.mtime()
}

/// What becomes of an object, given the file under its key and what is remembered.
pub open spec fn pull_verdict(
    object: ObjectView,
    local: Option<LocalView>,
    cached: Option<EntryView>,
) -> PullVerdict {
    match local {
        None => PullVerdict::Download,
        Some(file) => if remembered(object, file, cached) {
            PullVerdict::Skip
        } else if if multipart(object.etag) {
            object.last_modified > file.instant()
        } else {
            !shows_same_content(file.md5, object.etag)
        } {
            PullVerdict::Download
        } else {
            PullVerdict::Record
        },
    }
}

/// Whether the file and the object are both as they are remembered.
fn is_remembered(object: &S3Object, file: &LocalFile, cached: Option<&CacheEntry>) -> (yes: bool)
    ensures
        yes == remembered(object@, file@, entry_view(cached)),
{
    match cached {
        Some(entry) => same_text(entry.etag.as_str(), object.etag.as_str()) && entry.mtime
            == file.mtime(),
        None => false,
    }
}

/// What becomes of an object, given the file under its key and what is remembered.
pub fn judge_pull(
    object: &S3Object,
    local: Option<&LocalFile>,
    cached: Option<&CacheEntry>,
) -> (verdict: PullVerdict)
    ensures
        verdict == pull_verdict(object@, file_view(local), entry_view(cached)),
{
    match local {
        None => PullVerdict::Download,
        Some(file) => {
            if is_remembered(object, file, cached) {
                return PullVerdict::Skip;
            }
            let differs: bool = if is_multipart_etag(object.etag.as_str()) {
                object.last_modified.is_after(&file.time())
            } else {
                !md5_matches(file.md5_ref(), object.etag.as_str())
            };
            if differs {
                PullVerdict::Download
            } else {
                PullVerdict::Record
            }
        },
    }
}

/// Whether the checksum of the file is needed to say what becomes of the object. Where it is
/// not, the verdict is the same whatever the content, and nothing is remembered of it.
pub fn pull_reads_content(
    object: &S3Object,
    file: &LocalFile,
    cached: Option<&CacheEntry>,
) -> (needed: bool)
    ensures
        needed == !(remembered(object@, file@, entry_view(cached)) || (multipart(object@.etag)
            && object@.last_modified > file@.instant())),
        !needed ==> forall|md5: Option<Seq<char>>|
            pull_verdict(object@, Some(#[trigger] file@.with_md5(md5)), entry_view(cached))
                == pull_verdict(object@, Some(file@), entry_view(cached)),
        !needed ==> pull_verdict(object@, Some(file@), entry_view(cached)) !is Record,
{
    if is_remembered(object, file, cached) {
        return false;
    }
    !is_multipart_etag(object.etag.as_str()) || !object.last_modified.is_after(&file.time())
}

/// An object to fetch, with the time that its file is to get.
pub struct Download {
    pub key: String,
    pub last_modified: Timestamp,
}

/// What a [`Download`] says.
#[verifier::ext_equal]
pub struct DownloadView {
    pub key: Seq<char>,
    pub last_modified: int,
}

impl View for Download {
    type V = DownloadView;

    open spec fn view(&self) -> DownloadView {
        DownloadView { key: self.key@, last_modified: self.last_modified@ }
    }
}

/// What a list of downloads says.
pub open spec fn download_views(list: Seq<Download>) -> Seq<DownloadView> {
    Seq::new(list.len(), |i: int| list[i]@)
}

/// How far a pull has been planned: what to fetch, which keys took part, what to report, and
/// what is remembered.
#[verifier::ext_equal]
pub struct PullState {
    pub downloads: Seq<DownloadView>,
    pub seen: Set<Seq<char>>,
    pub notices: Seq<NoticeView>,
    pub cache: CacheView,
}

/// The plan with one object more, given whether it takes part.
pub open spec fn pull_step(
    state: PullState,
    object: ObjectView,
    taken: bool,
    local: Option<LocalView>,
    dry_run: bool,
) -> PullState {
    if !taken {
        state
    } else {
        let seen = state.seen.insert(object.key);
        match pull_verdict(object, local, state.cache.recall(object.key)) {
            PullVerdict::Skip => PullState {
                seen,
                notices: state.notices.push(
                    NoticeView { kind: NoticeKind::Skipped, key: object.key },
                ),
                ..state
            },
            PullVerdict::Download => if dry_run {
                PullState {
                    seen,
                    notices: state.notices.push(
                        NoticeView { kind: NoticeKind::Downloaded, key: object.key },
                    ),
                    ..state
                }
            } else {
                PullState {
                    seen,
                    downloads: state.downloads.push(
                        DownloadView { key: object.key, last_modified: object.last_modified },
                    ),
                    ..state
                }
            },
            PullVerdict::Record => PullState {
                seen,
                notices: state.notices.push(
                    NoticeView { kind: NoticeKind::Skipped, key: object.key },
                ),
                cache: match local->0.md5 {
                    Some(md5) => state.cache.set(
                        object.key,
                        entry_of(md5, local->0.mtime(), object),
                    ),
                    None => state.cache,
                },
                ..state
            },
        }
    }
}

/// What is under `key` in `local`.
pub open spec fn file_under(local: Map<Seq<char>, LocalView>, key: Seq<char>) -> Option<LocalView> {
    if local.contains_key(key) {
        Some(local[key])
    } else {
        None
    }
}

/// Whether an object takes part in a pull: the filter lets its key through, and its key is no
/// directory for other objects.
pub open spec fn pull_takes(objects: Seq<ObjectView>, patterns: Patterns, key: Seq<char>) -> bool {
    !parent_keys(objects).contains(key) && patterns.select(key)
}

/// The plan for the first `n` objects of a listing.
pub open spec fn pull_after(
    objects: Seq<ObjectView>,
    local: Map<Seq<char>, LocalView>,
    patterns: Patterns,
    dry_run: bool,
    cache: CacheView,
    n: nat,
) -> PullState
    decreases n,
{
    if n == 0 {
        PullState {
            downloads: Seq::empty(),
            seen: Set::empty(),
            notices: Seq::empty(),
            cache,
        }
    } else {
        let object = objects[n - 1];
        pull_step(
            pull_after(objects, local, patterns, dry_run, cache, (n - 1) as nat),
            object,
            pull_takes(objects, patterns, object.key),
            file_under(local, object.key),
            dry_run,
        )
    }
}

/// What a pull is to do: what to fetch, which keys took part, what to report at once, and how
/// many objects there are in all.
pub struct PullPlan {
    pub downloads: Vec<Download>,
    pub seen: KeySet,
    pub notices: Vec<Notice>,
    pub total: usize,
}

/// Plans a pull of these objects onto these local files.
pub fn pull(
    objects: &Vec<S3Object>,
    local: &KeyMap<LocalFile>,
    filter: &Filter,
    dry_run: bool,
    cache: &mut Cache,
) -> (plan: PullPlan)
    ensures
        ({
            let end = pull_after(
                object_views(objects@),
                local@,
                filter@,
                dry_run,
                old(cache)@,
                objects@.len(),
            );
            &&& download_views(plan.downloads@) == end.downloads
            &&& plan.seen@ == end.seen
            &&& notice_views(plan.notices@) == end.notices
            &&& final(cache)@ == end.cache
        }),
        plan.total == objects@.len(),
{
    let parents: KeySet = find_parent_keys(objects.as_slice());
    let mut downloads: Vec<Download> = Vec::new();
    let mut seen: KeySet = KeySet::new();
    let mut notices: Vec<Notice> = Vec::new();
    let ghost views = object_views(objects@);
    let ghost start = cache@;
    proof {
        assert(download_views(downloads@) =~= Seq::empty());
        assert(notice_views(notices@) =~= Seq::empty());
    }
    let mut i: usize = 0;
    while i < objects.len()
        invariant
            i <= objects@.len(),
            views == object_views(objects@),
            parents@ == parent_keys(views),
            ({
                let state = pull_after(views, local@, filter@, dry_run, start, i as nat);
                &&& download_views(downloads@) == state.downloads
                &&& seen@ == state.seen
                &&& notice_views(notices@) == state.notices
                &&& cache@ == state.cache
            }),
        decreases objects@.len() - i,
    {
        let object = &objects[i];
        let key = object.key.as_str();
        if !parents.contains(key) && filter.matches(key) {
            seen.insert(object.key.clone());
            let file = local.get(key);
            let verdict = judge_pull(object, file, cache.get(key));
            match verdict {
                PullVerdict::Skip => {
                    notify(&mut notices, NoticeKind::Skipped, key);
                },
                PullVerdict::Download => {
                    if dry_run {
                        notify(&mut notices, NoticeKind::Downloaded, key);
                    } else {
                        let ghost before = downloads@;
                        downloads.push(
                            Download {
                                key: object.key.clone(),
                                last_modified: object.last_modified,
                            },
                        );
                        assert(download_views(downloads@) =~= download_views(before).push(
                            DownloadView { key: key@, last_modified: object@.last_modified },
                        ));
                    }
                },
                PullVerdict::Record => {
                    match file {
                        Some(found) => {
                            match &found.md5 {
                                Some(md5) => {
                                    cache.set(
                                        object.key.clone(),
                                        entry_for(md5.clone(), found.mtime(), object),
                                    );
                                },
                                None => {},
                            }
                        },
                        None => {},
                    }
                    notify(&mut notices, NoticeKind::Skipped, key);
                },
            }
        }
        i = i + 1;
    }
    PullPlan { downloads, seen, notices, total: objects.len() }
}

/// The first object with the key `key`.
pub open spec fn first_with(objects: Seq<ObjectView>, key: Seq<char>) -> Option<ObjectView>
    decreases objects.len(),
{
    if objects.len() == 0 {
        None
    } else if objects.first().key == key {
        Some(objects.first())
    } else {
        first_with(objects.drop_first(), key)
    }
}

/// The first object with the key `key`.
fn find_object<'a>(objects: &'a Vec<S3Object>, key: &str) -> (found: Option<&'a S3Object>)
    ensures
        (match found {
            Some(object) => Some(object@),
            None => None,
        }) == first_with(object_views(objects@), key@),
{
    let ghost views = object_views(objects@);
    let mut i: usize = 0;
    proof {
        assert(views.skip(0) =~= views);
    }
    while i < objects.len()
        invariant
            i <= objects@.len(),
            views == object_views(objects@),
            first_with(views, key@) == first_with(views.skip(i as int), key@),
        decreases objects@.len() - i,
    {
        proof {
            assert(views.skip(i as int).first() == objects@[i as int]@);
            assert(views.skip(i as int).drop_first() =~= views.skip(i + 1));
        }
        if same_text(objects[i].key.as_str(), key) {
            return Some(&objects[i]);
        }
        i = i + 1;
    }
    None
}

/// A file that was fetched, as it is found afterwards.
pub struct Fetched {
    pub key: String,
    pub file: LocalFile,
}

/// What a [`Fetched`] says.
#[verifier::ext_equal]
pub struct FetchedView {
    pub key: Seq<char>,
    pub file: LocalView,
}

impl View for Fetched {
    type V = FetchedView;

    open spec fn view(&self) -> FetchedView {
        FetchedView { key: self.key@, file: self.file@ }
    }
}

/// What a list of fetched files says.
pub open spec fn fetched_views(list: Seq<Fetched>) -> Seq<FetchedView> {
    Seq::new(list.len(), |i: int| list[i]@)
}

/// The cache once the files of `done` were fetched: each whose content could be read is
/// remembered with the object that was listed.
pub open spec fn after_downloads(
    cache: CacheView,
    done: Seq<FetchedView>,
    objects: Seq<ObjectView>,
) -> CacheView
    decreases done.len(),
{
    if done.len() == 0 {
        cache
    } else {
        let before = after_downloads(cache, done.drop_last(), objects);
        let last = done.last();
        match (last.file.md5, first_with(objects, last.key)) {
            (Some(md5), Some(object)) => before.set(
                last.key,
                entry_of(md5, last.file.mtime(), object),
            ),
            _ => before,
        }
    }
}

/// Remembers the files that were fetched.
pub fn record_downloads(cache: &mut Cache, done: &Vec<Fetched>, objects: &Vec<S3Object>)
    ensures
        final(cache)@ == after_downloads(
            old(cache)@,
            fetched_views(done@),
            object_views(objects@),
        ),
{
    let ghost views = fetched_views(done@);
    let ghost start = cache@;
    let mut i: usize = 0;
    while i < done.len()
        invariant
            i <= done@.len(),
            views == fetched_views(done@),
            cache@ == after_downloads(start, views.take(i as int), object_views(objects@)),
        decreases done@.len() - i,
    {
        proof {
            assert(views.take(i + 1).drop_last() =~= views.take(i as int));
            assert(views.take(i + 1).last() == done@[i as int]@);
        }
        let one = &done[i];
        match &one.file.md5 {
            Some(md5) => {
                match find_object(objects, one.key.as_str()) {
                    Some(object) => {
                        cache.set(
                            one.key.clone(),
                            entry_for(md5.clone(), one.file.mtime(), object),
                        );
                    },
                    None => {},
                }
            },
            None => {},
        }
        i = i + 1;
    }
    assert(views.take(i as int) =~= views);
}

/// The local files to delete, and the reports to make in their stead.
pub struct OrphanPlan {
    pub deletes: Vec<String>,
    pub notices: Vec<Notice>,
}

/// Whether the local file under `key` is an orphan: the filter lets it through, the operation
/// has to do with it, and no object that took part has its key.
pub open spec fn is_orphan(
    patterns: Patterns,
    prefix: Option<Seq<char>>,
    seen: Set<Seq<char>>,
    key: Seq<char>,
) -> bool {
    patterns.select(key) && in_scope(prefix, key) && !seen.contains(key)
}

/// Plans the deletion of the local files that no object that took part has the key of. In a
/// dry run they are reported as deleted instead.
pub fn delete_local_orphans(
    walked: &Vec<String>,
    seen: &KeySet,
    filter: &Filter,
    prefix: Option<&str>,
    dry_run: bool,
) -> (plan: OrphanPlan)
    ensures
        ({
            let orphans = texts(walked@).filter(
                |key: Seq<char>| is_orphan(filter@, text_view(prefix), seen@, key),
            );
            &&& texts(plan.deletes@) == if dry_run {
                Seq::empty()
            } else {
                orphans
            }
            &&& notice_views(plan.notices@) == if dry_run {
                notices_on(NoticeKind::Deleted, orphans)
            } else {
                Seq::empty()
            }
        }),
        forall|key: Seq<char>| #[trigger]
            texts(plan.deletes@).contains(key) <==> !dry_run && texts(walked@).contains(key)
                && filter@.select(key) && in_scope(text_view(prefix), key) && !seen@.contains(key),
{
    let mut deletes: Vec<String> = Vec::new();
    let mut notices: Vec<Notice> = Vec::new();
    let ghost keys = texts(walked@);
    let ghost wanted = |key: Seq<char>| is_orphan(filter@, text_view(prefix), seen@, key);
    let mut i: usize = 0;
    proof {
        reveal(Seq::filter);
        assert(keys.take(0).filter(wanted) =~= Seq::empty());
        assert(texts(deletes@) =~= Seq::empty());
        assert(notice_views(notices@) =~= Seq::empty());
        assert(notices_on(NoticeKind::Deleted, keys.take(0).filter(wanted)) =~= Seq::empty());
    }
    while i < walked.len()
        invariant
            i <= walked@.len(),
            keys == texts(walked@),
            wanted == (|key: Seq<char>| is_orphan(filter@, text_view(prefix), seen@, key)),
            ({
                let orphans = keys.take(i as int).filter(wanted);
                &&& texts(deletes@) == if dry_run {
                    Seq::empty()
                } else {
                    orphans
                }
                &&& notice_views(notices@) == if dry_run {
                    notices_on(NoticeKind::Deleted, orphans)
                } else {
                    Seq::empty()
                }
            }),
        decreases walked@.len() - i,
    {
        let key = walked[i].as_str();
        let ghost before = keys.take(i as int).filter(wanted);
        proof {
            lemma_filter_push(keys, wanted, i as int);
        }
        if filter.matches(key) && concerns(prefix, key) && !seen.contains(key) {
            if dry_run {
                notify(&mut notices, NoticeKind::Deleted, key);
                assert(notices_on(NoticeKind::Deleted, before.push(key@)) =~= notices_on(
                    NoticeKind::Deleted,
                    before,
                ).push(NoticeView { kind: NoticeKind::Deleted, key: key@ }));
            } else {
                let ghost held = deletes@;
                deletes.push(walked[i].clone());
                assert(texts(deletes@) =~= texts(held).push(key@));
            }
        }
        i = i + 1;
    }
    proof {
        assert(keys.take(i as int) =~= keys);
        assert forall|key: Seq<char>| #[trigger]
            texts(deletes@).contains(key) <==> !dry_run && keys.contains(key) && filter@.select(key)
                && in_scope(text_view(prefix), key) && !seen@.contains(key) by {
            lemma_filter_holds(keys, wanted, key);
        }
    }
    OrphanPlan { deletes, notices }
}

/// The keys that take part are those of the first `n` objects that the filter lets through and
/// that are no directories; only they are fetched, and a dry run fetches nothing.
pub proof fn law_pull_takes_only_selected(
    objects: Seq<ObjectView>,
    local: Map<Seq<char>, LocalView>,
    patterns: Patterns,
    dry_run: bool,
    cache: CacheView,
    n: nat,
)
    requires
        n <= objects.len(),
    ensures
        ({
            let state = pull_after(objects, local, patterns, dry_run, cache, n);
            &&& forall|k: Seq<char>| #[trigger]
                state.seen.contains(k) <==> has_key(objects.take(n as int), k) && pull_takes(
                    objects,
                    patterns,
                    k,
                )
            &&& forall|i: int|
                0 <= i < state.downloads.len() ==> state.seen.contains(
                    (#[trigger] state.downloads[i]).key,
                )
            &&& dry_run ==> state.downloads.len() == 0
        }),
    decreases n,
{
    if n > 0 {
        let m = (n - 1) as nat;
        law_pull_takes_only_selected(objects, local, patterns, dry_run, cache, m);
        let before = pull_after(objects, local, patterns, dry_run, cache, m);
        let state = pull_after(objects, local, patterns, dry_run, cache, n);
        let object = objects[n - 1];
        let part = objects.take(m as int);
        let more = objects.take(n as int);
        assert forall|k: Seq<char>| #[trigger] state.seen.contains(k) <==> has_key(more, k)
            && pull_takes(objects, patterns, k) by {
            assert(before.seen.contains(k) <==> has_key(part, k) && pull_takes(
                objects,
                patterns,
                k,
            ));
            if has_key(part, k) {
                let j = choose|j: int| 0 <= j < part.len() && (#[trigger] part[j]).key == k;
                assert(more[j].key == k);
            }
            if k == object.key {
                assert(more[n - 1].key == k);
            }
            if has_key(more, k) {
                let j = choose|j: int| 0 <= j < more.len() && (#[trigger] more[j]).key == k;
                if j < m {
                    assert(part[j].key == k);
                }
            }
        }
        assert forall|i: int| 0 <= i < state.downloads.len() implies state.seen.contains(
            (#[trigger] state.downloads[i]).key,
        ) by {
            if i < before.downloads.len() {
                assert(before.downloads[i] == state.downloads[i]);
                assert(before.seen.contains(before.downloads[i].key));
            }
        }
    }
}

/// Each object that takes part is dealt with once: it is either fetched or reported.
pub proof fn law_pull_accounts_for_all(
    objects: Seq<ObjectView>,
    local: Map<Seq<char>, LocalView>,
    patterns: Patterns,
    dry_run: bool,
    cache: CacheView,
    n: nat,
)
    requires
        n <= objects.len(),
    ensures
        ({
            let state = pull_after(objects, local, patterns, dry_run, cache, n);
            state.downloads.len() + state.notices.len() == objects.take(n as int).filter(
                |object: ObjectView| pull_takes(objects, patterns, object.key),
            ).len()
        }),
    decreases n,
{
    reveal(Seq::filter);
    let wanted = |object: ObjectView| pull_takes(objects, patterns, object.key);
    if n > 0 {
        law_pull_accounts_for_all(objects, local, patterns, dry_run, cache, (n - 1) as nat);
        assert(objects.take(n as int).drop_last() =~= objects.take(n - 1));
    } else {
        assert(objects.take(0).filter(wanted) =~= Seq::empty());
    }
}

/// Whether no two objects have the same key.
pub open spec fn keys_differ(objects: Seq<ObjectView>) -> bool {
    forall|i: int, j: int|
        0 <= i < j < objects.len() ==> (#[trigger] objects[i]).key != (#[trigger] objects[j]).key
}

/// In a listing without repeated keys, exactly those objects are fetched that take part and
/// whose verdict, from the file and from what was remembered at the start, is to download.
pub proof fn law_pull_fetches_exactly(
    objects: Seq<ObjectView>,
    local: Map<Seq<char>, LocalView>,
    patterns: Patterns,
    cache: CacheView,
    key: Seq<char>,
)
    requires
        keys_differ(objects),
    ensures
        (exists|d: int|
            0 <= d < pull_after(objects, local, patterns, false, cache, objects.len()).downloads.len()
                && (#[trigger] pull_after(
                objects,
                local,
                patterns,
                false,
                cache,
                objects.len(),
            ).downloads[d]).key == key) <==> (exists|i: int|
            0 <= i < objects.len() && (#[trigger] objects[i]).key == key && pull_takes(
                objects,
                patterns,
                key,
            ) && pull_verdict(
                objects[i],
                file_under(local, key),
                cache.recall(key),
            ) is Download),
{
    lemma_pull_fetches(objects, local, patterns, cache, key, objects.len());
}

/// Whether `key` is among the downloads.
pub open spec fn fetches(downloads: Seq<DownloadView>, key: Seq<char>) -> bool {
    exists|d: int| 0 <= d < downloads.len() && (#[trigger] downloads[d]).key == key
}

/// Whether one of the first `n` objects is to be fetched under `key`.
spec fn to_fetch(
    objects: Seq<ObjectView>,
    local: Map<Seq<char>, LocalView>,
    patterns: Patterns,
    cache: CacheView,
    key: Seq<char>,
    n: nat,
) -> bool {
    exists|i: int|
        0 <= i < n && (#[trigger] objects[i]).key == key && pull_takes(objects, patterns, key)
            && pull_verdict(objects[i], file_under(local, key), cache.recall(key)) is Download
}

proof fn lemma_pull_fetches(
    objects: Seq<ObjectView>,
    local: Map<Seq<char>, LocalView>,
    patterns: Patterns,
    cache: CacheView,
    key: Seq<char>,
    n: nat,
)
    requires
        keys_differ(objects),
        n <= objects.len(),
    ensures
        fetches(pull_after(objects, local, patterns, false, cache, n).downloads, key) <==> to_fetch(
            objects,
            local,
            patterns,
            cache,
            key,
            n,
        ),
        forall|i: int|
            n <= i < objects.len() ==> pull_after(
                objects,
                local,
                patterns,
                false,
                cache,
                n,
            ).cache.recall((#[trigger] objects[i]).key) == cache.recall(objects[i].key),
    decreases n,
{
    if n > 0 {
        let m = (n - 1) as nat;
        lemma_pull_fetches(objects, local, patterns, cache, key, m);
        let before = pull_after(objects, local, patterns, false, cache, m);
        let state = pull_after(objects, local, patterns, false, cache, n);
        let object = objects[n - 1];
        assert(before.cache.recall(objects[n - 1].key) == cache.recall(object.key));
        assert forall|i: int| n <= i < objects.len() implies state.cache.recall(
            (#[trigger] objects[i]).key,
        ) == cache.recall(objects[i].key) by {
            assert(objects[n - 1].key != objects[i].key);
            assert(before.cache.recall(objects[i].key) == cache.recall(objects[i].key));
        }
        if fetches(before.downloads, key) {
            let d = choose|d: int|
                0 <= d < before.downloads.len() && (#[trigger] before.downloads[d]).key == key;
            assert(state.downloads[d].key == key);
        }
        if fetches(state.downloads, key) {
            let d = choose|d: int|
                0 <= d < state.downloads.len() && (#[trigger] state.downloads[d]).key == key;
            if d < before.downloads.len() {
                assert(before.downloads[d].key == key);
            } else {
                assert(object.key == key);
                assert(to_fetch(objects, local, patterns, cache, key, n));
            }
        }
        if to_fetch(objects, local, patterns, cache, key, n) {
            let i = choose|i: int|
                0 <= i < n && (#[trigger] objects[i]).key == key && pull_takes(
                    objects,
                    patterns,
                    key,
                ) && pull_verdict(
                    objects[i],
                    file_under(local, key),
                    cache.recall(key),
                ) is Download;
            if i < m {
                assert(to_fetch(objects, local, patterns, cache, key, m));
            } else {
                assert(state.downloads.last().key == key);
                assert(state.downloads[state.downloads.len() - 1].key == key);
            }
        }
    }
}

/// What was fetched, or found the same, is skipped by the next pull as long as neither the
/// file nor the object changes.
pub proof fn law_pull_again_skips(object: ObjectView, file: LocalView, md5: Seq<char>)
    ensures
        pull_verdict(object, Some(file), Some(entry_of(md5, file.mtime(), object))) is Skip,
{
}

/// A pull that deletes leaves exactly the files alone that an object stands for, that the
/// filter keeps out, or that are outside the keys that it is limited to.
pub proof fn law_pull_deletes_exactly_orphans(
    walked: Seq<Seq<char>>,
    patterns: Patterns,
    prefix: Option<Seq<char>>,
    seen: Set<Seq<char>>,
    key: Seq<char>,
)
    ensures
        walked.filter(|k: Seq<char>| is_orphan(patterns, prefix, seen, k)).contains(key)
            <==> walked.contains(key) && !seen.contains(key) && patterns.select(key) && in_scope(
            prefix,
            key,
        ),
{
    lemma_filter_holds(walked, |k: Seq<char>| is_orphan(patterns, prefix, seen, k), key);
}

/// The actions that fetch these objects.
pub open spec fn fetch_actions(downloads: Seq<DownloadView>) -> Seq<ActionView> {
    Seq::new(
        downloads.len(),
        |i: int|
            ActionView::Download {
                key: downloads[i].key,
                last_modified: downloads[i].last_modified,
            },
    )
}

proof fn lemma_downloads_differ(
    objects: Seq<ObjectView>,
    local: Map<Seq<char>, LocalView>,
    patterns: Patterns,
    cache: CacheView,
    n: nat,
)
    requires
        keys_differ(objects),
        n <= objects.len(),
    ensures
        ({
            let downloads = pull_after(objects, local, patterns, false, cache, n).downloads;
            &&& forall|i: int|
                0 <= i < downloads.len() ==> has_key(
                    objects.take(n as int),
                    (#[trigger] downloads[i]).key,
                )
            &&& forall|i: int, j: int|
                0 <= i < j < downloads.len() ==> (#[trigger] downloads[i]).key != (
                #[trigger] downloads[j]).key
        }),
    decreases n,
{
    if n > 0 {
        let m = (n - 1) as nat;
        lemma_downloads_differ(objects, local, patterns, cache, m);
        let before = pull_after(objects, local, patterns, false, cache, m).downloads;
        let downloads = pull_after(objects, local, patterns, false, cache, n).downloads;
        let part = objects.take(m as int);
        let more = objects.take(n as int);
        let object = objects[n - 1];
        assert forall|i: int| 0 <= i < before.len() implies has_key(
            more,
            (#[trigger] before[i]).key,
        ) && before[i].key != object.key by {
            let j = choose|j: int| 0 <= j < part.len() && (#[trigger] part[j]).key
                == before[i].key;
            assert(more[j].key == before[i].key);
            assert(objects[j].key != objects[n - 1].key);
        }
        assert(more[n - 1].key == object.key);
        assert forall|i: int| 0 <= i < downloads.len() implies has_key(
            more,
            (#[trigger] downloads[i]).key,
        ) by {
            if i < before.len() {
                assert(downloads[i] == before[i]);
            }
        }
        assert forall|i: int, j: int| 0 <= i < j < downloads.len() implies (
        #[trigger] downloads[i]).key != (#[trigger] downloads[j]).key by {
            assert(downloads[i] == before[i]);
            if j < before.len() {
                assert(downloads[j] == before[j]);
            }
        }
    }
}

/// Once every download of a pull succeeded, each object that was to be fetched and its file
/// have the same content.
pub proof fn law_pull_brings_objects(
    objects: Seq<ObjectView>,
    local: Map<Seq<char>, LocalView>,
    patterns: Patterns,
    cache: CacheView,
    sides: Sides,
    i: int,
)
    requires
        keys_differ(objects),
        forall|j: int|
            0 <= j < objects.len() ==> sides.remote.contains_key((#[trigger] objects[j]).key),
        0 <= i < objects.len(),
        pull_takes(objects, patterns, objects[i].key),
        pull_verdict(
            objects[i],
            file_under(local, objects[i].key),
            cache.recall(objects[i].key),
        ) is Download,
    ensures
        ({
            let downloads = pull_after(
                objects,
                local,
                patterns,
                false,
                cache,
                objects.len(),
            ).downloads;
            sides.act_all(fetch_actions(downloads), true, downloads.len()).agree_on(objects[i].key)
        }),
{
    let downloads = pull_after(objects, local, patterns, false, cache, objects.len()).downloads;
    let actions = fetch_actions(downloads);
    let key = objects[i].key;
    lemma_downloads_differ(objects, local, patterns, cache, objects.len());
    assert(objects.take(objects.len() as int) =~= objects);
    assert forall|j: int| 0 <= j < actions.len() implies (#[trigger] actions[j]) !is DeleteLocal
        && sides.allow(actions[j]) && actions[j].key() == downloads[j].key by {
        assert(has_key(objects, downloads[j].key));
        let at = choose|at: int|
            0 <= at < objects.len() && (#[trigger] objects[at]).key == downloads[j].key;
        assert(sides.remote.contains_key(objects[at].key));
    }
    assert forall|a: int, b: int| 0 <= a < b < actions.len() implies (
    #[trigger] actions[a]).key() != (#[trigger] actions[b]).key() by {
        assert(downloads[a].key != downloads[b].key);
    }
    law_transfers_make_sides_agree(sides, actions, true, actions.len());
    law_pull_fetches_exactly(objects, local, patterns, cache, key);
    assert(objects[i].key == key);
    let d = choose|d: int| 0 <= d < downloads.len() && (#[trigger] downloads[d]).key == key;
    assert(actions[d].key() == key);
}

/// What is remembered under the key of an object once the pull was planned.
spec fn pull_records(
    objects: Seq<ObjectView>,
    local: Map<Seq<char>, LocalView>,
    patterns: Patterns,
    cache: CacheView,
    object: ObjectView,
) -> Option<EntryView> {
    let file = file_under(local, object.key);
    if pull_takes(objects, patterns, object.key) && pull_verdict(
        object,
        file,
        cache.recall(object.key),
    ) is Record && file->0.md5 is Some {
        Some(entry_of(file->0.md5->0, file->0.mtime(), object))
    } else {
        cache.recall(object.key)
    }
}

proof fn lemma_pull_records(
    objects: Seq<ObjectView>,
    local: Map<Seq<char>, LocalView>,
    patterns: Patterns,
    cache: CacheView,
    n: nat,
)
    requires
        keys_differ(objects),
        n <= objects.len(),
    ensures
        ({
            let state = pull_after(objects, local, patterns, false, cache, n);
            &&& forall|i: int|
                0 <= i < n ==> state.cache.recall((#[trigger] objects[i]).key) == pull_records(
                    objects,
                    local,
                    patterns,
                    cache,
                    objects[i],
                )
            &&& forall|i: int|
                n <= i < objects.len() ==> state.cache.recall((#[trigger] objects[i]).key)
                    == cache.recall(objects[i].key)
        }),
    decreases n,
{
    if n > 0 {
        let m = (n - 1) as nat;
        lemma_pull_records(objects, local, patterns, cache, m);
        let before = pull_after(objects, local, patterns, false, cache, m);
        let state = pull_after(objects, local, patterns, false, cache, n);
        assert(before.cache.recall(objects[n - 1].key) == cache.recall(objects[n - 1].key));
        assert forall|i: int| 0 <= i < n implies state.cache.recall((#[trigger] objects[i]).key)
            == pull_records(objects, local, patterns, cache, objects[i]) by {
            if i < m {
                assert(objects[i].key != objects[n - 1].key);
                assert(before.cache.recall(objects[i].key) == pull_records(
                    objects,
                    local,
                    patterns,
                    cache,
                    objects[i],
                ));
            }
        }
        assert forall|i: int| n <= i < objects.len() implies state.cache.recall(
            (#[trigger] objects[i]).key,
        ) == cache.recall(objects[i].key) by {
            assert(objects[n - 1].key != objects[i].key);
            assert(before.cache.recall(objects[i].key) == cache.recall(objects[i].key));
        }
    }
}

/// The first object with a key is the only one.
proof fn lemma_first_with(objects: Seq<ObjectView>, i: int)
    requires
        keys_differ(objects),
        0 <= i < objects.len(),
    ensures
        first_with(objects, objects[i].key) == Some(objects[i]),
    decreases objects.len(),
{
    if i > 0 {
        let rest = objects.drop_first();
        assert(objects[0].key != objects[i].key);
        assert forall|a: int, b: int| 0 <= a < b < rest.len() implies (#[trigger] rest[a]).key
            != (#[trigger] rest[b]).key by {
            assert(objects[a + 1].key != objects[b + 1].key);
        }
        lemma_first_with(rest, i - 1);
        assert(rest[i - 1] == objects[i]);
    }
}

/// What is remembered once files were fetched: of a file that was and whose content could be
/// read, what was recorded of one of its fetchings; of a file that was not, what it was.
proof fn lemma_downloads_recall(
    cache: CacheView,
    done: Seq<FetchedView>,
    objects: Seq<ObjectView>,
    key: Seq<char>,
)
    requires
        forall|i: int| 0 <= i < done.len() ==> (#[trigger] done[i]).file.md5 is Some,
        first_with(objects, key) is Some,
    ensures
        ({
            let after = after_downloads(cache, done, objects).recall(key);
            if exists|i: int| 0 <= i < done.len() && (#[trigger] done[i]).key == key {
                exists|i: int|
                    0 <= i < done.len() && (#[trigger] done[i]).key == key && after == Some(
                        entry_of(
                            done[i].file.md5->0,
                            done[i].file.mtime(),
                            first_with(objects, key)->0,
                        ),
                    )
            } else {
                after == cache.recall(key)
            }
        }),
    decreases done.len(),
{
    if done.len() > 0 {
        let rest = done.drop_last();
        let last = done.len() - 1;
        assert forall|i: int| 0 <= i < rest.len() implies (#[trigger] rest[i]).file.md5 is Some by {
            assert(done[i].file.md5 is Some);
        }
        lemma_downloads_recall(cache, rest, objects, key);
        assert(done[last].file.md5 is Some);
        if done[last].key != key {
            if exists|i: int| 0 <= i < done.len() && (#[trigger] done[i]).key == key {
                let i = choose|i: int| 0 <= i < done.len() && (#[trigger] done[i]).key == key;
                assert(rest[i].key == key);
                let j = choose|j: int|
                    0 <= j < rest.len() && (#[trigger] rest[j]).key == key && after_downloads(
                        cache,
                        rest,
                        objects,
                    ).recall(key) == Some(
                        entry_of(
                            rest[j].file.md5->0,
                            rest[j].file.mtime(),
                            first_with(objects, key)->0,
                        ),
                    );
                assert(done[j].key == key);
            } else {
                assert forall|i: int| 0 <= i < rest.len() implies (#[trigger] rest[i]).key
                    != key by {
                    assert(done[i].key != key);
                }
            }
        }
    }
}

/// A second pull does nothing: once a pull succeeded and was recorded, the same pull, with the
/// same objects and with the files as they are then, fetches nothing; and where the pull
/// deletes, it finds nothing more to delete among what it left and what it fetched. The listing
/// repeats no key, and the fetched files could be read; the other files are not modified, and
/// need not be read again.
pub proof fn law_pull_again_does_nothing(
    objects: Seq<ObjectView>,
    local: Map<Seq<char>, LocalView>,
    patterns: Patterns,
    prefix: Option<Seq<char>>,
    cache: CacheView,
    done: Seq<FetchedView>,
    local_later: Map<Seq<char>, LocalView>,
    walked: Seq<Seq<char>>,
    walked_later: Seq<Seq<char>>,
)
    requires
        keys_differ(objects),
        ({
            let end = pull_after(objects, local, patterns, false, cache, objects.len());
            &&& forall|i: int|
                0 <= i < done.len() ==> fetches(end.downloads, (#[trigger] done[i]).key)
                    && done[i].file.md5 is Some && local_later.contains_key(done[i].key)
                    && local_later[done[i].key].mtime() == done[i].file.mtime()
            &&& forall|d: int|
                0 <= d < end.downloads.len() ==> exists|i: int|
                    0 <= i < done.len() && (#[trigger] done[i]).key == (
                    #[trigger] end.downloads[d]).key
            &&& forall|i: int|
                0 <= i < objects.len() && !fetches(end.downloads, (#[trigger] objects[i]).key)
                    ==> unmodified(
                    file_under(local, objects[i].key),
                    file_under(local_later, objects[i].key),
                )
            &&& forall|j: int|
                0 <= j < walked_later.len() ==> end.seen.contains(#[trigger] walked_later[j]) || (
                walked.contains(walked_later[j]) && !walked.filter(
                    |k: Seq<char>| is_orphan(patterns, prefix, end.seen, k),
                ).contains(walked_later[j]))
        }),
    ensures
        ({
            let end = pull_after(objects, local, patterns, false, cache, objects.len());
            let later = after_downloads(end.cache, done, objects);
            let again = pull_after(objects, local_later, patterns, false, later, objects.len());
            &&& again.downloads.len() == 0
            &&& walked_later.filter(
                |k: Seq<char>| is_orphan(patterns, prefix, again.seen, k),
            ).len() == 0
        }),
{
    let end = pull_after(objects, local, patterns, false, cache, objects.len());
    let later = after_downloads(end.cache, done, objects);
    let again = pull_after(objects, local_later, patterns, false, later, objects.len());
    if again.downloads.len() > 0 {
        let key = again.downloads[0].key;
        assert(fetches(again.downloads, key));
        lemma_pull_fetches(objects, local_later, patterns, later, key, objects.len());
        let i = choose|i: int|
            0 <= i < objects.len() && (#[trigger] objects[i]).key == key && pull_takes(
                objects,
                patterns,
                key,
            ) && pull_verdict(
                objects[i],
                file_under(local_later, key),
                later.recall(key),
            ) is Download;
        lemma_pull_skips(objects, local, patterns, cache, done, local_later, i);
    }
    law_pull_takes_only_selected(objects, local, patterns, false, cache, objects.len());
    law_pull_takes_only_selected(objects, local_later, patterns, false, later, objects.len());
    assert(again.seen =~= end.seen);
    let orphan = |k: Seq<char>| is_orphan(patterns, prefix, end.seen, k);
    assert(walked_later.filter(orphan).len() == 0) by {
        if walked_later.filter(orphan).len() > 0 {
            let key = walked_later.filter(orphan)[0];
            assert(walked_later.filter(orphan).contains(key));
            lemma_filter_holds(walked_later, orphan, key);
            lemma_filter_holds(walked, orphan, key);
            let j = walked_later.index_of(key);
            assert(walked_later[j] == key);
        }
    }
}

/// Once a pull was recorded, the next one does not fetch an object that takes part.
proof fn lemma_pull_skips(
    objects: Seq<ObjectView>,
    local: Map<Seq<char>, LocalView>,
    patterns: Patterns,
    cache: CacheView,
    done: Seq<FetchedView>,
    local_later: Map<Seq<char>, LocalView>,
    at: int,
)
    requires
        keys_differ(objects),
        0 <= at < objects.len(),
        pull_takes(objects, patterns, objects[at].key),
        ({
            let end = pull_after(objects, local, patterns, false, cache, objects.len());
            &&& forall|i: int|
                0 <= i < done.len() ==> fetches(end.downloads, (#[trigger] done[i]).key)
                    && done[i].file.md5 is Some && local_later.contains_key(done[i].key)
                    && local_later[done[i].key].mtime() == done[i].file.mtime()
            &&& forall|d: int|
                0 <= d < end.downloads.len() ==> exists|i: int|
                    0 <= i < done.len() && (#[trigger] done[i]).key == (
                    #[trigger] end.downloads[d]).key
            &&& !fetches(end.downloads, objects[at].key) ==> unmodified(
                file_under(local, objects[at].key),
                file_under(local_later, objects[at].key),
            )
        }),
    ensures
        pull_verdict(
            objects[at],
            file_under(local_later, objects[at].key),
            after_downloads(
                pull_after(objects, local, patterns, false, cache, objects.len()).cache,
                done,
                objects,
            ).recall(objects[at].key),
        ) !is Download,
{
    let object = objects[at];
    let key = object.key;
    let end = pull_after(objects, local, patterns, false, cache, objects.len());
    lemma_first_with(objects, at);
    lemma_downloads_recall(end.cache, done, objects, key);
    lemma_pull_fetches(objects, local, patterns, cache, key, objects.len());
    lemma_pull_records(objects, local, patterns, cache, objects.len());
    let found = after_downloads(end.cache, done, objects).recall(key);
    if fetches(end.downloads, key) {
        let d = choose|d: int| 0 <= d < end.downloads.len() && (#[trigger] end.downloads[d]).key
            == key;
        assert(exists|i: int|
            0 <= i < done.len() && (#[trigger] done[i]).key == end.downloads[d].key);
        let i = choose|i: int|
            0 <= i < done.len() && (#[trigger] done[i]).key == key && found == Some(
                entry_of(done[i].file.md5->0, done[i].file.mtime(), object),
            );
        assert(local_later.contains_key(done[i].key));
    } else {
        assert forall|i: int| 0 <= i < done.len() implies (#[trigger] done[i]).key != key by {
            assert(fetches(end.downloads, done[i].key));
        }
        assert(found == pull_records(objects, local, patterns, cache, objects[at]));
        if pull_verdict(object, file_under(local, key), cache.recall(key)) is Download {
            assert(objects[at].key == key);
            assert(to_fetch(objects, local, patterns, cache, key, objects.len()));
        }
    }
}

/// What becomes of an object in a pull. Where its tag is a checksum the content decides, whatever
/// the times: it is fetched exactly when the file is not shown to have its content. Where the tag
/// is none the times decide: it is fetched exactly when it is later than the file. Without a file
/// it is always fetched, and nothing is done where both are as they are remembered.
pub proof fn law_pull_fetches_what_differs(
    object: ObjectView,
    file: LocalView,
    cached: Option<EntryView>,
)
    ensures
        pull_verdict(object, None, cached) is Download,
        ({
            let verdict = pull_verdict(object, Some(file), cached);
            let known = cached matches Some(entry) && entry.etag == object.etag && entry.mtime
                == file.mtime();
            let same = file.md5 == Some(plain_etag(object.etag));
            let parts = object.etag.contains('-');
            &&& verdict is Skip <==> known
            &&& !known && !parts ==> (verdict is Download <==> !same)
            &&& !known && !parts ==> (verdict is Record <==> same)
            &&& !known && parts ==> (verdict is Download <==> object.last_modified
                > file.instant())
            &&& !known && parts ==> (verdict is Record <==> object.last_modified
                <= file.instant())
        }),
{
    law_plain_etag_drops_only_quotes(object.etag);
}

/// A pull never leaves a file in place of an object that is later and shown to differ, unless
/// both are as they are remembered.
pub proof fn law_pull_never_keeps_an_outdated_file(
    object: ObjectView,
    file: LocalView,
    cached: Option<EntryView>,
)
    requires
        object.last_modified > file.instant(),
        file.md5 != Some(plain_etag(object.etag)) || object.etag.contains('-'),
        cached matches Some(entry) ==> entry.etag != object.etag || entry.mtime != file.mtime(),
    ensures
        pull_verdict(object, Some(file), cached) is Download,
{
    law_plain_etag_drops_only_quotes(object.etag);
}

/// An object takes no part in a pull exactly when the filter keeps its key out or the key of some
/// object of the listing goes on from its own with a slash.
pub proof fn law_pull_leaves_out_directories(
    objects: Seq<ObjectView>,
    patterns: Patterns,
    at: int,
)
    requires
        0 <= at < objects.len(),
    ensures
        pull_takes(objects, patterns, objects[at].key) <==> patterns.select(objects[at].key)
            && forall|i: int, rest: Seq<char>|
            0 <= i < objects.len() ==> #[trigger] objects[i].key != #[trigger] (
            objects[at].key.push('/') + rest),
        parent_keys(objects).contains(objects[at].key) <==> exists|i: int, rest: Seq<char>|
            0 <= i < objects.len() && #[trigger] objects[i].key == #[trigger] (
            objects[at].key.push('/') + rest),
{
    let key = objects[at].key;
    let directory = key.push('/');
    assert(has_key(objects, key));
    if is_directory(objects, key) {
        let i = choose|i: int|
            0 <= i < objects.len() && has_prefix((#[trigger] objects[i]).key, directory);
        let rest = objects[i].key.skip(directory.len() as int);
        assert(objects[i].key =~= directory + rest);
    }
    assert forall|i: int, rest: Seq<char>|
        0 <= i < objects.len() && #[trigger] objects[i].key == #[trigger] (directory
            + rest) implies is_directory(objects, key) by {
        assert((directory + rest).take(directory.len() as int) =~= directory);
        assert(has_prefix(objects[i].key, directory));
    }
}

/// What is fetched gets the time of an object of the listing with its key, and of the only one
/// where the listing repeats no key.
pub proof fn law_downloads_get_the_time_of_their_object(
    objects: Seq<ObjectView>,
    local: Map<Seq<char>, LocalView>,
    patterns: Patterns,
    cache: CacheView,
    n: nat,
)
    requires
        n <= objects.len(),
    ensures
        ({
            let downloads = pull_after(objects, local, patterns, false, cache, n).downloads;
            forall|d: int|
                0 <= d < downloads.len() ==> exists|i: int|
                    0 <= i < n && (#[trigger] objects[i]).key == (#[trigger] downloads[d]).key
                        && objects[i].last_modified == downloads[d].last_modified
        }),
    decreases n,
{
    if n > 0 {
        let m = (n - 1) as nat;
        law_downloads_get_the_time_of_their_object(objects, local, patterns, cache, m);
        let before = pull_after(objects, local, patterns, false, cache, m).downloads;
        let downloads = pull_after(objects, local, patterns, false, cache, n).downloads;
        assert forall|d: int| 0 <= d < downloads.len() implies exists|i: int|
            0 <= i < n && (#[trigger] objects[i]).key == (#[trigger] downloads[d]).key
                && objects[i].last_modified == downloads[d].last_modified by {
            if d < before.len() {
                assert(downloads[d] == before[d]);
                let i = choose|i: int|
                    0 <= i < m && (#[trigger] objects[i]).key == before[d].key
                        && objects[i].last_modified == before[d].last_modified;
                assert(0 <= i < n && objects[i].key == downloads[d].key);
            } else {
                assert(objects[m as int].key == downloads[d].key);
            }
        }
    }
}

/// A dry pull foretells the real one: it reports as downloaded exactly what the real one fetches,
/// in order, reports as skipped what the real one does, and comes to remember the same. The real
/// one reports nothing but what it skips, since a fetched file is reported once it is there.
pub proof fn law_dry_pull_foretells(
    objects: Seq<ObjectView>,
    local: Map<Seq<char>, LocalView>,
    patterns: Patterns,
    cache: CacheView,
    n: nat,
)
    requires
        n <= objects.len(),
    ensures
        ({
            let dry = pull_after(objects, local, patterns, true, cache, n);
            let live = pull_after(objects, local, patterns, false, cache, n);
            &&& dry.downloads.len() == 0
            &&& keys_with(dry.notices, NoticeKind::Downloaded) == live.downloads.map_values(
                |download: DownloadView| download.key,
            )
            &&& keys_with(dry.notices, NoticeKind::Skipped) == keys_with(
                live.notices,
                NoticeKind::Skipped,
            )
            &&& keys_with(live.notices, NoticeKind::Skipped).len() == live.notices.len()
            &&& dry.cache == live.cache
            &&& dry.seen == live.seen
        }),
    decreases n,
{
    let of = |download: DownloadView| download.key;
    let dry = pull_after(objects, local, patterns, true, cache, n);
    let live = pull_after(objects, local, patterns, false, cache, n);
    if n == 0 {
        lemma_keys_with_none(NoticeKind::Downloaded);
        lemma_keys_with_none(NoticeKind::Skipped);
        assert(live.downloads.map_values(of) =~= Seq::empty());
    } else {
        let m = (n - 1) as nat;
        law_dry_pull_foretells(objects, local, patterns, cache, m);
        let dry_before = pull_after(objects, local, patterns, true, cache, m);
        let live_before = pull_after(objects, local, patterns, false, cache, m);
        let key = objects[n - 1].key;
        let skipped = NoticeView { kind: NoticeKind::Skipped, key };
        let fetched = NoticeView { kind: NoticeKind::Downloaded, key };
        lemma_keys_with_push(dry_before.notices, skipped, NoticeKind::Downloaded);
        lemma_keys_with_push(dry_before.notices, skipped, NoticeKind::Skipped);
        lemma_keys_with_push(dry_before.notices, fetched, NoticeKind::Downloaded);
        lemma_keys_with_push(dry_before.notices, fetched, NoticeKind::Skipped);
        lemma_keys_with_push(live_before.notices, skipped, NoticeKind::Skipped);
        assert(live.downloads.map_values(of) =~= if live.downloads.len()
            > live_before.downloads.len() {
            live_before.downloads.map_values(of).push(key)
        } else {
            live_before.downloads.map_values(of)
        });
    }
}

/// What is remembered of a key that is not among those of the first `n` objects stays.
proof fn lemma_pull_keeps_others(
    objects: Seq<ObjectView>,
    local: Map<Seq<char>, LocalView>,
    patterns: Patterns,
    cache: CacheView,
    key: Seq<char>,
    n: nat,
)
    requires
        n <= objects.len(),
        !has_key(objects, key),
    ensures
        pull_after(objects, local, patterns, false, cache, n).cache.recall(key) == cache.recall(key),
    decreases n,
{
    if n > 0 {
        lemma_pull_keeps_others(objects, local, patterns, cache, key, (n - 1) as nat);
        assert(objects[n - 1].key != key);
    }
}

/// Planning a pull comes to remember a file exactly when it takes part, was not remembered as it
/// is, could be read, and is shown to have the object's content or, where the tag shows nothing,
/// is not older than the object: then its checksum and time and the object's tag and time. Of all
/// else is remembered what was.
pub proof fn law_pull_remembers_what_is_the_same(
    objects: Seq<ObjectView>,
    local: Map<Seq<char>, LocalView>,
    patterns: Patterns,
    cache: CacheView,
    at: int,
    other: Seq<char>,
)
    requires
        keys_differ(objects),
        0 <= at < objects.len(),
        !has_key(objects, other),
    ensures
        ({
            let later = pull_after(objects, local, patterns, false, cache, objects.len()).cache;
            let object = objects[at];
            let before = cache.recall(object.key);
            let after = later.recall(object.key);
            let known = before matches Some(entry) && entry.etag == object.etag && entry.mtime
                == local[object.key].mtime();
            let same = if object.etag.contains('-') {
                object.last_modified <= local[object.key].instant()
            } else {
                local[object.key].md5 == Some(plain_etag(object.etag))
            };
            &&& later.recall(other) == cache.recall(other)
            &&& if pull_takes(objects, patterns, object.key) && local.contains_key(object.key)
                && !known && same && local[object.key].md5 is Some {
                after == Some(
                    EntryView {
                        md5: local[object.key].md5->0,
                        mtime: local[object.key].mtime(),
                        etag: object.etag,
                        last_modified: rfc3339(object.last_modified),
                    },
                )
            } else {
                after == before
            }
        }),
{
    lemma_pull_records(objects, local, patterns, cache, objects.len());
    lemma_pull_keeps_others(objects, local, patterns, cache, other, objects.len());
    law_plain_etag_drops_only_quotes(objects[at].etag);
    let later = pull_after(objects, local, patterns, false, cache, objects.len()).cache;
    assert(later.recall(objects[at].key) == pull_records(
        objects,
        local,
        patterns,
        cache,
        objects[at],
    ));
}

/// Once a file was fetched last under a key and could be read, what is remembered of it is its
/// checksum and time and the tag and time of the first listed object with that key; of a key that
/// was not fetched, or whose file could not be read, is remembered what was.
pub proof fn law_fetched_files_are_remembered(
    cache: CacheView,
    done: Seq<FetchedView>,
    objects: Seq<ObjectView>,
    key: Seq<char>,
    at: int,
    first: int,
)
    ensures
        0 <= at < done.len() && done[at].key == key && (forall|j: int|
            at < j < done.len() ==> (#[trigger] done[j]).key != key) && done[at].file.md5 is Some
            && 0 <= first < objects.len() && objects[first].key == key && (forall|j: int|
            0 <= j < first ==> (#[trigger] objects[j]).key != key) ==> after_downloads(
            cache,
            done,
            objects,
        ).recall(key) == Some(
            EntryView {
                md5: done[at].file.md5->0,
                mtime: done[at].file.mtime(),
                etag: objects[first].etag,
                last_modified: rfc3339(objects[first].last_modified),
            },
        ),
        (forall|j: int|
            0 <= j < done.len() ==> (#[trigger] done[j]).key != key || done[j].file.md5 is None)
            ==> after_downloads(cache, done, objects).recall(key) == cache.recall(key),
    decreases done.len(),
{
    if done.len() > 0 {
        let rest = done.drop_last();
        law_fetched_files_are_remembered(cache, rest, objects, key, at, first);
        assert(forall|j: int| 0 <= j < rest.len() ==> #[trigger] rest[j] == done[j]);
        assert(done[done.len() - 1] == done.last());
        if 0 <= first < objects.len() && objects[first].key == key && (forall|j: int|
            0 <= j < first ==> (#[trigger] objects[j]).key != key) {
            lemma_first_at(objects, key, first);
        }
    }
}

proof fn lemma_first_at(objects: Seq<ObjectView>, key: Seq<char>, first: int)
    requires
        0 <= first < objects.len(),
        objects[first].key == key,
        forall|j: int| 0 <= j < first ==> (#[trigger] objects[j]).key != key,
    ensures
        first_with(objects, key) == Some(objects[first]),
    decreases first,
{
    if first > 0 {
        let rest = objects.drop_first();
        assert(objects[0].key != key);
        assert forall|j: int| 0 <= j < first - 1 implies (#[trigger] rest[j]).key != key by {
            assert(objects[j + 1].key != key);
        }
        lemma_first_at(rest, key, first - 1);
    }
}

/// A pull reports as skipped exactly the keys that take part and that it does not fetch, where
/// the listing repeats no key.
pub proof fn law_pull_reports_what_it_leaves(
    objects: Seq<ObjectView>,
    local: Map<Seq<char>, LocalView>,
    patterns: Patterns,
    cache: CacheView,
    key: Seq<char>,
    n: nat,
)
    requires
        keys_differ(objects),
        n <= objects.len(),
    ensures
        ({
            let state = pull_after(objects, local, patterns, false, cache, n);
            keys_with(state.notices, NoticeKind::Skipped).contains(key) <==> state.seen.contains(
                key,
            ) && !fetches(state.downloads, key)
        }),
    decreases n,
{
    if n == 0 {
        lemma_keys_with_none(NoticeKind::Skipped);
    } else {
        let m = (n - 1) as nat;
        let k = objects[n - 1].key;
        law_pull_reports_what_it_leaves(objects, local, patterns, cache, key, m);
        law_pull_takes_only_selected(objects, local, patterns, false, cache, m);
        let before = pull_after(objects, local, patterns, false, cache, m);
        let state = pull_after(objects, local, patterns, false, cache, n);
        let part = objects.take(m as int);
        if before.seen.contains(k) {
            let j = choose|j: int| 0 <= j < part.len() && (#[trigger] part[j]).key == k;
            assert(objects[j].key != objects[n - 1].key);
        }
        let said = NoticeView { kind: NoticeKind::Skipped, key: k };
        lemma_keys_with_push(before.notices, said, NoticeKind::Skipped);
        let named = keys_with(before.notices, NoticeKind::Skipped);
        let more = named.push(k);
        if named.contains(key) {
            assert(more[named.index_of(key)] == key);
        }
        assert(more[named.len() as int] == k);
        if more.contains(key) && key != k {
            assert(named[more.index_of(key)] == key);
        }
        if fetches(before.downloads, key) {
            let d = choose|d: int|
                0 <= d < before.downloads.len() && (#[trigger] before.downloads[d]).key == key;
            assert(state.downloads[d].key == key);
            assert(before.seen.contains(before.downloads[d].key));
        }
        if fetches(state.downloads, key) && !fetches(before.downloads, key) {
            let d = choose|d: int|
                0 <= d < state.downloads.len() && (#[trigger] state.downloads[d]).key == key;
            if d < before.downloads.len() {
                assert(before.downloads[d].key == key);
            }
        }
        if state.downloads.len() > before.downloads.len() {
            assert(state.downloads[before.downloads.len() as int].key == k);
        }
    }
}

} // verus!
