//! What the operations on the two sides have in common.
use vstd::prelude::*;
use vstd::string::*;

use crate::cache::{entry_view, Cache, CacheEntry, CacheView, EntryView};
use crate::checksum::{md5_matches, shows_same_content};
use crate::filter::texts;
use crate::keys::{ascending, KeyMap};
use crate::local::{LocalFile, LocalView};
use crate::s3::{ObjectView, S3Object};
use crate::text::{has_prefix, same_text, starts_with, text_less};
use crate::time::rfc3339;

pub mod bidirectional;
pub mod pull;
pub mod push;
pub mod transfer;

verus! {

/// What is reported of a file.
#[derive(Clone, Copy, PartialEq, Eq, Structural)]
pub enum NoticeKind {
    Skipped,
    Downloaded,
    Uploaded,
    Deleted,
}

/// A report on one key.
pub struct Notice {
    pub kind: NoticeKind,
    pub key: String,
}

/// What a [`Notice`] says.
#[verifier::ext_equal]
pub struct NoticeView {
    pub kind: NoticeKind,
    pub key: Seq<char>,
}

impl View for Notice {
    type V = NoticeView;

    open spec fn view(&self) -> NoticeView {
        NoticeView { kind: self.kind, key: self.key@ }
    }
}

/// What a list of notices says.
pub open spec fn notice_views(list: Seq<Notice>) -> Seq<NoticeView> {
    Seq::new(list.len(), |i: int| list[i]@)
}

/// The notices of one kind on a list of keys.
pub open spec fn notices_on(kind: NoticeKind, keys: Seq<Seq<char>>) -> Seq<NoticeView> {
    Seq::new(keys.len(), |i: int| NoticeView { kind, key: keys[i] })
}

/// Adds a notice to the end of a list.
pub fn notify(list: &mut Vec<Notice>, kind: NoticeKind, key: &str)
    ensures
        notice_views(final(list)@) == notice_views(old(list)@).push(
            NoticeView { kind, key: key@ },
        ),
{
    list.push(Notice { kind, key: key.to_owned() });
    assert(notice_views(list@) =~= notice_views(old(list)@).push(NoticeView { kind, key: key@ }));
}

/// A text that may be missing.
pub open spec fn text_view(text: Option<&str>) -> Option<Seq<char>> {
    match text {
        Some(t) => Some(t@),
        None => None,
    }
}

/// Whether an operation limited to the keys that begin with `prefix` has to do with `key`.
pub open spec fn in_scope(prefix: Option<Seq<char>>, key: Seq<char>) -> bool {
    match prefix {
        Some(p) => has_prefix(key, p),
        None => true,
    }
}

/// Whether an operation limited to the keys that begin with `prefix` has to do with `key`.
pub fn concerns(prefix: Option<&str>, key: &str) -> (yes: bool)
    ensures
        yes == in_scope(text_view(prefix), key@),
{
    match prefix {
        Some(p) => starts_with(key, p),
        None => true,
    }
}

/// Whether a file with this modification time is remembered as it is, so that it need not be
/// sent again.
pub open spec fn sent_before(cached: Option<EntryView>, mtime: i64) -> bool {
    cached matches Some(entry) && entry.mtime == mtime && entry.md5.len() > 0
}

/// Whether a file with this modification time is remembered as it is.
pub fn was_sent(cached: Option<&CacheEntry>, mtime: i64) -> (yes: bool)
    ensures
        yes == sent_before(entry_view(cached), mtime),
{
    match cached {
        Some(entry) => entry.mtime == mtime && !entry.md5.as_str().is_empty(),
        None => false,
    }
}

/// What is remembered of a file that is the same as the object.
pub open spec fn entry_of(md5: Seq<char>, mtime: i64, object: ObjectView) -> EntryView {
    EntryView { md5, mtime, etag: object.etag, last_modified: rfc3339(object.last_modified) }
}

/// What is remembered of a file that is the same as the object.
pub fn entry_for(md5: String, mtime: i64, object: &S3Object) -> (entry: CacheEntry)
    ensures
        entry@ == entry_of(md5@, mtime, object@),
{
    CacheEntry {
        md5,
        mtime,
        etag: object.etag.clone(),
        last_modified: object.last_modified.to_rfc3339(),
    }
}

/// Whether the object has the content that is remembered of the file.
pub open spec fn content_known(entry: EntryView, object: ObjectView) -> bool {
    entry.md5.len() > 0 && shows_same_content(Some(entry.md5), object.etag)
}

/// Whether the object is the one that is remembered: it has the same entity tag and time.
pub open spec fn version_known(entry: EntryView, object: ObjectView) -> bool {
    entry.etag == object.etag && entry.last_modified == rfc3339(object.last_modified)
}

/// Whether the object has the content that is remembered of the file.
pub fn knows_content(entry: &CacheEntry, object: &S3Object) -> (yes: bool)
    ensures
        yes == content_known(entry@, object@),
{
    !entry.md5.as_str().is_empty() && md5_matches(
        Some(entry.md5.as_str()),
        object.etag.as_str(),
    )
}

/// Whether the object is the one that is remembered.
pub fn knows_version(entry: &CacheEntry, object: &S3Object) -> (yes: bool)
    ensures
        yes == version_known(entry@, object@),
{
    same_text(entry.etag.as_str(), object.etag.as_str()) && same_text(
        entry.last_modified.as_str(),
        object.last_modified.to_rfc3339().as_str(),
    )
}

/// Whether fetching the object in place of the file could lose something: the file was modified
/// since it was remembered, or nothing is remembered of it and it is not shown to have the
/// object's content.
pub open spec fn at_risk(
    object: ObjectView,
    file: LocalView,
    cached: Option<EntryView>,
) -> bool {
    match cached {
        Some(entry) => entry.mtime != file.mtime(),
        None => !shows_same_content(file.md5, object.etag),
    }
}

/// Whether fetching the object in place of the file could lose something.
pub fn is_at_risk(object: &S3Object, file: &LocalFile, cached: Option<&CacheEntry>) -> (yes: bool)
    ensures
        yes == at_risk(object@, file@, entry_view(cached)),
{
    match cached {
        Some(entry) => entry.mtime != file.mtime(),
        None => !md5_matches(file.md5_ref(), object.etag.as_str()),
    }
}

/// A file to send: the key to send it under, the key of the local file, the checksum and the
/// modification time.
pub struct Upload {
    pub key: String,
    pub source: String,
    pub md5: String,
    pub mtime: i64,
}

/// What an [`Upload`] says.
#[verifier::ext_equal]
pub struct UploadView {
    pub key: Seq<char>,
    pub source: Seq<char>,
    pub md5: Seq<char>,
    pub mtime: i64,
}

impl View for Upload {
    type V = UploadView;

    open spec fn view(&self) -> UploadView {
        UploadView {
            key: self.key@,
            source: self.source@,
            md5: self.md5@,
            mtime: self.mtime,
        }
    }
}

/// What a list of uploads says.
pub open spec fn upload_views(list: Seq<Upload>) -> Seq<UploadView> {
    Seq::new(list.len(), |i: int| list[i]@)
}

/// What is remembered of a file that was sent: with it the entity tag and time of the object
/// that was listed under its key before, empty where there was none.
pub open spec fn entry_sent(
    upload: UploadView,
    listed: Map<Seq<char>, ObjectView>,
) -> EntryView {
    if listed.contains_key(upload.key) {
        entry_of(upload.md5, upload.mtime, listed[upload.key])
    } else {
        EntryView {
            md5: upload.md5,
            mtime: upload.mtime,
            etag: Seq::empty(),
            last_modified: Seq::empty(),
        }
    }
}

/// The cache once the files of `done` were sent.
pub open spec fn after_uploads(
    cache: CacheView,
    done: Seq<UploadView>,
    listed: Map<Seq<char>, ObjectView>,
) -> CacheView
    decreases done.len(),
{
    if done.len() == 0 {
        cache
    } else {
        after_uploads(cache, done.drop_last(), listed).set(
            done.last().key,
            entry_sent(done.last(), listed),
        )
    }
}

/// Remembers the files that were sent.
pub fn record_uploads(cache: &mut Cache, done: &Vec<Upload>, listed: &KeyMap<S3Object>)
    ensures
        final(cache)@ == after_uploads(old(cache)@, upload_views(done@), listed@),
{
    let ghost views = upload_views(done@);
    let ghost start = cache@;
    let mut i: usize = 0;
    while i < done.len()
        invariant
            i <= done@.len(),
            views == upload_views(done@),
            cache@ == after_uploads(start, views.take(i as int), listed@),
        decreases done@.len() - i,
    {
        proof {
            assert(views.take(i + 1).drop_last() =~= views.take(i as int));
        }
        let upload = &done[i];
        let entry: CacheEntry = match listed.get(upload.key.as_str()) {
            Some(object) => entry_for(upload.md5.clone(), upload.mtime, object),
            None => CacheEntry {
                md5: upload.md5.clone(),
                mtime: upload.mtime,
                etag: String::new(),
                last_modified: String::new(),
            },
        };
        assert(entry@ == entry_sent(upload@, listed@));
        cache.set(upload.key.clone(), entry);
        i = i + 1;
    }
    assert(views.take(i as int) =~= views);
}

/// The cache once the keys of `gone` were deleted.
pub open spec fn after_removals(cache: CacheView, gone: Seq<Seq<char>>) -> CacheView
    decreases gone.len(),
{
    if gone.len() == 0 {
        cache
    } else {
        after_removals(cache, gone.drop_last()).remove(gone.last())
    }
}

/// Forgets the keys that were deleted.
pub fn record_removals(cache: &mut Cache, gone: &Vec<String>)
    ensures
        final(cache)@ == after_removals(old(cache)@, texts(gone@)),
{
    let ghost keys = texts(gone@);
    let ghost start = cache@;
    let mut i: usize = 0;
    while i < gone.len()
        invariant
            i <= gone@.len(),
            keys == texts(gone@),
            cache@ == after_removals(start, keys.take(i as int)),
        decreases gone@.len() - i,
    {
        proof {
            assert(keys.take(i + 1).drop_last() =~= keys.take(i as int));
        }
        cache.remove(gone[i].as_str());
        i = i + 1;
    }
    assert(keys.take(i as int) =~= keys);
}

/// One key more at the end of a list.
pub proof fn lemma_filter_push(
    keys: Seq<Seq<char>>,
    wanted: spec_fn(Seq<char>) -> bool,
    i: int,
)
    requires
        0 <= i < keys.len(),
    ensures
        keys.take(i + 1).filter(wanted) == if wanted(keys[i]) {
            keys.take(i).filter(wanted).push(keys[i])
        } else {
            keys.take(i).filter(wanted)
        },
{
    reveal(Seq::filter);
    assert(keys.take(i + 1).drop_last() =~= keys.take(i));
}

/// What a filtered list holds.
pub proof fn lemma_filter_holds(
    keys: Seq<Seq<char>>,
    wanted: spec_fn(Seq<char>) -> bool,
    key: Seq<char>,
)
    ensures
        keys.filter(wanted).contains(key) <==> keys.contains(key) && wanted(key),
    decreases keys.len(),
{
    reveal(Seq::filter);
    if keys.len() > 0 {
        let rest = keys.drop_last();
        lemma_filter_holds(rest, wanted, key);
        assert(keys =~= rest.push(keys.last()));
        if rest.contains(key) {
            assert(keys[rest.index_of(key)] == key);
        }
        if keys.contains(key) && !rest.contains(key) {
            let i = keys.index_of(key);
            if i < rest.len() {
                assert(rest[i] == key);
            }
        }
        if key == keys.last() {
            assert(keys[keys.len() - 1] == key);
        }
        let part = rest.filter(wanted);
        if wanted(keys.last()) {
            let all = part.push(keys.last());
            if part.contains(key) {
                assert(all[part.index_of(key)] == key);
            }
            assert(all[part.len() as int] == keys.last());
            if all.contains(key) && !part.contains(key) {
                let i = all.index_of(key);
                if i < part.len() {
                    assert(part[i] == key);
                }
            }
        }
    }
}

/// A part of an ascending list is ascending.
pub proof fn lemma_filter_ascending(keys: Seq<Seq<char>>, wanted: spec_fn(Seq<char>) -> bool)
    requires
        ascending(keys),
    ensures
        ascending(keys.filter(wanted)),
    decreases keys.len(),
{
    reveal(Seq::filter);
    if keys.len() > 0 {
        let rest = keys.drop_last();
        let part = rest.filter(wanted);
        let all = keys.filter(wanted);
        lemma_filter_ascending(rest, wanted);
        assert forall|i: int, j: int| 0 <= i < j < all.len() implies text_less(
            #[trigger] all[i],
            #[trigger] all[j],
        ) by {
            if j == part.len() {
                assert(part.contains(part[i]));
                lemma_filter_holds(rest, wanted, part[i]);
                let at = rest.index_of(part[i]);
                assert(text_less(keys[at], keys[keys.len() - 1]));
            } else {
                assert(text_less(part[i], part[j]));
            }
        }
    }
}

/// What is remembered once files were sent: of a file that was, what was recorded of one of its
/// sendings; of any other, what it was.
pub proof fn lemma_uploads_recall(
    cache: CacheView,
    done: Seq<UploadView>,
    listed: Map<Seq<char>, ObjectView>,
    key: Seq<char>,
)
    ensures
        ({
            let after = after_uploads(cache, done, listed).recall(key);
            if exists|i: int| 0 <= i < done.len() && (#[trigger] done[i]).key == key {
                exists|i: int|
                    0 <= i < done.len() && (#[trigger] done[i]).key == key && after == Some(
                        entry_sent(done[i], listed),
                    )
            } else {
                after == cache.recall(key)
            }
        }),
    decreases done.len(),
{
    if done.len() > 0 {
        let rest = done.drop_last();
        let last = done.len() - 1;
        lemma_uploads_recall(cache, rest, listed, key);
        if done[last].key != key {
            if exists|i: int| 0 <= i < done.len() && (#[trigger] done[i]).key == key {
                let i = choose|i: int| 0 <= i < done.len() && (#[trigger] done[i]).key == key;
                assert(rest[i].key == key);
                let j = choose|j: int|
                    0 <= j < rest.len() && (#[trigger] rest[j]).key == key && after_uploads(
                        cache,
                        rest,
                        listed,
                    ).recall(key) == Some(entry_sent(rest[j], listed));
                assert(done[j].key == key);
            } else {
                assert forall|i: int| 0 <= i < rest.len() implies (#[trigger] rest[i]).key
                    != key by {
                    assert(done[i].key != key);
                }
            }
        }
    }
}

/// What is remembered once keys were forgotten.
pub proof fn lemma_removals_recall(cache: CacheView, gone: Seq<Seq<char>>, key: Seq<char>)
    requires
        !gone.contains(key),
    ensures
        after_removals(cache, gone).recall(key) == cache.recall(key),
    decreases gone.len(),
{
    if gone.len() > 0 {
        let rest = gone.drop_last();
        assert(gone[gone.len() - 1] != key);
        if rest.contains(key) {
            assert(gone[rest.index_of(key)] == key);
        }
        lemma_removals_recall(cache, rest, key);
    }
}

/// One key more of a list, as a set.
pub proof fn lemma_take_set(keys: Seq<Seq<char>>, i: int)
    requires
        0 <= i < keys.len(),
    ensures
        keys.take(i + 1).to_set() == keys.take(i).to_set().insert(keys[i]),
{
    let part = keys.take(i);
    let more = keys.take(i + 1);
    assert forall|k: Seq<char>| more.contains(k) <==> part.contains(k) || k == keys[i] by {
        if part.contains(k) {
            assert(more[part.index_of(k)] == k);
        }
        assert(more[i] == keys[i]);
        if more.contains(k) {
            let j = more.index_of(k);
            if j < i {
                assert(part[j] == k);
            }
        }
    }
    assert(more.to_set() =~= part.to_set().insert(keys[i]));
}

/// The keys that notices of one kind are about, in the order of the notices.
pub open spec fn keys_with(notices: Seq<NoticeView>, kind: NoticeKind) -> Seq<Seq<char>> {
    notices.filter(|notice: NoticeView| notice.kind == kind).map_values(
        |notice: NoticeView| notice.key,
    )
}

/// One notice more at the end of a list.
pub proof fn lemma_keys_with_push(notices: Seq<NoticeView>, notice: NoticeView, kind: NoticeKind)
    ensures
        keys_with(notices.push(notice), kind) == if notice.kind == kind {
            keys_with(notices, kind).push(notice.key)
        } else {
            keys_with(notices, kind)
        },
{
    reveal(Seq::filter);
    let wanted = |n: NoticeView| n.kind == kind;
    assert(notices.push(notice).drop_last() =~= notices);
    assert(keys_with(notices.push(notice), kind) =~= if notice.kind == kind {
        keys_with(notices, kind).push(notice.key)
    } else {
        keys_with(notices, kind)
    });
}

/// There are no keys without notices.
pub proof fn lemma_keys_with_none(kind: NoticeKind)
    ensures
        keys_with(Seq::empty(), kind) == Seq::<Seq<char>>::empty(),
{
    reveal(Seq::filter);
    assert(keys_with(Seq::empty(), kind) =~= Seq::<Seq<char>>::empty());
}

/// An operation without a prefix has to do with every key, and one with a prefix with exactly
/// the keys that go on from it.
pub proof fn law_prefix_limits_the_keys(prefix: Seq<char>, key: Seq<char>)
    ensures
        in_scope(None, key),
        in_scope(Some(prefix), prefix + key),
        in_scope(Some(prefix), key) <==> exists|rest: Seq<char>| key == #[trigger] (prefix + rest),
{
    crate::text::law_prefix_is_what_comes_first(key, prefix, key);
}

/// What is remembered of a file that is the same as its object is the file's checksum and time
/// and the object's tag and time.
pub proof fn law_entry_tells_file_and_object(md5: Seq<char>, mtime: i64, object: ObjectView)
    ensures
        ({
            let entry = entry_of(md5, mtime, object);
            &&& entry.md5 == md5
            &&& entry.mtime == mtime
            &&& entry.etag == object.etag
            &&& entry.last_modified == rfc3339(object.last_modified)
        }),
{
}

/// Once files were sent, the last sending under a key is what is remembered of it: the checksum
/// and time that were sent, with the tag and time of the object that was listed before, if there
/// was one. Nothing else changes.
pub proof fn law_sent_files_are_remembered(
    cache: CacheView,
    done: Seq<UploadView>,
    listed: Map<Seq<char>, ObjectView>,
    key: Seq<char>,
    at: int,
)
    ensures
        0 <= at < done.len() && done[at].key == key && (forall|j: int|
            at < j < done.len() ==> (#[trigger] done[j]).key != key) ==> (after_uploads(
            cache,
            done,
            listed,
        ).recall(key) matches Some(entry) && entry.md5 == done[at].md5 && entry.mtime
            == done[at].mtime && (listed.contains_key(key) ==> entry.etag == listed[key].etag
            && entry.last_modified == rfc3339(listed[key].last_modified)) && (!listed.contains_key(
            key,
        ) ==> entry.etag.len() == 0 && entry.last_modified.len() == 0)),
        (forall|j: int| 0 <= j < done.len() ==> (#[trigger] done[j]).key != key) ==> after_uploads(
            cache,
            done,
            listed,
        ).recall(key) == cache.recall(key),
    decreases done.len(),
{
    if done.len() > 0 {
        let rest = done.drop_last();
        law_sent_files_are_remembered(cache, rest, listed, key, at);
        assert(forall|j: int| 0 <= j < rest.len() ==> #[trigger] rest[j] == done[j]);
        assert(done[done.len() - 1] == done.last());
    }
}

/// Once keys were deleted nothing is remembered of them, and of the others what was.
pub proof fn law_deleted_keys_are_forgotten(cache: CacheView, gone: Seq<Seq<char>>, key: Seq<char>)
    ensures
        after_removals(cache, gone).recall(key) == if gone.contains(key) {
            None
        } else {
            cache.recall(key)
        },
    decreases gone.len(),
{
    if gone.len() > 0 {
        let rest = gone.drop_last();
        law_deleted_keys_are_forgotten(cache, rest, key);
        if rest.contains(key) {
            assert(gone[rest.index_of(key)] == key);
        }
        if gone.contains(key) && !rest.contains(key) {
            let at = gone.index_of(key);
            if at < rest.len() {
                assert(rest[at] == key);
            }
        }
        assert(gone[gone.len() - 1] == gone.last());
    }
}

/// Notices of one kind on several keys name each of these keys, in order, and are of that kind
/// alone.
pub proof fn law_notices_name_each_key(kind: NoticeKind, keys: Seq<Seq<char>>)
    ensures
        notices_on(kind, keys).len() == keys.len(),
        forall|i: int|
            0 <= i < keys.len() ==> (#[trigger] notices_on(kind, keys)[i]).key == keys[i]
                && notices_on(kind, keys)[i].kind == kind,
{
}

} // verus!
