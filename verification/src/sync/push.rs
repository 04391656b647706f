//! Upload from the local directory to the bucket.
use vstd::prelude::*;
use vstd::string::*;

use crate::cache::{entry_view, Cache, CacheEntry, CacheView, EntryView};
use crate::checksum::{
    law_plain_etag_drops_only_quotes, multipart, normalize_etag, plain_etag,
};
use crate::filter::{texts, Filter, Patterns};
use crate::keys::{ascending, in_order, lemma_in_order, KeyMap, KeySet};
use crate::local::{unmodified, LocalFile, LocalView};
use crate::s3::{ObjectView, S3Object};
use crate::sync::pull::file_under;
use crate::sync::transfer::{Sides, StepView};
use crate::sync::{
    after_removals, after_uploads, entry_for, entry_of, entry_sent, keys_with,
    lemma_filter_ascending, lemma_filter_holds, lemma_filter_push, lemma_keys_with_none,
    lemma_keys_with_push, lemma_removals_recall, lemma_uploads_recall, notice_views, notices_on,
    notify, sent_before, text_view, upload_views, was_sent, Notice, NoticeKind, NoticeView, Upload,
    UploadView,
};
use crate::text::{
    contains_char, has_prefix, join, law_trim_end_takes_off_the_run, lemma_less_asymmetric,
    same_text, text_less, trim_end, trim_end_matches,
};
use crate::time::rfc3339;

verus! {

/// The key under which the local file with the key `key` is sent: `prefix` itself for the file
/// that has that name, else below the directory `prefix`, if there is a prefix.
pub open spec fn effective_key(prefix: Option<Seq<char>>, key: Seq<char>) -> Seq<char> {
    match prefix {
        Some(p) => if key == p {
            p
        } else {
            trim_end(p, '/').push('/') + key
        },
        None => key,
    }
}

/// The key under which the local file with the key `key` is sent.
pub fn remote_key(prefix: Option<&str>, key: &str) -> (effective: String)
    ensures
        effective@ == effective_key(text_view(prefix), key@),
{
    match prefix {
        Some(p) => {
            if same_text(key, p) {
                return p.to_owned();
            }
            proof {
                reveal_strlit("/");
            }
            let mut effective: String = join(trim_end_matches(p, '/'), "/");
            assert(effective@ =~= trim_end(p@, '/').push('/'));
            effective.append(key);
            effective
        },
        None => key.to_owned(),
    }
}

/// Whether the prefix names a single file: a local file has it as its key.
pub open spec fn names_one_file(
    local: Map<Seq<char>, LocalView>,
    prefix: Option<Seq<char>>,
) -> bool {
    prefix matches Some(p) && local.contains_key(p)
}

/// Whether the local file under `source` takes part in a push: the filter lets it through, and
/// where the prefix names a single file it is that one.
pub open spec fn push_takes(
    local: Map<Seq<char>, LocalView>,
    prefix: Option<Seq<char>>,
    patterns: Patterns,
    source: Seq<char>,
) -> bool {
    patterns.select(source) && (names_one_file(local, prefix) ==> prefix == Some(source))
}

/// Whether the prefix names a single file.
fn is_one_file(local: &KeyMap<LocalFile>, prefix: Option<&str>) -> (yes: bool)
    ensures
        yes == names_one_file(local@, text_view(prefix)),
{
    match prefix {
        Some(p) => local.contains(p),
        None => false,
    }
}

/// Whether `prefix` is the text `key`.
fn is_prefix_itself(prefix: Option<&str>, key: &str) -> (yes: bool)
    ensures
        yes == (text_view(prefix) == Some(key@)),
{
    match prefix {
        Some(p) => same_text(p, key),
        None => false,
    }
}

/// Whether an entity tag is that of an object uploaded in parts.
pub fn is_multipart(etag: &str) -> (yes: bool)
    ensures
        yes == multipart(etag@),
{
    contains_char(etag, '-')
}

/// What becomes of a local file that takes part.
pub enum PushVerdict {
    /// The file is as it is remembered.
    Skip,
    /// There is no object under its key, or not the same.
    Upload,
    /// The object is the same, and is remembered as such.
    Record,
}

/// What becomes of a local file, given the object under its key and what is remembered.
pub open spec fn push_verdict(
    object: Option<ObjectView>,
    file: LocalView,
    cached: Option<EntryView>,
) -> PushVerdict {
    if sent_before(cached, file.mtime()) {
        PushVerdict::Skip
    } else {
        match object {
            None => PushVerdict::Upload,
            Some(o) => if if multipart(plain_etag(o.etag)) {
                file.instant() > o.last_modified
            } else {
                file.checksum() != plain_etag(o.etag)
            } {
                PushVerdict::Upload
            } else {
                PushVerdict::Record
            },
        }
    }
}

/// What is said of an object that may be missing.
pub open spec fn object_view(object: Option<&S3Object>) -> Option<ObjectView> {
    match object {
        Some(o) => Some(o@),
        None => None,
    }
}

/// What becomes of a local file, given the object under its key and what is remembered.
pub fn judge_push(
    object: Option<&S3Object>,
    file: &LocalFile,
    cached: Option<&CacheEntry>,
) -> (verdict: PushVerdict)
    ensures
        verdict == push_verdict(object_view(object), file@, entry_view(cached)),
{
    if was_sent(cached, file.mtime()) {
        return PushVerdict::Skip;
    }
    match object {
        None => PushVerdict::Upload,
        Some(o) => {
            let tag = normalize_etag(o.etag.as_str());
            let needed: bool = if is_multipart(tag) {
                file.time().is_after(&o.last_modified)
            } else {
                !same_text(file.checksum().as_str(), tag)
            };
            if needed {
                PushVerdict::Upload
            } else {
                PushVerdict::Record
            }
        },
    }
}

/// Whether the checksum of a local file is needed: where it is not, the file is skipped
/// whatever its content.
pub fn push_reads_content(file: &LocalFile, cached: Option<&CacheEntry>) -> (needed: bool)
    ensures
        needed == !sent_before(entry_view(cached), file@.mtime()),
        !needed ==> forall|object: Option<ObjectView>, md5: Option<Seq<char>>|
            #[trigger] push_verdict(object, file@.with_md5(md5), entry_view(cached)) is Skip,
{
    !was_sent(cached, file.mtime())
}

/// How far a push has been planned: what to send, which keys took part, what to report, and
/// what is remembered.
#[verifier::ext_equal]
pub struct PushState {
    pub uploads: Seq<UploadView>,
    pub seen: Set<Seq<char>>,
    pub notices: Seq<NoticeView>,
    pub cache: CacheView,
}

/// What is under `key` in `listed`.
pub open spec fn object_under(
    listed: Map<Seq<char>, ObjectView>,
    key: Seq<char>,
) -> Option<ObjectView> {
    if listed.contains_key(key) {
        Some(listed[key])
    } else {
        None
    }
}

/// The plan with one local file more, which takes part.
pub open spec fn push_step(
    state: PushState,
    source: Seq<char>,
    key: Seq<char>,
    file: LocalView,
    object: Option<ObjectView>,
    dry_run: bool,
) -> PushState {
    let seen = state.seen.insert(key);
    match push_verdict(object, file, state.cache.recall(key)) {
        PushVerdict::Skip => PushState {
            seen,
            notices: state.notices.push(NoticeView { kind: NoticeKind::Skipped, key }),
            ..state
        },
        PushVerdict::Upload => if dry_run {
            PushState {
                seen,
                notices: state.notices.push(NoticeView { kind: NoticeKind::Uploaded, key }),
                ..state
            }
        } else {
            PushState {
                seen,
                uploads: state.uploads.push(
                    UploadView { key, source, md5: file.checksum(), mtime: file.mtime() },
                ),
                ..state
            }
        },
        PushVerdict::Record => PushState {
            seen,
            notices: state.notices.push(NoticeView { kind: NoticeKind::Skipped, key }),
            cache: state.cache.set(key, entry_of(file.checksum(), file.mtime(), object->0)),
            ..state
        },
    }
}

/// The plan for the first `n` local files, in the order of their keys.
pub open spec fn push_after(
    keys: Seq<Seq<char>>,
    local: Map<Seq<char>, LocalView>,
    listed: Map<Seq<char>, ObjectView>,
    prefix: Option<Seq<char>>,
    patterns: Patterns,
    dry_run: bool,
    cache: CacheView,
    n: nat,
) -> PushState
    decreases n,
{
    if n == 0 {
        PushState {
            uploads: Seq::empty(),
            seen: Set::empty(),
            notices: Seq::empty(),
            cache,
        }
    } else {
        let before = push_after(
            keys,
            local,
            listed,
            prefix,
            patterns,
            dry_run,
            cache,
            (n - 1) as nat,
        );
        let source = keys[n - 1];
        let key = effective_key(prefix, source);
        if push_takes(local, prefix, patterns, source) {
            push_step(before, source, key, local[source], object_under(listed, key), dry_run)
        } else {
            before
        }
    }
}

/// Whether the object under `key` is to be deleted: the filter lets it through, and no local
/// file that took part has its key.
pub open spec fn is_stale(patterns: Patterns, seen: Set<Seq<char>>, key: Seq<char>) -> bool {
    !seen.contains(key) && patterns.select(key)
}

/// The objects to delete, in the order of their keys.
pub open spec fn stale_keys(
    listed: Map<Seq<char>, ObjectView>,
    patterns: Patterns,
    seen: Set<Seq<char>>,
) -> Seq<Seq<char>> {
    in_order(listed.dom()).filter(|key: Seq<char>| is_stale(patterns, seen, key))
}

/// The objects to delete, in the order of their keys.
pub fn find_stale(listed: &KeyMap<S3Object>, seen: &KeySet, filter: &Filter) -> (stale: Vec<String>)
    ensures
        texts(stale@) == stale_keys(listed@, filter@, seen@),
{
    let mut stale: Vec<String> = Vec::new();
    let n: usize = listed.len();
    let ghost keys = listed.key_seq();
    let ghost wanted = |key: Seq<char>| is_stale(filter@, seen@, key);
    let mut i: usize = 0;
    proof {
        reveal(Seq::filter);
        assert(keys.take(0).filter(wanted) =~= Seq::empty());
        assert(texts(stale@) =~= Seq::empty());
    }
    while i < n
        invariant
            i <= n,
            n == keys.len(),
            keys == listed.key_seq(),
            wanted == (|key: Seq<char>| is_stale(filter@, seen@, key)),
            texts(stale@) == keys.take(i as int).filter(wanted),
        decreases n - i,
    {
        proof {
            lemma_filter_push(keys, wanted, i as int);
        }
        let key = listed.key_at(i);
        if !seen.contains(key.as_str()) && filter.matches(key.as_str()) {
            let ghost held = stale@;
            stale.push(key.clone());
            assert(texts(stale@) =~= texts(held).push(key@));
        }
        i = i + 1;
    }
    assert(keys.take(i as int) =~= keys);
    stale
}

/// Adds a notice of one kind for each key.
pub fn notify_all(list: &mut Vec<Notice>, kind: NoticeKind, keys: &Vec<String>)
    ensures
        notice_views(final(list)@) == notice_views(old(list)@) + notices_on(kind, texts(keys@)),
{
    let ghost start = notice_views(list@);
    let ghost all = texts(keys@);
    let mut i: usize = 0;
    proof {
        assert(start + notices_on(kind, all.take(0)) =~= start);
    }
    while i < keys.len()
        invariant
            i <= keys@.len(),
            all == texts(keys@),
            notice_views(list@) == start + notices_on(kind, all.take(i as int)),
        decreases keys@.len() - i,
    {
        notify(list, kind, keys[i].as_str());
        proof {
            assert(start + notices_on(kind, all.take(i + 1)) =~= (start + notices_on(
                kind,
                all.take(i as int),
            )).push(NoticeView { kind, key: all[i as int] }));
        }
        i = i + 1;
    }
    assert(all.take(i as int) =~= all);
}

/// What a push is to do: what to send, which objects to delete, what to report at once, and
/// how many files there are in all.
pub struct PushPlan {
    pub uploads: Vec<Upload>,
    pub deletes: Vec<String>,
    pub notices: Vec<Notice>,
    pub total: usize,
}

/// Plans a push of these local files, all that there are, over these objects. Where the prefix
/// names a single file, only that one takes part, and nothing is deleted.
pub fn push(
    listed: &KeyMap<S3Object>,
    local: &KeyMap<LocalFile>,
    prefix: Option<&str>,
    filter: &Filter,
    delete: bool,
    dry_run: bool,
    cache: &mut Cache,
) -> (plan: PushPlan)
    ensures
        ({
            let keys = in_order(local@.dom());
            let end = push_after(
                keys,
                local@,
                listed@,
                text_view(prefix),
                filter@,
                dry_run,
                old(cache)@,
                keys.len(),
            );
            let stale = if delete && !names_one_file(local@, text_view(prefix)) {
                stale_keys(listed@, filter@, end.seen)
            } else {
                Seq::empty()
            };
            &&& upload_views(plan.uploads@) == end.uploads
            &&& final(cache)@ == end.cache
            &&& texts(plan.deletes@) == if dry_run {
                Seq::empty()
            } else {
                stale
            }
            &&& notice_views(plan.notices@) == end.notices + if dry_run {
                notices_on(NoticeKind::Deleted, stale)
            } else {
                Seq::empty()
            }
            &&& plan.total == keys.filter(
                |key: Seq<char>| push_takes(local@, text_view(prefix), filter@, key),
            ).len()
            &&& !dry_run ==> texts(plan.deletes@) == push_deletes(
                keys,
                local@,
                listed@,
                text_view(prefix),
                filter@,
                delete,
                old(cache)@,
            )
            &&& dry_run ==> notice_views(plan.notices@) == end.notices + notices_on(
                NoticeKind::Deleted,
                push_deletes(
                    keys,
                    local@,
                    listed@,
                    text_view(prefix),
                    filter@,
                    delete,
                    old(cache)@,
                ),
            )
        }),
        dry_run ==> plan.uploads@.len() == 0 && plan.deletes@.len() == 0,
{
    let mut uploads: Vec<Upload> = Vec::new();
    let mut seen: KeySet = KeySet::new();
    let mut notices: Vec<Notice> = Vec::new();
    let mut total: usize = 0;
    let n: usize = local.len();
    let ghost keys = local.key_seq();
    let ghost wanted = |key: Seq<char>| push_takes(local@, text_view(prefix), filter@, key);
    let single: bool = is_one_file(local, prefix);
    let ghost start = cache@;
    let mut i: usize = 0;
    proof {
        reveal(Seq::filter);
        assert(keys.take(0).filter(wanted) =~= Seq::empty());
        assert(upload_views(uploads@) =~= Seq::empty());
        assert(notice_views(notices@) =~= Seq::empty());
    }
    while i < n
        invariant
            i <= n,
            n == keys.len(),
            keys == local.key_seq(),
            wanted == (|key: Seq<char>| push_takes(local@, text_view(prefix), filter@, key)),
            single == names_one_file(local@, text_view(prefix)),
            total <= i,
            total == keys.take(i as int).filter(wanted).len(),
            ({
                let state = push_after(
                    keys,
                    local@,
                    listed@,
                    text_view(prefix),
                    filter@,
                    dry_run,
                    start,
                    i as nat,
                );
                &&& upload_views(uploads@) == state.uploads
                &&& seen@ == state.seen
                &&& notice_views(notices@) == state.notices
                &&& cache@ == state.cache
            }),
        decreases n - i,
    {
        proof {
            lemma_filter_push(keys, wanted, i as int);
        }
        let source = local.key_at(i);
        if filter.matches(source.as_str()) && (!single || is_prefix_itself(
            prefix,
            source.as_str(),
        )) {
            total = total + 1;
            let file = local.value_at(i);
            let key: String = remote_key(prefix, source.as_str());
            seen.insert(key.clone());
            let object = listed.get(key.as_str());
            let verdict = judge_push(object, file, cache.get(key.as_str()));
            match verdict {
                PushVerdict::Skip => {
                    notify(&mut notices, NoticeKind::Skipped, key.as_str());
                },
                PushVerdict::Upload => {
                    if dry_run {
                        notify(&mut notices, NoticeKind::Uploaded, key.as_str());
                    } else {
                        let ghost held = uploads@;
                        let upload = Upload {
                            key,
                            source: source.clone(),
                            md5: file.checksum(),
                            mtime: file.mtime(),
                        };
                        let ghost said = upload@;
                        uploads.push(upload);
                        assert(upload_views(uploads@) =~= upload_views(held).push(said));
                    }
                },
                PushVerdict::Record => {
                    notify(&mut notices, NoticeKind::Skipped, key.as_str());
                    match object {
                        Some(o) => {
                            cache.set(key, entry_for(file.checksum(), file.mtime(), o));
                        },
                        None => {},
                    }
                },
            }
        }
        i = i + 1;
    }
    proof {
        assert(keys.take(i as int) =~= keys);
    }
    proof {
        law_dry_push_foretells(
            keys,
            local@,
            listed@,
            text_view(prefix),
            filter@,
            start,
            keys.len(),
        );
        assert(dry_run ==> upload_views(uploads@).len() == 0);
    }
    let mut deletes: Vec<String> = Vec::new();
    let ghost reported = notice_views(notices@);
    if delete && !single {
        let stale: Vec<String> = find_stale(listed, &seen, filter);
        if dry_run {
            notify_all(&mut notices, NoticeKind::Deleted, &stale);
        } else {
            deletes = stale;
        }
    }
    proof {
        assert(texts(Seq::<String>::empty()) =~= Seq::empty());
        assert(notices_on(NoticeKind::Deleted, Seq::empty()) =~= Seq::empty());
        assert(reported + Seq::<NoticeView>::empty() =~= reported);
    }
    PushPlan { uploads, deletes, notices, total }
}

/// A push sends no two files under one key.
pub proof fn law_effective_key_injective(
    local: Map<Seq<char>, LocalView>,
    prefix: Option<Seq<char>>,
    patterns: Patterns,
    a: Seq<char>,
    b: Seq<char>,
)
    requires
        local.contains_key(a),
        local.contains_key(b),
        push_takes(local, prefix, patterns, a),
        push_takes(local, prefix, patterns, b),
        effective_key(prefix, a) == effective_key(prefix, b),
    ensures
        a == b,
{
    match prefix {
        Some(p) => {
            if !local.contains_key(p) {
                let d = trim_end(p, '/').push('/');
                assert((d + a).skip(d.len() as int) =~= a);
                assert((d + b).skip(d.len() as int) =~= b);
            }
        },
        None => {},
    }
}

/// A push with a prefix stays below that directory; with the name of a single file, that file
/// alone takes part, under its own name.
pub proof fn law_push_keeps_to_prefix(
    local: Map<Seq<char>, LocalView>,
    prefix: Seq<char>,
    patterns: Patterns,
    key: Seq<char>,
)
    requires
        local.contains_key(key),
        push_takes(local, Some(prefix), patterns, key),
    ensures
        effective_key(Some(prefix), prefix) == prefix,
        local.contains_key(prefix) ==> key == prefix,
        !local.contains_key(prefix) ==> has_prefix(
            effective_key(Some(prefix), key),
            trim_end(prefix, '/').push('/'),
        ),
{
    let directory = trim_end(prefix, '/').push('/');
    assert((directory + key).take(directory.len() as int) =~= directory);
}

/// A file that was sent, or found the same, is skipped by the next push as long as its
/// modification time stays, provided its content could be read.
pub proof fn law_push_again_skips(
    upload: UploadView,
    listed: Map<Seq<char>, ObjectView>,
    object: Option<ObjectView>,
    file: LocalView,
)
    requires
        upload.md5.len() > 0,
        file.mtime() == upload.mtime,
    ensures
        push_verdict(object, file, Some(entry_sent(upload, listed))) is Skip,
{
}

/// What a push plans for the first `n` files: each file that takes part is dealt with once, its
/// key is kept from deletion, and a dry run sends nothing.
pub proof fn law_push_accounts_for_all(
    keys: Seq<Seq<char>>,
    local: Map<Seq<char>, LocalView>,
    listed: Map<Seq<char>, ObjectView>,
    prefix: Option<Seq<char>>,
    patterns: Patterns,
    dry_run: bool,
    cache: CacheView,
    n: nat,
)
    requires
        n <= keys.len(),
    ensures
        ({
            let state = push_after(keys, local, listed, prefix, patterns, dry_run, cache, n);
            &&& state.uploads.len() + state.notices.len() == keys.take(n as int).filter(
                |key: Seq<char>| push_takes(local, prefix, patterns, key),
            ).len()
            &&& dry_run ==> state.uploads.len() == 0
            &&& forall|i: int|
                0 <= i < n && push_takes(local, prefix, patterns, #[trigger] keys[i])
                    ==> state.seen.contains(
                    effective_key(prefix, keys[i]),
                )
            &&& forall|u: int|
                0 <= u < state.uploads.len() ==> (#[trigger] state.uploads[u]).key
                    == effective_key(prefix, state.uploads[u].source) && push_takes(
                    local,
                    prefix,
                    patterns,
                    state.uploads[u].source,
                )
        }),
    decreases n,
{
    reveal(Seq::filter);
    let wanted = |key: Seq<char>| push_takes(local, prefix, patterns, key);
    if n > 0 {
        let m = (n - 1) as nat;
        law_push_accounts_for_all(keys, local, listed, prefix, patterns, dry_run, cache, m);
        assert(keys.take(n as int).drop_last() =~= keys.take(m as int));
        let before = push_after(keys, local, listed, prefix, patterns, dry_run, cache, m);
        let state = push_after(keys, local, listed, prefix, patterns, dry_run, cache, n);
        assert forall|u: int| 0 <= u < state.uploads.len() implies (#[trigger] state.uploads[u]).key
            == effective_key(prefix, state.uploads[u].source) && push_takes(
            local,
            prefix,
            patterns,
            state.uploads[u].source,
        ) by {
            if u < before.uploads.len() {
                assert(before.uploads[u] == state.uploads[u]);
            }
        }
    } else {
        assert(keys.take(0).filter(wanted) =~= Seq::empty());
    }
}

/// A push that deletes leaves exactly the listed objects alone that a local file stands for or
/// that the filter keeps out.
pub proof fn law_push_deletes_exactly_stale(
    listed: Map<Seq<char>, ObjectView>,
    patterns: Patterns,
    seen: Set<Seq<char>>,
    key: Seq<char>,
)
    requires
        listed.dom().finite(),
    ensures
        stale_keys(listed, patterns, seen).contains(key) <==> listed.contains_key(key)
            && !seen.contains(key) && patterns.select(key),
{
    lemma_in_order(listed.dom());
    lemma_filter_holds(
        in_order(listed.dom()),
        |k: Seq<char>| is_stale(patterns, seen, k),
        key,
    );
    assert(in_order(listed.dom()).to_set().contains(key) <==> listed.contains_key(key));
}

/// Whether the local file under `source` is to be sent: it takes part, and what is under its key
/// in the bucket and remembered of it at the start calls for it.
pub open spec fn push_sends(
    local: Map<Seq<char>, LocalView>,
    listed: Map<Seq<char>, ObjectView>,
    prefix: Option<Seq<char>>,
    patterns: Patterns,
    cache: CacheView,
    source: Seq<char>,
) -> bool {
    let key = effective_key(prefix, source);
    push_takes(local, prefix, patterns, source) && push_verdict(
        object_under(listed, key),
        local[source],
        cache.recall(key),
    ) is Upload
}

/// How the local file under `source` is sent.
pub open spec fn sent_as(
    local: Map<Seq<char>, LocalView>,
    prefix: Option<Seq<char>>,
    source: Seq<char>,
) -> UploadView {
    UploadView {
        key: effective_key(prefix, source),
        source,
        md5: local[source].checksum(),
        mtime: local[source].mtime(),
    }
}

/// What is remembered under the key of `source` once the push was planned.
spec fn push_records(
    local: Map<Seq<char>, LocalView>,
    listed: Map<Seq<char>, ObjectView>,
    prefix: Option<Seq<char>>,
    cache: CacheView,
    source: Seq<char>,
) -> Option<EntryView> {
    let key = effective_key(prefix, source);
    if push_verdict(object_under(listed, key), local[source], cache.recall(key)) is Record {
        Some(entry_of(local[source].checksum(), local[source].mtime(), listed[key]))
    } else {
        cache.recall(key)
    }
}

proof fn lemma_push_sends(
    keys: Seq<Seq<char>>,
    local: Map<Seq<char>, LocalView>,
    listed: Map<Seq<char>, ObjectView>,
    prefix: Option<Seq<char>>,
    patterns: Patterns,
    cache: CacheView,
    n: nat,
)
    requires
        ascending(keys),
        forall|i: int| 0 <= i < keys.len() ==> local.contains_key(#[trigger] keys[i]),
        n <= keys.len(),
    ensures
        ({
            let state = push_after(keys, local, listed, prefix, patterns, false, cache, n);
            &&& state.uploads == keys.take(n as int).filter(
                |source: Seq<char>| push_sends(local, listed, prefix, patterns, cache, source),
            ).map_values(|source: Seq<char>| sent_as(local, prefix, source))
            &&& forall|i: int|
                n <= i < keys.len() && push_takes(local, prefix, patterns, #[trigger] keys[i])
                    ==> state.cache.recall(effective_key(prefix, keys[i])) == cache.recall(
                    effective_key(prefix, keys[i]),
                )
            &&& forall|i: int|
                0 <= i < n && push_takes(local, prefix, patterns, #[trigger] keys[i])
                    ==> state.cache.recall(effective_key(prefix, keys[i])) == push_records(
                    local,
                    listed,
                    prefix,
                    cache,
                    keys[i],
                )
        }),
    decreases n,
{
    reveal(Seq::filter);
    let wanted = |source: Seq<char>| push_sends(local, listed, prefix, patterns, cache, source);
    let made = |source: Seq<char>| sent_as(local, prefix, source);
    let state = push_after(keys, local, listed, prefix, patterns, false, cache, n);
    if n == 0 {
        assert(keys.take(0).filter(wanted) =~= Seq::empty());
        assert(state.uploads =~= keys.take(0).filter(wanted).map_values(made));
    } else {
        let m = (n - 1) as nat;
        lemma_push_sends(keys, local, listed, prefix, patterns, cache, m);
        let before = push_after(keys, local, listed, prefix, patterns, false, cache, m);
        let source = keys[n - 1];
        assert(push_takes(local, prefix, patterns, keys[m as int]) ==> before.cache.recall(
            effective_key(prefix, source),
        ) == cache.recall(effective_key(prefix, source)));
        assert forall|i: int|
            n <= i < keys.len() && push_takes(local, prefix, patterns, #[trigger] keys[i]) implies
            state.cache.recall(effective_key(prefix, keys[i])) == cache.recall(
            effective_key(prefix, keys[i]),
        ) by {
            lemma_keys_apart(keys, local, prefix, patterns, n - 1, i);
        }
        assert forall|i: int|
            0 <= i < n && push_takes(local, prefix, patterns, #[trigger] keys[i]) implies
            state.cache.recall(effective_key(prefix, keys[i])) == push_records(
            local,
            listed,
            prefix,
            cache,
            keys[i],
        ) by {
            if i < m {
                lemma_keys_apart(keys, local, prefix, patterns, i, n - 1);
            }
        }
        lemma_filter_push(keys, wanted, m as int);
        let part = keys.take(m as int).filter(wanted);
        if wanted(source) {
            assert(part.push(source).map_values(made) =~= part.map_values(made).push(made(source)));
        }
    }
}

/// Two files that take part have different keys.
proof fn lemma_keys_apart(
    keys: Seq<Seq<char>>,
    local: Map<Seq<char>, LocalView>,
    prefix: Option<Seq<char>>,
    patterns: Patterns,
    i: int,
    j: int,
)
    requires
        ascending(keys),
        0 <= i < j < keys.len(),
        local.contains_key(keys[i]),
        local.contains_key(keys[j]),
    ensures
        push_takes(local, prefix, patterns, keys[i]) && push_takes(local, prefix, patterns, keys[j])
            ==> effective_key(prefix, keys[i]) != effective_key(prefix, keys[j]),
{
    assert(text_less(keys[i], keys[j]));
    lemma_less_asymmetric(keys[i], keys[j]);
    if push_takes(local, prefix, patterns, keys[i]) && push_takes(local, prefix, patterns, keys[j])
        && effective_key(prefix, keys[i]) == effective_key(prefix, keys[j]) {
        law_effective_key_injective(local, prefix, patterns, keys[i], keys[j]);
    }
}

/// A push sends exactly the files that are to be sent, in the order of their keys: each is
/// decided from the object under its key and from what is remembered at the start, whatever
/// becomes of the other files.
pub proof fn law_push_sends_exactly(
    keys: Seq<Seq<char>>,
    local: Map<Seq<char>, LocalView>,
    listed: Map<Seq<char>, ObjectView>,
    prefix: Option<Seq<char>>,
    patterns: Patterns,
    cache: CacheView,
)
    requires
        ascending(keys),
        forall|i: int| 0 <= i < keys.len() ==> local.contains_key(#[trigger] keys[i]),
    ensures
        push_after(keys, local, listed, prefix, patterns, false, cache, keys.len()).uploads
            == keys.filter(
            |source: Seq<char>| push_sends(local, listed, prefix, patterns, cache, source),
        ).map_values(|source: Seq<char>| sent_as(local, prefix, source)),
{
    lemma_push_sends(keys, local, listed, prefix, patterns, cache, keys.len());
    assert(keys.take(keys.len() as int) =~= keys);
}

/// Which keys took part depends on which files there are, and not on what is known of them, on
/// the bucket or on what is remembered.
proof fn lemma_push_seen(
    keys: Seq<Seq<char>>,
    local: Map<Seq<char>, LocalView>,
    local_later: Map<Seq<char>, LocalView>,
    listed: Map<Seq<char>, ObjectView>,
    listed_later: Map<Seq<char>, ObjectView>,
    prefix: Option<Seq<char>>,
    patterns: Patterns,
    cache: CacheView,
    later: CacheView,
    n: nat,
)
    requires
        n <= keys.len(),
        local.dom() == local_later.dom(),
    ensures
        push_after(keys, local, listed, prefix, patterns, false, cache, n).seen == push_after(
            keys,
            local_later,
            listed_later,
            prefix,
            patterns,
            false,
            later,
            n,
        ).seen,
    decreases n,
{
    if n > 0 {
        lemma_push_seen(
            keys,
            local,
            local_later,
            listed,
            listed_later,
            prefix,
            patterns,
            cache,
            later,
            (n - 1) as nat,
        );
    }
}

/// The objects that a push deletes.
pub open spec fn push_deletes(
    keys: Seq<Seq<char>>,
    local: Map<Seq<char>, LocalView>,
    listed: Map<Seq<char>, ObjectView>,
    prefix: Option<Seq<char>>,
    patterns: Patterns,
    delete: bool,
    cache: CacheView,
) -> Seq<Seq<char>> {
    if delete && !names_one_file(local, prefix) {
        stale_keys(
            listed,
            patterns,
            push_after(keys, local, listed, prefix, patterns, false, cache, keys.len()).seen,
        )
    } else {
        Seq::empty()
    }
}

/// What is remembered once a push was carried out and recorded.
pub open spec fn after_push(
    keys: Seq<Seq<char>>,
    local: Map<Seq<char>, LocalView>,
    listed: Map<Seq<char>, ObjectView>,
    prefix: Option<Seq<char>>,
    patterns: Patterns,
    delete: bool,
    cache: CacheView,
    sent: Seq<UploadView>,
) -> CacheView {
    let end = push_after(keys, local, listed, prefix, patterns, false, cache, keys.len());
    after_removals(
        after_uploads(end.cache, sent, listed),
        push_deletes(keys, local, listed, prefix, patterns, delete, cache),
    )
}

/// A second push does nothing: once a push succeeded and was recorded, the same push of the
/// same files sends nothing and deletes nothing, where the bucket lists nothing but what was
/// left in it and what was sent. All files that take part could be read, but for those that were
/// remembered as they are; none need be read again.
pub proof fn law_push_again_does_nothing(
    keys: Seq<Seq<char>>,
    local: Map<Seq<char>, LocalView>,
    listed: Map<Seq<char>, ObjectView>,
    prefix: Option<Seq<char>>,
    patterns: Patterns,
    delete: bool,
    cache: CacheView,
    sent: Seq<UploadView>,
    local_later: Map<Seq<char>, LocalView>,
    listed_later: Map<Seq<char>, ObjectView>,
)
    requires
        ascending(keys),
        forall|i: int| 0 <= i < keys.len() ==> local.contains_key(#[trigger] keys[i]),
        listed.dom().finite(),
        listed_later.dom().finite(),
        forall|i: int|
            0 <= i < keys.len() && push_takes(local, prefix, patterns, #[trigger] keys[i])
                && !sent_before(
                cache.recall(effective_key(prefix, keys[i])),
                local[keys[i]].mtime(),
            ) ==> local[keys[i]].checksum().len() > 0,
        forall|key: Seq<char>|
            unmodified(#[trigger] file_under(local, key), file_under(local_later, key)),
        ({
            let end = push_after(keys, local, listed, prefix, patterns, false, cache, keys.len());
            &&& forall|i: int| 0 <= i < sent.len() ==> end.uploads.contains(#[trigger] sent[i])
            &&& forall|i: int| 0 <= i < end.uploads.len() ==> sent.contains(
                #[trigger] end.uploads[i],
            )
            &&& forall|key: Seq<char>| #[trigger]
                listed_later.contains_key(key) ==> end.seen.contains(key) || (listed.contains_key(
                    key,
                ) && !push_deletes(
                    keys,
                    local,
                    listed,
                    prefix,
                    patterns,
                    delete,
                    cache,
                ).contains(key))
        }),
    ensures
        ({
            let later = after_push(
                keys,
                local,
                listed,
                prefix,
                patterns,
                delete,
                cache,
                sent,
            );
            &&& push_after(
                keys,
                local_later,
                listed_later,
                prefix,
                patterns,
                false,
                later,
                keys.len(),
            ).uploads.len() == 0
            &&& push_deletes(
                keys,
                local_later,
                listed_later,
                prefix,
                patterns,
                delete,
                later,
            ).len() == 0
        }),
{
    let end = push_after(keys, local, listed, prefix, patterns, false, cache, keys.len());
    let gone = push_deletes(keys, local, listed, prefix, patterns, delete, cache);
    let later = after_push(keys, local, listed, prefix, patterns, delete, cache, sent);
    let again = |k: Seq<char>| push_sends(local_later, listed_later, prefix, patterns, later, k);
    assert forall|key: Seq<char>| local.contains_key(key) <==> #[trigger] local_later.contains_key(
        key,
    ) by {
        assert(unmodified(file_under(local, key), file_under(local_later, key)));
    }
    assert(local.dom() =~= local_later.dom());
    law_push_sends_exactly(keys, local_later, listed_later, prefix, patterns, later);
    if keys.filter(again).len() > 0 {
        let source = keys.filter(again)[0];
        assert(keys.filter(again).contains(source));
        lemma_filter_holds(keys, again, source);
        assert(unmodified(file_under(local, source), file_under(local_later, source)));
        lemma_push_skips(
            keys,
            local,
            listed,
            prefix,
            patterns,
            delete,
            cache,
            sent,
            keys.index_of(source),
        );
    }
    lemma_push_seen(
        keys,
        local,
        local_later,
        listed,
        listed_later,
        prefix,
        patterns,
        cache,
        later,
        keys.len(),
    );
    let stale = push_deletes(keys, local_later, listed_later, prefix, patterns, delete, later);
    if stale.len() > 0 {
        let key = stale[0];
        assert(stale.contains(key));
        law_push_deletes_exactly_stale(listed_later, patterns, end.seen, key);
        law_push_deletes_exactly_stale(listed, patterns, end.seen, key);
    }
}

/// Once a push was recorded, what is remembered of each file that takes part lets the next one
/// skip it.
proof fn lemma_push_skips(
    keys: Seq<Seq<char>>,
    local: Map<Seq<char>, LocalView>,
    listed: Map<Seq<char>, ObjectView>,
    prefix: Option<Seq<char>>,
    patterns: Patterns,
    delete: bool,
    cache: CacheView,
    sent: Seq<UploadView>,
    at: int,
)
    requires
        ascending(keys),
        forall|i: int| 0 <= i < keys.len() ==> local.contains_key(#[trigger] keys[i]),
        listed.dom().finite(),
        0 <= at < keys.len(),
        push_takes(local, prefix, patterns, keys[at]),
        sent_before(cache.recall(effective_key(prefix, keys[at])), local[keys[at]].mtime())
            || local[keys[at]].checksum().len() > 0,
        ({
            let end = push_after(keys, local, listed, prefix, patterns, false, cache, keys.len());
            &&& forall|i: int| 0 <= i < sent.len() ==> end.uploads.contains(#[trigger] sent[i])
            &&& forall|i: int| 0 <= i < end.uploads.len() ==> sent.contains(
                #[trigger] end.uploads[i],
            )
        }),
    ensures
        sent_before(
            after_push(keys, local, listed, prefix, patterns, delete, cache, sent).recall(
                effective_key(prefix, keys[at]),
            ),
            local[keys[at]].mtime(),
        ),
{
    let source = keys[at];
    let key = effective_key(prefix, source);
    let file = local[source];
    let end = push_after(keys, local, listed, prefix, patterns, false, cache, keys.len());
    let gone = push_deletes(keys, local, listed, prefix, patterns, delete, cache);
    let wanted = |k: Seq<char>| push_sends(local, listed, prefix, patterns, cache, k);
    let kept = keys.filter(wanted);
    law_push_sends_exactly(keys, local, listed, prefix, patterns, cache);
    lemma_push_sends(keys, local, listed, prefix, patterns, cache, keys.len());
    law_push_accounts_for_all(
        keys,
        local,
        listed,
        prefix,
        patterns,
        false,
        cache,
        keys.len(),
    );
    assert(end.seen.contains(effective_key(prefix, keys[at])));
    if gone.contains(key) {
        law_push_deletes_exactly_stale(listed, patterns, end.seen, key);
    }
    lemma_removals_recall(after_uploads(end.cache, sent, listed), gone, key);
    lemma_uploads_recall(end.cache, sent, listed, key);
    let found = after_uploads(end.cache, sent, listed).recall(key);
    if exists|i: int| 0 <= i < sent.len() && (#[trigger] sent[i]).key == key {
        let i = choose|i: int|
            0 <= i < sent.len() && (#[trigger] sent[i]).key == key && found == Some(
                entry_sent(sent[i], listed),
            );
        let u = end.uploads.index_of(sent[i]);
        assert(end.uploads[u] == sent_as(local, prefix, kept[u]));
        assert(kept.contains(kept[u]));
        lemma_filter_holds(keys, wanted, kept[u]);
        let from = keys.index_of(kept[u]);
        assert(local.contains_key(keys[from]));
        law_effective_key_injective(local, prefix, patterns, kept[u], source);
    } else {
        if push_sends(local, listed, prefix, patterns, cache, source) {
            lemma_filter_holds(keys, wanted, source);
            let u = kept.index_of(source);
            assert(end.uploads[u] == sent_as(local, prefix, source));
            assert(sent.contains(end.uploads[u]));
            assert(sent[sent.index_of(end.uploads[u])].key == key);
        }
        assert(found == push_records(local, listed, prefix, cache, keys[at]));
    }
}

/// The steps that send these files.
pub open spec fn send_steps(uploads: Seq<UploadView>) -> Seq<StepView> {
    Seq::new(
        uploads.len(),
        |i: int|
            StepView::Send {
                key: uploads[i].key,
                from: uploads[i].source,
                md5: uploads[i].md5,
                mtime: uploads[i].mtime,
            },
    )
}

proof fn lemma_sent(sides: Sides, uploads: Seq<UploadView>, n: nat)
    requires
        n <= uploads.len(),
        forall|i: int, j: int|
            0 <= i < j < uploads.len() ==> (#[trigger] uploads[i]).key != (
            #[trigger] uploads[j]).key,
    ensures
        ({
            let end = sides.after(send_steps(uploads), n);
            &&& end.local == sides.local
            &&& forall|i: int|
                0 <= i < n ==> end.remote.contains_key((#[trigger] uploads[i]).key)
                    && end.remote[uploads[i].key] == sides.local[uploads[i].source]
        }),
    decreases n,
{
    if n > 0 {
        let m = (n - 1) as nat;
        lemma_sent(sides, uploads, m);
        let before = sides.after(send_steps(uploads), m);
        let end = sides.after(send_steps(uploads), n);
        assert forall|i: int| 0 <= i < n implies end.remote.contains_key(
            (#[trigger] uploads[i]).key,
        ) && end.remote[uploads[i].key] == sides.local[uploads[i].source] by {
            if i < m {
                assert(before.remote.contains_key(uploads[i].key));
                assert(uploads[i].key != uploads[n - 1].key);
            }
        }
    }
}

/// Once every file of a push was sent, the bucket holds the content of each of them under its
/// key, and the local directory is as it was.
pub proof fn law_push_brings_files(
    keys: Seq<Seq<char>>,
    local: Map<Seq<char>, LocalView>,
    listed: Map<Seq<char>, ObjectView>,
    prefix: Option<Seq<char>>,
    patterns: Patterns,
    cache: CacheView,
    sides: Sides,
    source: Seq<char>,
)
    requires
        ascending(keys),
        forall|i: int| 0 <= i < keys.len() ==> local.contains_key(#[trigger] keys[i]),
        keys.contains(source),
        push_sends(local, listed, prefix, patterns, cache, source),
    ensures
        ({
            let uploads = push_after(
                keys,
                local,
                listed,
                prefix,
                patterns,
                false,
                cache,
                keys.len(),
            ).uploads;
            let end = sides.after(send_steps(uploads), uploads.len());
            let key = effective_key(prefix, source);
            &&& end.remote.contains_key(key)
            &&& end.remote[key] == sides.local[source]
            &&& end.local == sides.local
        }),
{
    let wanted = |k: Seq<char>| push_sends(local, listed, prefix, patterns, cache, k);
    let kept = keys.filter(wanted);
    let uploads = push_after(
        keys,
        local,
        listed,
        prefix,
        patterns,
        false,
        cache,
        keys.len(),
    ).uploads;
    law_push_sends_exactly(keys, local, listed, prefix, patterns, cache);
    lemma_filter_ascending(keys, wanted);
    assert forall|i: int| 0 <= i < uploads.len() implies #[trigger] uploads[i] == sent_as(
        local,
        prefix,
        kept[i],
    ) by {}
    assert forall|i: int, j: int| 0 <= i < j < uploads.len() implies (
    #[trigger] uploads[i]).key != (#[trigger] uploads[j]).key by {
        assert(uploads[i] == sent_as(local, prefix, kept[i]));
        assert(uploads[j] == sent_as(local, prefix, kept[j]));
        assert(text_less(kept[i], kept[j]));
        lemma_less_asymmetric(kept[i], kept[j]);
        assert(kept.contains(kept[i]) && kept.contains(kept[j]));
        lemma_filter_holds(keys, wanted, kept[i]);
        lemma_filter_holds(keys, wanted, kept[j]);
        assert(local.contains_key(keys[keys.index_of(kept[i])]));
        assert(local.contains_key(keys[keys.index_of(kept[j])]));
        if uploads[i].key == uploads[j].key {
            law_effective_key_injective(local, prefix, patterns, kept[i], kept[j]);
        }
    }
    lemma_sent(sides, uploads, uploads.len());
    lemma_filter_holds(keys, wanted, source);
    let at = kept.index_of(source);
    assert(uploads[at] == sent_as(local, prefix, source));
}

/// What becomes of a local file in a push. Where there is no object it is sent; where the
/// object's tag is a checksum the content decides, whatever the times: it is sent exactly when its
/// checksum is another; where the tag is none the times decide: it is sent exactly when it is
/// later than the object. Nothing is done about a file that was sent with the time that it has.
pub proof fn law_push_sends_what_differs(
    object: ObjectView,
    file: LocalView,
    cached: Option<EntryView>,
)
    ensures
        ({
            let known = cached matches Some(entry) && entry.mtime == file.mtime()
                && entry.md5.len() > 0;
            let verdict = push_verdict(Some(object), file, cached);
            let tag = plain_etag(object.etag);
            let same = file.checksum() == tag;
            let parts = tag.contains('-');
            &&& push_verdict(None, file, cached) is Skip <==> known
            &&& push_verdict(None, file, cached) is Upload <==> !known
            &&& verdict is Skip <==> known
            &&& !known && !parts ==> (verdict is Upload <==> !same)
            &&& !known && !parts ==> (verdict is Record <==> same)
            &&& !known && parts ==> (verdict is Upload <==> file.instant()
                > object.last_modified)
            &&& !known && parts ==> (verdict is Record <==> file.instant()
                <= object.last_modified)
        }),
{
}

/// A push never leaves an object in place of a file that is later and shown to differ, unless
/// that file was sent with the time that it has.
pub proof fn law_push_never_keeps_an_outdated_object(
    object: ObjectView,
    file: LocalView,
    cached: Option<EntryView>,
)
    requires
        file.instant() > object.last_modified,
        file.md5 != Some(plain_etag(object.etag)) || object.etag.contains('-'),
        file.md5 is Some,
        cached matches Some(entry) ==> entry.mtime != file.mtime() || entry.md5.len() == 0,
    ensures
        push_verdict(Some(object), file, cached) is Upload,
{
    law_plain_etag_drops_only_quotes(object.etag);
}

/// Whether the tag has a hyphen is all that tells an object uploaded in parts.
pub proof fn law_hyphen_tells_parts(etag: Seq<char>)
    ensures
        multipart(etag) <==> exists|i: int| 0 <= i < etag.len() && #[trigger] etag[i] == '-',
        multipart(plain_etag(etag)) <==> multipart(etag),
{
    law_plain_etag_drops_only_quotes(etag);
}

/// Without a prefix a file is sent under its own key. With one it is sent below that directory,
/// written with slashes at the end or without; the file that has the prefix itself for its key is
/// sent under that.
pub proof fn law_file_is_sent_below_the_prefix(directory: Seq<char>, key: Seq<char>, slashes: nat)
    requires
        directory.len() > 0 ==> directory.last() != '/',
    ensures
        effective_key(None, key) == key,
        ({
            let prefix = directory + Seq::new(slashes, |i: int| '/');
            effective_key(Some(prefix), key) == if key == prefix {
                key
            } else {
                directory + seq!['/'] + key
            }
        }),
{
    let prefix = directory + Seq::new(slashes, |i: int| '/');
    law_trim_end_takes_off_the_run(directory, '/', slashes);
    assert(trim_end(prefix, '/') == directory);
    assert(directory.push('/') + key =~= directory + seq!['/'] + key);
}

/// A file takes part in a push exactly when the filter lets its key through and, where the
/// prefix is the key of a file, it is that one.
pub proof fn law_push_takes_exactly(
    local: Map<Seq<char>, LocalView>,
    prefix: Seq<char>,
    patterns: Patterns,
    key: Seq<char>,
)
    ensures
        push_takes(local, None, patterns, key) <==> patterns.select(key),
        local.contains_key(prefix) ==> (push_takes(local, Some(prefix), patterns, key) <==> key
            == prefix && patterns.select(prefix)),
        !local.contains_key(prefix) ==> (push_takes(local, Some(prefix), patterns, key)
            <==> patterns.select(key)),
{
}

/// What is sent of a file is its checksum and modification time, from where it is.
pub proof fn law_push_sends_files_as_they_are(
    keys: Seq<Seq<char>>,
    local: Map<Seq<char>, LocalView>,
    listed: Map<Seq<char>, ObjectView>,
    prefix: Option<Seq<char>>,
    patterns: Patterns,
    cache: CacheView,
    n: nat,
)
    requires
        n <= keys.len(),
    ensures
        ({
            let uploads = push_after(keys, local, listed, prefix, patterns, false, cache, n).uploads;
            forall|u: int|
                0 <= u < uploads.len() ==> {
                    let upload = #[trigger] uploads[u];
                    &&& keys.contains(upload.source)
                    &&& upload.md5 == local[upload.source].checksum()
                    &&& upload.mtime == local[upload.source].mtime()
                    &&& upload.key == effective_key(prefix, upload.source)
                }
        }),
    decreases n,
{
    if n > 0 {
        let m = (n - 1) as nat;
        law_push_sends_files_as_they_are(keys, local, listed, prefix, patterns, cache, m);
        let before = push_after(keys, local, listed, prefix, patterns, false, cache, m).uploads;
        let uploads = push_after(keys, local, listed, prefix, patterns, false, cache, n).uploads;
        assert forall|u: int| 0 <= u < uploads.len() implies {
            let upload = #[trigger] uploads[u];
            &&& keys.contains(upload.source)
            &&& upload.md5 == local[upload.source].checksum()
            &&& upload.mtime == local[upload.source].mtime()
            &&& upload.key == effective_key(prefix, upload.source)
        } by {
            if u < before.len() {
                assert(uploads[u] == before[u]);
            } else {
                assert(keys[m as int] == uploads[u].source);
            }
        }
    }
}

/// A push that is not asked to delete, or whose prefix is the key of a file, deletes nothing.
pub proof fn law_push_deletes_on_request_alone(
    keys: Seq<Seq<char>>,
    local: Map<Seq<char>, LocalView>,
    listed: Map<Seq<char>, ObjectView>,
    prefix: Option<Seq<char>>,
    patterns: Patterns,
    cache: CacheView,
    file: Seq<char>,
)
    ensures
        push_deletes(keys, local, listed, prefix, patterns, false, cache).len() == 0,
        local.contains_key(file) ==> push_deletes(
            keys,
            local,
            listed,
            Some(file),
            patterns,
            true,
            cache,
        ).len() == 0,
{
}

/// A push that deletes, and whose prefix is not the key of a file, deletes an object exactly when
/// the filter lets its key through and no file that takes part is sent under it.
pub proof fn law_push_deletes_what_has_no_file(
    keys: Seq<Seq<char>>,
    local: Map<Seq<char>, LocalView>,
    listed: Map<Seq<char>, ObjectView>,
    prefix: Option<Seq<char>>,
    patterns: Patterns,
    cache: CacheView,
    key: Seq<char>,
)
    requires
        listed.dom().finite(),
        prefix matches Some(p) ==> !local.contains_key(p),
    ensures
        push_deletes(keys, local, listed, prefix, patterns, true, cache).contains(key)
            <==> listed.contains_key(key) && patterns.select(key) && forall|i: int|
            0 <= i < keys.len() && patterns.select(#[trigger] keys[i]) ==> effective_key(
                prefix,
                keys[i],
            ) != key,
{
    let end = push_after(keys, local, listed, prefix, patterns, false, cache, keys.len());
    law_push_deletes_exactly_stale(listed, patterns, end.seen, key);
    lemma_seen(keys, local, listed, prefix, patterns, cache, key, keys.len());
}

proof fn lemma_seen(
    keys: Seq<Seq<char>>,
    local: Map<Seq<char>, LocalView>,
    listed: Map<Seq<char>, ObjectView>,
    prefix: Option<Seq<char>>,
    patterns: Patterns,
    cache: CacheView,
    key: Seq<char>,
    n: nat,
)
    requires
        n <= keys.len(),
    ensures
        push_after(keys, local, listed, prefix, patterns, false, cache, n).seen.contains(key)
            <==> exists|i: int|
            0 <= i < n && push_takes(local, prefix, patterns, #[trigger] keys[i])
                && effective_key(prefix, keys[i]) == key,
    decreases n,
{
    if n > 0 {
        let m = (n - 1) as nat;
        lemma_seen(keys, local, listed, prefix, patterns, cache, key, m);
        if exists|i: int|
            0 <= i < m && push_takes(local, prefix, patterns, #[trigger] keys[i])
                && effective_key(prefix, keys[i]) == key {
            let i = choose|i: int|
                0 <= i < m && push_takes(local, prefix, patterns, #[trigger] keys[i])
                    && effective_key(prefix, keys[i]) == key;
            assert(0 <= i < n && push_takes(local, prefix, patterns, keys[i]));
        }
        assert(keys[n - 1] == keys[m as int]);
    }
}

/// A dry push foretells the real one: it reports as uploaded exactly the keys under which the
/// real one sends, in order, reports as skipped what the real one does, and comes to remember the
/// same. The real one reports nothing but what it skips.
pub proof fn law_dry_push_foretells(
    keys: Seq<Seq<char>>,
    local: Map<Seq<char>, LocalView>,
    listed: Map<Seq<char>, ObjectView>,
    prefix: Option<Seq<char>>,
    patterns: Patterns,
    cache: CacheView,
    n: nat,
)
    requires
        n <= keys.len(),
    ensures
        ({
            let dry = push_after(keys, local, listed, prefix, patterns, true, cache, n);
            let live = push_after(keys, local, listed, prefix, patterns, false, cache, n);
            &&& dry.uploads.len() == 0
            &&& keys_with(dry.notices, NoticeKind::Uploaded) == live.uploads.map_values(
                |upload: UploadView| upload.key,
            )
            &&& keys_with(dry.notices, NoticeKind::Skipped) == keys_with(
                live.notices,
                NoticeKind::Skipped,
            )
            &&& keys_with(live.notices, NoticeKind::Skipped).len() == live.notices.len()
            &&& dry.cache == live.cache
            &&& dry.seen == live.seen
        }),
    decreases n,
{
    let of = |upload: UploadView| upload.key;
    let live = push_after(keys, local, listed, prefix, patterns, false, cache, n);
    if n == 0 {
        lemma_keys_with_none(NoticeKind::Uploaded);
        lemma_keys_with_none(NoticeKind::Skipped);
        assert(live.uploads.map_values(of) =~= Seq::empty());
    } else {
        let m = (n - 1) as nat;
        law_dry_push_foretells(keys, local, listed, prefix, patterns, cache, m);
        let dry_before = push_after(keys, local, listed, prefix, patterns, true, cache, m);
        let live_before = push_after(keys, local, listed, prefix, patterns, false, cache, m);
        let key = effective_key(prefix, keys[n - 1]);
        let skipped = NoticeView { kind: NoticeKind::Skipped, key };
        let sent = NoticeView { kind: NoticeKind::Uploaded, key };
        lemma_keys_with_push(dry_before.notices, skipped, NoticeKind::Uploaded);
        lemma_keys_with_push(dry_before.notices, skipped, NoticeKind::Skipped);
        lemma_keys_with_push(dry_before.notices, sent, NoticeKind::Uploaded);
        lemma_keys_with_push(dry_before.notices, sent, NoticeKind::Skipped);
        lemma_keys_with_push(live_before.notices, skipped, NoticeKind::Skipped);
        assert(live.uploads.map_values(of) =~= if live.uploads.len() > live_before.uploads.len() {
            live_before.uploads.map_values(of).push(key)
        } else {
            live_before.uploads.map_values(of)
        });
    }
}

/// What is remembered of a key under which none of the files that take part is sent stays.
proof fn lemma_push_keeps_others(
    keys: Seq<Seq<char>>,
    local: Map<Seq<char>, LocalView>,
    listed: Map<Seq<char>, ObjectView>,
    prefix: Option<Seq<char>>,
    patterns: Patterns,
    cache: CacheView,
    key: Seq<char>,
    n: nat,
)
    requires
        n <= keys.len(),
        forall|i: int| 0 <= i < keys.len() ==> effective_key(prefix, #[trigger] keys[i]) != key,
    ensures
        push_after(keys, local, listed, prefix, patterns, false, cache, n).cache.recall(key)
            == cache.recall(key),
    decreases n,
{
    if n > 0 {
        lemma_push_keeps_others(
            keys,
            local,
            listed,
            prefix,
            patterns,
            cache,
            key,
            (n - 1) as nat,
        );
        assert(effective_key(prefix, keys[n - 1]) != key);
    }
}

/// Planning a push comes to remember a file exactly when it was not remembered as it is and its
/// checksum is the tag of the object under its key or, where the tag is no checksum, it is not
/// later than that object: then its checksum and time and the object's tag and time. Of all else
/// is remembered what was.
pub proof fn law_push_remembers_what_is_the_same(
    keys: Seq<Seq<char>>,
    local: Map<Seq<char>, LocalView>,
    listed: Map<Seq<char>, ObjectView>,
    prefix: Option<Seq<char>>,
    patterns: Patterns,
    cache: CacheView,
    at: int,
    other: Seq<char>,
)
    requires
        ascending(keys),
        forall|i: int| 0 <= i < keys.len() ==> local.contains_key(#[trigger] keys[i]),
        0 <= at < keys.len(),
        push_takes(local, prefix, patterns, keys[at]),
        forall|i: int| 0 <= i < keys.len() ==> effective_key(prefix, #[trigger] keys[i]) != other,
    ensures
        ({
            let later = push_after(
                keys,
                local,
                listed,
                prefix,
                patterns,
                false,
                cache,
                keys.len(),
            ).cache;
            let key = effective_key(prefix, keys[at]);
            let file = local[keys[at]];
            let object = listed[key];
            let before = cache.recall(key);
            let known = before matches Some(entry) && entry.mtime == file.mtime()
                && entry.md5.len() > 0;
            let same = if plain_etag(object.etag).contains('-') {
                file.instant() <= object.last_modified
            } else {
                file.checksum() == plain_etag(object.etag)
            };
            &&& later.recall(other) == cache.recall(other)
            &&& later.recall(key) == if listed.contains_key(key) && !known && same {
                Some(
                    EntryView {
                        md5: file.checksum(),
                        mtime: file.mtime(),
                        etag: object.etag,
                        last_modified: rfc3339(object.last_modified),
                    },
                )
            } else {
                before
            }
        }),
{
    lemma_push_sends(keys, local, listed, prefix, patterns, cache, keys.len());
    lemma_push_keeps_others(keys, local, listed, prefix, patterns, cache, other, keys.len());
    let later = push_after(keys, local, listed, prefix, patterns, false, cache, keys.len()).cache;
    assert(later.recall(effective_key(prefix, keys[at])) == push_records(
        local,
        listed,
        prefix,
        cache,
        keys[at],
    ));
}

/// A push reports as skipped exactly the keys of the files that take part and that it does not
/// send.
pub proof fn law_push_reports_what_it_leaves(
    keys: Seq<Seq<char>>,
    local: Map<Seq<char>, LocalView>,
    listed: Map<Seq<char>, ObjectView>,
    prefix: Option<Seq<char>>,
    patterns: Patterns,
    cache: CacheView,
    key: Seq<char>,
    n: nat,
)
    requires
        ascending(keys),
        forall|i: int| 0 <= i < keys.len() ==> local.contains_key(#[trigger] keys[i]),
        n <= keys.len(),
    ensures
        ({
            let state = push_after(keys, local, listed, prefix, patterns, false, cache, n);
            keys_with(state.notices, NoticeKind::Skipped).contains(key) <==> exists|i: int|
                0 <= i < n && push_takes(local, prefix, patterns, #[trigger] keys[i])
                    && effective_key(prefix, keys[i]) == key && push_verdict(
                    object_under(listed, key),
                    local[keys[i]],
                    cache.recall(key),
                ) !is Upload
        }),
    decreases n,
{
    if n == 0 {
        lemma_keys_with_none(NoticeKind::Skipped);
    } else {
        let m = (n - 1) as nat;
        law_push_reports_what_it_leaves(keys, local, listed, prefix, patterns, cache, key, m);
        lemma_push_sends(keys, local, listed, prefix, patterns, cache, m);
        let before = push_after(keys, local, listed, prefix, patterns, false, cache, m);
        let k = effective_key(prefix, keys[n - 1]);
        assert(push_takes(local, prefix, patterns, keys[m as int]) ==> before.cache.recall(k)
            == cache.recall(k));
        let said = NoticeView { kind: NoticeKind::Skipped, key: k };
        lemma_keys_with_push(before.notices, said, NoticeKind::Skipped);
        let named = keys_with(before.notices, NoticeKind::Skipped);
        let more = named.push(k);
        if named.contains(key) {
            assert(more[named.index_of(key)] == key);
        }
        assert(more[named.len() as int] == k);
        if more.contains(key) && key != k {
            assert(named[more.index_of(key)] == key);
        }
        if exists|i: int|
            0 <= i < m && push_takes(local, prefix, patterns, #[trigger] keys[i])
                && effective_key(prefix, keys[i]) == key && push_verdict(
                object_under(listed, key),
                local[keys[i]],
                cache.recall(key),
            ) !is Upload {
            let i = choose|i: int|
                0 <= i < m && push_takes(local, prefix, patterns, #[trigger] keys[i])
                    && effective_key(prefix, keys[i]) == key && push_verdict(
                    object_under(listed, key),
                    local[keys[i]],
                    cache.recall(key),
                ) !is Upload;
            assert(0 <= i < n && push_takes(local, prefix, patterns, keys[i]));
        }
    }
}

} // verus!
