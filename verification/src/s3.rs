//! Objects as the storage service lists them, and what is asked of the service.
use vstd::prelude::*;
use vstd::string::*;

use crate::checksum::{normalize_etag, plain_etag};
use crate::filter::texts;
use crate::keys::KeyMap;
use crate::text::{decimal, join, signed_text};
use crate::time::{service_instant, Timestamp};

verus! {

/// The metadata field of an uploaded object that holds the checksum of the local file.
pub const CACHE_MD5: &'static str = "source-md5";

/// The metadata field of an uploaded object that holds the local file's modification time.
pub const CACHE_MTIME: &'static str = "source-mtime";

/// How many keys one request may delete.
pub const DELETE_BATCH: usize = 1000;

/// An object in the bucket.
pub struct S3Object {
    pub key: String,
    pub etag: String,
    pub last_modified: Timestamp,
    pub size: i64,
}

/// What an [`S3Object`] says.
#[verifier::ext_equal]
pub struct ObjectView {
    pub key: Seq<char>,
    pub etag: Seq<char>,
    pub last_modified: int,
    pub size: i64,
}

impl View for S3Object {
    type V = ObjectView;

    open spec fn view(&self) -> ObjectView {
        ObjectView {
            key: self.key@,
            etag: self.etag@,
            last_modified: self.last_modified@,
            size: self.size,
        }
    }
}

/// What a list of objects says.
pub open spec fn object_views(objects: Seq<S3Object>) -> Seq<ObjectView> {
    Seq::new(objects.len(), |i: int| objects[i]@)
}

/// A text that may be missing, as text.
pub open spec fn text_or_empty(text: Option<&str>) -> Seq<char> {
    match text {
        Some(t) => t@,
        None => Seq::empty(),
    }
}

/// The instant that the service means by a modification time that may be missing.
pub open spec fn instant_or_epoch(nanos: Option<i128>) -> int {
    match nanos {
        Some(n) => service_instant(n as int),
        None => 0,
    }
}

/// The entity tag and modification time of an object, from a reply of the service: the tag
/// without quotes, empty where it is missing, and the epoch where the time is missing.
pub fn head_details(e_tag: Option<&str>, last_modified_nanos: Option<i128>) -> (details: (
    String,
    Timestamp,
))
    ensures
        details.0@ == plain_etag(text_or_empty(e_tag)),
        details.1@ == instant_or_epoch(last_modified_nanos),
{
    let etag: String = match e_tag {
        Some(tag) => normalize_etag(tag).to_owned(),
        None => {
            assert(plain_etag(Seq::empty()) =~= Seq::empty());
            String::new()
        },
    };
    let last_modified: Timestamp = match last_modified_nanos {
        Some(nanos) => Timestamp::from_service(nanos),
        None => Timestamp::epoch(),
    };
    (etag, last_modified)
}

impl S3Object {
    /// The object that one item of a listing stands for.
    pub fn listed(
        key: Option<&str>,
        e_tag: Option<&str>,
        last_modified_nanos: Option<i128>,
        size: Option<i64>,
    ) -> (object: S3Object)
        ensures
            object@ == (ObjectView {
                key: text_or_empty(key),
                etag: plain_etag(text_or_empty(e_tag)),
                last_modified: instant_or_epoch(last_modified_nanos),
                size: match size {
                    Some(n) => n,
                    None => 0,
                },
            }),
    {
        let (etag, last_modified) = head_details(e_tag, last_modified_nanos);
        S3Object {
            key: match key {
                Some(k) => k.to_owned(),
                None => String::new(),
            },
            etag,
            last_modified,
            size: match size {
                Some(n) => n,
                None => 0,
            },
        }
    }

    /// Another object that says the same.
    pub fn copied(&self) -> (object: S3Object)
        ensures
            object@ == self@,
    {
        S3Object {
            key: self.key.clone(),
            etag: self.etag.clone(),
            last_modified: self.last_modified,
            size: self.size,
        }
    }
}

/// A listing under way: the objects so far, and the token with which the next page is asked
/// for.
pub struct Listing {
    pub objects: Vec<S3Object>,
    pub token: Option<String>,
}

impl Listing {
    /// A listing before its first page.
    pub fn new() -> (listing: Listing)
        ensures
            listing.objects@ == Seq::<S3Object>::empty(),
            listing.token is None,
    {
        Listing { objects: Vec::new(), token: None }
    }

    /// Takes in a page; whether another one is to be asked for.
    ///
    /// There is another one exactly when the service says that the listing was cut short, and
    /// it is asked for with the token that came with this page.
    pub fn absorb(
        &mut self,
        page: Vec<S3Object>,
        is_truncated: Option<bool>,
        next_token: Option<String>,
    ) -> (more: bool)
        ensures
            more == (is_truncated == Some(true)),
            object_views(final(self).objects@) == object_views(old(self).objects@) + object_views(
                page@,
            ),
            final(self).token == if more {
                next_token
            } else {
                old(self).token
            },
    {
        let ghost before = object_views(self.objects@);
        let mut i: usize = 0;
        while i < page.len()
            invariant
                i <= page@.len(),
                object_views(self.objects@) == before + object_views(page@.take(i as int)),
                self.token == old(self).token,
            decreases page@.len() - i,
        {
            let ghost held = self.objects@;
            self.objects.push(page[i].copied());
            proof {
                assert(object_views(self.objects@) =~= object_views(held).push(page@[i as int]@));
                assert(object_views(page@.take(i + 1)) =~= object_views(page@.take(i as int)).push(
                    page@[i as int]@,
                ));
                assert(object_views(self.objects@) =~= before + object_views(page@.take(i + 1)));
            }
            i = i + 1;
        }
        assert(page@.take(i as int) =~= page@);
        match is_truncated {
            Some(true) => {
                self.token = next_token;
                true
            },
            _ => false,
        }
    }
}

/// What a service that hands out its listing page by page has handed out in all.
pub open spec fn all_pages(pages: Seq<Seq<ObjectView>>) -> Seq<ObjectView>
    decreases pages.len(),
{
    if pages.len() == 0 {
        Seq::empty()
    } else {
        all_pages(pages.drop_last()) + pages.last()
    }
}

/// A listing is complete: taking in one page after another, from nothing on, leaves exactly
/// the objects of all of them, in order.
pub proof fn law_listing_is_complete(pages: Seq<Seq<ObjectView>>, held: Seq<Seq<ObjectView>>)
    requires
        held.len() == pages.len() + 1,
        held[0] == Seq::<ObjectView>::empty(),
        forall|i: int| 0 <= i < pages.len() ==> #[trigger] held[i + 1] == held[i] + pages[i],
    ensures
        held.last() == all_pages(pages),
    decreases pages.len(),
{
    if pages.len() > 0 {
        let fewer = pages.drop_last();
        let before = held.drop_last();
        assert forall|i: int| 0 <= i < fewer.len() implies #[trigger] before[i + 1] == before[i]
            + fewer[i] by {
            assert(held[i + 1] == held[i] + pages[i]);
        }
        law_listing_is_complete(fewer, before);
        let n = pages.len() - 1;
        assert(held[n + 1] == held[n] + pages[n]);
    }
}

/// The objects by key; of several with one key the last counts.
pub open spec fn by_key(objects: Seq<ObjectView>) -> Map<Seq<char>, ObjectView>
    decreases objects.len(),
{
    if objects.len() == 0 {
        Map::empty()
    } else {
        by_key(objects.drop_last()).insert(objects.last().key, objects.last())
    }
}

/// The objects of a listing by key.
pub fn list_objects_map(objects: &Vec<S3Object>) -> (map: KeyMap<S3Object>)
    ensures
        map@ == by_key(object_views(objects@)),
{
    let mut map: KeyMap<S3Object> = KeyMap::new();
    let ghost views = object_views(objects@);
    let mut i: usize = 0;
    while i < objects.len()
        invariant
            i <= objects@.len(),
            views == object_views(objects@),
            map@ == by_key(views.take(i as int)),
        decreases objects@.len() - i,
    {
        proof {
            assert(views.take(i + 1).drop_last() =~= views.take(i as int));
        }
        map.insert(objects[i].key.clone(), objects[i].copied());
        i = i + 1;
    }
    assert(views.take(i as int) =~= views);
    map
}

/// Every entry of the map by key is an object of the listing with that key, and every key of
/// the listing is in it.
pub proof fn law_listing_by_key(objects: Seq<ObjectView>)
    ensures
        forall|k: Seq<char>| #[trigger]
            by_key(objects).contains_key(k) ==> by_key(objects)[k].key == k && objects.contains(
                by_key(objects)[k],
            ),
        forall|i: int|
            0 <= i < objects.len() ==> by_key(objects).contains_key(#[trigger] objects[i].key),
    decreases objects.len(),
{
    if objects.len() > 0 {
        let rest = objects.drop_last();
        law_listing_by_key(rest);
        assert forall|k: Seq<char>| #[trigger] by_key(objects).contains_key(k) implies by_key(
            objects,
        )[k].key == k && objects.contains(by_key(objects)[k]) by {
            if k == objects.last().key {
                assert(objects[objects.len() - 1] == objects.last());
            } else {
                assert(by_key(rest).contains_key(k));
                let i = rest.index_of(by_key(rest)[k]);
                assert(objects[i] == rest[i]);
            }
        }
        assert forall|i: int| 0 <= i < objects.len() implies by_key(objects).contains_key(
            #[trigger] objects[i].key,
        ) by {
            if i < rest.len() {
                assert(rest[i] == objects[i]);
            }
        }
    }
}

/// The keys of the batch with number `j`, of batches of at most [`DELETE_BATCH`] keys each.
pub open spec fn batch(keys: Seq<Seq<char>>, j: int) -> Seq<Seq<char>> {
    keys.subrange(
        j * DELETE_BATCH,
        if (j + 1) * DELETE_BATCH <= keys.len() {
            (j + 1) * DELETE_BATCH
        } else {
            keys.len() as int
        },
    )
}

/// How many batches hold `n` keys.
pub open spec fn batch_count(n: int) -> int {
    (n + DELETE_BATCH - 1) / (DELETE_BATCH as int)
}

/// The keys to delete, cut into batches of at most [`DELETE_BATCH`], in order.
pub fn delete_batches(keys: &Vec<String>) -> (batches: Vec<Vec<String>>)
    ensures
        batches@.len() == batch_count(keys@.len() as int),
        forall|j: int|
            0 <= j < batches@.len() ==> texts((#[trigger] batches@[j])@) == batch(texts(keys@), j),
{
    let mut batches: Vec<Vec<String>> = Vec::new();
    let ghost all = texts(keys@);
    let mut start: usize = 0;
    while start < keys.len()
        invariant
            all == texts(keys@),
            start <= keys@.len(),
            start == batches@.len() * DELETE_BATCH || (start == keys@.len() && batches@.len()
                == batch_count(keys@.len() as int)),
            forall|j: int|
                0 <= j < batches@.len() ==> texts((#[trigger] batches@[j])@) == batch(all, j),
        decreases keys@.len() - start,
    {
        let end: usize = if keys.len() - start > DELETE_BATCH {
            start + DELETE_BATCH
        } else {
            keys.len()
        };
        let mut chunk: Vec<String> = Vec::new();
        let mut i: usize = start;
        while i < end
            invariant
                start <= i <= end <= keys@.len(),
                all == texts(keys@),
                texts(chunk@) == all.subrange(start as int, i as int),
            decreases end - i,
        {
            let ghost held = chunk@;
            chunk.push(keys[i].clone());
            proof {
                assert(texts(chunk@) =~= texts(held).push(all[i as int]));
                assert(all.subrange(start as int, i + 1) =~= all.subrange(
                    start as int,
                    i as int,
                ).push(all[i as int]));
            }
            i = i + 1;
        }
        let ghost done = batches@;
        batches.push(chunk);
        proof {
            assert forall|j: int| 0 <= j < batches@.len() implies texts((#[trigger] batches@[j])@)
                == batch(all, j) by {
                if j < done.len() {
                    assert(batches@[j] == done[j]);
                }
            }
        }
        start = end;
    }
    batches
}

/// The batches hold every key once, in order: put together they are the keys again.
pub proof fn law_batches_hold_all(keys: Seq<Seq<char>>, i: int)
    requires
        0 <= i < keys.len(),
    ensures
        0 <= i / (DELETE_BATCH as int) < batch_count(keys.len() as int),
        0 <= i % (DELETE_BATCH as int) < batch(keys, i / (DELETE_BATCH as int)).len()
            <= DELETE_BATCH,
        batch(keys, i / (DELETE_BATCH as int))[i % (DELETE_BATCH as int)] == keys[i],
{
}

/// The metadata with which a file is uploaded.
pub fn upload_metadata(md5: &str, mtime: i64) -> (metadata: Vec<(String, String)>)
    ensures
        metadata@.len() == 2,
        metadata@[0].0@ == CACHE_MD5@,
        metadata@[0].1@ == md5@,
        metadata@[1].0@ == CACHE_MTIME@,
        metadata@[1].1@ == decimal(mtime as int),
{
    let mut metadata: Vec<(String, String)> = Vec::new();
    metadata.push((CACHE_MD5.to_owned(), md5.to_owned()));
    metadata.push((CACHE_MTIME.to_owned(), signed_text(mtime)));
    metadata
}

/// The message for a request that the service failed, with the error in the words of the
/// service.
pub fn map_s3_error(op: &str, key: Option<&str>, err: &str) -> (message: String)
    ensures
        message@ == op@ + " failed for '"@ + (match key {
            Some(k) => k@,
            None => "?"@,
        }) + "': "@ + err@,
{
    let mut message: String = join(op, " failed for '");
    match key {
        Some(k) => {
            message.append(k);
        },
        None => {
            message.append("?");
        },
    }
    message.append("': ");
    message.append(err);
    message
}

/// How making the directory for a downloaded file came out.
#[derive(Clone, Copy, PartialEq, Eq, Structural)]
pub enum DirectoryOutcome {
    Made,
    FileInTheWay,
    Failed,
}

/// What to do next about the directory for a downloaded file.
#[derive(Clone, Copy, PartialEq, Eq, Structural)]
pub enum DirectoryStep {
    Proceed,
    RemoveFileAndMake,
    GiveUp,
}

/// A file that stands where the directory is needed gives way; any other failure is final.
pub fn directory_step(outcome: DirectoryOutcome) -> (step: DirectoryStep)
    ensures
        outcome is Made <==> step is Proceed,
        outcome is FileInTheWay <==> step is RemoveFileAndMake,
        outcome is Failed <==> step is GiveUp,
{
    match outcome {
        DirectoryOutcome::Made => DirectoryStep::Proceed,
        DirectoryOutcome::FileInTheWay => DirectoryStep::RemoveFileAndMake,
        DirectoryOutcome::Failed => DirectoryStep::GiveUp,
    }
}

/// Of several objects of a listing with one key the last counts, and a key that no object has is
/// not in the map.
pub proof fn law_last_listed_counts(objects: Seq<ObjectView>, key: Seq<char>, at: int)
    ensures
        0 <= at < objects.len() && objects[at].key == key && (forall|j: int|
            at < j < objects.len() ==> (#[trigger] objects[j]).key != key) ==> by_key(
            objects,
        ).contains_key(key) && by_key(objects)[key] == objects[at],
        (forall|j: int| 0 <= j < objects.len() ==> (#[trigger] objects[j]).key != key) ==> !by_key(
            objects,
        ).contains_key(key),
    decreases objects.len(),
{
    if objects.len() > 0 {
        let rest = objects.drop_last();
        let last = objects.len() - 1;
        law_last_listed_counts(rest, key, at);
        assert(forall|j: int| 0 <= j < rest.len() ==> #[trigger] rest[j] == objects[j]);
        assert(objects[last] == objects.last());
    }
}

/// No request deletes more keys than the service allows, and no batch is empty.
pub proof fn law_batches_are_small(keys: Seq<Seq<char>>, j: int)
    requires
        0 <= j < batch_count(keys.len() as int),
    ensures
        0 < batch(keys, j).len() <= 1000,
        j + 1 < batch_count(keys.len() as int) ==> batch(keys, j).len() == 1000,
{
}

/// What a reply leaves out counts as nothing: no tag as an empty one, and no time as the epoch;
/// what it says counts.
pub proof fn law_missing_details_count_as_nothing(tag: &str, nanos: i128)
    ensures
        text_or_empty(None).len() == 0,
        text_or_empty(Some(tag)) == tag@,
        instant_or_epoch(None) == 0,
        0 <= nanos < (8_210_266_876_799 + 1) * 1_000_000_000 ==> instant_or_epoch(Some(nanos))
            == nanos,
{
}

} // verus!
