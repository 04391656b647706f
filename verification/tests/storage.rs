use bksync::s3::{
    delete_batches, directory_step, head_details, list_objects_map, map_s3_error,
    upload_metadata, DirectoryOutcome, DirectoryStep, Listing, S3Object, CACHE_MD5, CACHE_MTIME,
};

fn named(key: &str, tag: &str) -> S3Object {
    S3Object::listed(Some(key), Some(tag), Some(0), Some(1))
}

#[test]
fn listed_object_has_no_quotes_and_a_time() {
    let object = S3Object::listed(Some("k"), Some("\"t\""), Some(2_000_000_003), Some(9));
    assert_eq!(object.key, "k");
    assert_eq!(object.etag, "t");
    assert_eq!(object.last_modified.unix_nanos(), Some(2_000_000_003));
    assert_eq!(object.size, 9);
    let bare = S3Object::listed(None, None, None, None);
    assert_eq!(bare.key, "");
    assert_eq!(bare.etag, "");
    assert_eq!(bare.last_modified.unix_nanos(), Some(0));
    assert_eq!(bare.size, 0);
    let (tag, time) = head_details(Some("\"x-2\""), Some(-7));
    assert_eq!(tag, "x-2");
    assert_eq!(time.unix_nanos(), Some(0));
    assert_eq!(object.copied().etag, "t");
}

#[test]
fn listing_goes_on_while_it_is_cut_short() {
    let mut listing = Listing::new();
    assert!(listing.token.is_none());
    assert!(listing.absorb(vec![named("a", "1")], Some(true), Some("next".to_string())));
    assert_eq!(listing.token.as_deref(), Some("next"));
    assert!(listing.absorb(vec![], Some(true), None));
    assert!(listing.token.is_none());
    assert!(!listing.absorb(vec![named("b", "2"), named("c", "3")], Some(false), None));
    assert!(!listing.absorb(vec![], None, Some("late".to_string())));
    let keys: Vec<&str> = listing.objects.iter().map(|o| o.key.as_str()).collect();
    assert_eq!(keys, vec!["a", "b", "c"]);
    assert!(listing.token.is_none());
}

#[test]
fn last_object_with_a_key_counts() {
    let map = list_objects_map(&vec![named("a", "1"), named("b", "2"), named("a", "3")]);
    assert_eq!(map.len(), 2);
    assert_eq!(map.get("a").unwrap().etag, "3");
    assert_eq!(map.get("b").unwrap().etag, "2");
}

#[test]
fn deletions_go_in_batches() {
    let keys: Vec<String> = (0..2001).map(|i| i.to_string()).collect();
    let batches = delete_batches(&keys);
    let sizes: Vec<usize> = batches.iter().map(|b| b.len()).collect();
    assert_eq!(sizes, vec![1000, 1000, 1]);
    assert_eq!(batches.concat(), keys);
    assert_eq!(batches[1][0], "1000");
    assert!(delete_batches(&vec![]).is_empty());
    assert_eq!(delete_batches(&keys[..1000].to_vec()).len(), 1);
}

#[test]
fn upload_carries_checksum_and_time() {
    let meta = upload_metadata("abc", -5);
    assert_eq!(meta.len(), 2);
    assert_eq!(meta[0], ("source-md5".to_string(), "abc".to_string()));
    assert_eq!(meta[1], ("source-mtime".to_string(), "-5".to_string()));
    assert_eq!(CACHE_MD5, "source-md5");
    assert_eq!(CACHE_MTIME, "source-mtime");
}

#[test]
fn service_errors_name_the_operation_and_the_key() {
    assert_eq!(map_s3_error("get_object", Some("a/b"), "Boom"), "get_object failed for 'a/b': Boom");
    assert_eq!(map_s3_error("delete_objects", None, "Boom"), "delete_objects failed for '?': Boom");
}

#[test]
fn file_in_the_way_of_a_directory_is_removed() {
    assert!(directory_step(DirectoryOutcome::Made) == DirectoryStep::Proceed);
    assert!(directory_step(DirectoryOutcome::FileInTheWay) == DirectoryStep::RemoveFileAndMake);
    assert!(directory_step(DirectoryOutcome::Failed) == DirectoryStep::GiveUp);
}
