use rusts3::fsapi::FS;
use rusts3::handlers;
use rusts3::request_guards::RangeHeader;

fn fresh_fs_with_bucket(name: &str) -> FS {
    let mut fs = FS::new();
    let r = handlers::create_bucket(&mut fs, name);
    assert_eq!(r.status, 200);
    fs
}

fn put(fs: &mut FS, bucket: &str, key: &str, body: &[u8]) -> rusts3::s3resp::S3Response {
    let data: Vec<u8> = body.to_vec();
    handlers::put_object(fs, bucket, key, &data, false)
}

fn list_query(prefix: &str, max_keys: usize) -> handlers::ListQuery {
    handlers::ListQuery {
        delimiter: None,
        encoding_type: None,
        marker: None,
        max_keys: Some(max_keys),
        prefix: Some(String::from(prefix)),
        list_type: Some(2),
        continuation_token: None,
    }
}

#[test]
fn create_bucket_then_listing_names_it() {
    let mut fs = FS::new();
    let r = handlers::create_bucket(&mut fs, "b1");
    assert_eq!(r.status, 200);
    let all = handlers::list_all_buckets(&fs);
    assert_eq!(all.status, 200);
    assert!(all.body.contains("<Name>b1</Name>"));
    assert!(all.body.contains("<ListAllMyBucketsResult>"));
}

#[test]
fn create_bucket_twice_keeps_one() {
    let mut fs = FS::new();
    assert_eq!(handlers::create_bucket(&mut fs, "b1").status, 200);
    assert_eq!(handlers::create_bucket(&mut fs, "b1").status, 200);
    assert_eq!(fs.buckets.len(), 1);
}

#[test]
fn create_bucket_rejects_staging_name() {
    let mut fs = FS::new();
    let r = handlers::create_bucket(&mut fs, "_staging");
    assert_eq!(r.status, 200);
    assert_eq!(fs.buckets.len(), 0);
}

#[test]
fn put_object_reports_md5_etag() {
    let mut fs = fresh_fs_with_bucket("b1");
    let r = put(&mut fs, "b1", "hello.txt", b"hi");
    assert_eq!(r.status, 200);
    assert_eq!(r.headers.len(), 1);
    assert_eq!(r.headers[0].0, "ETag");
    assert_eq!(r.headers[0].1, "49f68a5c8493ec2c0bf489821c21fc3b");
}

#[test]
fn put_then_get_round_trips_the_body() {
    let mut fs = fresh_fs_with_bucket("b1");
    put(&mut fs, "b1", "hello.txt", b"hi");
    let range = RangeHeader { begin: None, end: None };
    let c = handlers::get_object(&fs, "b1", "hello.txt", &range).unwrap();
    assert_eq!(c.data, b"hi".to_vec());
    assert_eq!(c.size, 2);
    assert!(!c.partial);
    assert_eq!(c.etag, "49f68a5c8493ec2c0bf489821c21fc3b");
    assert_eq!(c.status(), 200);
}

#[test]
fn get_with_byte_range_returns_partial_content() {
    let mut fs = fresh_fs_with_bucket("b1");
    put(&mut fs, "b1", "hello.txt", b"hi");
    let range = RangeHeader { begin: Some(1), end: Some(1) };
    let c = handlers::get_object(&fs, "b1", "hello.txt", &range).unwrap();
    assert_eq!(c.data, b"i".to_vec());
    assert_eq!(c.size, 1);
    assert!(c.partial);
    assert_eq!(c.status(), 206);
}

#[test]
fn get_with_open_range_returns_the_tail() {
    let mut fs = fresh_fs_with_bucket("b1");
    put(&mut fs, "b1", "k", b"abcdef");
    let range = RangeHeader { begin: Some(2), end: None };
    let c = handlers::get_object(&fs, "b1", "k", &range).unwrap();
    assert_eq!(c.data, b"cdef".to_vec());
    assert_eq!(c.size, 4);
    assert!(c.partial);
}

#[test]
fn get_missing_object_is_none() {
    let fs = fresh_fs_with_bucket("b1");
    let range = RangeHeader { begin: None, end: None };
    assert!(handlers::get_object(&fs, "b1", "absent", &range).is_none());
    assert!(handlers::get_object(&fs, "nope", "absent", &range).is_none());
}

#[test]
fn multipart_assembles_parts_in_order() {
    let mut fs = fresh_fs_with_bucket("b1");
    let init = handlers::create_multipart_upload(&fs, "b1", "k");
    assert_eq!(init.status, 200);
    assert!(init.body.contains("<UploadId>upload_"));
    let id = "upload_testtest12";
    // out of order on purpose
    let p3: Vec<u8> = b"CCC".to_vec();
    let p1: Vec<u8> = b"AAA".to_vec();
    let p2: Vec<u8> = b"BBB".to_vec();
    assert_eq!(handlers::put_object_part(&mut fs, "b1", "k", 3, id, &p3, false).status, 200);
    assert_eq!(handlers::put_object_part(&mut fs, "b1", "k", 1, id, &p1, false).status, 200);
    assert_eq!(handlers::put_object_part(&mut fs, "b1", "k", 2, id, &p2, false).status, 200);
    let done = handlers::complete_multipart_upload(&mut fs, "b1", "k", id);
    assert_eq!(done.status, 200);
    assert!(done.body.contains("<ETag>\"6207b5df5796e963410d3bc4b6a4218b\"</ETag>"));
    assert!(done.body.contains("<Key>k</Key>"));
    let range = RangeHeader { begin: None, end: None };
    let c = handlers::get_object(&fs, "b1", "k", &range).unwrap();
    assert_eq!(c.data.len(), 9);
    assert_eq!(c.data, b"AAABBBCCC".to_vec());
    assert_eq!(c.etag, "6207b5df5796e963410d3bc4b6a4218b");
}

#[test]
fn multipart_stops_at_the_first_gap() {
    let mut fs = fresh_fs_with_bucket("b1");
    let id = "upload_gapgapgap1";
    let p1: Vec<u8> = b"one".to_vec();
    let p3: Vec<u8> = b"three".to_vec();
    handlers::put_object_part(&mut fs, "b1", "k", 1, id, &p1, false);
    handlers::put_object_part(&mut fs, "b1", "k", 3, id, &p3, false);
    let done = handlers::complete_multipart_upload(&mut fs, "b1", "k", id);
    assert_eq!(done.status, 200);
    let range = RangeHeader { begin: None, end: None };
    let c = handlers::get_object(&fs, "b1", "k", &range).unwrap();
    assert_eq!(c.data, b"one".to_vec());
}

#[test]
fn abort_clears_the_staged_parts() {
    let mut fs = fresh_fs_with_bucket("b1");
    let id = "upload_cleanmeup1";
    let p1: Vec<u8> = b"one".to_vec();
    let p2: Vec<u8> = b"two".to_vec();
    handlers::put_object_part(&mut fs, "b1", "k", 1, id, &p1, false);
    handlers::put_object_part(&mut fs, "b1", "k", 2, id, &p2, false);
    assert_eq!(fs.buckets[0].staging.len(), 4);
    let r = handlers::cleanup_multipart_upload(&mut fs, "b1", id);
    assert_eq!(r.status, 200);
    assert_eq!(fs.buckets[0].staging.len(), 0);
}

#[test]
fn bulk_delete_removes_and_reports() {
    let mut fs = fresh_fs_with_bucket("b1");
    put(&mut fs, "b1", "hello.txt", b"hi");
    let body = "<Delete><Object><Key>hello.txt</Key></Object></Delete>";
    let r = handlers::delete_object_multi(&mut fs, "b1", body);
    assert_eq!(r.status, 200);
    assert!(r.body.contains("<DeleteResult"));
    assert!(r.body.contains("<Deleted>"));
    assert!(r.body.contains("<Key>hello.txt</Key>"));
    let range = RangeHeader { begin: None, end: None };
    assert!(handlers::get_object(&fs, "b1", "hello.txt", &range).is_none());
}

#[test]
fn bulk_delete_reports_absent_keys_too() {
    let mut fs = fresh_fs_with_bucket("b1");
    let body = "<Delete><Object><Key>ghost.txt</Key></Object></Delete>";
    let r = handlers::delete_object_multi(&mut fs, "b1", body);
    assert_eq!(r.status, 200);
    assert!(r.body.contains("<Key>ghost.txt</Key>"));
}

#[test]
fn bulk_delete_echoes_version_ids() {
    let mut fs = fresh_fs_with_bucket("b1");
    let body = "<Delete><Object><Key>a</Key><VersionId>v7</VersionId></Object></Delete>";
    let r = handlers::delete_object_multi(&mut fs, "b1", body);
    assert!(r.body.contains("<VersionId>v7</VersionId>"));
    assert!(r.body.contains("<DeleteMarker>false</DeleteMarker>"));
}

#[test]
fn listing_v2_truncates_a_full_page() {
    let mut fs = fresh_fs_with_bucket("b1");
    put(&mut fs, "b1", "alpha.txt", b"1");
    put(&mut fs, "b1", "beta.txt", b"2");
    let q = list_query("", 1);
    let body = handlers::list_objects_v2(&fs, "b1", &q).unwrap();
    assert!(body.contains("<KeyCount>1</KeyCount>"));
    assert!(body.contains("<IsTruncated>true</IsTruncated>"));
    assert!(body.contains("<NextContinuationToken>alpha.txt</NextContinuationToken>"));
    assert!(body.contains("<Key>alpha.txt</Key>"));
    assert!(!body.contains("<Key>beta.txt</Key>"));
}

#[test]
fn listing_v2_pages_walk_every_key_once() {
    let mut fs = fresh_fs_with_bucket("b1");
    put(&mut fs, "b1", "a.txt", b"1");
    put(&mut fs, "b1", "b.txt", b"2");
    put(&mut fs, "b1", "c.txt", b"3");
    let mut after = String::new();
    let mut seen: Vec<String> = Vec::new();
    loop {
        let objs = handlers::list_bucket(&fs.buckets[0], "", &None, &after, 2);
        if objs.is_empty() {
            break;
        }
        for o in &objs {
            seen.push(o.key.clone());
        }
        after = objs.last().unwrap().key.clone();
    }
    assert_eq!(seen, vec!["a.txt".to_string(), "b.txt".to_string(), "c.txt".to_string()]);
}

#[test]
fn listing_v1_names_the_marker() {
    let mut fs = fresh_fs_with_bucket("b1");
    put(&mut fs, "b1", "x.txt", b"1");
    let q = handlers::ListQuery {
        delimiter: None,
        encoding_type: None,
        marker: Some(String::new()),
        max_keys: Some(10),
        prefix: Some(String::new()),
        list_type: None,
        continuation_token: None,
    };
    let body = handlers::list_objects(&fs, "b1", &q).unwrap();
    assert!(body.contains("<Marker></Marker>"));
    assert!(body.contains("<IsTruncated>false</IsTruncated>"));
    assert!(body.contains("<Key>x.txt</Key>"));
    assert!(body.contains("<EncodingType>url</EncodingType>"));
}

#[test]
fn shallow_listing_shows_common_prefixes() {
    let mut fs = fresh_fs_with_bucket("b1");
    put(&mut fs, "b1", "dir/a.txt", b"1");
    put(&mut fs, "b1", "top.txt", b"2");
    let q = handlers::ListQuery {
        delimiter: Some(String::from("/")),
        encoding_type: None,
        marker: None,
        max_keys: Some(100),
        prefix: Some(String::new()),
        list_type: Some(2),
        continuation_token: None,
    };
    let body = handlers::list_objects_v2(&fs, "b1", &q).unwrap();
    assert!(body.contains("<CommonPrefixes><Prefix>dir/</Prefix></CommonPrefixes>"));
    assert!(body.contains("<Key>top.txt</Key>"));
    assert!(!body.contains("<Key>dir/a.txt</Key>"));
}

#[test]
fn deep_listing_descends_into_prefix_directories() {
    let mut fs = fresh_fs_with_bucket("b1");
    put(&mut fs, "b1", "dir/a.txt", b"1");
    put(&mut fs, "b1", "dir/sub/b.txt", b"2");
    put(&mut fs, "b1", "directory.txt", b"3");
    let objs = handlers::list_bucket(&fs.buckets[0], "dir", &None, "", 100);
    let keys: Vec<&str> = objs.iter().map(|o| o.key.as_str()).collect();
    assert_eq!(keys, vec!["dir/a.txt", "dir/sub/b.txt"]);
    let objs2 = handlers::list_bucket(&fs.buckets[0], "di", &None, "", 100);
    let keys2: Vec<&str> = objs2.iter().map(|o| o.key.as_str()).collect();
    assert_eq!(keys2, vec!["dir/a.txt", "dir/sub/b.txt", "directory.txt"]);
}

#[test]
fn delete_object_route_answers_by_validity() {
    let mut fs = fresh_fs_with_bucket("b1");
    put(&mut fs, "b1", "k.txt", b"1");
    assert_eq!(handlers::delete_object(&mut fs, "b1", "k.txt").status, 200);
    let range = RangeHeader { begin: None, end: None };
    assert!(handlers::get_object(&fs, "b1", "k.txt", &range).is_none());
    assert_eq!(handlers::delete_object(&mut fs, "b1", "bad|key").status, 404);
    assert_eq!(handlers::delete_object(&mut fs, "gone", "k").status, 404);
}

#[test]
fn delete_clears_emptied_parent_directories() {
    let mut fs = fresh_fs_with_bucket("b1");
    put(&mut fs, "b1", "d/x.txt", b"1");
    assert_eq!(handlers::delete_object(&mut fs, "b1", "d/x.txt").status, 200);
    let objs = handlers::list_bucket(&fs.buckets[0], "", &Some(String::from("/")), "", 100);
    assert!(objs.is_empty());
}

#[test]
fn overwrite_leaves_the_second_body_visible() {
    let mut fs = fresh_fs_with_bucket("b1");
    put(&mut fs, "b1", "k", b"first");
    put(&mut fs, "b1", "k", b"second");
    let range = RangeHeader { begin: None, end: None };
    let c = handlers::get_object(&fs, "b1", "k", &range).unwrap();
    assert_eq!(c.data, b"second".to_vec());
    let objs = handlers::list_bucket(&fs.buckets[0], "", &None, "", 100);
    assert_eq!(objs.len(), 1);
}

#[test]
fn chunked_put_stores_the_decoded_bytes() {
    let mut fs = fresh_fs_with_bucket("b1");
    let body: Vec<u8> = b"2\r\nhi\r\n0\r\n\r\n".to_vec();
    let r = handlers::put_object(&mut fs, "b1", "c.txt", &body, true);
    assert_eq!(r.status, 200);
    assert_eq!(r.headers[0].1, "49f68a5c8493ec2c0bf489821c21fc3b");
    let range = RangeHeader { begin: None, end: None };
    let c = handlers::get_object(&fs, "b1", "c.txt", &range).unwrap();
    assert_eq!(c.data, b"hi".to_vec());
}

#[test]
fn malformed_chunked_put_is_a_server_error() {
    let mut fs = fresh_fs_with_bucket("b1");
    let body: Vec<u8> = b"zz\r\nhi\r\n0\r\n".to_vec();
    let r = handlers::put_object(&mut fs, "b1", "c.txt", &body, true);
    assert_eq!(r.status, 500);
    let range = RangeHeader { begin: None, end: None };
    assert!(handlers::get_object(&fs, "b1", "c.txt", &range).is_none());
}

#[test]
fn invalid_key_put_is_refused() {
    let mut fs = fresh_fs_with_bucket("b1");
    let r = put(&mut fs, "b1", "a/../b", b"x");
    assert_eq!(r.status, 500);
    let objs = handlers::list_bucket(&fs.buckets[0], "", &None, "", 100);
    assert!(objs.is_empty());
}

#[test]
fn bucket_location_is_hardcoded() {
    let body = handlers::get_bucket_location("b1").unwrap();
    assert!(body.contains("ap-southeast-1"));
    assert!(body.contains("<LocationConstraint"));
}

#[test]
fn backdoor_echoes_the_token() {
    assert_eq!(handlers::backdoor("tok"), "Secret Revealed: tok");
}

#[test]
fn object_key_is_urlencoded_on_demand() {
    let mut fs = fresh_fs_with_bucket("b1");
    put(&mut fs, "b1", "a b.txt", b"x");
    let objs = handlers::list_bucket(&fs.buckets[0], "", &None, "", 100);
    assert_eq!(objs.len(), 1);
    assert_eq!(objs[0].object_key_encoded(), "a%20b.txt");
}

#[test]
fn contents_xml_carries_key_etag_and_size() {
    let mut fs = fresh_fs_with_bucket("b1");
    put(&mut fs, "b1", "k.txt", b"hi");
    let objs = handlers::list_bucket(&fs.buckets[0], "", &None, "", 100);
    let xml = objs[0].format();
    assert!(xml.contains("<Contents>"));
    assert!(xml.contains("<Key>k.txt</Key>"));
    assert!(xml.contains("<ETag>\"49f68a5c8493ec2c0bf489821c21fc3b\"</ETag>"));
    assert!(xml.contains("<Size>2</Size>"));
    assert!(xml.contains("<StorageClass>STANDARD</StorageClass>"));
}

#[test]
fn repeating_a_put_changes_nothing_visible() {
    let mut fs1 = fresh_fs_with_bucket("b1");
    put(&mut fs1, "b1", "k", b"same");
    let mut fs2 = fresh_fs_with_bucket("b1");
    put(&mut fs2, "b1", "k", b"other");
    put(&mut fs2, "b1", "k", b"same");
    let range = RangeHeader { begin: None, end: None };
    let once = handlers::get_object(&fs1, "b1", "k", &range).unwrap();
    let twice = handlers::get_object(&fs2, "b1", "k", &range).unwrap();
    assert_eq!(once.data, twice.data);
    assert_eq!(once.etag, twice.etag);
    assert_eq!(once.size, twice.size);
}

#[test]
fn shallow_listing_pages_walk_every_name_once() {
    let mut fs = fresh_fs_with_bucket("b1");
    put(&mut fs, "b1", "a/x", b"1");
    put(&mut fs, "b1", "b.txt", b"2");
    put(&mut fs, "b1", "c/y", b"3");
    put(&mut fs, "b1", "d.txt", b"4");
    let delim = Some(String::from("/"));
    let mut after = String::new();
    let mut seen: Vec<String> = Vec::new();
    loop {
        let objs = handlers::list_bucket(&fs.buckets[0], "", &delim, &after, 2);
        if objs.is_empty() {
            break;
        }
        for o in &objs {
            seen.push(o.key.clone());
        }
        after = objs.last().unwrap().key.clone();
    }
    assert_eq!(
        seen,
        vec!["a".to_string(), "b.txt".to_string(), "c".to_string(), "d.txt".to_string()]
    );
}
