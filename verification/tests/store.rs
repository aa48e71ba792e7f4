use rusts3::chunk_to_raw::decode_body;
use rusts3::fsapi::{Bucket, FileType, FS};
use rusts3::meta::{meta_to_json, parse_meta, FileMeta};
use rusts3::request_guards::{
    classify, AuthCheckPassed, ChunkedEncoding, Method, RangeHeader, RequestShape, S3Op,
};
use rusts3::s3error::{ErrorKind, S3Error};
use rusts3::s3resp::S3Response;
use rusts3::sequencing::Sequence;
use rusts3::states::CliArg;
use rusts3::fserror::{S3FSError, S3FSErrorKind};

fn shape(method: Method, segments: usize) -> RequestShape {
    RequestShape {
        method,
        segments,
        has_location: false,
        has_list_type: false,
        list_type_is_2: false,
        has_uploads: false,
        has_upload_id: false,
        has_part_number: false,
        has_delete: false,
    }
}

#[test]
fn keys_with_refused_characters_are_invalid() {
    for bad in ["a\\b", "a>b", "a<b", "a|b", "a:b", "a&b", "a$b"] {
        assert!(!Bucket::valid_key(bad));
    }
    assert!(!Bucket::valid_key("a/./b"));
    assert!(!Bucket::valid_key("a/../b"));
    assert!(!Bucket::valid_key("a//b"));
    assert!(!Bucket::valid_key("/a"));
    assert!(!Bucket::valid_key("a@@META@@"));
    assert!(Bucket::valid_key("folder/file.txt"));
    assert!(Bucket::valid_key(""));
}

#[test]
fn bucket_names_follow_the_rule() {
    assert!(!Bucket::valid_bucket("_staging"));
    assert!(!Bucket::valid_bucket(""));
    assert!(!Bucket::valid_bucket("has space"));
    assert!(!Bucket::valid_bucket("has/slash"));
    assert!(Bucket::valid_bucket("My.Bucket-1_x"));
    let long: String = std::iter::repeat('a').take(255).collect();
    assert!(Bucket::valid_bucket(&long));
    let too_long: String = std::iter::repeat('a').take(256).collect();
    assert!(!Bucket::valid_bucket(&too_long));
}

#[test]
fn range_header_parses_both_shapes() {
    assert_eq!(RangeHeader::parse_range(None), (None, None));
    assert_eq!(RangeHeader::parse_range(Some("bytes=5-")), (Some(5), None));
    assert_eq!(RangeHeader::parse_range(Some("bytes=1-3")), (Some(1), Some(3)));
    assert_eq!(RangeHeader::parse_range(Some("bytes=007-")), (Some(7), None));
    assert_eq!(RangeHeader::parse_range(Some("bytes=x-")), (None, None));
    assert_eq!(RangeHeader::parse_range(Some("bytes=1-2-3")), (None, None));
    assert_eq!(RangeHeader::parse_range(Some("lines=1-2")), (None, None));
    assert_eq!(RangeHeader::parse_range(Some("bytes=-5")), (None, None));
}

#[test]
fn chunked_mode_detection_follows_the_headers() {
    assert!(ChunkedEncoding::from_headers(Some("chunked"), None, None).0);
    assert!(ChunkedEncoding::from_headers(Some("Chunked"), None, None).0);
    assert!(!ChunkedEncoding::from_headers(Some("identity"), None, None).0);
    assert!(ChunkedEncoding::from_headers(None, Some("5"), Some("10")).0);
    assert!(!ChunkedEncoding::from_headers(None, Some("10"), Some("10")).0);
    assert!(!ChunkedEncoding::from_headers(None, Some("10"), Some("5")).0);
    assert!(!ChunkedEncoding::from_headers(None, Some(""), Some("10")).0);
    assert!(!ChunkedEncoding::from_headers(None, None, Some("10")).0);
}

#[test]
fn identity_decode_hashes_the_bytes() {
    let body: Vec<u8> = b"hi".to_vec();
    let (data, size, etag) = decode_body(&body, false).unwrap();
    assert_eq!(data, b"hi".to_vec());
    assert_eq!(size, 2);
    assert_eq!(etag, "49f68a5c8493ec2c0bf489821c21fc3b");
}

#[test]
fn chunked_decode_unframes_the_chunks() {
    let body: Vec<u8> = b"3\r\nabc\r\n3\r\ndef\r\n0\r\n\r\n".to_vec();
    let (data, size, _etag) = decode_body(&body, true).unwrap();
    assert_eq!(data, b"abcdef".to_vec());
    assert_eq!(size, 6);
}

#[test]
fn chunk_extensions_are_discarded() {
    let body: Vec<u8> = b"3;chunk-signature=ffff\r\nabc\r\n0\r\n\r\n".to_vec();
    let (data, _size, _etag) = decode_body(&body, true).unwrap();
    assert_eq!(data, b"abc".to_vec());
}

#[test]
fn broken_chunked_bodies_are_fatal() {
    for bad in [&b"3\r\nab"[..], &b"zz\r\nabc\r\n"[..], &b"3abc"[..], &b"\r\nabc\r\n"[..]] {
        let body: Vec<u8> = bad.to_vec();
        let r = decode_body(&body, true);
        assert!(r.is_err());
        assert!(matches!(r.err().unwrap().kind, S3FSErrorKind::IncompleteWrite));
    }
}

#[test]
fn sidecar_record_serializes_canonically() {
    let m = FileMeta { etag: String::from("49f68a5c8493ec2c0bf489821c21fc3b"), size: 2 };
    let json = meta_to_json(&m);
    assert_eq!(json, "{\"etag\":\"49f68a5c8493ec2c0bf489821c21fc3b\",\"size\":2}");
}

#[test]
fn sidecar_record_parses_back() {
    let m = FileMeta { etag: String::from("abc123"), size: 40960 };
    let round = parse_meta(&meta_to_json(&m)).unwrap();
    assert_eq!(round.etag, "abc123");
    assert_eq!(round.size, 40960);
}

#[test]
fn malformed_sidecars_are_refused() {
    for bad in ["", "{}", "{\"etag\":\"x\"}", "{\"etag\":\"x\",\"size\":007}",
        "{\"etag\":\"x\",\"size\":2} ", "{\"size\":2,\"etag\":\"x\"}"] {
        let r = parse_meta(bad);
        assert!(r.is_err());
        assert!(matches!(r.err().unwrap().kind, S3FSErrorKind::InvalidMeta));
    }
}

#[test]
fn classifier_follows_the_table() {
    assert_eq!(classify(&shape(Method::Get, 0)), S3Op::ListAllBuckets);
    let mut s = shape(Method::Get, 1);
    s.has_location = true;
    assert_eq!(classify(&s), S3Op::GetBucketLocation);
    let mut s = shape(Method::Get, 1);
    s.has_list_type = true;
    s.list_type_is_2 = true;
    assert_eq!(classify(&s), S3Op::ListObjectsV2);
    assert_eq!(classify(&shape(Method::Get, 1)), S3Op::ListObjects);
    assert_eq!(classify(&shape(Method::Put, 1)), S3Op::CreateBucket);
    let mut s = shape(Method::Delete, 1);
    s.has_upload_id = true;
    assert_eq!(classify(&s), S3Op::AbortMultipartUpload);
    let mut s = shape(Method::Post, 2);
    s.has_delete = true;
    assert_eq!(classify(&s), S3Op::DeleteObjectsBulk);
    let mut s = shape(Method::Post, 2);
    s.has_uploads = true;
    assert_eq!(classify(&s), S3Op::CreateMultipartUpload);
    let mut s = shape(Method::Post, 2);
    s.has_upload_id = true;
    assert_eq!(classify(&s), S3Op::CompleteMultipartUpload);
    let mut s = shape(Method::Put, 2);
    s.has_part_number = true;
    s.has_upload_id = true;
    assert_eq!(classify(&s), S3Op::PutObjectPart);
    assert_eq!(classify(&shape(Method::Put, 2)), S3Op::PutObject);
    assert_eq!(classify(&shape(Method::Get, 2)), S3Op::GetObject);
    assert_eq!(classify(&shape(Method::Delete, 2)), S3Op::DeleteObject);
    assert_eq!(classify(&shape(Method::Other, 2)), S3Op::Unrecognized);
}

#[test]
fn auth_guard_wants_the_exact_key() {
    assert!(AuthCheckPassed::from_api_key(Some("secret")).is_ok());
    assert!(matches!(
        AuthCheckPassed::from_api_key(Some("wrong")),
        Err(rusts3::request_guards::AuthError::InvalidKey)
    ));
    assert!(matches!(
        AuthCheckPassed::from_api_key(None),
        Err(rusts3::request_guards::AuthError::NoKeySupplied)
    ));
}

#[test]
fn sequencer_tokens_advance_the_counter() {
    let mut s = Sequence { counter: 41 };
    let t = s.next();
    assert_eq!(s.counter, 42);
    assert!(t.contains("_41"));
    let t2 = s.next();
    assert!(t2.ends_with("_42"));
}

#[test]
fn responses_carry_their_statuses() {
    assert_eq!(S3Response::ok().status, 200);
    assert_eq!(S3Response::not_found().status, 404);
    assert_eq!(S3Response::invalid_request().status, 400);
    assert_eq!(S3Response::server_error().status, 500);
    let mut r = S3Response::ok();
    r.status_code(206);
    r.add_header("ETag", "x");
    r.body("payload");
    assert_eq!(r.status, 206);
    assert_eq!(r.headers[0], (String::from("ETag"), String::from("x")));
    assert_eq!(r.body, "payload");
}

#[test]
fn errors_keep_their_kinds() {
    assert!(matches!(S3FSError::io(None).kind, S3FSErrorKind::InputOutput));
    let e = S3FSError::invalid_bucket_name("b!");
    assert!(matches!(e.kind, S3FSErrorKind::InvalidBucketName));
    assert_eq!(e.message.unwrap(), "b!");
    let e = S3FSError::bucket_not_found("gone");
    assert!(matches!(e.kind, S3FSErrorKind::BucketNotFound));
    let e = S3FSError::of_kind_and_message(S3FSErrorKind::KeyNotFound, "k");
    assert!(matches!(e.kind, S3FSErrorKind::KeyNotFound));
    let boxed = S3FSError::of_kind(S3FSErrorKind::InvalidMeta).boxed();
    assert!(matches!(boxed.kind, S3FSErrorKind::InvalidMeta));
    assert!(matches!(S3Error::invalid_key().kind, ErrorKind::InvalidKey));
    assert!(matches!(S3Error::not_found().kind, ErrorKind::NotFound));
    assert!(matches!(S3Error::io_error().kind, ErrorKind::InputOutput));
}

#[test]
fn cli_arguments_read_back() {
    let a = CliArg::new(
        String::from("/data"),
        String::from("0.0.0.0"),
        8000,
        String::from(""),
    );
    assert_eq!(a.base_dir(), "/data");
    assert_eq!(a.bind_address(), "0.0.0.0");
    assert_eq!(a.bind_port(), 8000);
    assert_eq!(a.log4rs_config_file(), "");
}

#[test]
fn upload_ids_have_the_expected_shape() {
    let b = Bucket::from("b1", 0).unwrap();
    let id = b.gen_upload_id();
    assert_eq!(id.chars().count(), 17);
    assert!(id.starts_with("upload_"));
    assert!(id.chars().skip(7).all(|c| c.is_ascii_alphanumeric()));
    let id2 = b.gen_upload_id();
    assert_eq!(id2.chars().count(), 17);
}

#[test]
fn creation_time_renders_iso8601() {
    let b = Bucket::from("b1", 0).unwrap();
    assert_eq!(b.get_creation_time().unwrap(), "1970-01-01T00:00:00.000+00:00");
    let b2 = Bucket::from("b2", 1255151430000).unwrap();
    assert_eq!(b2.get_creation_time().unwrap(), "2009-10-10T05:10:30.000+00:00");
}

#[test]
fn data_without_sidecar_stays_invisible() {
    let mut b = Bucket::from("b1", 0).unwrap();
    assert!(b.load_entry("ghost.txt", FileType::File, b"x".to_vec(), String::new(), 0));
    let deep = b.list_objects("", "", 100);
    assert!(deep.is_empty());
    let meta = b.get_object_meta("ghost.txt");
    assert!(meta.is_err());
    assert!(matches!(meta.err().unwrap().kind, S3FSErrorKind::InputOutput));
    assert!(b.get_object_by_key("ghost.txt").is_some());
}

#[test]
fn corrupt_sidecars_fail_the_meta_read() {
    let mut b = Bucket::from("b1", 0).unwrap();
    b.load_entry("k", FileType::File, b"x".to_vec(), String::new(), 0);
    b.load_entry("k@@META@@", FileType::File, Vec::new(), String::from("not json"), 0);
    let meta = b.get_object_meta("k");
    assert!(matches!(meta.err().unwrap().kind, S3FSErrorKind::InvalidMeta));
    // but the key lists, since the sidecar file stands
    assert_eq!(b.list_objects("", "", 100).len(), 1);
}

#[test]
fn save_object_writes_data_and_sidecar() {
    let mut b = Bucket::from("b1", 0).unwrap();
    let body: Vec<u8> = b"hi".to_vec();
    let (size, etag) = b.save_object("hello.txt", &body, false).unwrap();
    assert_eq!(size, 2);
    assert_eq!(etag, "49f68a5c8493ec2c0bf489821c21fc3b");
    assert_eq!(b.read_object("hello.txt").unwrap(), b"hi".to_vec());
    let meta = b.get_object_meta("hello.txt").unwrap();
    assert_eq!(meta.etag, "49f68a5c8493ec2c0bf489821c21fc3b");
    assert_eq!(meta.size, 2);
}

#[test]
fn save_object_rejects_invalid_keys() {
    let mut b = Bucket::from("b1", 0).unwrap();
    let body: Vec<u8> = b"hi".to_vec();
    let r = b.save_object("a//b", &body, false);
    assert!(matches!(r.err().unwrap().kind, S3FSErrorKind::InvalidObjectKey));
}

#[test]
fn delete_object_reports_validity_only() {
    let mut b = Bucket::from("b1", 0).unwrap();
    assert!(b.delete_object("never-existed"));
    assert!(!b.delete_object("bad>key"));
}

#[test]
fn object_handles_expose_their_parts() {
    let mut b = Bucket::from("b1", 0).unwrap();
    let body: Vec<u8> = b"hello".to_vec();
    b.save_object("dir/name.bin", &body, false).unwrap();
    let o = b.get_object_by_key("dir/name.bin").unwrap();
    assert!(o.is_file());
    assert!(!o.is_dir());
    assert!(o.is_present());
    assert!(o.has_meta());
    assert_eq!(o.len().unwrap(), 5);
    assert_eq!(o.object_key(), "dir/name.bin");
    assert_eq!(o.get_short_name(), "name.bin");
    assert_eq!(o.full_path().unwrap(), "dir/name.bin");
    assert_eq!(o.read_as_bytes().unwrap(), b"hello".to_vec());
    assert_eq!(o.read_as_string().unwrap(), "hello");
    assert_eq!(o.checksum().unwrap(), "5d41402abc4b2a76b9719d911017c592");
    assert!(matches!(o.kind(), FileType::File));
    let mf = o.metafile();
    assert!(mf.is_file());
    assert_eq!(mf.object_key(), "dir/name.bin@@META@@");
}

#[test]
fn flat_listing_ignores_visibility() {
    let mut b = Bucket::from("b1", 0).unwrap();
    b.load_entry("bare.txt", FileType::File, b"x".to_vec(), String::new(), 0);
    let body: Vec<u8> = b"y".to_vec();
    b.save_object("kept.txt", &body, false).unwrap();
    let all = b.list_all_objects();
    let keys: Vec<&str> = all.iter().map(|o| o.object_key()).collect();
    assert_eq!(keys, vec!["bare.txt", "kept.txt"]);
    let old = b.list_objects_old("ke");
    assert_eq!(old.len(), 1);
    assert!(b.list_objects_short_old("").is_empty());
}

#[test]
fn root_store_finds_buckets_by_name() {
    let mut fs = FS::new();
    fs.set_base("/tmp-root");
    assert_eq!(fs.get_staging_dir(), "/tmp-root/_staging");
    fs.initialize();
    fs.create_staging_directory();
    assert!(fs.make_bucket("b1").is_ok());
    let again = fs.make_bucket("b1");
    assert!(matches!(again.err().unwrap().kind, S3FSErrorKind::BucketAlreadyExists));
    let bad = fs.make_bucket("no good");
    assert!(matches!(bad.err().unwrap().kind, S3FSErrorKind::InvalidBucketName));
    assert!(fs.get_bucket("b1").is_some());
    assert!(fs.get_bucket("other").is_none());
    assert!(fs.get_bucket("_staging").is_none());
    assert_eq!(fs.get_all_buckets().len(), 1);
}

#[test]
fn parse_delete_keys_reads_groups_in_order() {
    let body = "<Delete>\r\n  <Object><Key>a.txt</Key></Object>\n  <Object><Key>b.txt</Key><VersionId>v2</VersionId></Object>\n</Delete>";
    let pairs = rusts3::handlers::parse_delete_keys(body);
    assert_eq!(pairs.len(), 2);
    assert_eq!(pairs[0], (String::from("a.txt"), String::new()));
    assert_eq!(pairs[1], (String::from("b.txt"), String::from("v2")));
}

#[test]
fn parse_delete_keys_skips_keyless_groups() {
    let body = "<Object><VersionId>v</VersionId></Object><Object><Key>k</Key></Object>";
    let pairs = rusts3::handlers::parse_delete_keys(body);
    assert_eq!(pairs.len(), 1);
    assert_eq!(pairs[0].0, "k");
}

#[test]
fn numerals_parse_within_machine_bounds() {
    assert_eq!(rusts3::text::parse_usize_dec("123"), Some(123));
    assert_eq!(rusts3::text::parse_usize_dec(""), None);
    assert_eq!(rusts3::text::parse_usize_dec("12x"), None);
    assert_eq!(rusts3::text::parse_usize_dec("99999999999999999999999999"), None);
    assert_eq!(rusts3::text::usize_to_string(0), "0");
    assert_eq!(rusts3::text::usize_to_string(40960), "40960");
}

#[test]
fn cached_file_headers_cover_the_contract() {
    let c = rusts3::cachedfile::CachedFile {
        data: b"abc".to_vec(),
        file_name: String::from("k.txt"),
        size: 3,
        modified_millis: 0,
        etag: String::from("e"),
        partial: false,
    };
    let h = c.response_headers();
    assert_eq!(h.len(), 6);
    assert_eq!(h[0], (String::from("Cache-control"), String::from("max-age=86400")));
    assert_eq!(h[1].1, "Thu, 01 Jan 1970 00:00:00 GMT");
    assert_eq!(h[2], (String::from("ETag"), String::from("e")));
    assert_eq!(h[3].1, "application-octetstream");
    assert_eq!(h[4].1, "attachment; filename=\"k.txt\"");
    assert_eq!(h[5], (String::from("content-length"), String::from("3")));
}

#[test]
fn abort_survives_short_gaps_between_parts() {
    let mut b = Bucket::from("b1", 0).unwrap();
    let p5: Vec<u8> = b"five".to_vec();
    let p12: Vec<u8> = b"twelve".to_vec();
    b.save_object_part("k", "upload_gappygappy", 5, &p5, false).unwrap();
    b.save_object_part("k", "upload_gappygappy", 12, &p12, false).unwrap();
    assert_eq!(b.staging.len(), 4);
    b.cleanup_upload_id("upload_gappygappy");
    assert_eq!(b.staging.len(), 0);
}

#[test]
fn abort_gives_up_after_ten_consecutive_misses() {
    let mut b = Bucket::from("b1", 0).unwrap();
    let p1: Vec<u8> = b"one".to_vec();
    let p30: Vec<u8> = b"thirty".to_vec();
    b.save_object_part("k", "upload_farawaypart", 1, &p1, false).unwrap();
    b.save_object_part("k", "upload_farawaypart", 30, &p30, false).unwrap();
    b.cleanup_upload_id("upload_farawaypart");
    // parts 2..=11 were all missing, so the probe stopped before thirty
    assert_eq!(b.staging.len(), 2);
    assert!(b.staging.iter().any(|e| e.key == "upload_farawaypart_30"));
}

#[test]
fn abort_leaves_other_uploads_alone() {
    let mut b = Bucket::from("b1", 0).unwrap();
    let p1: Vec<u8> = b"mine".to_vec();
    let q1: Vec<u8> = b"theirs".to_vec();
    b.save_object_part("k", "upload_first11111", 1, &p1, false).unwrap();
    b.save_object_part("k", "upload_second2222", 1, &q1, false).unwrap();
    b.cleanup_upload_id("upload_first11111");
    assert_eq!(b.staging.len(), 2);
    assert!(b.staging.iter().all(|e| e.key.starts_with("upload_second2222_1")));
}

#[test]
fn read_as_string_propagates_the_errors() {
    let mut b = Bucket::from("b1", 0).unwrap();
    b.load_entry("bad.bin", FileType::File, vec![0xff, 0xfe, 0x80], String::new(), 0);
    b.load_entry("bad.bin@@META@@", FileType::File, Vec::new(),
        String::from("{\"etag\":\"x\",\"size\":3}"), 0);
    let o = b.get_object_by_key("bad.bin").unwrap();
    let r = o.read_as_string();
    assert!(matches!(r.err().unwrap().kind, S3FSErrorKind::InputOutput));
    let big = vec![b'a'; 10 * 1024 * 1024 + 1];
    b.load_entry("big.bin", FileType::File, big, String::new(), 0);
    let o2 = b.get_object_by_key("big.bin").unwrap();
    assert!(matches!(o2.read_as_bytes().err().unwrap().kind, S3FSErrorKind::ObjectTooLarge));
    assert!(matches!(o2.read_as_string().err().unwrap().kind, S3FSErrorKind::ObjectTooLarge));
}
