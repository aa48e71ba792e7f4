use vstd::prelude::*;
use vstd::string::{StrSliceExecFns, StringExecFns};
use crate::fsapi::{
    deep_selection, entry_at, has_bucket, has_key, has_meta_at, obj_rel, published, save_blocked,
    short_selection, spec_meta_key, spec_obj_xml, spec_sidecar_etag, spec_valid_key,
    strip_slashes, Bucket, FileType, FS, FsEntry, S3Object,
};
use crate::text::dec_digits;

verus! {

/// The query parameters a listing request may carry.
#[derive(Debug)]
pub struct ListQuery {
    pub delimiter: Option<String>,
    pub encoding_type: Option<String>,
    pub marker: Option<String>,
    pub max_keys: Option<usize>,
    pub prefix: Option<String>,
    pub list_type: Option<i32>,
    pub continuation_token: Option<String>,
}

/// How the entry `e` of a bucket with the given entries renders into a
/// listing body.
pub open spec fn spec_entry_xml(entries: Seq<FsEntry>, e: FsEntry) -> Seq<char> {
    if e.kind == FileType::Directory {
        crate::fsapi::spec_common_prefix_xml(crate::fsapi::with_trailing_slash(e.key@))
    } else {
        crate::fsapi::spec_contents_xml(
            e.key@,
            crate::clock::iso8601_utc_of(e.modified_millis),
            if has_meta_at(entries, e.key@) {
                spec_sidecar_etag(entry_at(entries, spec_meta_key(e.key@)).text@)
            } else {
                Seq::empty()
            },
            e.data@.len(),
        )
    }
}

/// The concatenated rendering of a selection.
pub open spec fn spec_concat_xml(entries: Seq<FsEntry>, sel: Seq<FsEntry>) -> Seq<char>
    decreases sel.len(),
{
    if sel.len() == 0 {
        Seq::empty()
    } else {
        spec_concat_xml(entries, sel.drop_last()) + spec_entry_xml(entries, sel.last())
    }
}

proof fn lemma_obj_rel_xml(entries: Seq<FsEntry>, e: FsEntry, o: S3Object)
    requires
        obj_rel(entries, e, o),
    ensures
        spec_obj_xml(o) == spec_entry_xml(entries, e),
{
}

/// `true` or `false`, as the listing renders its truncation flag.
pub open spec fn spec_bool_text(b: bool) -> Seq<char> {
    if b {
        "true"@
    } else {
        "false"@
    }
}

fn bool_text(b: bool) -> (r: &'static str)
    ensures
        r@ == spec_bool_text(b),
{
    if b {
        "true"
    } else {
        "false"
    }
}

/// Lists with the delimiter semantics the query asked for: shallow when a
/// delimiter is given, deep otherwise.
pub fn list_bucket(
    bucket: &Bucket,
    prefix: &str,
    delimiter: &Option<String>,
    after: &str,
    limit: usize,
) -> (r: Vec<S3Object>)
    requires
        bucket.wf(),
    ensures
        ({
            let sel = if delimiter is Some {
                short_selection(bucket.entries@, strip_slashes(prefix@), after@)
            } else {
                deep_selection(bucket.entries@, strip_slashes(prefix@), after@)
            };
            &&& !spec_valid_key(prefix@) ==> r@.len() == 0
            &&& spec_valid_key(prefix@) ==> r@.len() == (if sel.len() < limit {
                sel.len() as int
            } else {
                limit as int
            }) && (forall|t: int|
                0 <= t < r@.len() ==> obj_rel(bucket.entries@, sel[t], #[trigger] r@[t]))
        }),
{
    match delimiter {
        Some(_) => bucket.list_objects_short(prefix, after, limit),
        None => bucket.list_objects(prefix, after, limit),
    }
}

/// The listing body: every returned object rendered in order.
fn render_objects(bucket: &Bucket, objects: &Vec<S3Object>, ghost_sel: Ghost<Seq<FsEntry>>) -> (r:
    String)
    requires
        bucket.wf(),
        objects@.len() <= ghost_sel@.len(),
        forall|t: int|
            0 <= t < objects@.len() ==> obj_rel(bucket.entries@, ghost_sel@[t], #[trigger] objects@[t]),
        forall|t: int| 0 <= t < objects@.len() ==> (#[trigger] objects@[t]).modified_millis
            < crate::clock::YEAR_9999_MILLIS,
    ensures
        r@ == spec_concat_xml(bucket.entries@, ghost_sel@.take(objects@.len() as int)),
{
    let mut s = String::new();
    let n = objects.len();
    let mut i: usize = 0;
    proof {
        assert(ghost_sel@.take(0) =~= Seq::<FsEntry>::empty());
    }
    while i < n
        invariant
            i <= n,
            n == objects@.len(),
            bucket.wf(),
            objects@.len() <= ghost_sel@.len(),
            forall|t: int|
                0 <= t < objects@.len() ==> obj_rel(
                    bucket.entries@,
                    ghost_sel@[t],
                    #[trigger] objects@[t],
                ),
            forall|t: int| 0 <= t < objects@.len() ==> (#[trigger] objects@[t]).modified_millis
                < crate::clock::YEAR_9999_MILLIS,
            s@ == spec_concat_xml(bucket.entries@, ghost_sel@.take(i as int)),
        decreases n - i,
    {
        let piece = objects[i].format();
        s.append(piece.as_str());
        proof {
            lemma_obj_rel_xml(bucket.entries@, ghost_sel@[i as int], objects@[i as int]);
            assert(ghost_sel@.take(i + 1).drop_last() =~= ghost_sel@.take(i as int));
            assert(ghost_sel@.take(i + 1).last() == ghost_sel@[i as int]);
        }
        i = i + 1;
    }
    s
}

/// The version 1 listing envelope.
pub open spec fn spec_list_v1_xml(
    name: Seq<char>,
    prefix: Seq<char>,
    marker: Seq<char>,
    next_fragment: Seq<char>,
    max_keys: nat,
    delimiter: Seq<char>,
    truncated: bool,
    objects: Seq<char>,
) -> Seq<char> {
    "<?xml version=\"1.0\" encoding=\"UTF-8\"?>\n    <ListBucketResult xmlns=\"http://s3.amazonaws.com/doc/2006-03-01/\">\n      <Name>"@
        + name + "</Name>\n      <Prefix>"@ + prefix + "</Prefix>\n      <Marker>"@ + marker
        + "</Marker>\n      "@ + next_fragment + "\n      <MaxKeys>"@ + dec_digits(max_keys)
        + "</MaxKeys>\n      <Delimiter>"@ + delimiter + "</Delimiter>\n      <IsTruncated>"@
        + spec_bool_text(truncated) + "</IsTruncated>\n        "@ + objects
        + "\n      <EncodingType>url</EncodingType>\n    </ListBucketResult>\n    "@
}

/// The version 2 listing envelope.
pub open spec fn spec_list_v2_xml(
    name: Seq<char>,
    prefix: Seq<char>,
    key_count: nat,
    token: Seq<char>,
    next_fragment: Seq<char>,
    max_keys: nat,
    delimiter: Seq<char>,
    truncated: bool,
    objects: Seq<char>,
) -> Seq<char> {
    "<?xml version=\"1.0\" encoding=\"UTF-8\"?>\n    <ListBucketResult xmlns=\"http://s3.amazonaws.com/doc/2006-03-01/\">\n      <Name>"@
        + name + "</Name>\n      <Prefix>"@ + prefix + "</Prefix>\n      <KeyCount>"@ + dec_digits(
        key_count,
    ) + "</KeyCount>\n      <ContinuationToken>"@ + token + "</ContinuationToken>\n      "@
        + next_fragment + "\n      <MaxKeys>"@ + dec_digits(max_keys)
        + "</MaxKeys>\n      <Delimiter>"@ + delimiter + "</Delimiter>\n      <IsTruncated>"@
        + spec_bool_text(truncated) + "</IsTruncated>\n        "@ + objects
        + "\n      <EncodingType>url</EncodingType>\n    </ListBucketResult>\n    "@
}

/// The `NextMarker` fragment of a truncated version 1 page.
pub open spec fn spec_next_marker_xml(key: Seq<char>) -> Seq<char> {
    "<NextMarker>"@ + key + "</NextMarker>"@
}

/// The `NextContinuationToken` fragment of a truncated version 2 page.
pub open spec fn spec_next_token_xml(key: Seq<char>) -> Seq<char> {
    "<NextContinuationToken>"@ + key + "</NextContinuationToken>"@
}

/// What a listing request resolves against: the prefix and cursor it
/// asked for, and the page the bucket yields for them.
pub open spec fn spec_page(bucket: Bucket, shallow: bool, prefix: Seq<char>, after: Seq<char>, limit: nat) -> Seq<FsEntry> {
    let sel = if shallow {
        short_selection(bucket.entries@, strip_slashes(prefix), after)
    } else {
        deep_selection(bucket.entries@, strip_slashes(prefix), after)
    };
    let sel2 = if spec_valid_key(prefix) {
        sel
    } else {
        Seq::empty()
    };
    if sel2.len() <= limit {
        sel2
    } else {
        sel2.take(limit as int)
    }
}

/// The version 1 listing: resolves the query against the bucket, renders
/// the page, and marks the page truncated when it is full.
pub fn list_objects(fs: &FS, bucket: &str, query: &ListQuery) -> (r: Option<String>)
    requires
        fs.wf(),
        query.delimiter matches Some(d) ==> d@ == "/"@ || d@ == Seq::<char>::empty(),
    ensures
        (r is None) == (!crate::fsapi::spec_valid_bucket(bucket@) || !has_bucket(
            fs.buckets@,
            bucket@,
        )),
        r matches Some(x) ==> exists|i: int|
            0 <= i < fs.buckets@.len() && (#[trigger] fs.buckets@[i].name@) == bucket@ && {
                let b = fs.buckets@[i];
                let prefix = match query.prefix {
                    Some(p) => p@,
                    None => Seq::<char>::empty(),
                };
                let marker = match query.marker {
                    Some(m) => m@,
                    None => Seq::<char>::empty(),
                };
                let limit = match query.max_keys {
                    Some(k) => k as nat,
                    None => 100nat,
                };
                let delim = match query.delimiter {
                    Some(d) => d@,
                    None => Seq::<char>::empty(),
                };
                let page = spec_page(b, query.delimiter is Some, prefix, marker, limit);
                let truncated = page.len() == limit && page.len() > 0;
                let next = if truncated {
                    spec_next_marker_xml(page.last().key@)
                } else {
                    Seq::<char>::empty()
                };
                x@ == spec_list_v1_xml(
                    bucket@,
                    prefix,
                    marker,
                    next,
                    limit,
                    delim,
                    truncated,
                    spec_concat_xml(b.entries@, page),
                )
            },
{
    let b = match fs.get_bucket(bucket) {
        Some(b) => b,
        None => {
            return None;
        },
    };
    let empty = String::new();
    let actual_prefix: &String = match &query.prefix {
        Some(p) => p,
        None => &empty,
    };
    let marker: &String = match &query.marker {
        Some(m) => m,
        None => &empty,
    };
    let max_keys: usize = match query.max_keys {
        Some(k) => k,
        None => 100,
    };
    let delimiter: &String = match &query.delimiter {
        Some(d) => d,
        None => &empty,
    };
    let objects = list_bucket(b, actual_prefix.as_str(), &query.delimiter, marker.as_str(), max_keys);
    let ghost sel_full = if query.delimiter is Some {
        short_selection(b.entries@, strip_slashes(actual_prefix@), marker@)
    } else {
        deep_selection(b.entries@, strip_slashes(actual_prefix@), marker@)
    };
    let ghost page = spec_page(*b, query.delimiter is Some, actual_prefix@, marker@, max_keys as nat);
    proof {
        if spec_valid_key(actual_prefix@) {
            assert(page =~= sel_full.take(objects@.len() as int));
        } else {
            assert(page =~= Seq::<FsEntry>::empty());
            assert(page =~= sel_full.take(objects@.len() as int)) by {
                assert(objects@.len() == 0);
                assert(sel_full.take(0) =~= Seq::<FsEntry>::empty());
            }
        }
        assert forall|t: int| 0 <= t < objects@.len() implies (#[trigger] objects@[t]).modified_millis
            < crate::clock::YEAR_9999_MILLIS by {
            if spec_valid_key(actual_prefix@) {
                if query.delimiter is Some {
                    crate::fsapi::lemma_short_selection_entry_ok(
                        b.entries@,
                        strip_slashes(actual_prefix@),
                        marker@,
                        t,
                    );
                } else {
                    crate::fsapi::lemma_deep_selection_entry_ok(
                        b.entries@,
                        strip_slashes(actual_prefix@),
                        marker@,
                        t,
                    );
                }
            }
        }
    }
    let objects_string = render_objects(b, &objects, Ghost(sel_full));
    let is_truncated = objects.len() == max_keys && objects.len() > 0;
    let mut next_marker = String::new();
    if is_truncated {
        let last = &objects[objects.len() - 1];
        let mut frag = String::from_str("<NextMarker>");
        frag.append(last.object_key());
        frag.append("</NextMarker>");
        next_marker = frag;
        proof {
            assert(next_marker@ =~= spec_next_marker_xml(page.last().key@));
        }
    }
    let mut x = String::from_str(
        "<?xml version=\"1.0\" encoding=\"UTF-8\"?>\n    <ListBucketResult xmlns=\"http://s3.amazonaws.com/doc/2006-03-01/\">\n      <Name>",
    );
    x.append(bucket);
    x.append("</Name>\n      <Prefix>");
    x.append(actual_prefix.as_str());
    x.append("</Prefix>\n      <Marker>");
    x.append(marker.as_str());
    x.append("</Marker>\n      ");
    x.append(next_marker.as_str());
    x.append("\n      <MaxKeys>");
    let mk = crate::text::usize_to_string(max_keys);
    x.append(mk.as_str());
    x.append("</MaxKeys>\n      <Delimiter>");
    x.append(delimiter.as_str());
    x.append("</Delimiter>\n      <IsTruncated>");
    x.append(bool_text(is_truncated));
    x.append("</IsTruncated>\n        ");
    x.append(objects_string.as_str());
    x.append("\n      <EncodingType>url</EncodingType>\n    </ListBucketResult>\n    ");
    proof {
        assert(x@ =~= spec_list_v1_xml(
            bucket@,
            actual_prefix@,
            marker@,
            next_marker@,
            max_keys as nat,
            delimiter@,
            is_truncated,
            objects_string@,
        ));
    }
    Some(x)
}

/// The version 2 listing: the same page, spoken with continuation
/// tokens and a key count.
pub fn list_objects_v2(fs: &FS, bucket: &str, query: &ListQuery) -> (r: Option<String>)
    requires
        fs.wf(),
        query.delimiter matches Some(d) ==> d@ == "/"@ || d@ == Seq::<char>::empty(),
    ensures
        (r is None) == (!crate::fsapi::spec_valid_bucket(bucket@) || !has_bucket(
            fs.buckets@,
            bucket@,
        )),
        r matches Some(x) ==> exists|i: int|
            0 <= i < fs.buckets@.len() && (#[trigger] fs.buckets@[i].name@) == bucket@ && {
                let b = fs.buckets@[i];
                let prefix = match query.prefix {
                    Some(p) => p@,
                    None => Seq::<char>::empty(),
                };
                let token = match query.continuation_token {
                    Some(t) => t@,
                    None => Seq::<char>::empty(),
                };
                let limit = match query.max_keys {
                    Some(k) => k as nat,
                    None => 100nat,
                };
                let delim = match query.delimiter {
                    Some(d) => d@,
                    None => Seq::<char>::empty(),
                };
                let page = spec_page(b, query.delimiter is Some, prefix, token, limit);
                let truncated = page.len() == limit && page.len() > 0;
                let next = if truncated {
                    spec_next_token_xml(page.last().key@)
                } else {
                    Seq::<char>::empty()
                };
                x@ == spec_list_v2_xml(
                    bucket@,
                    prefix,
                    page.len() as nat,
                    token,
                    next,
                    limit,
                    delim,
                    truncated,
                    spec_concat_xml(b.entries@, page),
                )
            },
{
    let b = match fs.get_bucket(bucket) {
        Some(b) => b,
        None => {
            return None;
        },
    };
    let empty = String::new();
    let actual_prefix: &String = match &query.prefix {
        Some(p) => p,
        None => &empty,
    };
    let ct: &String = match &query.continuation_token {
        Some(t) => t,
        None => &empty,
    };
    let max_keys: usize = match query.max_keys {
        Some(k) => k,
        None => 100,
    };
    let delimiter: &String = match &query.delimiter {
        Some(d) => d,
        None => &empty,
    };
    let objects = list_bucket(b, actual_prefix.as_str(), &query.delimiter, ct.as_str(), max_keys);
    let ghost sel_full = if query.delimiter is Some {
        short_selection(b.entries@, strip_slashes(actual_prefix@), ct@)
    } else {
        deep_selection(b.entries@, strip_slashes(actual_prefix@), ct@)
    };
    let ghost page = spec_page(*b, query.delimiter is Some, actual_prefix@, ct@, max_keys as nat);
    proof {
        if spec_valid_key(actual_prefix@) {
            assert(page =~= sel_full.take(objects@.len() as int));
        } else {
            assert(page =~= Seq::<FsEntry>::empty());
            assert(page =~= sel_full.take(objects@.len() as int)) by {
                assert(objects@.len() == 0);
                assert(sel_full.take(0) =~= Seq::<FsEntry>::empty());
            }
        }
        assert forall|t: int| 0 <= t < objects@.len() implies (#[trigger] objects@[t]).modified_millis
            < crate::clock::YEAR_9999_MILLIS by {
            if spec_valid_key(actual_prefix@) {
                if query.delimiter is Some {
                    crate::fsapi::lemma_short_selection_entry_ok(
                        b.entries@,
                        strip_slashes(actual_prefix@),
                        ct@,
                        t,
                    );
                } else {
                    crate::fsapi::lemma_deep_selection_entry_ok(
                        b.entries@,
                        strip_slashes(actual_prefix@),
                        ct@,
                        t,
                    );
                }
            }
        }
    }
    let objects_string = render_objects(b, &objects, Ghost(sel_full));
    let is_truncated = objects.len() == max_keys && objects.len() > 0;
    let copy_count = objects.len();
    let mut next_ct = String::new();
    if is_truncated {
        let last = &objects[objects.len() - 1];
        let mut frag = String::from_str("<NextContinuationToken>");
        frag.append(last.object_key());
        frag.append("</NextContinuationToken>");
        next_ct = frag;
        proof {
            assert(next_ct@ =~= spec_next_token_xml(page.last().key@));
        }
    }
    let mut x = String::from_str(
        "<?xml version=\"1.0\" encoding=\"UTF-8\"?>\n    <ListBucketResult xmlns=\"http://s3.amazonaws.com/doc/2006-03-01/\">\n      <Name>",
    );
    x.append(bucket);
    x.append("</Name>\n      <Prefix>");
    x.append(actual_prefix.as_str());
    x.append("</Prefix>\n      <KeyCount>");
    let cc = crate::text::usize_to_string(copy_count);
    x.append(cc.as_str());
    x.append("</KeyCount>\n      <ContinuationToken>");
    x.append(ct.as_str());
    x.append("</ContinuationToken>\n      ");
    x.append(next_ct.as_str());
    x.append("\n      <MaxKeys>");
    let mk = crate::text::usize_to_string(max_keys);
    x.append(mk.as_str());
    x.append("</MaxKeys>\n      <Delimiter>");
    x.append(delimiter.as_str());
    x.append("</Delimiter>\n      <IsTruncated>");
    x.append(bool_text(is_truncated));
    x.append("</IsTruncated>\n        ");
    x.append(objects_string.as_str());
    x.append("\n      <EncodingType>url</EncodingType>\n    </ListBucketResult>\n    ");
    proof {
        assert(x@ =~= spec_list_v2_xml(
            bucket@,
            actual_prefix@,
            copy_count as nat,
            ct@,
            next_ct@,
            max_keys as nat,
            delimiter@,
            is_truncated,
            objects_string@,
        ));
    }
    Some(x)
}

// ---------------------------------------------------------------------------
// Writing objects.
// ---------------------------------------------------------------------------

/// What one single-shot save does to a bucket.
pub open spec fn save_transition(
    b0: Bucket,
    b1: Bucket,
    key: Seq<char>,
    body: Seq<u8>,
    chunked: bool,
) -> bool {
    &&& b1.name == b0.name && b1.created_millis == b0.created_millis && b1.staging == b0.staging
    &&& (!spec_valid_key(key) || crate::chunk_to_raw::spec_decoded_body(body, chunked) is None)
        ==> b1.entries == b0.entries
    &&& (spec_valid_key(key) && crate::chunk_to_raw::spec_decoded_body(body, chunked) is Some)
        ==> {
        let d = crate::chunk_to_raw::spec_decoded_body(body, chunked)->Some_0;
        if save_blocked(b0.entries@, key) {
            b1.entries == b0.entries
        } else {
            published(b0.entries@, b1.entries@, key, d, crate::digest::md5_hex_of(d), d.len())
        }
    }
}

/// The PUT-object route: saves into the named bucket and answers 200
/// with the etag, 404 without the bucket, 500 on a failed save.
pub fn put_object(fs: &mut FS, bucket: &str, key: &str, body: &Vec<u8>, chunked: bool) -> (r:
    crate::s3resp::S3Response)
    requires
        old(fs).wf(),
    ensures
        final(fs).wf(),
        final(fs).base == old(fs).base,
        !has_bucket(old(fs).buckets@, bucket@) ==> (r.status == 404 && final(fs).buckets == old(
            fs,
        ).buckets),
        has_bucket(old(fs).buckets@, bucket@) ==> exists|i: int|
            0 <= i < old(fs).buckets@.len() && (#[trigger] old(fs).buckets@[i].name@) == bucket@
                && {
                let b0 = old(fs).buckets@[i];
                let b1 = final(fs).buckets@[i];
                &&& final(fs).buckets@.len() == old(fs).buckets@.len()
                &&& (forall|j: int|
                    0 <= j < old(fs).buckets@.len() && j != i ==> final(fs).buckets@[j] == old(
                        fs,
                    ).buckets@[j])
                &&& save_transition(b0, b1, key@, body@, chunked)
                &&& (spec_valid_key(key@) && crate::chunk_to_raw::spec_decoded_body(
                    body@,
                    chunked,
                ) is Some) ==> (r.status == 200 && r.headers@.len() == 1 && r.headers@[0].0@
                    == "ETag"@ && r.headers@[0].1@ == crate::digest::md5_hex_of(
                    crate::chunk_to_raw::spec_decoded_body(body@, chunked)->Some_0,
                ))
                &&& !(spec_valid_key(key@) && crate::chunk_to_raw::spec_decoded_body(
                    body@,
                    chunked,
                ) is Some) ==> r.status == 500
            },
{
    let i = match fs.bucket_index(bucket) {
        Some(i) => i,
        None => {
            return crate::s3resp::S3Response::not_found();
        },
    };
    let mut b = fs.buckets.remove(i);
    let result = b.save_object(key, body, chunked);
    fs.buckets.insert(i, b);
    proof {
        assert(final(fs).buckets@ =~= old(fs).buckets@.update(i as int, final(fs).buckets@[i as int]));
        assert forall|a: int, c: int|
            0 <= a < c < final(fs).buckets@.len() implies (#[trigger] final(fs).buckets@[a].name@)
            != (#[trigger] final(fs).buckets@[c].name@) by {
            assert(old(fs).buckets@[a].name@ != old(fs).buckets@[c].name@);
        }
    }
    match result {
        Ok(v) => {
            let mut ok = crate::s3resp::S3Response::ok();
            ok.add_header("ETag", v.1.as_str());
            ok
        },
        Err(_) => crate::s3resp::S3Response::server_error(),
    }
}

/// What staging one part does to a bucket.
pub open spec fn save_part_transition(
    b0: Bucket,
    b1: Bucket,
    upload_id: Seq<char>,
    part_number: u32,
    body: Seq<u8>,
    chunked: bool,
) -> bool {
    &&& b1.name == b0.name && b1.created_millis == b0.created_millis && b1.entries == b0.entries
    &&& crate::chunk_to_raw::spec_decoded_body(body, chunked) is None ==> b1.staging == b0.staging
    &&& crate::chunk_to_raw::spec_decoded_body(body, chunked) is Some ==> {
        let d = crate::chunk_to_raw::spec_decoded_body(body, chunked)->Some_0;
        let pk = crate::fsapi::spec_part_key(upload_id, part_number as nat);
        let mpk = spec_meta_key(pk);
        &&& has_key(b1.staging@, pk) && entry_at(b1.staging@, pk).data@ == d
        &&& has_key(b1.staging@, mpk)
        &&& forall|k: Seq<char>|
            k != pk && k != mpk ==> #[trigger] has_key(b1.staging@, k) == has_key(b0.staging@, k)
                && (has_key(b0.staging@, k) ==> entry_at(b1.staging@, k) == entry_at(
                b0.staging@,
                k,
            ))
    }
}

/// The PUT-part route: stages one part of an upload.
#[verifier::rlimit(50)]
pub fn put_object_part(
    fs: &mut FS,
    bucket: &str,
    key: &str,
    part_number: u32,
    upload_id: &str,
    body: &Vec<u8>,
    chunked: bool,
) -> (r: crate::s3resp::S3Response)
    requires
        old(fs).wf(),
    ensures
        final(fs).wf(),
        final(fs).base == old(fs).base,
        !has_bucket(old(fs).buckets@, bucket@) ==> (r.status == 404 && final(fs).buckets == old(
            fs,
        ).buckets),
        has_bucket(old(fs).buckets@, bucket@) ==> exists|i: int|
            0 <= i < old(fs).buckets@.len() && (#[trigger] old(fs).buckets@[i].name@) == bucket@
                && {
                let b0 = old(fs).buckets@[i];
                let b1 = final(fs).buckets@[i];
                &&& final(fs).buckets@.len() == old(fs).buckets@.len()
                &&& (forall|j: int|
                    0 <= j < old(fs).buckets@.len() && j != i ==> final(fs).buckets@[j] == old(
                        fs,
                    ).buckets@[j])
                &&& save_part_transition(b0, b1, upload_id@, part_number, body@, chunked)
                &&& crate::chunk_to_raw::spec_decoded_body(body@, chunked) is Some ==> (r.status
                    == 200 && r.headers@.len() == 1 && r.headers@[0].0@ == "ETag"@
                    && r.headers@[0].1@ == crate::digest::md5_hex_of(
                    crate::chunk_to_raw::spec_decoded_body(body@, chunked)->Some_0,
                ))
                &&& crate::chunk_to_raw::spec_decoded_body(body@, chunked) is None ==> r.status
                    == 500
            },
{
    let i = match fs.bucket_index(bucket) {
        Some(i) => i,
        None => {
            return crate::s3resp::S3Response::not_found();
        },
    };
    let mut b = fs.buckets.remove(i);
    let ghost b0v = b;
    let result = b.save_object_part(key, upload_id, part_number, body, chunked);
    let ghost b1v = b;
    fs.buckets.insert(i, b);
    proof {
        assert(final(fs).buckets@ =~= old(fs).buckets@.update(i as int, final(fs).buckets@[i as int]));
        assert forall|a: int, c: int|
            0 <= a < c < final(fs).buckets@.len() implies (#[trigger] final(fs).buckets@[a].name@)
            != (#[trigger] final(fs).buckets@[c].name@) by {
            assert(old(fs).buckets@[a].name@ != old(fs).buckets@[c].name@);
        }
        assert(b0v == old(fs).buckets@[i as int]);
        assert(b1v == final(fs).buckets@[i as int]);
        assert(save_part_transition(b0v, b1v, upload_id@, part_number, body@, chunked));
    }
    match result {
        Ok(v) => {
            let mut ok = crate::s3resp::S3Response::ok();
            ok.add_header("ETag", v.1.as_str());
            ok
        },
        Err(_) => crate::s3resp::S3Response::server_error(),
    }
}

// ---------------------------------------------------------------------------
// The multipart routes.
// ---------------------------------------------------------------------------

/// The result body of a completed upload.
pub open spec fn spec_complete_xml(bucket: Seq<char>, key: Seq<char>, etag: Seq<char>) -> Seq<
    char,
> {
    "<?xml version=\"1.0\" encoding=\"UTF-8\"?>\n    <CompleteMultipartUploadResult xmlns=\"http://s3.amazonaws.com/doc/2006-03-01/\">\n     <Location>http://127.0.0.1:8000/"@
        + bucket + "/"@ + key + "</Location>\n     <Bucket>"@ + bucket + "</Bucket>\n     <Key>"@
        + key + "</Key>\n     <ETag>\""@ + etag + "\"</ETag>\n    </CompleteMultipartUploadResult>"@
}

/// The POST-complete route: merges the staged parts into the object and
/// answers with the result envelope.
pub fn complete_multipart_upload(fs: &mut FS, bucket: &str, key: &str, upload_id: &str) -> (r:
    crate::s3resp::S3Response)
    requires
        old(fs).wf(),
    ensures
        final(fs).wf(),
        final(fs).base == old(fs).base,
        !has_bucket(old(fs).buckets@, bucket@) ==> (r.status == 404 && final(fs).buckets == old(
            fs,
        ).buckets),
        has_bucket(old(fs).buckets@, bucket@) ==> exists|i: int|
            0 <= i < old(fs).buckets@.len() && (#[trigger] old(fs).buckets@[i].name@) == bucket@
                && {
                let b0 = old(fs).buckets@[i];
                let b1 = final(fs).buckets@[i];
                &&& final(fs).buckets@.len() == old(fs).buckets@.len()
                &&& (forall|j: int|
                    0 <= j < old(fs).buckets@.len() && j != i ==> final(fs).buckets@[j] == old(
                        fs,
                    ).buckets@[j])
                &&& b1.name == b0.name && b1.created_millis == b0.created_millis
                &&& save_blocked(b0.entries@, key@) ==> (r.status == 500 && b1.entries
                    == b0.entries && b1.staging == b0.staging)
                &&& !save_blocked(b0.entries@, key@) ==> (r.status == 200 && exists|n: nat|
                    #![trigger crate::fsapi::concat_parts(b0.staging@, upload_id@, n)]
                    {
                        let d = crate::fsapi::concat_parts(b0.staging@, upload_id@, n);
                        &&& crate::fsapi::merged_upload(b0, b1, key@, upload_id@, n)
                        &&& r.body@ == spec_complete_xml(
                            bucket@,
                            key@,
                            crate::digest::md5_hex_of(d),
                        )
                    })
            },
{
    let i = match fs.bucket_index(bucket) {
        Some(i) => i,
        None => {
            return crate::s3resp::S3Response::not_found();
        },
    };
    let mut b = fs.buckets.remove(i);
    let result = b.merge_part(key, upload_id);
    fs.buckets.insert(i, b);
    proof {
        assert(final(fs).buckets@ =~= old(fs).buckets@.update(i as int, final(fs).buckets@[i as int]));
        assert forall|a: int, c: int|
            0 <= a < c < final(fs).buckets@.len() implies (#[trigger] final(fs).buckets@[a].name@)
            != (#[trigger] final(fs).buckets@[c].name@) by {
            assert(old(fs).buckets@[a].name@ != old(fs).buckets@[c].name@);
        }
    }
    match result {
        Ok(v) => {
            let mut x = String::from_str(
                "<?xml version=\"1.0\" encoding=\"UTF-8\"?>\n    <CompleteMultipartUploadResult xmlns=\"http://s3.amazonaws.com/doc/2006-03-01/\">\n     <Location>http://127.0.0.1:8000/",
            );
            x.append(bucket);
            x.append("/");
            x.append(key);
            x.append("</Location>\n     <Bucket>");
            x.append(bucket);
            x.append("</Bucket>\n     <Key>");
            x.append(key);
            x.append("</Key>\n     <ETag>\"");
            x.append(v.1.as_str());
            x.append("\"</ETag>\n    </CompleteMultipartUploadResult>");
            let mut ok = crate::s3resp::S3Response::ok();
            ok.body(x.as_str());
            proof {
                assert(x@ =~= spec_complete_xml(bucket@, key@, v.1@));
            }
            ok
        },
        Err(_) => crate::s3resp::S3Response::server_error(),
    }
}

/// The DELETE-upload route: removes the staged files of the upload.
pub fn cleanup_multipart_upload(fs: &mut FS, bucket: &str, upload_id: &str) -> (r:
    crate::s3resp::S3Response)
    requires
        old(fs).wf(),
    ensures
        final(fs).wf(),
        final(fs).base == old(fs).base,
        !has_bucket(old(fs).buckets@, bucket@) ==> (r.status == 404 && final(fs).buckets == old(
            fs,
        ).buckets),
        has_bucket(old(fs).buckets@, bucket@) ==> r.status == 200 && exists|i: int|
            0 <= i < old(fs).buckets@.len() && (#[trigger] old(fs).buckets@[i].name@) == bucket@
                && {
                let b0 = old(fs).buckets@[i];
                let b1 = final(fs).buckets@[i];
                &&& final(fs).buckets@.len() == old(fs).buckets@.len()
                &&& (forall|j: int|
                    0 <= j < old(fs).buckets@.len() && j != i ==> final(fs).buckets@[j] == old(
                        fs,
                    ).buckets@[j])
                &&& b1.name == b0.name && b1.created_millis == b0.created_millis && b1.entries
                    == b0.entries
                &&& exists|l: nat| #[trigger] crate::fsapi::cleaned_upload(b0, b1, upload_id@, l)
            },
{
    let i = match fs.bucket_index(bucket) {
        Some(i) => i,
        None => {
            return crate::s3resp::S3Response::not_found();
        },
    };
    let mut b = fs.buckets.remove(i);
    let ghost b0v = b;
    let probed = b.cleanup_upload_id(upload_id);
    let ghost b1v = b;
    fs.buckets.insert(i, b);
    proof {
        assert(final(fs).buckets@ =~= old(fs).buckets@.update(i as int, final(fs).buckets@[i as int]));
        assert forall|a: int, c: int|
            0 <= a < c < final(fs).buckets@.len() implies (#[trigger] final(fs).buckets@[a].name@)
            != (#[trigger] final(fs).buckets@[c].name@) by {
            assert(old(fs).buckets@[a].name@ != old(fs).buckets@[c].name@);
        }
        assert(b0v == old(fs).buckets@[i as int]);
        assert(b1v == final(fs).buckets@[i as int]);
        assert(crate::fsapi::cleaned_upload(b0v, b1v, upload_id@, probed@));
    }
    crate::s3resp::S3Response::ok()
}

/// The body of an initiated upload.
pub open spec fn spec_initiate_xml(bucket: Seq<char>, key: Seq<char>, upload_id: Seq<char>) -> Seq<
    char,
> {
    "<?xml version=\"1.0\" encoding=\"UTF-8\"?>\n    <InitiateMultipartUploadResult>\n       <Bucket>"@
        + bucket + "</Bucket>\n       <Key>"@ + key + "</Key>\n       <UploadId>"@ + upload_id
        + "</UploadId>\n    </InitiateMultipartUploadResult>"@
}

/// The POST-uploads route: draws a fresh upload token and answers with
/// the initiation envelope.
pub fn create_multipart_upload(fs: &FS, bucket: &str, key: &str) -> (r: crate::s3resp::S3Response)
    requires
        fs.wf(),
    ensures
        !has_bucket(fs.buckets@, bucket@) ==> r.status == 404,
        has_bucket(fs.buckets@, bucket@) ==> r.status == 200 && exists|id: Seq<char>|
            #![trigger spec_initiate_xml(bucket@, key@, id)]
            id.len() == 17 && crate::text::is_prefix_of("upload_"@, id) && r.body@
                == spec_initiate_xml(bucket@, key@, id),
{
    let b = match fs.bucket_index(bucket) {
        Some(i) => &fs.buckets[i],
        None => {
            return crate::s3resp::S3Response::not_found();
        },
    };
    let part = b.gen_upload_id();
    let mut x = String::from_str(
        "<?xml version=\"1.0\" encoding=\"UTF-8\"?>\n    <InitiateMultipartUploadResult>\n       <Bucket>",
    );
    x.append(bucket);
    x.append("</Bucket>\n       <Key>");
    x.append(key);
    x.append("</Key>\n       <UploadId>");
    x.append(part.as_str());
    x.append("</UploadId>\n    </InitiateMultipartUploadResult>");
    let mut ok = crate::s3resp::S3Response::ok();
    ok.body(x.as_str());
    proof {
        assert(x@ =~= spec_initiate_xml(bucket@, key@, part@));
    }
    ok
}

// ---------------------------------------------------------------------------
// The remaining single routes.
// ---------------------------------------------------------------------------

/// The location constraint every bucket reports.
pub open spec fn spec_location_xml() -> Seq<char> {
    "<?xml version=\"1.0\" encoding=\"UTF-8\"?>\n        <LocationConstraint xmlns=\"http://s3.amazonaws.com/doc/2006-03-01/\">ap-southeast-1</LocationConstraint>\n        "@
}

/// The GET-location route: one hardcoded region.
pub fn get_bucket_location(bucket: &str) -> (r: Option<String>)
    ensures
        r matches Some(s) && s@ == spec_location_xml(),
{
    let _ = bucket;
    Some(
        String::from_str(
            "<?xml version=\"1.0\" encoding=\"UTF-8\"?>\n        <LocationConstraint xmlns=\"http://s3.amazonaws.com/doc/2006-03-01/\">ap-southeast-1</LocationConstraint>\n        ",
        ),
    )
}

/// The PUT-bucket route: creates the bucket; the reply is 200 whatever
/// came of it, as the protocol's clients expect.
pub fn create_bucket(fs: &mut FS, bucket: &str) -> (r: crate::s3resp::S3Response)
    requires
        old(fs).wf(),
    ensures
        final(fs).wf(),
        final(fs).base == old(fs).base,
        r.status == 200,
        !crate::fsapi::spec_valid_bucket(bucket@) ==> final(fs).buckets == old(fs).buckets,
        crate::fsapi::spec_valid_bucket(bucket@) && has_bucket(old(fs).buckets@, bucket@)
            ==> final(fs).buckets == old(fs).buckets,
        crate::fsapi::spec_valid_bucket(bucket@) && !has_bucket(old(fs).buckets@, bucket@) ==> (
        final(fs).buckets@.len() == old(fs).buckets@.len() + 1 && final(fs).buckets@.last().name@
            == bucket@ && final(fs).buckets@.last().entries@.len() == 0 && (forall|j: int|
            0 <= j < old(fs).buckets@.len() ==> final(fs).buckets@[j] == old(fs).buckets@[j])),
{
    let _ = fs.make_bucket(bucket);
    crate::s3resp::S3Response::ok()
}

/// The DELETE-object route.
pub fn delete_object(fs: &mut FS, bucket: &str, key: &str) -> (r: crate::s3resp::S3Response)
    requires
        old(fs).wf(),
    ensures
        final(fs).wf(),
        final(fs).base == old(fs).base,
        !has_bucket(old(fs).buckets@, bucket@) ==> (r.status == 404 && final(fs).buckets == old(
            fs,
        ).buckets),
        has_bucket(old(fs).buckets@, bucket@) ==> exists|i: int|
            0 <= i < old(fs).buckets@.len() && (#[trigger] old(fs).buckets@[i].name@) == bucket@
                && {
                let b0 = old(fs).buckets@[i];
                let b1 = final(fs).buckets@[i];
                &&& final(fs).buckets@.len() == old(fs).buckets@.len()
                &&& (forall|j: int|
                    0 <= j < old(fs).buckets@.len() && j != i ==> final(fs).buckets@[j] == old(
                        fs,
                    ).buckets@[j])
                &&& b1.name == b0.name && b1.created_millis == b0.created_millis && b1.staging
                    == b0.staging
                &&& spec_valid_key(key@) ==> (r.status == 200 && crate::fsapi::deleted_object(
                    b0,
                    b1,
                    key@,
                ))
                &&& !spec_valid_key(key@) ==> (r.status == 404 && b1.entries == b0.entries)
            },
{
    let i = match fs.bucket_index(bucket) {
        Some(i) => i,
        None => {
            return crate::s3resp::S3Response::not_found();
        },
    };
    let mut b = fs.buckets.remove(i);
    let deleted = b.delete_object(key);
    fs.buckets.insert(i, b);
    proof {
        assert(final(fs).buckets@ =~= old(fs).buckets@.update(i as int, final(fs).buckets@[i as int]));
        assert forall|a: int, c: int|
            0 <= a < c < final(fs).buckets@.len() implies (#[trigger] final(fs).buckets@[a].name@)
            != (#[trigger] final(fs).buckets@[c].name@) by {
            assert(old(fs).buckets@[a].name@ != old(fs).buckets@[c].name@);
        }
    }
    if deleted {
        crate::s3resp::S3Response::ok()
    } else {
        crate::s3resp::S3Response::not_found()
    }
}

/// The debug route: echoes the token it was shown.
pub fn backdoor(secret_token: &str) -> (r: String)
    ensures
        r@ == "Secret Revealed: "@ + secret_token@,
{
    let mut s = String::from_str("Secret Revealed: ");
    s.append(secret_token);
    s
}

// ---------------------------------------------------------------------------
// Reading objects.
// ---------------------------------------------------------------------------

/// The range can be honored against a file of `len` bytes.
pub open spec fn range_applies(begin: Option<usize>, end: Option<usize>, len: nat) -> bool {
    match (begin, end) {
        (Option::None, Option::None) => true,
        (Option::Some(a), Option::None) => a <= len,
        (Option::Some(a), Option::Some(e)) => a <= e && (e as nat) < len,
        (Option::None, Option::Some(_)) => false,
    }
}

/// Cuts the ranged window out of an object's bytes: `bytes=a-` takes
/// `[a, len)`, `bytes=a-b` takes `[a, b]`. `None` when the range cannot
/// be honored against this size.
pub fn apply_range(data: &Vec<u8>, begin: Option<usize>, end: Option<usize>) -> (r: Option<
    (Vec<u8>, usize, bool)
>)
    ensures
        begin is None && end is None ==> (r matches Some(v) && v.0@ == data@ && v.1 == data@.len()
            && v.2 == false),
        begin is Some && end is None && begin->Some_0 <= data@.len() ==> (r matches Some(v)
            && v.0@ == data@.subrange(begin->Some_0 as int, data@.len() as int) && v.1
            == data@.len() - begin->Some_0 && v.2 == true),
        begin is Some && end is Some && begin->Some_0 <= end->Some_0 && end->Some_0 < data@.len()
            ==> (r matches Some(v) && v.0@ == data@.subrange(
            begin->Some_0 as int,
            end->Some_0 + 1,
        ) && v.1 == end->Some_0 + 1 - begin->Some_0 && v.2 == true),
        begin is Some && end is None && begin->Some_0 > data@.len() ==> r is None,
        begin is Some && end is Some && (begin->Some_0 > end->Some_0 || end->Some_0
            >= data@.len()) ==> r is None,
        begin is None && end is Some ==> r is None,
{
    let len = data.len();
    match (begin, end) {
        (None, None) => {
            let copy = crate::text::copy_bytes_range(data, 0, len);
            proof {
                assert(data@.subrange(0, len as int) =~= data@);
            }
            Some((copy, len, false))
        },
        (Some(a), None) => {
            if a > len {
                return None;
            }
            let copy = crate::text::copy_bytes_range(data, a, len);
            Some((copy, len - a, true))
        },
        (Some(a), Some(e)) => {
            if a > e || e >= len {
                return None;
            }
            let copy = crate::text::copy_bytes_range(data, a, e + 1);
            Some((copy, e + 1 - a, true))
        },
        (None, Some(_)) => None,
    }
}

/// The GET route owes a response: a visible data file stands at the key
/// with a well-formed sidecar record, and the range fits its bytes.
pub open spec fn spec_get_servable(
    b: Bucket,
    key: Seq<char>,
    begin: Option<usize>,
    end: Option<usize>,
) -> bool {
    &&& has_key(b.entries@, key)
    &&& entry_at(b.entries@, key).kind == FileType::File
    &&& has_meta_at(b.entries@, key)
    &&& (exists|e: Seq<char>, n: nat|
        crate::meta::no_quote(e) && n <= usize::MAX as nat && entry_at(
            b.entries@,
            spec_meta_key(key),
        ).text@ == crate::meta::spec_meta_json(e, n))
    &&& range_applies(begin, end, entry_at(b.entries@, key).data@.len())
}

/// The GET-object route: looks the object up, cuts the requested range,
/// and shapes the file response around it. It answers whenever the named
/// bucket holds a visible object the range fits.
pub fn get_object(fs: &FS, bucket: &str, key: &str, range: &crate::request_guards::RangeHeader) -> (r:
    Option<crate::cachedfile::CachedFile>)
    requires
        fs.wf(),
    ensures
        !has_bucket(fs.buckets@, bucket@) ==> r is None,
        (exists|i: int|
            0 <= i < fs.buckets@.len() && (#[trigger] fs.buckets@[i].name@) == bucket@
                && spec_get_servable(fs.buckets@[i], key@, range.begin, range.end)) ==> r is Some,
        r matches Some(c) ==> exists|i: int|
            0 <= i < fs.buckets@.len() && (#[trigger] fs.buckets@[i].name@) == bucket@ && {
                let b = fs.buckets@[i];
                let e = entry_at(b.entries@, key@);
                let full = e.data@;
                &&& has_key(b.entries@, key@) && e.kind == FileType::File
                &&& c.etag@ == crate::fsapi::spec_obj_etag_of_entry(b.entries@, key@)
                &&& c.modified_millis == e.modified_millis
                &&& c.file_name@ == key@.subrange(
                    crate::text::last_slash(key@) + 1,
                    key@.len() as int,
                )
                &&& (range.begin is None && range.end is None) ==> (c.data@ == full && c.size
                    == full.len() && !c.partial)
                &&& (range.begin is Some && range.end is None && range.begin->Some_0
                    <= full.len()) ==> (c.data@ == full.subrange(
                    range.begin->Some_0 as int,
                    full.len() as int,
                ) && c.size == full.len() - range.begin->Some_0 && c.partial)
                &&& (range.begin is Some && range.end is Some && range.begin->Some_0
                    <= range.end->Some_0 && range.end->Some_0 < full.len()) ==> (c.data@
                    == full.subrange(range.begin->Some_0 as int, range.end->Some_0 + 1) && c.size
                    == range.end->Some_0 + 1 - range.begin->Some_0 && c.partial)
            },
{
    let b = match fs.get_bucket(bucket) {
        Some(b) => b,
        None => {
            proof {
                if exists|i: int|
                    0 <= i < fs.buckets@.len() && (#[trigger] fs.buckets@[i].name@) == bucket@
                        && spec_get_servable(fs.buckets@[i], key@, range.begin, range.end) {
                    let i = choose|i: int|
                        0 <= i < fs.buckets@.len() && (#[trigger] fs.buckets@[i].name@) == bucket@
                            && spec_get_servable(fs.buckets@[i], key@, range.begin, range.end);
                    assert(has_bucket(fs.buckets@, bucket@));
                    assert(crate::fsapi::spec_valid_bucket(fs.buckets@[i].name@));
                    assert(false);
                }
            }
            return None;
        },
    };
    proof {
        // the one bucket under this name is the one the lookup found
        assert forall|i: int|
            0 <= i < fs.buckets@.len() && (#[trigger] fs.buckets@[i].name@)
                == bucket@ implies fs.buckets@[i] == *b by {
            let i2 = choose|i2: int| 0 <= i2 < fs.buckets@.len() && fs.buckets@[i2] == *b;
            if i < i2 {
                assert(fs.buckets@[i].name@ != fs.buckets@[i2].name@);
            }
            if i2 < i {
                assert(fs.buckets@[i2].name@ != fs.buckets@[i].name@);
            }
        }
        if exists|i: int|
            0 <= i < fs.buckets@.len() && (#[trigger] fs.buckets@[i].name@) == bucket@
                && spec_get_servable(fs.buckets@[i], key@, range.begin, range.end) {
            let i = choose|i: int|
                0 <= i < fs.buckets@.len() && (#[trigger] fs.buckets@[i].name@) == bucket@
                    && spec_get_servable(fs.buckets@[i], key@, range.begin, range.end);
            assert(spec_get_servable(*b, key@, range.begin, range.end));
        }
    }
    let ghost servable = spec_get_servable(*b, key@, range.begin, range.end);
    let obj = match b.get_object_by_key(key) {
        Some(o) => o,
        None => {
            proof {
                assert(!servable);
            }
            return None;
        },
    };
    let etag = match obj.checksum() {
        Ok(e) => e,
        Err(_) => {
            proof {
                if servable {
                    assert(obj.meta_text is Some);
                    assert(false);
                }
            }
            return None;
        },
    };
    let ranged = match apply_range(&obj.data, range.begin, range.end) {
        Some(v) => v,
        None => {
            proof {
                if servable {
                    assert(obj.data@.len() == entry_at(b.entries@, key@).data@.len());
                    assert(false);
                }
            }
            return None;
        },
    };
    let (data, content_length, partial) = ranged;
    let file_name = obj.get_short_name();
    Some(
        crate::cachedfile::CachedFile {
            data,
            file_name,
            size: content_length,
            modified_millis: obj.modified_millis,
            etag,
            partial,
        },
    )
}

/// The GET-buckets route: every bucket with its creation date.
pub open spec fn spec_bucket_entry_xml(name: Seq<char>, created: Seq<char>) -> Seq<char> {
    "      \n        <Bucket>\n            <CreationDate>"@ + created
        + "</CreationDate>\n            <Name>"@ + name + "</Name>\n        </Bucket>"@
}

pub open spec fn spec_buckets_xml(buckets: Seq<Bucket>) -> Seq<char>
    decreases buckets.len(),
{
    if buckets.len() == 0 {
        Seq::empty()
    } else {
        spec_buckets_xml(buckets.drop_last()) + spec_bucket_entry_xml(
            buckets.last().name@,
            crate::clock::iso8601_utc_of(buckets.last().created_millis),
        )
    }
}

pub open spec fn spec_all_buckets_xml(buckets: Seq<Bucket>) -> Seq<char> {
    "<?xml version=\"1.0\" encoding=\"UTF-8\"?>\n    <ListAllMyBucketsResult><Buckets>"@
        + spec_buckets_xml(buckets) + "</Buckets></ListAllMyBucketsResult>"@
}

pub fn list_all_buckets(fs: &FS) -> (r: crate::s3resp::S3Response)
    requires
        fs.wf(),
    ensures
        r.status == 200,
        r.body@ == spec_all_buckets_xml(fs.buckets@),
{
    let mut buckets = String::new();
    let list = fs.get_all_buckets();
    let n = list.len();
    let mut i: usize = 0;
    proof {
        assert(fs.buckets@.take(0) =~= Seq::<Bucket>::empty());
    }
    while i < n
        invariant
            i <= n,
            fs.wf(),
            n == fs.buckets@.len(),
            list == &fs.buckets,
            buckets@ == spec_buckets_xml(fs.buckets@.take(i as int)),
        decreases n - i,
    {
        let creation_time = list[i].get_creation_time();
        let ct = match creation_time {
            Ok(t) => t,
            Err(_) => String::new(),
        };
        buckets.append("      \n        <Bucket>\n            <CreationDate>");
        buckets.append(ct.as_str());
        buckets.append("</CreationDate>\n            <Name>");
        buckets.append(list[i].name.as_str());
        buckets.append("</Name>\n        </Bucket>");
        proof {
            assert(fs.buckets@.take(i + 1).drop_last() =~= fs.buckets@.take(i as int));
            assert(fs.buckets@.take(i + 1).last() == fs.buckets@[i as int]);
        }
        i = i + 1;
    }
    let mut body = String::from_str(
        "<?xml version=\"1.0\" encoding=\"UTF-8\"?>\n    <ListAllMyBucketsResult><Buckets>",
    );
    body.append(buckets.as_str());
    body.append("</Buckets></ListAllMyBucketsResult>");
    let mut ok = crate::s3resp::S3Response::ok();
    ok.body(body.as_str());
    proof {
        assert(fs.buckets@.take(n as int) =~= fs.buckets@);
        assert(body@ =~= spec_all_buckets_xml(fs.buckets@));
    }
    ok
}

// ---------------------------------------------------------------------------
// Bulk deletion.
// ---------------------------------------------------------------------------

/// The key/version pairs of a bulk-delete body, read off its
/// `<Object><Key>K</Key>[<VersionId>V</VersionId>]</Object>` groups in
/// order; a group without a key contributes nothing, a version tag that
/// never closes counts as absent.
pub open spec fn spec_extract_deletes(s: Seq<char>) -> Seq<(Seq<char>, Seq<char>)>
    decreases s.len(),
    via spec_extract_deletes_decreases
{
    let o = crate::text::find_sub(s, "<Object>"@);
    if o < 0 {
        Seq::empty()
    } else {
        let rest = s.skip(o + 8);
        let c = crate::text::find_sub(rest, "</Object>"@);
        if c < 0 {
            Seq::empty()
        } else {
            let span = rest.take(c);
            let tail = spec_extract_deletes(rest.skip(c + 9));
            let k1 = crate::text::find_sub(span, "<Key>"@);
            if k1 < 0 {
                tail
            } else {
                let after_k1 = span.skip(k1 + 5);
                let k2 = crate::text::find_sub(after_k1, "</Key>"@);
                if k2 < 0 {
                    tail
                } else {
                    let key = after_k1.take(k2);
                    let after_key = after_k1.skip(k2 + 6);
                    let v1 = crate::text::find_sub(after_key, "<VersionId>"@);
                    let version = if v1 < 0 {
                        Seq::<char>::empty()
                    } else {
                        let after_v1 = after_key.skip(v1 + 11);
                        let v2 = crate::text::find_sub(after_v1, "</VersionId>"@);
                        if v2 < 0 {
                            Seq::<char>::empty()
                        } else {
                            after_v1.take(v2)
                        }
                    };
                    seq![(key, version)] + tail
                }
            }
        }
    }
}

#[via_fn]
proof fn spec_extract_deletes_decreases(s: Seq<char>) {
    reveal_strlit("<Object>");
    reveal_strlit("</Object>");
    let o = crate::text::find_sub(s, "<Object>"@);
    crate::text::lemma_find_sub_bound(s, "<Object>"@);
    if o >= 0 {
        let rest = s.skip(o + 8);
        crate::text::lemma_find_sub_bound(rest, "</Object>"@);
    }
}

/// Pairs of strings carry pairs of sequences.
pub open spec fn pairs_match(r: Seq<(String, String)>, s: Seq<(Seq<char>, Seq<char>)>) -> bool {
    r.len() == s.len() && forall|i: int|
        0 <= i < r.len() ==> (#[trigger] r[i]).0@ == s[i].0 && r[i].1@ == s[i].1
}

fn extract_deletes(s: &str) -> (r: Vec<(String, String)>)
    ensures
        pairs_match(r@, spec_extract_deletes(s@)),
    decreases s@.len(),
{
    proof {
        reveal_strlit("<Object>");
        reveal_strlit("</Object>");
        reveal_strlit("<Key>");
        reveal_strlit("</Key>");
        reveal_strlit("<VersionId>");
        reveal_strlit("</VersionId>");
    }
    let slen = s.unicode_len();
    let o = match crate::text::str_find_sub(s, "<Object>") {
        Some(o) => o,
        None => {
            return Vec::new();
        },
    };
    let rest: &str = s.substring_char(o + 8, slen);
    proof {
        assert(rest@ =~= s@.skip(o + 8));
    }
    let rlen = rest.unicode_len();
    let c = match crate::text::str_find_sub(rest, "</Object>") {
        Some(c) => c,
        None => {
            return Vec::new();
        },
    };
    let span: &str = rest.substring_char(0, c);
    let tail_str: &str = rest.substring_char(c + 9, rlen);
    proof {
        assert(span@ =~= rest@.take(c as int));
        assert(tail_str@ =~= rest@.skip(c + 9));
        assert(tail_str@.len() < s@.len());
    }
    let mut tail = extract_deletes(tail_str);
    let splen = span.unicode_len();
    let k1 = match crate::text::str_find_sub(span, "<Key>") {
        Some(k1) => k1,
        None => {
            return tail;
        },
    };
    let after_k1: &str = span.substring_char(k1 + 5, splen);
    proof {
        assert(after_k1@ =~= span@.skip(k1 + 5));
    }
    let aklen = after_k1.unicode_len();
    let k2 = match crate::text::str_find_sub(after_k1, "</Key>") {
        Some(k2) => k2,
        None => {
            return tail;
        },
    };
    let key = crate::text::substr_string(after_k1, 0, k2);
    proof {
        assert(key@ =~= after_k1@.take(k2 as int));
    }
    let after_key: &str = after_k1.substring_char(k2 + 6, aklen);
    proof {
        assert(after_key@ =~= after_k1@.skip(k2 + 6));
    }
    let avlen = after_key.unicode_len();
    let version = match crate::text::str_find_sub(after_key, "<VersionId>") {
        Some(v1) => {
            let after_v1: &str = after_key.substring_char(v1 + 11, avlen);
            proof {
                assert(after_v1@ =~= after_key@.skip(v1 + 11));
            }
            match crate::text::str_find_sub(after_v1, "</VersionId>") {
                Some(v2) => {
                    let v = crate::text::substr_string(after_v1, 0, v2);
                    proof {
                        assert(v@ =~= after_v1@.take(v2 as int));
                    }
                    v
                },
                None => String::new(),
            }
        },
        None => String::new(),
    };
    let mut r: Vec<(String, String)> = Vec::new();
    let ghost keyv = key@;
    let ghost versionv = version@;
    r.push((key, version));
    let ghost tailv = tail@;
    r.append(&mut tail);
    proof {
        let spec = spec_extract_deletes(s@);
        assert(r@[0].0@ == keyv && r@[0].1@ == versionv);
        assert forall|i: int| 0 <= i < r@.len() implies (#[trigger] r@[i]).0@ == spec[i].0
            && r@[i].1@ == spec[i].1 by {
            if i > 0 {
                assert(r@[i] == tailv[i - 1]);
                assert(spec[i] == spec_extract_deletes(tail_str@)[i - 1]);
            }
        }
    }
    r
}

/// Reads the key/version pairs out of a bulk-delete body, carriage
/// returns and line feeds stripped first.
pub fn parse_delete_keys(data: &str) -> (r: Vec<(String, String)>)
    ensures
        pairs_match(
            r@,
            spec_extract_deletes(data@.filter(|c: char| c != '\r' && c != '\n')),
        ),
{
    let ghost pred = |c: char| c != '\r' && c != '\n';
    let mut clean = String::new();
    let len = data.unicode_len();
    let mut i: usize = 0;
    proof {
        assert(data@.take(0).filter(pred) =~= Seq::<char>::empty()) by {
            reveal(Seq::filter);
            assert(data@.take(0) =~= Seq::<char>::empty());
        }
    }
    while i < len
        invariant
            i <= len,
            len == data@.len(),
            pred == (|c: char| c != '\r' && c != '\n'),
            clean@ == data@.take(i as int).filter(pred),
        decreases len - i,
    {
        let ch = data.get_char(i);
        proof {
            assert(data@.take(i + 1) =~= data@.take(i as int).push(data@[i as int]));
            crate::fsapi::lemma_filter_push_char(data@.take(i as int), data@[i as int], pred);
        }
        if ch != '\r' && ch != '\n' {
            crate::text::push_char(&mut clean, ch);
        }
        i = i + 1;
    }
    proof {
        assert(data@.take(len as int) =~= data@);
    }
    extract_deletes(clean.as_str())
}

/// One entry of the bulk-delete result.
pub open spec fn spec_deleted_item_xml(key: Seq<char>, version: Seq<char>) -> Seq<char> {
    if version.len() == 0 {
        "<Deleted>\n            <Key>"@ + key + "</Key>\n          </Deleted>"@
    } else {
        "<Deleted>\n            <DeleteMarker>false</DeleteMarker>\n            <Key>"@ + key
            + "</Key>\n            <VersionId>"@ + version
            + "</VersionId>\n            </Deleted>"@
    }
}

/// The concatenated entries.
pub open spec fn spec_deleted_items_xml(pairs: Seq<(Seq<char>, Seq<char>)>) -> Seq<char>
    decreases pairs.len(),
{
    if pairs.len() == 0 {
        Seq::empty()
    } else {
        spec_deleted_items_xml(pairs.drop_last()) + spec_deleted_item_xml(
            pairs.last().0,
            pairs.last().1,
        )
    }
}

/// The bulk-delete result envelope.
pub open spec fn spec_delete_result_xml(pairs: Seq<(Seq<char>, Seq<char>)>) -> Seq<char> {
    "<?xml version=\"1.0\" encoding=\"UTF-8\"?>\n    <DeleteResult xmlns=\"http://s3.amazonaws.com/doc/2006-03-01/\">\n     "@
        + spec_deleted_items_xml(pairs)
        + "\n    </DeleteResult>"@
}

/// What a run of deletions leaves behind: entries only disappear, and
/// every validly-keyed pair's object and sidecar are gone.
pub open spec fn bulk_deleted(b0: Bucket, b1: Bucket, pairs: Seq<(Seq<char>, Seq<char>)>) -> bool {
    &&& b1.name == b0.name && b1.created_millis == b0.created_millis && b1.staging == b0.staging
    &&& forall|k: Seq<char>|
        #[trigger] has_key(b1.entries@, k) ==> has_key(b0.entries@, k) && entry_at(b1.entries@, k)
            == entry_at(b0.entries@, k)
    &&& forall|i: int|
        0 <= i < pairs.len() && spec_valid_key((#[trigger] pairs[i]).0) ==> !has_key(
            b1.entries@,
            spec_meta_key(pairs[i].0),
        ) && !(has_key(b1.entries@, pairs[i].0) && entry_at(b1.entries@, pairs[i].0).kind
            == FileType::File)
}

/// The POST-delete route: parses the body, deletes every named key, and
/// reports each as deleted.
pub fn delete_object_multi(fs: &mut FS, bucket: &str, body: &str) -> (r: crate::s3resp::S3Response)
    requires
        old(fs).wf(),
    ensures
        final(fs).wf(),
        final(fs).base == old(fs).base,
        !has_bucket(old(fs).buckets@, bucket@) ==> (r.status == 404 && final(fs).buckets == old(
            fs,
        ).buckets),
        has_bucket(old(fs).buckets@, bucket@) ==> exists|i: int|
            0 <= i < old(fs).buckets@.len() && (#[trigger] old(fs).buckets@[i].name@) == bucket@
                && {
                let pairs = spec_extract_deletes(
                    body@.filter(|c: char| c != '\r' && c != '\n'),
                );
                let b0 = old(fs).buckets@[i];
                let b1 = final(fs).buckets@[i];
                &&& final(fs).buckets@.len() == old(fs).buckets@.len()
                &&& (forall|j: int|
                    0 <= j < old(fs).buckets@.len() && j != i ==> final(fs).buckets@[j] == old(
                        fs,
                    ).buckets@[j])
                &&& bulk_deleted(b0, b1, pairs)
                &&& r.status == 200
                &&& r.body@ == spec_delete_result_xml(pairs)
            },
{
    let i = match fs.bucket_index(bucket) {
        Some(i) => i,
        None => {
            return crate::s3resp::S3Response::not_found();
        },
    };
    let keys_and_versions = parse_delete_keys(body);
    let ghost pairs = spec_extract_deletes(body@.filter(|c: char| c != '\r' && c != '\n'));
    let mut b = fs.buckets.remove(i);
    let ghost b0v = b;
    let n = keys_and_versions.len();
    let mut t: usize = 0;
    while t < n
        invariant
            t <= n,
            n == keys_and_versions@.len(),
            pairs_match(keys_and_versions@, pairs),
            b.wf(),
            b.name == b0v.name,
            b.created_millis == b0v.created_millis,
            b.staging == b0v.staging,
            forall|k: Seq<char>|
                #[trigger] has_key(b.entries@, k) ==> has_key(b0v.entries@, k) && entry_at(
                    b.entries@,
                    k,
                ) == entry_at(b0v.entries@, k),
            forall|q: int|
                0 <= q < t && spec_valid_key((#[trigger] pairs[q]).0) ==> !has_key(
                    b.entries@,
                    spec_meta_key(pairs[q].0),
                ) && !(has_key(b.entries@, pairs[q].0) && entry_at(b.entries@, pairs[q].0).kind
                    == FileType::File),
        decreases n - t,
    {
        let ghost pre = b;
        let _ = b.delete_object(keys_and_versions[t].0.as_str());
        proof {
            assert(keys_and_versions@[t as int].0@ == pairs[t as int].0);
            assert forall|k: Seq<char>| #[trigger] has_key(b.entries@, k) implies has_key(
                b0v.entries@,
                k,
            ) && entry_at(b.entries@, k) == entry_at(b0v.entries@, k) by {
                assert(has_key(pre.entries@, k) && entry_at(b.entries@, k) == entry_at(
                    pre.entries@,
                    k,
                )) by {
                    lemma_surviving_entry(pre, b, pairs[t as int].0, k);
                }
            }
            assert forall|q: int|
                0 <= q < t + 1 && spec_valid_key((#[trigger] pairs[q]).0) implies !has_key(
                b.entries@,
                spec_meta_key(pairs[q].0),
            ) && !(has_key(b.entries@, pairs[q].0) && entry_at(b.entries@, pairs[q].0).kind
                == FileType::File) by {
                if q < t as int {
                    if has_key(b.entries@, spec_meta_key(pairs[q].0)) {
                        lemma_surviving_entry(pre, b, pairs[t as int].0, spec_meta_key(pairs[q].0));
                    }
                    if has_key(b.entries@, pairs[q].0) {
                        lemma_surviving_entry(pre, b, pairs[t as int].0, pairs[q].0);
                    }
                } else {
                    assert(crate::fsapi::deleted_object(pre, b, pairs[q].0));
                }
            }
        }
        t = t + 1;
    }
    fs.buckets.insert(i, b);
    proof {
        assert(final(fs).buckets@ =~= old(fs).buckets@.update(i as int, final(fs).buckets@[i as int]));
        assert forall|a: int, c: int|
            0 <= a < c < final(fs).buckets@.len() implies (#[trigger] final(fs).buckets@[a].name@)
            != (#[trigger] final(fs).buckets@[c].name@) by {
            assert(old(fs).buckets@[a].name@ != old(fs).buckets@[c].name@);
        }
    }
    // the result body
    let mut item_string = String::new();
    let mut t: usize = 0;
    proof {
        assert(pairs.take(0) =~= Seq::<(Seq<char>, Seq<char>)>::empty());
    }
    while t < n
        invariant
            t <= n,
            n == keys_and_versions@.len(),
            pairs_match(keys_and_versions@, pairs),
            item_string@ == spec_deleted_items_xml(pairs.take(t as int)),
        decreases n - t,
    {
        let key = &keys_and_versions[t].0;
        let version = &keys_and_versions[t].1;
        if version.unicode_len() == 0 {
            item_string.append("<Deleted>\n            <Key>");
            item_string.append(key.as_str());
            item_string.append("</Key>\n          </Deleted>");
        } else {
            item_string.append(
                "<Deleted>\n            <DeleteMarker>false</DeleteMarker>\n            <Key>",
            );
            item_string.append(key.as_str());
            item_string.append("</Key>\n            <VersionId>");
            item_string.append(version.as_str());
            item_string.append("</VersionId>\n            </Deleted>");
        }
        proof {
            assert(pairs.take(t + 1).drop_last() =~= pairs.take(t as int));
            assert(pairs.take(t + 1).last() == pairs[t as int]);
        }
        t = t + 1;
    }
    let mut x = String::from_str(
        "<?xml version=\"1.0\" encoding=\"UTF-8\"?>\n    <DeleteResult xmlns=\"http://s3.amazonaws.com/doc/2006-03-01/\">\n     ",
    );
    x.append(item_string.as_str());
    x.append("\n    </DeleteResult>");
    let mut ok = crate::s3resp::S3Response::ok();
    ok.body(x.as_str());
    proof {
        assert(pairs.take(n as int) =~= pairs);
        assert(x@ =~= spec_delete_result_xml(pairs));
    }
    ok
}

/// A deletion only removes: any key surviving it keeps its entry.
proof fn lemma_surviving_entry(pre: Bucket, post: Bucket, deleted: Seq<char>, k: Seq<char>)
    requires
        !spec_valid_key(deleted) ==> post.entries == pre.entries,
        spec_valid_key(deleted) ==> crate::fsapi::deleted_object(pre, post, deleted),
        has_key(post.entries@, k),
    ensures
        has_key(pre.entries@, k),
        entry_at(post.entries@, k) == entry_at(pre.entries@, k),
{
    if spec_valid_key(deleted) {
        let mk = spec_meta_key(deleted);
        let ls = crate::text::last_slash(deleted);
        let p = deleted.take(ls);
        if k == mk {
        } else if k == deleted {
            if has_key(pre.entries@, deleted) {
                if entry_at(pre.entries@, deleted).kind == FileType::Directory {
                    if ls >= 1 && k == p {
                    }
                }
            }
        }
        if ls >= 1 {
            if k != deleted && k != mk && k != p {
            }
        }
    }
}

/// The POST-delete route of the two-segment path; the trailing segment
/// carries nothing.
pub fn delete_object_multi_alt(fs: &mut FS, bucket: &str, body: &str) -> (r:
    crate::s3resp::S3Response)
    requires
        old(fs).wf(),
    ensures
        final(fs).wf(),
        final(fs).base == old(fs).base,
        !has_bucket(old(fs).buckets@, bucket@) ==> (r.status == 404 && final(fs).buckets == old(
            fs,
        ).buckets),
        has_bucket(old(fs).buckets@, bucket@) ==> exists|i: int|
            0 <= i < old(fs).buckets@.len() && (#[trigger] old(fs).buckets@[i].name@) == bucket@
                && {
                let pairs = spec_extract_deletes(
                    body@.filter(|c: char| c != '\r' && c != '\n'),
                );
                let b0 = old(fs).buckets@[i];
                let b1 = final(fs).buckets@[i];
                &&& final(fs).buckets@.len() == old(fs).buckets@.len()
                &&& (forall|j: int|
                    0 <= j < old(fs).buckets@.len() && j != i ==> final(fs).buckets@[j] == old(
                        fs,
                    ).buckets@[j])
                &&& bulk_deleted(b0, b1, pairs)
                &&& r.status == 200
                &&& r.body@ == spec_delete_result_xml(pairs)
            },
{
    delete_object_multi(fs, bucket, body)
}

} // verus!
