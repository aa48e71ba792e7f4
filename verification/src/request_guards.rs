use vstd::prelude::*;
use vstd::string::StrSliceExecFns;
use crate::text::{
    all_digits, dec_val, is_digit, is_prefix_of, parse_usize_dec, scan_char, str_starts_with,
    substr_string,
};

verus! {

// ---------------------------------------------------------------------------
// The Range header.
// ---------------------------------------------------------------------------

/// The parsed `Range` header: a start, and an optional inclusive end.
#[derive(Debug, Clone)]
pub struct RangeHeader {
    pub begin: Option<usize>,
    pub end: Option<usize>,
}

/// `h` is `bytes=<ds>-`.
pub open spec fn range_start_form(h: Seq<char>, ds: Seq<char>) -> bool {
    all_digits(ds) && ds.len() >= 1 && h == "bytes="@ + ds + "-"@
}

/// `h` is `bytes=<d1>-<d2>`.
pub open spec fn range_pair_form(h: Seq<char>, d1: Seq<char>, d2: Seq<char>) -> bool {
    all_digits(d1) && d1.len() >= 1 && all_digits(d2) && d2.len() >= 1 && h == "bytes="@ + d1
        + "-"@ + d2
}

proof fn lemma_range_start_layout(h: Seq<char>, ds: Seq<char>)
    requires
        range_start_form(h, ds),
    ensures
        h.len() == 7 + ds.len(),
        is_prefix_of("bytes="@, h),
        h.subrange(6, h.len() - 1) == ds,
        h[h.len() - 1] == '-',
        forall|j: int| 6 <= j < h.len() - 1 ==> #[trigger] h[j] != '-',
{
    reveal_strlit("bytes=");
    reveal_strlit("-");
    assert(h.len() == 7 + ds.len());
    assert(h.subrange(0, 6) =~= "bytes="@);
    assert(h.subrange(6, h.len() - 1) =~= ds);
    assert(h[h.len() - 1] == "-"@[0]);
    assert forall|j: int| 6 <= j < h.len() - 1 implies #[trigger] h[j] != '-' by {
        assert(h[j] == ds[j - 6]);
        assert(is_digit(ds[j - 6]));
    }
}

proof fn lemma_range_pair_layout(h: Seq<char>, d1: Seq<char>, d2: Seq<char>)
    requires
        range_pair_form(h, d1, d2),
    ensures
        h.len() == 7 + d1.len() + d2.len(),
        is_prefix_of("bytes="@, h),
        h.subrange(6, 6 + d1.len() as int) == d1,
        h[6 + d1.len() as int] == '-',
        h.subrange(7 + d1.len() as int, h.len() as int) == d2,
        forall|j: int| 6 <= j < 6 + d1.len() as int ==> #[trigger] h[j] != '-',
        forall|j: int| 7 + d1.len() as int <= j < h.len() ==> #[trigger] h[j] != '-',
{
    reveal_strlit("bytes=");
    reveal_strlit("-");
    assert(h.len() == 7 + d1.len() + d2.len());
    assert(h.subrange(0, 6) =~= "bytes="@);
    assert(h.subrange(6, 6 + d1.len() as int) =~= d1);
    assert(h[6 + d1.len() as int] == "-"@[0]);
    assert(h.subrange(7 + d1.len() as int, h.len() as int) =~= d2);
    assert forall|j: int| 6 <= j < 6 + d1.len() as int implies #[trigger] h[j] != '-' by {
        assert(h[j] == d1[j - 6]);
        assert(is_digit(d1[j - 6]));
    }
    assert forall|j: int| 7 + d1.len() as int <= j < h.len() implies #[trigger] h[j] != '-' by {
        assert(h[j] == d2[j - 7 - d1.len()]);
        assert(is_digit(d2[j - 7 - d1.len()]));
    }
}

impl RangeHeader {
    /// Parses a `Range` header: `bytes=N-` gives `(Some N, None)`,
    /// `bytes=N-M` gives `(Some N, Some M)`, anything else — a missing
    /// header, another shape, or a number beyond `usize` — gives
    /// `(None, None)`.
    pub fn parse_range(hdr: Option<&str>) -> (r: (Option<usize>, Option<usize>))
        ensures
            hdr is None ==> r.0 is None && r.1 is None,
            hdr matches Some(h) ==> {
                &&& forall|ds: Seq<char>|
                    range_start_form(h@, ds) && (#[trigger] dec_val(ds)) <= usize::MAX as int
                        ==> (r.0 matches Some(v) && v as int == dec_val(ds) && r.1 is None)
                &&& forall|d1: Seq<char>, d2: Seq<char>|
                    range_pair_form(h@, d1, d2) && (#[trigger] dec_val(d1)) <= usize::MAX as int
                        && (#[trigger] dec_val(d2)) <= usize::MAX as int ==> (r.0 is Some
                        && r.0->Some_0 as int == dec_val(d1) && r.1 is Some && r.1->Some_0 as int
                        == dec_val(d2))
                &&& (r.0 is Some && r.1 is None ==> exists|ds: Seq<char>|
                    #[trigger] range_start_form(h@, ds))
                &&& (r.1 is Some ==> r.0 is Some && exists|d1: Seq<char>, d2: Seq<char>|
                    #[trigger] range_pair_form(h@, d1, d2))
                &&& (r.0 is None ==> r.1 is None)
            },
    {
        let h = match hdr {
            Some(h) => h,
            None => {
                return (None, None);
            },
        };
        proof {
            reveal_strlit("bytes=");
        }
        if !str_starts_with(h, "bytes=") {
            proof {
                assert forall|ds: Seq<char>| !range_start_form(h@, ds) by {
                    if range_start_form(h@, ds) {
                        lemma_range_start_layout(h@, ds);
                    }
                }
                assert forall|d1: Seq<char>, d2: Seq<char>| !range_pair_form(h@, d1, d2) by {
                    if range_pair_form(h@, d1, d2) {
                        lemma_range_pair_layout(h@, d1, d2);
                    }
                }
            }
            return (None, None);
        }
        let len = h.unicode_len();
        let q = match scan_char(h, 6, '-') {
            Some(q) => q,
            None => {
                proof {
                    assert forall|ds: Seq<char>| !range_start_form(h@, ds) by {
                        if range_start_form(h@, ds) {
                            lemma_range_start_layout(h@, ds);
                            assert(h@[h@.len() - 1] == '-');
                        }
                    }
                    assert forall|d1: Seq<char>, d2: Seq<char>| !range_pair_form(h@, d1, d2) by {
                        if range_pair_form(h@, d1, d2) {
                            lemma_range_pair_layout(h@, d1, d2);
                            assert(h@[6 + d1.len() as int] == '-');
                        }
                    }
                }
                return (None, None);
            },
        };
        // `q` is the first dash at or past the numerals
        let first = match parse_usize_dec(substr_string(h, 6, q).as_str()) {
            Some(v) => v,
            None => {
                proof {
                    assert forall|ds: Seq<char>|
                        range_start_form(h@, ds) implies dec_val(ds) > usize::MAX as int by {
                        lemma_range_start_layout(h@, ds);
                        assert(q == h@.len() - 1);
                        assert(ds =~= h@.subrange(6, q as int));
                        crate::text::lemma_dec_val_nonneg(ds);
                    }
                    assert forall|d1: Seq<char>, d2: Seq<char>|
                        range_pair_form(h@, d1, d2) implies dec_val(d1) > usize::MAX as int by {
                        lemma_range_pair_layout(h@, d1, d2);
                        assert(q == 6 + d1.len());
                        assert(d1 =~= h@.subrange(6, q as int));
                        crate::text::lemma_dec_val_nonneg(d1);
                    }
                }
                return (None, None);
            },
        };
        if q + 1 == len {
            // `bytes=N-`
            proof {
                reveal_strlit("bytes=");
                reveal_strlit("-");
                let ds = h@.subrange(6, q as int);
                assert(h@ =~= "bytes="@ + ds + "-"@);
                assert(range_start_form(h@, ds));
                assert forall|ds2: Seq<char>|
                    range_start_form(h@, ds2) implies ds2 == ds && dec_val(ds2) >= 0 by {
                    lemma_range_start_layout(h@, ds2);
                    assert(ds2 =~= h@.subrange(6, q as int));
                    crate::text::lemma_dec_val_nonneg(ds2);
                }
                assert forall|d1: Seq<char>, d2: Seq<char>| !range_pair_form(h@, d1, d2) by {
                    if range_pair_form(h@, d1, d2) {
                        lemma_range_pair_layout(h@, d1, d2);
                        assert(6 + d1.len() == q);
                    }
                }
            }
            return (Some(first), None);
        }
        let second = match parse_usize_dec(substr_string(h, q + 1, len).as_str()) {
            Some(v) => v,
            None => {
                proof {
                    assert forall|ds: Seq<char>| !range_start_form(h@, ds) by {
                        if range_start_form(h@, ds) {
                            lemma_range_start_layout(h@, ds);
                            assert(h@[q as int] != '-');
                        }
                    }
                    assert forall|d1: Seq<char>, d2: Seq<char>|
                        range_pair_form(h@, d1, d2) implies dec_val(d2) > usize::MAX as int by {
                        lemma_range_pair_layout(h@, d1, d2);
                        assert(q == 6 + d1.len());
                        assert(d2 =~= h@.subrange(q + 1, len as int));
                        crate::text::lemma_dec_val_nonneg(d2);
                    }
                }
                return (None, None);
            },
        };
        proof {
            reveal_strlit("bytes=");
            reveal_strlit("-");
            let d1 = h@.subrange(6, q as int);
            let d2 = h@.subrange(q + 1, len as int);
            assert(h@ =~= "bytes="@ + d1 + "-"@ + d2);
            assert(range_pair_form(h@, d1, d2));
            assert forall|e1: Seq<char>, e2: Seq<char>|
                range_pair_form(h@, e1, e2) implies e1 == d1 && e2 == d2 by {
                lemma_range_pair_layout(h@, e1, e2);
                assert(6 + e1.len() == q) by {
                    if 6 + e1.len() < q {
                        assert(h@[6 + e1.len() as int] == '-');
                    }
                    if 6 + e1.len() > q {
                        assert(h@[q as int] != '-');
                    }
                }
                assert(e1 =~= h@.subrange(6, q as int));
                assert(e2 =~= h@.subrange(q + 1, len as int));
            }
            assert forall|ds: Seq<char>| !range_start_form(h@, ds) by {
                if range_start_form(h@, ds) {
                    lemma_range_start_layout(h@, ds);
                    assert(h@[q as int] != '-');
                }
            }
        }
        (Some(first), Some(second))
    }
}

// ---------------------------------------------------------------------------
// Transfer-mode detection.
// ---------------------------------------------------------------------------

/// Whether the request body arrives chunked.
#[derive(Debug, Clone)]
pub struct ChunkedEncoding(pub bool);

/// ASCII lowercasing of one character.
pub open spec fn lower_char(c: char) -> char {
    if 65 <= c as int <= 90 {
        ((c as int) + 32) as char
    } else {
        c
    }
}

/// The chunked-transfer signal: a `Transfer-Encoding: chunked` header, or
/// the SigV4 streaming signal of a `Content-Length` larger than the
/// declared `x-amz-decoded-content-length` (both read as numerals that
/// fit the machine).
pub open spec fn spec_chunked_mode(
    te: Option<Seq<char>>,
    dl: Option<Seq<char>>,
    cl: Option<Seq<char>>,
) -> bool {
    let flag1 = te matches Some(t) && t.map_values(|c: char| lower_char(c)) == "chunked"@;
    let flag2 = dl matches Some(d) && cl matches Some(c) && d.len() > 0 && c.len() > 0
        && all_digits(d) && all_digits(c) && dec_val(d) <= usize::MAX as int && dec_val(c)
        <= usize::MAX as int && dec_val(c) > dec_val(d);
    flag1 || flag2
}

impl ChunkedEncoding {
    /// Reads the transfer mode off the three headers that carry it.
    pub fn from_headers(
        transfer_encoding: Option<&str>,
        decoded_length: Option<&str>,
        content_length: Option<&str>,
    ) -> (r: ChunkedEncoding)
        ensures
            r.0 == spec_chunked_mode(
                match transfer_encoding {
                    Some(t) => Some(t@),
                    None => None,
                },
                match decoded_length {
                    Some(d) => Some(d@),
                    None => None,
                },
                match content_length {
                    Some(c) => Some(c@),
                    None => None,
                },
            ),
    {
        let flag1 = match transfer_encoding {
            Some(t) => {
                let target = "chunked";
                let tlen = t.unicode_len();
                let wlen = target.unicode_len();
                if tlen != wlen {
                    proof {
                        assert(t@.map_values(|c: char| lower_char(c)).len() == t@.len());
                    }
                    false
                } else {
                    let mut i: usize = 0;
                    let mut same = true;
                    while i < tlen
                        invariant
                            i <= tlen,
                            tlen == t@.len(),
                            tlen == target@.len(),
                            target@ == "chunked"@,
                            same == (forall|j: int|
                                0 <= j < i ==> lower_char(t@[j]) == #[trigger] target@[j]),
                        decreases tlen - i,
                    {
                        let c = t.get_char(i);
                        let u = c as u32;
                        let lowered: char = if 65 <= u && u <= 90 {
                            ((u + 32) as u8) as char
                        } else {
                            c
                        };
                        proof {
                            assert(lowered == lower_char(t@[i as int]));
                        }
                        if lowered != target.get_char(i) {
                            same = false;
                        }
                        i = i + 1;
                    }
                    proof {
                        let mapped = t@.map_values(|c: char| lower_char(c));
                        if same {
                            assert(mapped =~= target@);
                        } else {
                            assert(mapped != target@);
                        }
                    }
                    same
                }
            },
            None => false,
        };
        let flag2 = match (decoded_length, content_length) {
            (Some(d), Some(c)) => {
                if d.unicode_len() == 0 || c.unicode_len() == 0 {
                    false
                } else {
                    match (parse_usize_dec(d), parse_usize_dec(c)) {
                        (Some(dv), Some(cv)) => cv > dv,
                        _ => false,
                    }
                }
            },
            _ => false,
        };
        ChunkedEncoding(flag1 || flag2)
    }
}

// ---------------------------------------------------------------------------
// Request classification.
// ---------------------------------------------------------------------------

/// An HTTP method, as far as the classifier cares.
#[derive(Debug, Clone, Copy, PartialEq, Eq, Structural)]
pub enum Method {
    Get,
    Put,
    Post,
    Delete,
    Other,
}

/// The shape of a request, as plain values: the method, how many path
/// segments it has, and which of the disambiguating query keys are
/// present.
#[derive(Debug, Clone)]
pub struct RequestShape {
    pub method: Method,
    pub segments: usize,
    pub has_location: bool,
    pub has_list_type: bool,
    pub list_type_is_2: bool,
    pub has_uploads: bool,
    pub has_upload_id: bool,
    pub has_part_number: bool,
    pub has_delete: bool,
}

/// The operations of the protocol surface.
#[derive(Debug, Clone, Copy, PartialEq, Eq, Structural)]
pub enum S3Op {
    ListAllBuckets,
    GetBucketLocation,
    ListObjectsV2,
    ListObjects,
    CreateBucket,
    AbortMultipartUpload,
    DeleteObjectsBulk,
    CreateMultipartUpload,
    CompleteMultipartUpload,
    PutObjectPart,
    PutObject,
    GetObject,
    DeleteObject,
    Unrecognized,
}

/// The classification table, first match winning.
pub open spec fn spec_classify(r: RequestShape) -> S3Op {
    if r.method == Method::Get && r.segments == 0 {
        S3Op::ListAllBuckets
    } else if r.method == Method::Get && r.segments == 1 && r.has_location {
        S3Op::GetBucketLocation
    } else if r.method == Method::Get && r.segments == 1 && r.has_list_type && r.list_type_is_2 {
        S3Op::ListObjectsV2
    } else if r.method == Method::Get && r.segments == 1 && !r.has_location && !r.has_list_type {
        S3Op::ListObjects
    } else if r.method == Method::Put && r.segments == 1 {
        S3Op::CreateBucket
    } else if r.method == Method::Delete && r.segments == 1 && r.has_upload_id {
        S3Op::AbortMultipartUpload
    } else if r.method == Method::Post && (r.segments == 1 || r.segments == 2) && r.has_delete {
        S3Op::DeleteObjectsBulk
    } else if r.method == Method::Post && r.segments >= 2 && r.has_uploads {
        S3Op::CreateMultipartUpload
    } else if r.method == Method::Post && r.segments >= 2 && r.has_upload_id {
        S3Op::CompleteMultipartUpload
    } else if r.method == Method::Put && r.segments >= 2 && r.has_part_number && r.has_upload_id {
        S3Op::PutObjectPart
    } else if r.method == Method::Put && r.segments >= 2 && !r.has_part_number
        && !r.has_upload_id {
        S3Op::PutObject
    } else if r.method == Method::Get && r.segments >= 2 && !r.has_location {
        S3Op::GetObject
    } else if r.method == Method::Delete && r.segments >= 2 {
        S3Op::DeleteObject
    } else {
        S3Op::Unrecognized
    }
}

/// Classifies a request by the table.
pub fn classify(r: &RequestShape) -> (op: S3Op)
    ensures
        op == spec_classify(*r),
{
    let get = matches!(r.method, Method::Get);
    let put = matches!(r.method, Method::Put);
    let post = matches!(r.method, Method::Post);
    let delete = matches!(r.method, Method::Delete);
    if get && r.segments == 0 {
        S3Op::ListAllBuckets
    } else if get && r.segments == 1 && r.has_location {
        S3Op::GetBucketLocation
    } else if get && r.segments == 1 && r.has_list_type && r.list_type_is_2 {
        S3Op::ListObjectsV2
    } else if get && r.segments == 1 && !r.has_location && !r.has_list_type {
        S3Op::ListObjects
    } else if put && r.segments == 1 {
        S3Op::CreateBucket
    } else if delete && r.segments == 1 && r.has_upload_id {
        S3Op::AbortMultipartUpload
    } else if post && (r.segments == 1 || r.segments == 2) && r.has_delete {
        S3Op::DeleteObjectsBulk
    } else if post && r.segments >= 2 && r.has_uploads {
        S3Op::CreateMultipartUpload
    } else if post && r.segments >= 2 && r.has_upload_id {
        S3Op::CompleteMultipartUpload
    } else if put && r.segments >= 2 && r.has_part_number && r.has_upload_id {
        S3Op::PutObjectPart
    } else if put && r.segments >= 2 && !r.has_part_number && !r.has_upload_id {
        S3Op::PutObject
    } else if get && r.segments >= 2 && !r.has_location {
        S3Op::GetObject
    } else if delete && r.segments >= 2 {
        S3Op::DeleteObject
    } else {
        S3Op::Unrecognized
    }
}

// ---------------------------------------------------------------------------
// The per-route guards: each recognises its own row of the table.
// ---------------------------------------------------------------------------

/// Guards `PUT /<bucket>`.
#[derive(Debug, Clone)]
pub struct CreateBucket(bool);

impl CreateBucket {
    pub fn from_request(r: &RequestShape) -> (g: Option<Self>)
        ensures
            (g is Some) == (r.method == Method::Put && r.segments == 1),
    {
        if matches!(r.method, Method::Put) && r.segments == 1 {
            Some(CreateBucket(true))
        } else {
            None
        }
    }
}

/// Guards the plain bucket listing; it never refuses.
#[derive(Debug, Clone)]
pub struct ListBucket;

impl ListBucket {
    pub fn from_request(_r: &RequestShape) -> (g: Option<Self>)
        ensures
            g is Some,
    {
        Some(ListBucket)
    }
}

/// Guards `PUT /<bucket>/<key>` without multipart keys.
#[derive(Debug, Clone)]
pub struct PutObject;

impl PutObject {
    pub fn from_request(r: &RequestShape) -> (g: Option<Self>)
        ensures
            (g is Some) == (r.method == Method::Put && !r.has_part_number && !r.has_upload_id
                && r.segments > 1),
    {
        if matches!(r.method, Method::Put) && !r.has_part_number && !r.has_upload_id && r.segments
            > 1 {
            Some(PutObject)
        } else {
            None
        }
    }
}

/// Guards `POST /<bucket>/<key>?uploads`.
#[derive(Debug, Clone)]
pub struct CreateMultipartUpload;

impl CreateMultipartUpload {
    pub fn from_request(r: &RequestShape) -> (g: Option<Self>)
        ensures
            (g is Some) == (r.method == Method::Post && r.segments > 1 && r.has_uploads),
    {
        if matches!(r.method, Method::Post) && r.segments > 1 && r.has_uploads {
            Some(CreateMultipartUpload)
        } else {
            None
        }
    }
}

/// A part upload in flight.
#[derive(Debug, Clone)]
pub struct UploadMultipart;

/// Guards `DELETE /<bucket>?uploadId=`.
#[derive(Debug, Clone)]
pub struct AbortMultipartUpload;

impl AbortMultipartUpload {
    pub fn from_request(r: &RequestShape) -> (g: Option<Self>)
        ensures
            (g is Some) == (r.method == Method::Delete && r.segments == 1 && r.has_upload_id),
    {
        if matches!(r.method, Method::Delete) && r.segments == 1 && r.has_upload_id {
            Some(AbortMultipartUpload)
        } else {
            None
        }
    }
}

/// Guards `POST /<bucket>?delete`.
#[derive(Debug, Clone)]
pub struct DeleteObjects;

impl DeleteObjects {
    pub fn from_request(r: &RequestShape) -> (g: Option<Self>)
        ensures
            (g is Some) == (r.method == Method::Post && r.segments <= 2 && r.has_delete),
    {
        if matches!(r.method, Method::Post) && r.segments <= 2 && r.has_delete {
            Some(DeleteObjects)
        } else {
            None
        }
    }
}

/// Guards `DELETE /<bucket>/<key>`.
#[derive(Debug, Clone)]
pub struct DeleteObject;

impl DeleteObject {
    pub fn from_request(r: &RequestShape) -> (g: Option<Self>)
        ensures
            (g is Some) == (r.method == Method::Delete && r.segments > 1),
    {
        if matches!(r.method, Method::Delete) && r.segments > 1 {
            Some(DeleteObject)
        } else {
            None
        }
    }
}

/// Guards `POST /<bucket>/<key>?uploadId=`.
#[derive(Debug, Clone)]
pub struct CompleteMultipartUpload;

impl CompleteMultipartUpload {
    pub fn from_request(r: &RequestShape) -> (g: Option<Self>)
        ensures
            (g is Some) == (r.method == Method::Post && r.segments > 1 && r.has_upload_id),
    {
        if matches!(r.method, Method::Post) && r.segments > 1 && r.has_upload_id {
            Some(CompleteMultipartUpload)
        } else {
            None
        }
    }
}

/// Guards `GET /<bucket>/<key>`.
#[derive(Debug, Clone)]
pub struct GetObject;

impl GetObject {
    pub fn from_request(r: &RequestShape) -> (g: Option<Self>)
        ensures
            (g is Some) == (r.method == Method::Get && !r.has_location && r.segments > 1),
    {
        if matches!(r.method, Method::Get) && !r.has_location && r.segments > 1 {
            Some(GetObject)
        } else {
            None
        }
    }
}

/// Guards `GET /<bucket>?location`.
#[derive(Debug, Clone)]
pub struct GetBucketLocation;

impl GetBucketLocation {
    pub fn from_request(r: &RequestShape) -> (g: Option<Self>)
        ensures
            (g is Some) == (r.method == Method::Get && r.has_location && r.segments == 1),
    {
        if matches!(r.method, Method::Get) && r.has_location && r.segments == 1 {
            Some(GetBucketLocation)
        } else {
            None
        }
    }
}

/// Guards `PUT /<bucket>/<key>?partNumber=&uploadId=`.
#[derive(Debug, Clone)]
pub struct PutObjectPart;

impl PutObjectPart {
    pub fn from_request(r: &RequestShape) -> (g: Option<Self>)
        ensures
            (g is Some) == (r.method == Method::Put && r.has_part_number && r.segments > 1
                && r.has_upload_id),
    {
        if matches!(r.method, Method::Put) && r.has_part_number && r.segments > 1
            && r.has_upload_id {
            Some(PutObjectPart)
        } else {
            None
        }
    }
}

/// Guards the version 1 listing.
#[derive(Debug, Clone)]
pub struct ListObjects;

impl ListObjects {
    pub fn from_request(r: &RequestShape) -> (g: Option<Self>)
        ensures
            (g is Some) == (r.method == Method::Get && !r.has_location && r.segments > 0
                && !r.has_list_type),
    {
        if matches!(r.method, Method::Get) && !r.has_location && r.segments > 0
            && !r.has_list_type {
            Some(ListObjects)
        } else {
            None
        }
    }
}

/// Guards the version 2 listing.
#[derive(Debug, Clone)]
pub struct ListObjectsV2;

impl ListObjectsV2 {
    pub fn from_request(r: &RequestShape) -> (g: Option<Self>)
        ensures
            (g is Some) == (r.method == Method::Get && !r.has_location && r.segments > 0
                && r.has_list_type && r.list_type_is_2),
    {
        if matches!(r.method, Method::Get) && !r.has_location && r.segments > 0 && r.has_list_type
            && r.list_type_is_2 {
            Some(ListObjectsV2)
        } else {
            None
        }
    }
}

// ---------------------------------------------------------------------------
// The debug-endpoint guard.
// ---------------------------------------------------------------------------

/// Proof that the `x-api-key` header carried the expected value.
#[derive(Debug, Clone)]
pub struct AuthCheckPassed;

/// Why the check refused.
#[derive(Debug, Clone)]
pub enum AuthError {
    NoKeySupplied,
    InvalidKey,
    InvalidSignature,
}

impl AuthCheckPassed {
    /// Accepts exactly the configured key; a missing or wrong key is
    /// refused with its own reason.
    pub fn from_api_key(api_key: Option<&str>) -> (r: Result<AuthCheckPassed, AuthError>)
        ensures
            api_key is None ==> (r matches Err(e) && e is NoKeySupplied),
            api_key matches Some(k) ==> {
                &&& k@ == "secret"@ ==> r is Ok
                &&& k@ != "secret"@ ==> (r matches Err(e) && e is InvalidKey)
            },
    {
        match api_key {
            Some(k) => {
                if crate::text::str_eq(k, "secret") {
                    Ok(AuthCheckPassed)
                } else {
                    Err(AuthError::InvalidKey)
                }
            },
            None => Err(AuthError::NoKeySupplied),
        }
    }
}

} // verus!
