use vstd::prelude::*;
use crate::digest::{md5_hex, md5_hex_of};
use crate::fserror::{S3FSError, S3FSErrorKind};

verus! {

// ---------------------------------------------------------------------------
// Hex numerals over bytes.
// ---------------------------------------------------------------------------

pub open spec fn is_hex_digit(b: u8) -> bool {
    (48 <= b <= 57) || (65 <= b <= 70) || (97 <= b <= 102)
}

pub open spec fn hex_digit_val(b: u8) -> int {
    if 48 <= b <= 57 {
        b - 48
    } else if 65 <= b <= 70 {
        b - 55
    } else {
        b - 87
    }
}

pub open spec fn all_hex(s: Seq<u8>) -> bool {
    forall|i: int| 0 <= i < s.len() ==> is_hex_digit(#[trigger] s[i])
}

/// The value of a string of hex digits.
pub open spec fn hex_val(s: Seq<u8>) -> int
    decreases s.len(),
{
    if s.len() == 0 {
        0
    } else {
        hex_val(s.drop_last()) * 16 + hex_digit_val(s.last())
    }
}

proof fn lemma_hex_val_nonneg(s: Seq<u8>)
    requires
        all_hex(s),
    ensures
        hex_val(s) >= 0,
    decreases s.len(),
{
    if s.len() > 0 {
        lemma_hex_val_nonneg(s.drop_last());
    }
}

proof fn lemma_hex_val_prefix_le(s: Seq<u8>, i: int)
    requires
        all_hex(s),
        0 <= i <= s.len(),
    ensures
        hex_val(s.take(i)) <= hex_val(s),
    decreases s.len(),
{
    if i == s.len() {
        assert(s.take(i) =~= s);
    } else {
        assert(s.drop_last() =~= s.take(s.len() - 1));
        assert(s.take(i) =~= s.drop_last().take(i));
        lemma_hex_val_prefix_le(s.drop_last(), i);
        lemma_hex_val_nonneg(s.drop_last());
    }
}

// ---------------------------------------------------------------------------
// Finding delimiters.
// ---------------------------------------------------------------------------

/// Index of the first CR LF pair in `s`, or -1.
pub open spec fn find_crlf(s: Seq<u8>) -> int
    decreases s.len(),
{
    if s.len() < 2 {
        -1
    } else if s[0] == 13 && s[1] == 10 {
        0
    } else {
        let r = find_crlf(s.skip(1));
        if r < 0 {
            -1
        } else {
            r + 1
        }
    }
}

/// Index of the first occurrence of `b` in `s`, or -1.
pub open spec fn find_byte(s: Seq<u8>, b: u8) -> int
    decreases s.len(),
{
    if s.len() == 0 {
        -1
    } else if s[0] == b {
        0
    } else {
        let r = find_byte(s.skip(1), b);
        if r < 0 {
            -1
        } else {
            r + 1
        }
    }
}

proof fn lemma_find_crlf_at(s: Seq<u8>, i: int)
    requires
        0 <= i,
        i + 1 < s.len(),
        s[i] == 13,
        s[i + 1] == 10,
        forall|j: int| 0 <= j < i ==> !(#[trigger] s[j] == 13 && s[j + 1] == 10),
    ensures
        find_crlf(s) == i,
    decreases i,
{
    if i == 0 {
    } else {
        assert forall|j: int| 0 <= j < i - 1 implies !(#[trigger] s.skip(1)[j] == 13 && s.skip(1)[j + 1]
            == 10) by {
            assert(s.skip(1)[j] == s[j + 1]);
            assert(s.skip(1)[j + 1] == s[j + 2]);
        }
        assert(s.skip(1)[i - 1] == s[i]);
        assert(s.skip(1)[i] == s[i + 1]);
        lemma_find_crlf_at(s.skip(1), i - 1);
    }
}

proof fn lemma_find_crlf_none(s: Seq<u8>)
    requires
        forall|j: int| 0 <= j && j + 1 < s.len() ==> !(#[trigger] s[j] == 13 && s[j + 1] == 10),
    ensures
        find_crlf(s) == -1,
    decreases s.len(),
{
    if s.len() >= 2 {
        assert(s[0] == s[0] && s[1] == s.skip(1)[0]);
        assert forall|j: int| 0 <= j && j + 1 < s.skip(1).len() implies !(#[trigger] s.skip(1)[j] == 13
            && s.skip(1)[j + 1] == 10) by {
            assert(s.skip(1)[j] == s[j + 1]);
            assert(s.skip(1)[j + 1] == s[j + 2]);
        }
        lemma_find_crlf_none(s.skip(1));
    }
}

proof fn lemma_find_byte_at(s: Seq<u8>, b: u8, i: int)
    requires
        0 <= i < s.len(),
        s[i] == b,
        forall|j: int| 0 <= j < i ==> s[j] != b,
    ensures
        find_byte(s, b) == i,
    decreases i,
{
    if i == 0 {
    } else {
        assert forall|j: int| 0 <= j < i - 1 implies s.skip(1)[j] != b by {
            assert(s.skip(1)[j] == s[j + 1]);
        }
        assert(s.skip(1)[i - 1] == s[i]);
        lemma_find_byte_at(s.skip(1), b, i - 1);
    }
}

proof fn lemma_find_byte_none(s: Seq<u8>, b: u8)
    requires
        forall|j: int| 0 <= j < s.len() ==> s[j] != b,
    ensures
        find_byte(s, b) == -1,
    decreases s.len(),
{
    if s.len() > 0 {
        assert forall|j: int| 0 <= j < s.skip(1).len() implies s.skip(1)[j] != b by {
            assert(s.skip(1)[j] == s[j + 1]);
        }
        lemma_find_byte_none(s.skip(1), b);
    }
}

/// First CR LF pair at or after `start`.
fn scan_crlf(v: &Vec<u8>, start: usize) -> (r: Option<usize>)
    requires
        start <= v@.len(),
    ensures
        r matches Some(i) ==> start <= i && i + 1 < v@.len() && v@[i as int] == 13 && v@[i + 1]
            == 10 && (forall|j: int| start <= j < i ==> !(#[trigger] v@[j] == 13 && v@[j + 1] == 10)),
        r is None ==> forall|j: int| start <= j && j + 1 < v@.len() ==> !(#[trigger] v@[j] == 13 && v@[j + 1]
            == 10),
{
    let len = v.len();
    let mut i: usize = start;
    while len - i > 1
        invariant
            start <= i <= len,
            len == v@.len(),
            forall|j: int| start <= j < i ==> !(#[trigger] v@[j] == 13 && v@[j + 1] == 10),
        decreases len - i,
    {
        if v[i] == 13 && v[i + 1] == 10 {
            return Some(i);
        }
        i = i + 1;
    }
    None
}

/// First occurrence of `b` in `[start, end)`.
fn scan_byte(v: &Vec<u8>, start: usize, end: usize, b: u8) -> (r: Option<usize>)
    requires
        start <= end <= v@.len(),
    ensures
        r matches Some(i) ==> start <= i < end && v@[i as int] == b && (forall|j: int|
            start <= j < i ==> v@[j] != b),
        r is None ==> forall|j: int| start <= j < end ==> v@[j] != b,
{
    let mut i: usize = start;
    while i < end
        invariant
            start <= i <= end,
            end <= v@.len(),
            forall|j: int| start <= j < i ==> v@[j] != b,
        decreases end - i,
    {
        if v[i] == b {
            return Some(i);
        }
        i = i + 1;
    }
    None
}

/// Parses the hex digits in `[from, to)`. `None` on an empty or non-hex
/// span and on a value that does not fit in `usize`.
fn parse_hex_range(v: &Vec<u8>, from: usize, to: usize) -> (r: Option<usize>)
    requires
        from <= to <= v@.len(),
    ensures
        r matches Some(x) ==> from < to && all_hex(v@.subrange(from as int, to as int)) && x as int
            == hex_val(v@.subrange(from as int, to as int)),
        ({
            let t = v@.subrange(from as int, to as int);
            from < to && all_hex(t) && hex_val(t) <= usize::MAX as int
        }) ==> r is Some,
{
    let ghost t = v@.subrange(from as int, to as int);
    if from == to {
        return None;
    }
    let mut acc: usize = 0;
    let mut i: usize = from;
    while i < to
        invariant
            from <= i <= to,
            to <= v@.len(),
            t == v@.subrange(from as int, to as int),
            all_hex(t.take(i - from)),
            acc as int == hex_val(t.take(i - from)),
        decreases to - i,
    {
        let b = v[i];
        assert(t[i - from] == v@[i as int]);
        let d: usize;
        if 48 <= b && b <= 57 {
            d = (b - 48) as usize;
        } else if 65 <= b && b <= 70 {
            d = (b - 55) as usize;
        } else if 97 <= b && b <= 102 {
            d = (b - 87) as usize;
        } else {
            assert(!is_hex_digit(t[i - from]));
            return None;
        }
        assert(d as int == hex_digit_val(t[i - from]));
        proof {
            assert(t.take(i - from + 1).drop_last() =~= t.take(i - from));
        }
        if acc > (usize::MAX - d) / 16 {
            proof {
                assert(all_hex(t.take(i - from + 1)));
                assert(hex_val(t.take(i - from + 1)) > usize::MAX as int);
                if all_hex(t) {
                    lemma_hex_val_prefix_le(t, i - from + 1);
                }
            }
            return None;
        }
        acc = acc * 16 + d;
        i = i + 1;
    }
    proof {
        assert(t.take(to - from) =~= t);
    }
    Some(acc)
}

// ---------------------------------------------------------------------------
// The chunked-transfer decoding itself.
// ---------------------------------------------------------------------------

/// The decoding of an HTTP/1.1 chunked-transfer body: repeated chunks of
/// `<hex size>[;extensions] CR LF <size bytes> CR LF`, ended by a chunk of
/// size zero (whatever follows the final header is ignored). `None` when the
/// framing is malformed or the input ends inside a chunk.
pub open spec fn spec_decode_chunked(s: Seq<u8>) -> Option<Seq<u8>>
    decreases s.len(),
    via spec_decode_chunked_decreases
{
    let h = find_crlf(s);
    if h < 0 {
        None
    } else {
        let header = s.take(h);
        let rest = s.skip(h + 2);
        let t = find_byte(header, 59);
        let token = if t < 0 {
            header
        } else {
            header.take(t)
        };
        if token.len() == 0 || !all_hex(token) {
            None
        } else {
            let size = hex_val(token);
            if size == 0 {
                Some(Seq::empty())
            } else if rest.len() < size + 2 {
                None
            } else {
                match spec_decode_chunked(rest.skip(size + 2)) {
                    None => None,
                    Some(tail) => Some(rest.take(size) + tail),
                }
            }
        }
    }
}

proof fn lemma_find_crlf_bound(s: Seq<u8>)
    ensures
        find_crlf(s) >= 0 ==> find_crlf(s) + 1 < s.len(),
    decreases s.len(),
{
    if s.len() >= 2 && !(s[0] == 13 && s[1] == 10) {
        lemma_find_crlf_bound(s.skip(1));
    }
}

#[via_fn]
proof fn spec_decode_chunked_decreases(s: Seq<u8>) {
    let h = find_crlf(s);
    lemma_find_crlf_bound(s);
    if h >= 0 {
        let header = s.take(h);
        let t = find_byte(header, 59);
        let token = if t < 0 {
            header
        } else {
            header.take(t)
        };
        if token.len() > 0 && all_hex(token) {
            lemma_hex_val_nonneg(token);
        }
    }
}

/// What a request body denotes under the given transfer mode.
pub open spec fn spec_decoded_body(s: Seq<u8>, chunked: bool) -> Option<Seq<u8>> {
    if chunked {
        spec_decode_chunked(s)
    } else {
        Some(s)
    }
}

spec fn decode_rest(pre: Seq<u8>, o: Option<Seq<u8>>) -> Option<Seq<u8>> {
    match o {
        None => None,
        Some(t) => Some(pre + t),
    }
}

/// Undoes chunked-transfer framing over an in-memory body.
pub fn decode_chunked(input: &Vec<u8>) -> (r: Result<Vec<u8>, S3FSError>)
    ensures
        r matches Ok(out) ==> spec_decode_chunked(input@) == Some(out@),
        r is Err ==> spec_decode_chunked(input@) is None,
        r matches Err(e) ==> e.kind == S3FSErrorKind::IncompleteWrite,
{
    let len = input.len();
    let mut out: Vec<u8> = Vec::new();
    let mut p: usize = 0;
    proof {
        assert(input@.skip(0) =~= input@);
        match spec_decode_chunked(input@) {
            None => {},
            Some(t) => {
                assert(Seq::<u8>::empty() + t =~= t);
            },
        }
    }
    loop
        invariant
            p <= len,
            len == input@.len(),
            spec_decode_chunked(input@) == decode_rest(
                out@,
                spec_decode_chunked(input@.skip(p as int)),
            ),
        decreases len - p,
    {
        let ghost s = input@.skip(p as int);
        let h_abs = match scan_crlf(input, p) {
            Some(i) => i,
            None => {
                proof {
                    assert forall|j: int| 0 <= j && j + 1 < s.len() implies !(#[trigger] s[j] == 13 && s[j + 1]
                        == 10) by {
                        assert(s[j] == input@[p + j]);
                        assert(s[j + 1] == input@[p + j + 1]);
                    }
                    lemma_find_crlf_none(s);
                }
                return Err(S3FSError::of_kind(S3FSErrorKind::IncompleteWrite));
            },
        };
        let ghost h = h_abs - p as int;
        proof {
            assert forall|j: int| 0 <= j < h implies !(#[trigger] s[j] == 13 && s[j + 1] == 10) by {
                assert(s[j] == input@[p + j]);
                assert(s[j + 1] == input@[p + j + 1]);
            }
            assert(s[h] == input@[h_abs as int]);
            assert(s[h + 1] == input@[h_abs + 1]);
            lemma_find_crlf_at(s, h);
        }
        let ghost header = s.take(h);
        // the size token ends at ';' when extensions follow, else at the CR
        let tok_end = match scan_byte(input, p, h_abs, 59) {
            Some(i) => {
                proof {
                    assert forall|j: int| 0 <= j < i - p implies header[j] != 59 by {
                        assert(header[j] == input@[p + j]);
                    }
                    assert(header[i - p] == input@[i as int]);
                    lemma_find_byte_at(header, 59, i - p);
                }
                i
            },
            None => {
                proof {
                    assert forall|j: int| 0 <= j < header.len() implies header[j] != 59 by {
                        assert(header[j] == input@[p + j]);
                    }
                    lemma_find_byte_none(header, 59);
                }
                h_abs
            },
        };
        let ghost token = if find_byte(header, 59) < 0 {
            header
        } else {
            header.take(find_byte(header, 59))
        };
        proof {
            assert(token =~= input@.subrange(p as int, tok_end as int));
        }
        let size = match parse_hex_range(input, p, tok_end) {
            Some(x) => x,
            None => {
                proof {
                    if token.len() > 0 && all_hex(token) {
                        // the value overflows usize, so the remainder is
                        // certainly shorter than the declared size
                        lemma_hex_val_nonneg(token);
                    }
                }
                return Err(S3FSError::of_kind(S3FSErrorKind::IncompleteWrite));
            },
        };
        proof {
            assert(size as int == hex_val(token));
        }
        if size == 0 {
            proof {
                assert(out@ + Seq::<u8>::empty() =~= out@);
            }
            return Ok(out);
        }
        let ghost rest = s.skip(h + 2);
        let body_start = h_abs + 2;
        // `rest.len() < size + 2` exactly when the remaining bytes cannot
        // hold the chunk body and its trailing CR LF
        if len - body_start < size || len - body_start - size < 2 {
            proof {
                assert(rest.len() == len - body_start);
            }
            return Err(S3FSError::of_kind(S3FSErrorKind::IncompleteWrite));
        }
        let ghost out_before = out@;
        let mut k: usize = 0;
        while k < size
            invariant
                k <= size,
                body_start + size <= len,
                len == input@.len(),
                out@ == out_before + input@.subrange(body_start as int, body_start + k),
            decreases size - k,
        {
            let b = input[body_start + k];
            out.push(b);
            proof {
                assert(out@ =~= out_before + input@.subrange(
                    body_start as int,
                    body_start + k + 1,
                ));
            }
            k = k + 1;
        }
        proof {
            assert(rest.take(size as int) =~= input@.subrange(
                body_start as int,
                body_start + size,
            ));
            assert(rest.skip(size + 2) =~= input@.skip(body_start + size + 2));
            assert(out@ =~= out_before + rest.take(size as int));
        }
        p = body_start + size + 2;
        proof {
            assert forall|o: Option<Seq<u8>>|
                decode_rest(out_before, decode_rest(rest.take(size as int), o)) == decode_rest(
                    out@,
                    o,
                ) by {
                match o {
                    None => {},
                    Some(t) => {
                        assert(out_before + (rest.take(size as int) + t) =~= out@ + t);
                    },
                }
            }
        }
    }
}

/// Decodes a request body per its transfer mode and computes its size and
/// MD5 etag: the in-memory form of the streaming copy the service performs.
pub fn decode_body(input: &Vec<u8>, chunked: bool) -> (r: Result<(Vec<u8>, usize, String), S3FSError>)
    ensures
        r matches Ok(d) ==> {
            &&& spec_decoded_body(input@, chunked) == Some(d.0@)
            &&& d.1 == d.0@.len()
            &&& d.2@ == md5_hex_of(d.0@)
        },
        r is Err ==> chunked && spec_decode_chunked(input@) is None,
        r matches Err(e) ==> e.kind == S3FSErrorKind::IncompleteWrite,
{
    let data: Vec<u8> = if chunked {
        match decode_chunked(input) {
            Ok(d) => d,
            Err(e) => {
                return Err(e);
            },
        }
    } else {
        input.clone()
    };
    let etag = md5_hex(data.as_slice());
    let size = data.len();
    Ok((data, size, etag))
}

} // verus!
