use vstd::prelude::*;
use vstd::string::StringExecFns;
use crate::fserror::{S3FSError, S3FSErrorKind};
use crate::text::{
    dec_digits, dec_val, is_prefix_of, lemma_canonical_digits, lemma_dec_digits_wf,
    parse_usize_dec, str_eq, str_starts_with, substr_string,
};

verus! {

/// The sidecar record for one stored object: its etag and its byte size.
#[derive(Debug)]
pub struct FileMeta {
    pub etag: String,
    pub size: usize,
}

impl Clone for FileMeta {
    fn clone(&self) -> (r: Self)
        ensures
            r == *self,
    {
        FileMeta { etag: self.etag.clone(), size: self.size }
    }
}

/// An etag never holds a quote: it is rendered into the record unescaped.
pub open spec fn no_quote(s: Seq<char>) -> bool {
    forall|i: int| 0 <= i < s.len() ==> #[trigger] s[i] != '"'
}

/// The persisted shape of a sidecar record.
pub open spec fn spec_meta_json(etag: Seq<char>, size: nat) -> Seq<char> {
    "{\"etag\":\""@ + etag + "\",\"size\":"@ + dec_digits(size) + "}"@
}

/// Serializes a metadata record in the persisted JSON shape.
pub fn meta_to_json(m: &FileMeta) -> (r: String)
    ensures
        r@ == spec_meta_json(m.etag@, m.size as nat),
{
    let mut s = String::new();
    s.append("{\"etag\":\"");
    s.append(m.etag.as_str());
    s.append("\",\"size\":");
    let num = crate::text::usize_to_string(m.size);
    s.append(num.as_str());
    s.append("}");
    proof {
        assert(s@ =~= spec_meta_json(m.etag@, m.size as nat));
    }
    s
}

/// Where each piece of a well-formed record sits in the rendered text.
proof fn lemma_meta_json_layout(s: Seq<char>, e: Seq<char>, n: nat)
    requires
        s == spec_meta_json(e, n),
        no_quote(e),
    ensures
        s.len() == 19 + e.len() + dec_digits(n).len(),
        dec_digits(n).len() >= 1,
        is_prefix_of("{\"etag\":\""@, s),
        s.subrange(9, 9 + e.len() as int) == e,
        s[9 + e.len() as int] == '"',
        forall|j: int| 9 <= j < 9 + e.len() as int ==> #[trigger] s[j] != '"',
        s.subrange(9 + e.len() as int, 18 + e.len() as int) == "\",\"size\":"@,
        s.subrange(18 + e.len() as int, s.len() - 1) == dec_digits(n),
        s[s.len() - 1] == '}',
{
    reveal_strlit("{\"etag\":\"");
    reveal_strlit("\",\"size\":");
    reveal_strlit("}");
    lemma_dec_digits_wf(n);
    let lit1 = "{\"etag\":\""@;
    let lit2 = "\",\"size\":"@;
    let lit3 = "}"@;
    let dd = dec_digits(n);
    assert(lit1.len() == 9);
    assert(lit2.len() == 9);
    assert(lit3.len() == 1);
    assert(s.len() == 19 + e.len() + dd.len());
    assert(s.subrange(0, 9) =~= lit1);
    assert(s.subrange(9, 9 + e.len() as int) =~= e);
    assert(s[9 + e.len() as int] == lit2[0]);
    assert(lit2[0] == '"');
    assert(s.subrange(9 + e.len() as int, 18 + e.len() as int) =~= lit2);
    assert(s.subrange(18 + e.len() as int, s.len() - 1) =~= dd);
    assert(s[s.len() - 1] == lit3[0]);
}

/// Two well-formed records render alike only when they are the same
/// record.
pub proof fn lemma_meta_json_injective(e1: Seq<char>, n1: nat, e2: Seq<char>, n2: nat)
    requires
        no_quote(e1),
        no_quote(e2),
        spec_meta_json(e1, n1) == spec_meta_json(e2, n2),
    ensures
        e1 == e2,
        n1 == n2,
{
    let s = spec_meta_json(e1, n1);
    lemma_meta_json_layout(s, e1, n1);
    lemma_meta_json_layout(s, e2, n2);
    if e1.len() < e2.len() {
        assert(s[9 + e1.len() as int] == '"');
        assert(false);
    }
    if e2.len() < e1.len() {
        assert(s[9 + e2.len() as int] == '"');
        assert(false);
    }
    assert(e1 =~= e2) by {
        assert(s.subrange(9, 9 + e1.len() as int) == e1);
        assert(s.subrange(9, 9 + e2.len() as int) == e2);
    }
    lemma_dec_digits_wf(n1);
    lemma_dec_digits_wf(n2);
    assert(dec_digits(n1) =~= dec_digits(n2)) by {
        assert(s.subrange(18 + e1.len() as int, s.len() - 1) == dec_digits(n1));
        assert(s.subrange(18 + e2.len() as int, s.len() - 1) == dec_digits(n2));
    }
    assert(dec_val(dec_digits(n1)) == n1 && dec_val(dec_digits(n2)) == n2);
}

/// Parses a sidecar record. Accepts exactly the shape that
/// `meta_to_json` writes, and yields the record it was written from.
pub fn parse_meta(s: &str) -> (r: Result<FileMeta, S3FSError>)
    ensures
        r matches Ok(m) ==> s@ == spec_meta_json(m.etag@, m.size as nat) && no_quote(m.etag@),
        r matches Err(x) ==> x.kind == S3FSErrorKind::InvalidMeta,
        forall|e: Seq<char>, n: nat|
            no_quote(e) && n <= usize::MAX as nat && s@ == spec_meta_json(e, n) ==> (r matches Ok(
                m,
            ) && m.etag@ == e && m.size == n),
{
    let len = s.unicode_len();
    if !str_starts_with(s, "{\"etag\":\"") {
        proof {
            assert forall|e: Seq<char>, n: nat|
                !(no_quote(e) && n <= usize::MAX as nat && s@ == spec_meta_json(e, n)) by {
                if no_quote(e) && s@ == spec_meta_json(e, n) {
                    lemma_meta_json_layout(s@, e, n);
                }
            }
        }
        return Err(S3FSError::of_kind(S3FSErrorKind::InvalidMeta));
    }
    proof {
        reveal_strlit("{\"etag\":\"");
    }
    // the etag runs to the next quote
    let q = match crate::text::scan_char(s, 9, '"') {
        Some(i) => i,
        None => {
            proof {
                assert forall|e: Seq<char>, n: nat|
                    !(no_quote(e) && n <= usize::MAX as nat && s@ == spec_meta_json(e, n)) by {
                    if no_quote(e) && s@ == spec_meta_json(e, n) {
                        lemma_meta_json_layout(s@, e, n);
                        assert(s@[9 + e.len() as int] == '"');
                    }
                }
            }
            return Err(S3FSError::of_kind(S3FSErrorKind::InvalidMeta));
        },
    };
    // from here on, a well-formed record pins `q` as the end of its etag
    proof {
        assert forall|e: Seq<char>, n: nat|
            no_quote(e) && s@ == spec_meta_json(e, n) implies q == 9 + e.len() as int by {
            lemma_meta_json_layout(s@, e, n);
            if q < 9 + e.len() as int {
                assert(s@[q as int] != '"');
            }
            if q > 9 + e.len() as int {
                assert(s@[9 + e.len() as int] == '"');
            }
        }
    }
    let etag = substr_string(s, 9, q);
    if len - q < 11 {
        proof {
            assert forall|e: Seq<char>, n: nat|
                !(no_quote(e) && n <= usize::MAX as nat && s@ == spec_meta_json(e, n)) by {
                if no_quote(e) && s@ == spec_meta_json(e, n) {
                    lemma_meta_json_layout(s@, e, n);
                }
            }
        }
        return Err(S3FSError::of_kind(S3FSErrorKind::InvalidMeta));
    }
    let sep = s.substring_char(q, q + 9);
    if !str_eq(sep, "\",\"size\":") {
        proof {
            assert forall|e: Seq<char>, n: nat|
                !(no_quote(e) && n <= usize::MAX as nat && s@ == spec_meta_json(e, n)) by {
                if no_quote(e) && s@ == spec_meta_json(e, n) {
                    lemma_meta_json_layout(s@, e, n);
                }
            }
        }
        return Err(S3FSError::of_kind(S3FSErrorKind::InvalidMeta));
    }
    if s.get_char(len - 1) != '}' {
        proof {
            assert forall|e: Seq<char>, n: nat|
                !(no_quote(e) && n <= usize::MAX as nat && s@ == spec_meta_json(e, n)) by {
                if no_quote(e) && s@ == spec_meta_json(e, n) {
                    lemma_meta_json_layout(s@, e, n);
                }
            }
        }
        return Err(S3FSError::of_kind(S3FSErrorKind::InvalidMeta));
    }
    let num = s.substring_char(q + 9, len - 1);
    // a canonical numeral has no leading zero
    if num.unicode_len() > 1 && num.get_char(0) == '0' {
        proof {
            assert forall|e: Seq<char>, n: nat|
                !(no_quote(e) && n <= usize::MAX as nat && s@ == spec_meta_json(e, n)) by {
                if no_quote(e) && s@ == spec_meta_json(e, n) {
                    lemma_meta_json_layout(s@, e, n);
                    lemma_dec_digits_wf(n);
                    assert(num@ =~= dec_digits(n));
                }
            }
        }
        return Err(S3FSError::of_kind(S3FSErrorKind::InvalidMeta));
    }
    let size = match parse_usize_dec(num) {
        Some(v) => v,
        None => {
            proof {
                assert forall|e: Seq<char>, n: nat|
                    !(no_quote(e) && n <= usize::MAX as nat && s@ == spec_meta_json(e, n)) by {
                    if no_quote(e) && n <= usize::MAX as nat && s@ == spec_meta_json(e, n) {
                        lemma_meta_json_layout(s@, e, n);
                        lemma_dec_digits_wf(n);
                        assert(num@ =~= dec_digits(n));
                    }
                }
            }
            return Err(S3FSError::of_kind(S3FSErrorKind::InvalidMeta));
        },
    };
    let m = FileMeta { etag, size };
    proof {
        lemma_canonical_digits(num@);
        assert(dec_digits(size as nat) == num@);
        reveal_strlit("{\"etag\":\"");
        reveal_strlit("\",\"size\":");
        reveal_strlit("}");
        assert(s@.subrange(0, 9) == "{\"etag\":\""@);
        assert(s@ =~= spec_meta_json(m.etag@, m.size as nat));
        assert forall|e: Seq<char>, n: nat|
            no_quote(e) && n <= usize::MAX as nat && s@ == spec_meta_json(e, n) implies m.etag@
            == e && m.size == n by {
            lemma_meta_json_layout(s@, e, n);
            lemma_dec_digits_wf(n);
            assert(m.etag@ =~= e);
            assert(num@ =~= dec_digits(n));
            assert(dec_val(num@) == n);
        }
    }
    Ok(m)
}

} // verus!
