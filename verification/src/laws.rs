use vstd::prelude::*;
use crate::digest::{is_hex_lower, md5_hex_of};
use crate::fsapi::{
    deep_keep, deep_selection, entries_wf, entry_at, has_key, has_meta_at, merged_upload,
    published, short_keep, short_selection, spec_meta_key, spec_part_key, spec_sidecar_etag,
    spec_valid_key, Bucket, FileType, FsEntry,
};
use crate::meta::{no_quote, spec_meta_json};
use crate::text::{lemma_lex_lt_connex, lemma_lex_lt_irrefl, lemma_lex_lt_trans, lex_lt};

verus! {

/// Every element of a filter comes from the sequence.
proof fn lemma_filter_is_element<A>(s: Seq<A>, pred: spec_fn(A) -> bool, t: int)
    requires
        0 <= t < s.filter(pred).len(),
    ensures
        exists|i: int| 0 <= i < s.len() && s[i] == s.filter(pred)[t],
    decreases s.len(),
{
    reveal(Seq::filter);
    if s.len() > 0 {
        let init = s.drop_last();
        if pred(s.last()) {
            if t < s.filter(pred).len() - 1 {
                lemma_filter_is_element(init, pred, t);
                let i = choose|i: int| 0 <= i < init.len() && init[i] == init.filter(pred)[t];
                assert(s[i] == s.filter(pred)[t]);
            } else {
                assert(s[s.len() - 1] == s.filter(pred)[t]);
            }
        } else {
            lemma_filter_is_element(init, pred, t);
            let i = choose|i: int| 0 <= i < init.len() && init[i] == init.filter(pred)[t];
            assert(s[i] == s.filter(pred)[t]);
        }
    }
}

/// Filtering a key-sorted sequence of entries keeps it key-sorted.
proof fn lemma_filter_keeps_order(entries: Seq<FsEntry>, pred: spec_fn(FsEntry) -> bool)
    requires
        forall|i: int, j: int|
            0 <= i < j < entries.len() ==> lex_lt(
                #[trigger] entries[i].key@,
                #[trigger] entries[j].key@,
            ),
    ensures
        forall|i: int, j: int|
            0 <= i < j < entries.filter(pred).len() ==> lex_lt(
                #[trigger] entries.filter(pred)[i].key@,
                #[trigger] entries.filter(pred)[j].key@,
            ),
    decreases entries.len(),
{
    reveal(Seq::filter);
    if entries.len() > 0 {
        let init = entries.drop_last();
        assert forall|i: int, j: int| 0 <= i < j < init.len() implies lex_lt(
            #[trigger] init[i].key@,
            #[trigger] init[j].key@,
        ) by {
            assert(init[i] == entries[i] && init[j] == entries[j]);
        }
        lemma_filter_keeps_order(init, pred);
        if pred(entries.last()) {
            let f = entries.filter(pred);
            assert(f == init.filter(pred).push(entries.last()));
            assert forall|i: int, j: int| 0 <= i < j < f.len() implies lex_lt(
                #[trigger] f[i].key@,
                #[trigger] f[j].key@,
            ) by {
                if j < f.len() - 1 {
                    assert(f[i] == init.filter(pred)[i] && f[j] == init.filter(pred)[j]);
                } else {
                    assert(f[i] == init.filter(pred)[i]);
                    lemma_filter_is_element(init, pred, i);
                    let t = choose|t: int|
                        0 <= t < init.len() && init[t] == init.filter(pred)[i];
                    assert(lex_lt(entries[t].key@, entries[entries.len() - 1].key@));
                }
            }
        }
    }
}

/// LAW — listing pagination. The deep listing's selection is strictly
/// ascending by key; and when a page of `limit` keys is cut off the
/// front, listing again with the cursor set to that page's last key
/// selects exactly the remainder. Walking pages this way therefore
/// visits every selected key exactly once, in ascending order.
pub proof fn lemma_listing_pagination(
    entries: Seq<FsEntry>,
    p: Seq<char>,
    after: Seq<char>,
    limit: int,
)
    requires
        entries_wf(entries),
        limit >= 1,
    ensures
        forall|i: int, j: int|
            0 <= i < j < deep_selection(entries, p, after).len() ==> lex_lt(
                #[trigger] deep_selection(entries, p, after)[i].key@,
                #[trigger] deep_selection(entries, p, after)[j].key@,
            ),
        deep_selection(entries, p, after).len() >= limit ==> deep_selection(
            entries,
            p,
            deep_selection(entries, p, after)[limit - 1].key@,
        ) == deep_selection(entries, p, after).skip(limit),
{
    let pred = |e: FsEntry| deep_keep(entries, p, after, e);
    let sel = deep_selection(entries, p, after);
    lemma_filter_keeps_order(entries, pred);
    if sel.len() >= limit {
        let last = sel[limit - 1].key@;
        assert(pred(sel[limit - 1])) by {
            entries.lemma_filter_pred(pred, limit - 1);
        }
        assert(lex_lt(after, last));
        let pred2 = |e: FsEntry| deep_keep(entries, p, last, e);
        let q = |e: FsEntry| lex_lt(last, e.key@);
        assert forall|e: FsEntry| #[trigger] pred2(e) == (pred(e) && q(e)) by {
            if pred2(e) {
                lemma_lex_lt_trans(after, last, e.key@);
            }
        }
        crate::fsapi::lemma_filter_conj_entries(entries, pred, q, pred2);
        assert forall|i: int| 0 <= i < limit implies !q(#[trigger] sel[i]) by {
            if i < limit - 1 {
                assert(lex_lt(sel[i].key@, last));
                lemma_lex_lt_connex(sel[i].key@, last);
            } else {
                lemma_lex_lt_irrefl(last);
            }
        }
        assert forall|i: int| limit <= i < sel.len() implies q(#[trigger] sel[i]) by {
            assert(lex_lt(last, sel[i].key@));
        }
        crate::fsapi::lemma_filter_sorted_skip_entries(sel, limit, q);
        assert(deep_selection(entries, p, last) == sel.filter(q));
    }
}

/// LAW — listing pagination, shallow form: the selection of the
/// delimiter listing pages the same way.
pub proof fn lemma_listing_pagination_short(
    entries: Seq<FsEntry>,
    p: Seq<char>,
    after: Seq<char>,
    limit: int,
)
    requires
        entries_wf(entries),
        limit >= 1,
    ensures
        forall|i: int, j: int|
            0 <= i < j < short_selection(entries, p, after).len() ==> lex_lt(
                #[trigger] short_selection(entries, p, after)[i].key@,
                #[trigger] short_selection(entries, p, after)[j].key@,
            ),
        short_selection(entries, p, after).len() >= limit ==> short_selection(
            entries,
            p,
            short_selection(entries, p, after)[limit - 1].key@,
        ) == short_selection(entries, p, after).skip(limit),
{
    let pred = |e: FsEntry| short_keep(entries, p, after, e);
    let sel = short_selection(entries, p, after);
    lemma_filter_keeps_order(entries, pred);
    if sel.len() >= limit {
        let last = sel[limit - 1].key@;
        assert(pred(sel[limit - 1])) by {
            entries.lemma_filter_pred(pred, limit - 1);
        }
        assert(lex_lt(after, last));
        let pred2 = |e: FsEntry| short_keep(entries, p, last, e);
        let q = |e: FsEntry| lex_lt(last, e.key@);
        assert forall|e: FsEntry| #[trigger] pred2(e) == (pred(e) && q(e)) by {
            if pred2(e) {
                lemma_lex_lt_trans(after, last, e.key@);
            }
        }
        crate::fsapi::lemma_filter_conj_entries(entries, pred, q, pred2);
        assert forall|i: int| 0 <= i < limit implies !q(#[trigger] sel[i]) by {
            if i < limit - 1 {
                assert(lex_lt(sel[i].key@, last));
                lemma_lex_lt_connex(sel[i].key@, last);
            } else {
                lemma_lex_lt_irrefl(last);
            }
        }
        assert forall|i: int| limit <= i < sel.len() implies q(#[trigger] sel[i]) by {
            assert(lex_lt(last, sel[i].key@));
        }
        crate::fsapi::lemma_filter_sorted_skip_entries(sel, limit, q);
        assert(short_selection(entries, p, last) == sel.filter(q));
    }
}

/// LAW — round trip. After a successful, unblocked save of a valid key,
/// the object reads back byte for byte; its sidecar is the canonical
/// record of its size and etag, and parses back to exactly them; and the
/// deep listing of that very key shows it. The etag is the digest name
/// `md5_hex_of`; its hex shape comes with the digest call.
pub proof fn lemma_round_trip(b0: Bucket, b1: Bucket, key: Seq<char>, d: Seq<u8>)
    requires
        entries_wf(b1.entries@),
        spec_valid_key(key),
        key.len() > 0,
        d.len() <= usize::MAX as nat,
        published(b0.entries@, b1.entries@, key, d, md5_hex_of(d), d.len()),
        forall|i: int| 0 <= i < md5_hex_of(d).len() ==> is_hex_lower(#[trigger] md5_hex_of(d)[i]),
    ensures
        has_key(b1.entries@, key) && entry_at(b1.entries@, key).kind == FileType::File && entry_at(
            b1.entries@,
            key,
        ).data@ == d,
        has_meta_at(b1.entries@, key),
        entry_at(b1.entries@, spec_meta_key(key)).text@ == spec_meta_json(md5_hex_of(d), d.len()),
        spec_sidecar_etag(entry_at(b1.entries@, spec_meta_key(key)).text@) == md5_hex_of(d),
        deep_selection(b1.entries@, key, Seq::<char>::empty()).contains(
            entry_at(b1.entries@, key),
        ),
{
    let e = entry_at(b1.entries@, key);
    let mk = spec_meta_key(key);
    let t = entry_at(b1.entries@, mk).text@;
    // the etag has no quote, so the record is well formed and canonical
    assert(no_quote(md5_hex_of(d))) by {
        assert forall|i: int| 0 <= i < md5_hex_of(d).len() implies #[trigger] md5_hex_of(d)[i]
            != '"' by {
            assert(is_hex_lower(md5_hex_of(d)[i]));
        }
    }
    assert(spec_sidecar_etag(t) == md5_hex_of(d)) by {
        let w = (md5_hex_of(d), d.len());
        assert(no_quote(w.0) && w.1 <= usize::MAX as nat && t == spec_meta_json(w.0, w.1));
        let q = choose|pp: (Seq<char>, nat)|
            no_quote(pp.0) && pp.1 <= usize::MAX as nat && t == spec_meta_json(pp.0, pp.1);
        crate::meta::lemma_meta_json_injective(q.0, q.1, md5_hex_of(d), d.len());
    }
    // the key selects itself in the deep listing
    let pred = |x: FsEntry| deep_keep(b1.entries@, key, Seq::<char>::empty(), x);
    assert(pred(e)) by {
        assert(!crate::text::is_suffix_of("@@META@@"@, key));
        assert(lex_lt(Seq::<char>::empty(), key));
        if crate::fsapi::dir_mode(b1.entries@, key) {
            assert(entry_at(b1.entries@, key).kind == FileType::Directory);
            assert(false);
        }
        assert(crate::text::is_prefix_of(key, e.key@)) by {
            assert(e.key@.subrange(0, key.len() as int) =~= key);
        }
    }
    let i = choose|i: int| 0 <= i < b1.entries@.len() && (#[trigger] b1.entries@[i].key@) == key;
    assert(b1.entries@[i] == e) by {
        crate::fsapi::lemma_entry_at(b1.entries@, i);
    }
    b1.entries@.lemma_filter_contains(pred, i);
}

/// LAW — saving is idempotent and last-writer-wins. The visible state a
/// save leaves at its key — the data bytes and the sidecar record — is a
/// function of the key and the decoded body alone, whatever stood there
/// before: saving the same bytes twice leaves the same visible object,
/// and saving different bytes leaves the second body visible.
pub proof fn lemma_save_idempotent(
    e0: Bucket,
    e1: Bucket,
    f0: Bucket,
    f1: Bucket,
    key: Seq<char>,
    d: Seq<u8>,
)
    requires
        published(e0.entries@, e1.entries@, key, d, md5_hex_of(d), d.len()),
        published(f0.entries@, f1.entries@, key, d, md5_hex_of(d), d.len()),
    ensures
        entry_at(e1.entries@, key).data@ == entry_at(f1.entries@, key).data@,
        entry_at(e1.entries@, spec_meta_key(key)).text@ == entry_at(
            f1.entries@,
            spec_meta_key(key),
        ).text@,
{
}

/// LAW — multipart assembly. When the staged parts of an upload are
/// exactly one through `n` with the given bodies, completion publishes
/// their concatenation, in part order, under the etag of the
/// concatenated bytes.
pub proof fn lemma_multipart_assembly(
    b0: Bucket,
    b1: Bucket,
    key: Seq<char>,
    id: Seq<char>,
    n: nat,
    parts: Seq<Seq<u8>>,
)
    requires
        merged_upload(b0, b1, key, id, n),
        parts.len() == n,
        forall|j: int|
            0 <= j < n ==> entry_at(b0.staging@, spec_part_key(id, (j + 1) as nat)).data@ == (
            #[trigger] parts[j]),
    ensures
        entry_at(b1.entries@, key).data@ == parts.flatten_alt(),
        entry_at(b1.entries@, spec_meta_key(key)).text@ == spec_meta_json(
            md5_hex_of(parts.flatten_alt()),
            parts.flatten_alt().len(),
        ),
{
    lemma_concat_parts_flat(b0.staging@, id, n, parts);
}

proof fn lemma_concat_parts_flat(staging: Seq<FsEntry>, id: Seq<char>, n: nat, parts: Seq<Seq<u8>>)
    requires
        parts.len() == n,
        forall|j: int|
            0 <= j < n ==> entry_at(staging, spec_part_key(id, (j + 1) as nat)).data@ == (
            #[trigger] parts[j]),
    ensures
        crate::fsapi::concat_parts(staging, id, n) == parts.flatten_alt(),
    decreases n,
{
    if n == 0 {
        assert(parts.flatten_alt() =~= Seq::<u8>::empty());
    } else {
        lemma_concat_parts_flat(staging, id, (n - 1) as nat, parts.drop_last());
        assert(parts.drop_last().flatten_alt() + parts.last() == parts.flatten_alt());
        assert(parts.last() == entry_at(staging, spec_part_key(id, n)).data@);
    }
}

/// LAW — invisibility without a sidecar. A key whose sidecar is absent
/// (or is not a file) never appears in a deep listing, whatever the
/// prefix, cursor, or page.
pub proof fn lemma_invisible_without_sidecar(
    entries: Seq<FsEntry>,
    p: Seq<char>,
    after: Seq<char>,
    k: Seq<char>,
)
    requires
        !has_meta_at(entries, k),
    ensures
        forall|t: int|
            0 <= t < deep_selection(entries, p, after).len() ==> (#[trigger] deep_selection(
                entries,
                p,
                after,
            )[t]).key@ != k,
{
    let pred = |e: FsEntry| deep_keep(entries, p, after, e);
    assert forall|t: int| 0 <= t < deep_selection(entries, p, after).len() implies (
    #[trigger] deep_selection(entries, p, after)[t]).key@ != k by {
        entries.lemma_filter_pred(pred, t);
    }
}

} // verus!
