use vstd::prelude::*;
use vstd::string::{StrSliceExecFns, StringExecFns};
use crate::chunk_to_raw::spec_decoded_body;
use crate::clock::YEAR_9999_MILLIS;
use crate::digest::md5_hex_of;
use crate::fserror::{S3FSError, S3FSErrorKind};
use crate::meta::{spec_meta_json, FileMeta};
use crate::text::{lex_lt, lemma_lex_lt_connex, lemma_lex_lt_irrefl, lemma_lex_lt_trans, str_eq,
    str_lt};

verus! {

/// What a directory entry is.
#[derive(Debug, Clone, Copy, PartialEq, Eq, Structural)]
pub enum FileType {
    Uninitialized,
    File,
    Directory,
}

/// One node of a bucket's directory tree, as plain values: the
/// slash-separated path below the bucket root, what the node is, a data
/// file's bytes, a sidecar's text, and the modification time.
#[derive(Debug)]
pub struct FsEntry {
    pub key: String,
    pub kind: FileType,
    pub data: Vec<u8>,
    pub text: String,
    pub modified_millis: u64,
}

/// An entry the model accepts: a named file or directory, with a
/// representable timestamp.
pub open spec fn entry_ok(e: FsEntry) -> bool {
    &&& e.key@.len() > 0
    &&& e.kind != FileType::Uninitialized
    &&& e.modified_millis < YEAR_9999_MILLIS
}

/// Entries sorted strictly by key: ordered, and no key twice.
pub open spec fn entries_wf(entries: Seq<FsEntry>) -> bool {
    &&& forall|i: int, j: int|
        0 <= i < j < entries.len() ==> lex_lt(
            #[trigger] entries[i].key@,
            #[trigger] entries[j].key@,
        )
    &&& forall|i: int| 0 <= i < entries.len() ==> entry_ok(#[trigger] entries[i])
}

/// Some entry carries this key.
pub open spec fn has_key(entries: Seq<FsEntry>, key: Seq<char>) -> bool {
    exists|i: int| 0 <= i < entries.len() && (#[trigger] entries[i].key@) == key
}

/// The entry carrying this key (meaningful when `has_key` holds and keys
/// are unique).
pub open spec fn entry_at(entries: Seq<FsEntry>, key: Seq<char>) -> FsEntry {
    entries[choose|i: int| 0 <= i < entries.len() && (#[trigger] entries[i].key@) == key]
}

/// In a well-formed sequence the entry found at any matching index is the
/// entry `entry_at` denotes.
pub proof fn lemma_entry_at(entries: Seq<FsEntry>, i: int)
    requires
        entries_wf(entries),
        0 <= i < entries.len(),
    ensures
        has_key(entries, entries[i].key@),
        entry_at(entries, entries[i].key@) == entries[i],
{
    let k = entries[i].key@;
    assert(has_key(entries, k));
    assert forall|a: int, b: int|
        0 <= a < entries.len() && 0 <= b < entries.len() && (#[trigger] entries[a].key@) == k && (
        #[trigger] entries[b].key@) == k implies a == b by {
        if a < b {
            assert(lex_lt(entries[a].key@, entries[b].key@));
            lemma_lex_lt_irrefl(k);
        }
        if b < a {
            assert(lex_lt(entries[b].key@, entries[a].key@));
            lemma_lex_lt_irrefl(k);
        }
    }
    assert(entry_at(entries, k) == entries[i]);
}

/// Index of the entry carrying `key`, by linear scan.
fn find_entry(entries: &Vec<FsEntry>, key: &str) -> (r: Option<usize>)
    ensures
        r matches Some(i) ==> i < entries@.len() && entries@[i as int].key@ == key@,
        r is None ==> !has_key(entries@, key@),
{
    let n = entries.len();
    let mut i: usize = 0;
    while i < n
        invariant
            i <= n,
            n == entries@.len(),
            forall|j: int| 0 <= j < i ==> (#[trigger] entries@[j].key@) != key@,
        decreases n - i,
    {
        if str_eq(entries[i].key.as_str(), key) {
            return Some(i);
        }
        i = i + 1;
    }
    None
}

/// Inserts `e`, replacing any entry of the same key, keeping the order.
fn upsert_entry(entries: &mut Vec<FsEntry>, e: FsEntry)
    requires
        entries_wf(old(entries)@),
        entry_ok(e),
    ensures
        entries_wf(final(entries)@),
        has_key(final(entries)@, e.key@),
        entry_at(final(entries)@, e.key@) == e,
        forall|k: Seq<char>|
            k != e.key@ ==> #[trigger] has_key(final(entries)@, k) == has_key(old(entries)@, k),
        forall|k: Seq<char>|
            k != e.key@ && has_key(old(entries)@, k) ==> #[trigger] entry_at(final(entries)@, k)
                == entry_at(old(entries)@, k),
        has_key(old(entries)@, e.key@) ==> final(entries)@.len() == old(entries)@.len(),
        !has_key(old(entries)@, e.key@) ==> final(entries)@.len() == old(entries)@.len() + 1,
        exists|i: int|
            0 <= i <= old(entries)@.len() && if has_key(old(entries)@, e.key@) {
                i < old(entries)@.len() && old(entries)@[i].key@ == e.key@ && final(entries)@
                    == old(entries)@.update(i, e)
            } else {
                final(entries)@ == old(entries)@.insert(i, e)
            },
{
    let ghost orig = entries@;
    let n = entries.len();
    let mut i: usize = 0;
    while i < n && str_lt(entries[i].key.as_str(), e.key.as_str())
        invariant
            i <= n,
            n == entries@.len(),
            entries@ == orig,
            forall|j: int| 0 <= j < i ==> lex_lt(#[trigger] entries@[j].key@, e.key@),
        decreases n - i,
    {
        i = i + 1;
    }
    proof {
        // every later key is at or above e.key
        assert forall|j: int| i <= j < orig.len() implies !lex_lt(
            #[trigger] orig[j].key@,
            e.key@,
        ) by {
            if i < orig.len() && j > i as int {
                if lex_lt(orig[j].key@, e.key@) {
                    lemma_lex_lt_trans(orig[i as int].key@, orig[j].key@, e.key@);
                }
            }
        }
    }
    if i < n && str_eq(entries[i].key.as_str(), e.key.as_str()) {
        entries.set(i, e);
        proof {
            let now = entries@;
            assert(now == orig.update(i as int, e));
            assert forall|a: int, b: int| 0 <= a < b < now.len() implies lex_lt(
                #[trigger] now[a].key@,
                #[trigger] now[b].key@,
            ) by {
                assert(orig[a].key@ == now[a].key@ || a == i as int);
                assert(orig[b].key@ == now[b].key@ || b == i as int);
            }
            lemma_entry_at(now, i as int);
            assert forall|k: Seq<char>| k != e.key@ implies #[trigger] has_key(now, k) == has_key(
                orig,
                k,
            ) by {
                if has_key(now, k) {
                    let j = choose|j: int| 0 <= j < now.len() && (#[trigger] now[j].key@) == k;
                    assert(orig[j].key@ == k);
                }
                if has_key(orig, k) {
                    let j = choose|j: int| 0 <= j < orig.len() && (#[trigger] orig[j].key@) == k;
                    assert(now[j].key@ == k);
                }
            }
            assert forall|k: Seq<char>| k != e.key@ && has_key(orig, k) implies #[trigger] entry_at(
                now,
                k,
            ) == entry_at(orig, k) by {
                let j = choose|j: int| 0 <= j < orig.len() && (#[trigger] orig[j].key@) == k;
                lemma_entry_at(orig, j);
                lemma_entry_at(now, j);
            }
        }
    } else {
        proof {
            if has_key(orig, e.key@) {
                let j = choose|j: int| 0 <= j < orig.len() && (#[trigger] orig[j].key@) == e.key@;
                lemma_lex_lt_connex(orig[j].key@, e.key@);
            }
        }
        entries.insert(i, e);
        proof {
            let now = entries@;
            assert(now == orig.insert(i as int, e));
            assert forall|a: int, b: int| 0 <= a < b < now.len() implies lex_lt(
                #[trigger] now[a].key@,
                #[trigger] now[b].key@,
            ) by {
                if a < i as int && b == i as int {
                } else if a == i as int && b > i as int {
                    lemma_lex_lt_connex(e.key@, now[b].key@);
                    assert(now[b] == orig[b - 1]);
                    assert(!lex_lt(now[b].key@, e.key@));
                    if now[b].key@ == e.key@ {
                        assert(has_key(orig, e.key@));
                    }
                } else if a < i as int && b > i as int {
                    assert(now[a] == orig[a] && now[b] == orig[b - 1]);
                } else if a > i as int && b > i as int {
                    assert(now[a] == orig[a - 1] && now[b] == orig[b - 1]);
                }
            }
            lemma_entry_at(now, i as int);
            assert forall|k: Seq<char>| k != e.key@ implies #[trigger] has_key(now, k) == has_key(
                orig,
                k,
            ) by {
                if has_key(now, k) {
                    let j = choose|j: int| 0 <= j < now.len() && (#[trigger] now[j].key@) == k;
                    if j < i as int {
                        assert(orig[j].key@ == k);
                    } else {
                        assert(orig[j - 1].key@ == k);
                    }
                }
                if has_key(orig, k) {
                    let j = choose|j: int| 0 <= j < orig.len() && (#[trigger] orig[j].key@) == k;
                    if j < i as int {
                        assert(now[j].key@ == k);
                    } else {
                        assert(now[j + 1].key@ == k);
                    }
                }
            }
            assert forall|k: Seq<char>| k != e.key@ && has_key(orig, k) implies #[trigger] entry_at(
                now,
                k,
            ) == entry_at(orig, k) by {
                let j = choose|j: int| 0 <= j < orig.len() && (#[trigger] orig[j].key@) == k;
                lemma_entry_at(orig, j);
                if j < i as int {
                    lemma_entry_at(now, j);
                } else {
                    lemma_entry_at(now, j + 1);
                }
            }
        }
    }
}

/// Removes the entry carrying `key`, if any.
fn remove_entry(entries: &mut Vec<FsEntry>, key: &str) -> (removed: bool)
    requires
        entries_wf(old(entries)@),
    ensures
        entries_wf(final(entries)@),
        removed == has_key(old(entries)@, key@),
        !has_key(final(entries)@, key@),
        forall|k: Seq<char>|
            k != key@ ==> #[trigger] has_key(final(entries)@, k) == has_key(old(entries)@, k),
        forall|k: Seq<char>|
            k != key@ && has_key(old(entries)@, k) ==> #[trigger] entry_at(final(entries)@, k)
                == entry_at(old(entries)@, k),
        removed ==> exists|i: int|
            0 <= i < old(entries)@.len() && old(entries)@[i].key@ == key@ && final(entries)@
                == old(entries)@.remove(i),
        !removed ==> final(entries)@ == old(entries)@,
{
    let ghost orig = entries@;
    match find_entry(entries, key) {
        None => {
            proof {
                assert(!has_key(orig, key@));
            }
            false
        },
        Some(i) => {
            entries.remove(i);
            proof {
                let now = entries@;
                assert(now == orig.remove(i as int));
                lemma_entry_at(orig, i as int);
                assert forall|a: int, b: int| 0 <= a < b < now.len() implies lex_lt(
                    #[trigger] now[a].key@,
                    #[trigger] now[b].key@,
                ) by {
                    assert(now[a] == if a < i as int {
                        orig[a]
                    } else {
                        orig[a + 1]
                    });
                    assert(now[b] == if b < i as int {
                        orig[b]
                    } else {
                        orig[b + 1]
                    });
                }
                assert forall|k: Seq<char>| has_key(now, k) implies has_key(orig, k) && k
                    != key@ by {
                    let j = choose|j: int| 0 <= j < now.len() && (#[trigger] now[j].key@) == k;
                    if j < i as int {
                        assert(orig[j].key@ == k);
                        if k == key@ {
                            lemma_lex_lt_irrefl(k);
                        }
                    } else {
                        assert(orig[j + 1].key@ == k);
                        if k == key@ {
                            lemma_lex_lt_irrefl(k);
                        }
                    }
                }
                assert forall|k: Seq<char>| k != key@ && has_key(orig, k) implies has_key(
                    now,
                    k,
                ) by {
                    let j = choose|j: int| 0 <= j < orig.len() && (#[trigger] orig[j].key@) == k;
                    if j < i as int {
                        assert(now[j].key@ == k);
                    } else {
                        assert(j != i as int);
                        assert(now[j - 1].key@ == k);
                    }
                }
                assert forall|k: Seq<char>| k != key@ && has_key(orig, k) implies #[trigger]
                    entry_at(now, k) == entry_at(orig, k) by {
                    let j = choose|j: int| 0 <= j < orig.len() && (#[trigger] orig[j].key@) == k;
                    lemma_entry_at(orig, j);
                    if j < i as int {
                        lemma_entry_at(now, j);
                    } else {
                        lemma_entry_at(now, j - 1);
                    }
                }
            }
            true
        },
    }
}

// ---------------------------------------------------------------------------
// The root store.
// ---------------------------------------------------------------------------

/// Some bucket carries this name.
pub open spec fn has_bucket(buckets: Seq<Bucket>, name: Seq<char>) -> bool {
    exists|i: int| 0 <= i < buckets.len() && (#[trigger] buckets[i].name@) == name
}

/// The storage root: its path, the shared sequencer, and the buckets
/// under it.
#[derive(Debug)]
pub struct FS {
    pub base: String,
    pub seq: crate::sequencing::Sequence,
    pub buckets: Vec<Bucket>,
}

impl FS {
    pub open spec fn wf(self) -> bool {
        &&& forall|i: int| 0 <= i < self.buckets@.len() ==> (#[trigger] self.buckets@[i]).wf()
        &&& forall|i: int|
            0 <= i < self.buckets@.len() ==> spec_valid_bucket(#[trigger] self.buckets@[i].name@)
        &&& forall|i: int, j: int|
            0 <= i < j < self.buckets@.len() ==> (#[trigger] self.buckets@[i].name@) != (
            #[trigger] self.buckets@[j].name@)
    }

    /// An empty root over the current directory.
    pub fn new() -> (r: FS)
        ensures
            r.wf(),
            r.base@ == "."@,
            r.buckets@.len() == 0,
    {
        FS { base: String::from_str("."), seq: crate::sequencing::Sequence { counter: 0 }, buckets: Vec::new() }
    }

    /// Points the root elsewhere.
    pub fn set_base(&mut self, new_base: &str)
        ensures
            final(self).base@ == new_base@,
            final(self).buckets == old(self).buckets,
            final(self).seq == old(self).seq,
    {
        self.base = String::from_str(new_base);
    }

    /// Prepares the root for use. In this model the staging area needs no
    /// setup; the store behind it creates the directory here.
    pub fn initialize(&self) {
    }

    /// See `initialize`.
    pub fn create_staging_directory(&self) {
    }

    /// The shared staging directory's path.
    pub fn get_staging_dir(&self) -> (r: String)
        ensures
            r@ == self.base@ + "/_staging"@,
    {
        let mut s = self.base.clone();
        s.append("/_staging");
        s
    }

    /// The position of the bucket called `name`.
    pub fn bucket_index(&self, name: &str) -> (r: Option<usize>)
        requires
            self.wf(),
        ensures
            r matches Some(i) ==> i < self.buckets@.len() && self.buckets@[i as int].name@
                == name@,
            r is None ==> !has_bucket(self.buckets@, name@),
    {
        let n = self.buckets.len();
        let mut i: usize = 0;
        while i < n
            invariant
                i <= n,
                n == self.buckets@.len(),
                forall|j: int| 0 <= j < i ==> (#[trigger] self.buckets@[j].name@) != name@,
            decreases n - i,
        {
            if str_eq(self.buckets[i].name.as_str(), name) {
                return Some(i);
            }
            i = i + 1;
        }
        None
    }

    /// Creates the bucket called `name`: the name must be acceptable and
    /// still free.
    pub fn make_bucket(&mut self, bucket: &str) -> (r: Result<(), S3FSError>)
        requires
            old(self).wf(),
        ensures
            final(self).wf(),
            final(self).base == old(self).base,
            !spec_valid_bucket(bucket@) ==> (r matches Err(e) && e.kind
                == S3FSErrorKind::InvalidBucketName && final(self).buckets == old(self).buckets),
            spec_valid_bucket(bucket@) && has_bucket(old(self).buckets@, bucket@) ==> (r matches
                Err(e) && e.kind == S3FSErrorKind::BucketAlreadyExists && final(self).buckets
                == old(self).buckets),
            spec_valid_bucket(bucket@) && !has_bucket(old(self).buckets@, bucket@) ==> (r is Ok
                && final(self).buckets@.len() == old(self).buckets@.len() + 1
                && final(self).buckets@.last().name@ == bucket@
                && final(self).buckets@.last().entries@.len() == 0
                && final(self).buckets@.last().staging@.len() == 0 && (forall|i: int|
                0 <= i < old(self).buckets@.len() ==> final(self).buckets@[i] == old(
                    self,
                ).buckets@[i])),
    {
        if !Bucket::valid_bucket(bucket) {
            return Err(
                S3FSError::of_kind_and_message(S3FSErrorKind::InvalidBucketName, bucket),
            );
        }
        match self.bucket_index(bucket) {
            Some(_) => {
                return Err(
                    S3FSError::of_kind_and_message(S3FSErrorKind::BucketAlreadyExists, bucket),
                );
            },
            None => {},
        }
        let created = clamp_millis(crate::clock::now_unix_millis());
        let b = match Bucket::from(bucket, created) {
            Ok(b) => b,
            Err(_) => {
                return Err(S3FSError::of_kind(S3FSErrorKind::InputOutput));
            },
        };
        self.buckets.push(b);
        Ok(())
    }

    /// A read handle on the bucket called `name`, if the name is
    /// acceptable and the bucket stands.
    pub fn get_bucket(&self, name: &str) -> (r: Option<&Bucket>)
        requires
            self.wf(),
        ensures
            r matches Some(b) ==> b.wf() && b.name@ == name@ && spec_valid_bucket(name@) && exists|
                i: int,
            | 0 <= i < self.buckets@.len() && self.buckets@[i] == *b,
            r is None ==> !spec_valid_bucket(name@) || !has_bucket(self.buckets@, name@),
    {
        if !Bucket::valid_bucket(name) {
            return None;
        }
        match self.bucket_index(name) {
            Some(i) => {
                proof {
                    assert(0 <= i < self.buckets@.len() && self.buckets@[i as int]
                        == self.buckets@[i as int]);
                }
                Some(&self.buckets[i])
            },
            None => None,
        }
    }

    /// Every bucket under the root. The staging directory is not among
    /// them: it never enters the collection.
    pub fn get_all_buckets(&self) -> (r: &Vec<Bucket>)
        ensures
            r == &self.buckets,
    {
        &self.buckets
    }
}

// ---------------------------------------------------------------------------
// Filtering sequences of entries.
// ---------------------------------------------------------------------------

/// Extends a filter by one element at the back.
proof fn lemma_filter_push<A>(s: Seq<A>, e: A, pred: spec_fn(A) -> bool)
    ensures
        pred(e) ==> s.push(e).filter(pred) == s.filter(pred).push(e),
        !pred(e) ==> s.push(e).filter(pred) == s.filter(pred),
{
    reveal(Seq::filter);
    assert(s.push(e).drop_last() =~= s);
    if pred(e) {
        assert(s.push(e).filter(pred) =~= s.filter(pred).push(e));
    }
}

/// Extends a character filter by one character at the back.
pub(crate) proof fn lemma_filter_push_char(s: Seq<char>, e: char, pred: spec_fn(char) -> bool)
    ensures
        pred(e) ==> s.push(e).filter(pred) == s.filter(pred).push(e),
        !pred(e) ==> s.push(e).filter(pred) == s.filter(pred),
{
    lemma_filter_push(s, e, pred);
}

/// In a sequence whose first `n` elements refuse `q` and whose rest
/// satisfy it, filtering by `q` is dropping the first `n`.
proof fn lemma_filter_sorted_skip<A>(s: Seq<A>, n: int, q: spec_fn(A) -> bool)
    requires
        0 <= n <= s.len(),
        forall|i: int| 0 <= i < n ==> !q(#[trigger] s[i]),
        forall|i: int| n <= i < s.len() ==> q(#[trigger] s[i]),
    ensures
        s.filter(q) == s.skip(n),
    decreases s.len(),
{
    reveal(Seq::filter);
    if s.len() == 0 {
        assert(s.filter(q) =~= s.skip(n));
    } else if n == s.len() {
        lemma_filter_sorted_skip(s.drop_last(), n - 1, q);
        assert(s.drop_last().skip(n - 1).len() == 0);
        assert(!q(s.last()));
        assert(s.filter(q) =~= s.skip(n));
    } else {
        lemma_filter_sorted_skip(s.drop_last(), n, q);
        assert(q(s.last()));
        assert(s.filter(q) == s.drop_last().filter(q).push(s.last()));
        assert(s.skip(n) =~= s.drop_last().skip(n).push(s.last()));
    }
}

/// Filtering by a conjunction is filtering twice.
proof fn lemma_filter_conj<A>(s: Seq<A>, p: spec_fn(A) -> bool, q: spec_fn(A) -> bool, pq: spec_fn(
    A,
) -> bool)
    requires
        forall|e: A| #[trigger] pq(e) == (p(e) && q(e)),
    ensures
        s.filter(pq) == s.filter(p).filter(q),
    decreases s.len(),
{
    reveal(Seq::filter);
    if s.len() > 0 {
        lemma_filter_conj(s.drop_last(), p, q, pq);
        let e = s.last();
        assert(pq(e) == (p(e) && q(e)));
        if p(e) {
            assert(s.filter(p) == s.drop_last().filter(p).push(e));
            assert(s.filter(p).drop_last() =~= s.drop_last().filter(p));
            assert(s.filter(p).last() == e);
        }
    }
}

/// `lemma_filter_sorted_skip`, for sequences of entries.
pub(crate) proof fn lemma_filter_sorted_skip_entries(
    s: Seq<FsEntry>,
    n: int,
    q: spec_fn(FsEntry) -> bool,
)
    requires
        0 <= n <= s.len(),
        forall|i: int| 0 <= i < n ==> !q(#[trigger] s[i]),
        forall|i: int| n <= i < s.len() ==> q(#[trigger] s[i]),
    ensures
        s.filter(q) == s.skip(n),
{
    lemma_filter_sorted_skip(s, n, q);
}

/// `lemma_filter_conj`, for sequences of entries.
pub(crate) proof fn lemma_filter_conj_entries(
    s: Seq<FsEntry>,
    p: spec_fn(FsEntry) -> bool,
    q: spec_fn(FsEntry) -> bool,
    pq: spec_fn(FsEntry) -> bool,
)
    requires
        forall|e: FsEntry| #[trigger] pq(e) == (p(e) && q(e)),
    ensures
        s.filter(pq) == s.filter(p).filter(q),
{
    lemma_filter_conj(s, p, q, pq);
}

// ---------------------------------------------------------------------------
// Name validation.
// ---------------------------------------------------------------------------

/// Characters refused anywhere in an object key.
pub open spec fn bad_key_char(c: char) -> bool {
    c == '\\' || c == '>' || c == '<' || c == '|' || c == ':' || c == '&' || c == '$'
}

/// A key the store accepts: no refused characters, no dot-segments or empty
/// segments, no leading slash, and not ending in the sidecar suffix.
pub open spec fn spec_valid_key(key: Seq<char>) -> bool {
    &&& forall|i: int| 0 <= i < key.len() ==> !bad_key_char(#[trigger] key[i])
    &&& !crate::text::has_sub(key, "/./"@)
    &&& !crate::text::has_sub(key, "/../"@)
    &&& !crate::text::has_sub(key, "//"@)
    &&& !crate::text::is_prefix_of("/"@, key)
    &&& !crate::text::is_suffix_of("@@META@@"@, key)
}

/// Characters a bucket name may hold.
pub open spec fn bucket_name_char(c: char) -> bool {
    ||| ('a' as int) <= (c as int) <= ('z' as int)
    ||| ('A' as int) <= (c as int) <= ('Z' as int)
    ||| ('0' as int) <= (c as int) <= ('9' as int)
    ||| c == '.'
    ||| c == '-'
    ||| c == '_'
}

/// A bucket name the store accepts: 1 to 255 characters of
/// `[A-Za-z0-9._-]`, and not the reserved staging directory.
pub open spec fn spec_valid_bucket(name: Seq<char>) -> bool {
    &&& name != "_staging"@
    &&& 1 <= name.len() <= 255
    &&& forall|i: int| 0 <= i < name.len() ==> bucket_name_char(#[trigger] name[i])
}

/// The sidecar path of a key.
pub open spec fn spec_meta_key(key: Seq<char>) -> Seq<char> {
    key + "@@META@@"@
}

/// Appends the sidecar suffix to a key.
pub fn meta_key_for(key: &str) -> (r: String)
    ensures
        r@ == spec_meta_key(key@),
{
    let mut s = String::from_str(key);
    s.append("@@META@@");
    s
}

/// Clamps a timestamp below the supported range's end.
pub fn clamp_millis(millis: u64) -> (r: u64)
    ensures
        r < YEAR_9999_MILLIS,
        millis < YEAR_9999_MILLIS ==> r == millis,
{
    if millis >= YEAR_9999_MILLIS {
        YEAR_9999_MILLIS - 1
    } else {
        millis
    }
}

/// `a` names a directory level strictly above `key`.
pub open spec fn ancestor_of(a: Seq<char>, key: Seq<char>) -> bool {
    0 < a.len() < key.len() && key.subrange(0, a.len() as int) == a && key[a.len() as int] == '/'
}

/// The directory tree refuses the renames that would publish `key`: the
/// key or its sidecar path is a directory, a parent level is a file, or
/// the key names the bucket root itself.
pub open spec fn save_blocked(entries: Seq<FsEntry>, key: Seq<char>) -> bool {
    ||| key.len() == 0
    ||| exists|a: Seq<char>|
        ancestor_of(a, key) && has_key(entries, a) && (#[trigger] entry_at(entries, a)).kind
            == FileType::File
    ||| has_key(entries, key) && entry_at(entries, key).kind == FileType::Directory
    ||| has_key(entries, spec_meta_key(key)) && entry_at(entries, spec_meta_key(key)).kind
        == FileType::Directory
}

/// What deleting `key` leaves behind: its sidecar gone, the data file
/// (or an emptied directory standing at the key) gone, the emptied
/// parent directory gone best-effort, and nothing else changed.
pub open spec fn deleted_object(b0: Bucket, b1: Bucket, key: Seq<char>) -> bool {
    let before = b0.entries@;
    let now = b1.entries@;
    let mk = spec_meta_key(key);
    let ls = crate::text::last_slash(key);
    let p = key.take(ls);
    &&& !has_key(now, mk)
    &&& (has_key(before, key) && entry_at(before, key).kind == FileType::File) ==> !has_key(
        now,
        key,
    )
    &&& (has_key(before, key) && entry_at(before, key).kind == FileType::Directory) ==> has_key(
        now,
        key,
    ) == !dir_childless(before, key)
    &&& !has_key(before, key) ==> !has_key(now, key)
    &&& has_key(now, key) ==> entry_at(now, key) == entry_at(before, key)
    &&& ls < 1 ==> forall|k: Seq<char>|
        k != key && k != mk ==> #[trigger] has_key(now, k) == has_key(before, k) && (has_key(
            before,
            k,
        ) ==> entry_at(now, k) == entry_at(before, k))
    &&& ls >= 1 ==> {
        &&& has_key(now, p) == (has_key(before, p) && !(entry_at(before, p).kind
            == FileType::Directory && dir_childless(now, p)))
        &&& (has_key(now, p) ==> entry_at(now, p) == entry_at(before, p))
        &&& forall|k: Seq<char>|
            k != key && k != mk && k != p ==> #[trigger] has_key(now, k) == has_key(before, k)
                && (has_key(before, k) ==> entry_at(now, k) == entry_at(before, k))
    }
}

/// No entry lies below the directory `d`.
pub open spec fn dir_childless(entries: Seq<FsEntry>, d: Seq<char>) -> bool {
    forall|i: int|
        0 <= i < entries.len() ==> !crate::text::is_prefix_of(
            d + "/"@,
            #[trigger] entries[i].key@,
        )
}

/// Does any entry lie below the directory `d`?
fn has_child(entries: &Vec<FsEntry>, d: &str) -> (r: bool)
    ensures
        r == !dir_childless(entries@, d@),
{
    let mut pref = String::from_str(d);
    pref.append("/");
    let n = entries.len();
    let mut i: usize = 0;
    while i < n
        invariant
            i <= n,
            n == entries@.len(),
            pref@ == d@ + "/"@,
            forall|j: int|
                0 <= j < i ==> !crate::text::is_prefix_of(d@ + "/"@, #[trigger] entries@[j].key@),
        decreases n - i,
    {
        if crate::text::str_starts_with(entries[i].key.as_str(), pref.as_str()) {
            return true;
        }
        i = i + 1;
    }
    false
}

/// Copies a byte vector.
fn clone_bytes(v: &Vec<u8>) -> (r: Vec<u8>)
    ensures
        r@ == v@,
{
    let r = v.clone();
    proof {
        assert forall|i: int| 0 <= i < v@.len() implies r@[i] == v@[i] by {}
        assert(r@ =~= v@);
    }
    r
}

/// A located node of a bucket, detached from it: what the handlers and
/// the listings carry around.
#[derive(Debug)]
pub struct S3Object {
    pub key: String,
    pub kind: FileType,
    pub data: Vec<u8>,
    pub meta_text: Option<String>,
    pub modified_millis: u64,
}

/// What publishing an object at `key` leaves behind: the data file, its
/// sidecar, the parent directories it needed, and nothing else changed.
pub open spec fn published(
    before: Seq<FsEntry>,
    now: Seq<FsEntry>,
    key: Seq<char>,
    d: Seq<u8>,
    etag: Seq<char>,
    size: nat,
) -> bool {
    let mk = spec_meta_key(key);
    &&& has_key(now, key) && entry_at(now, key).kind == FileType::File && entry_at(
        now,
        key,
    ).data@ == d
    &&& has_key(now, mk) && entry_at(now, mk).kind == FileType::File && entry_at(now, mk).text@
        == spec_meta_json(etag, size)
    &&& forall|a: Seq<char>|
        ancestor_of(a, key) ==> #[trigger] has_key(now, a) && (if has_key(before, a) {
            entry_at(now, a) == entry_at(before, a)
        } else {
            entry_at(now, a).kind == FileType::Directory
        })
    &&& forall|k: Seq<char>|
        k != key && k != mk && !ancestor_of(k, key) ==> #[trigger] has_key(now, k) == has_key(
            before,
            k,
        ) && (has_key(before, k) ==> entry_at(now, k) == entry_at(before, k))
}

// ---------------------------------------------------------------------------
// Multipart staging names.
// ---------------------------------------------------------------------------

/// The staged name of part `n` of an upload.
pub open spec fn spec_part_key(id: Seq<char>, n: nat) -> Seq<char> {
    id + "_"@ + crate::text::dec_digits(n)
}

/// Renders the staged name of part `n`.
pub fn part_name(upload_id: &str, n: u64) -> (r: String)
    ensures
        r@ == spec_part_key(upload_id@, n as nat),
{
    let mut s = String::from_str(upload_id);
    s.append("_");
    let num = crate::text::u64_to_string(n);
    s.append(num.as_str());
    proof {
        assert(s@ =~= spec_part_key(upload_id@, n as nat));
    }
    s
}

/// Part names of one upload differ whenever the part numbers do.
proof fn lemma_part_key_injective(id: Seq<char>, a: nat, b: nat)
    ensures
        spec_part_key(id, a) == spec_part_key(id, b) ==> a == b,
{
    reveal_strlit("_");
    crate::text::lemma_dec_digits_wf(a);
    crate::text::lemma_dec_digits_wf(b);
    if spec_part_key(id, a) == spec_part_key(id, b) {
        let da = crate::text::dec_digits(a);
        let db = crate::text::dec_digits(b);
        assert(spec_part_key(id, a).len() == (id + "_"@).len() + da.len());
        assert(spec_part_key(id, b).len() == (id + "_"@).len() + db.len());
        assert(da.len() == db.len());
        assert(da =~= db) by {
            assert forall|t: int| 0 <= t < da.len() implies da[t] == db[t] by {
                assert(spec_part_key(id, a)[id.len() + 1 + t] == da[t]);
                assert(spec_part_key(id, b)[id.len() + 1 + t] == db[t]);
            }
        }
        assert(crate::text::dec_val(da) == a && crate::text::dec_val(db) == b);
    }
}

/// A staged part name never carries the sidecar suffix.
proof fn lemma_part_key_not_meta(id: Seq<char>, a: nat, k: Seq<char>)
    ensures
        spec_part_key(id, a) != spec_meta_key(k),
{
    reveal_strlit("@@META@@");
    crate::text::lemma_dec_digits_wf(a);
    let pk = spec_part_key(id, a);
    let mk = spec_meta_key(k);
    if pk == mk {
        assert(pk.last() == crate::text::dec_digits(a).last());
        assert(crate::text::is_digit(crate::text::dec_digits(a).last()));
        assert(mk.last() == '@');
    }
}

/// Appending the sidecar suffix is injective.
proof fn lemma_meta_key_injective(x: Seq<char>, y: Seq<char>)
    ensures
        spec_meta_key(x) == spec_meta_key(y) ==> x == y,
{
    reveal_strlit("@@META@@");
    if spec_meta_key(x) == spec_meta_key(y) {
        assert(spec_meta_key(x).len() == x.len() + "@@META@@"@.len());
        assert(spec_meta_key(y).len() == y.len() + "@@META@@"@.len());
        assert(x.len() == y.len());
        assert(x =~= y) by {
            assert forall|t: int| 0 <= t < x.len() implies x[t] == y[t] by {
                assert(spec_meta_key(x)[t] == x[t]);
                assert(spec_meta_key(y)[t] == y[t]);
            }
        }
    }
}

/// The bytes of parts `1..=n` of an upload, in part order.
pub open spec fn concat_parts(staging: Seq<FsEntry>, id: Seq<char>, n: nat) -> Seq<u8>
    decreases n,
{
    if n == 0 {
        Seq::empty()
    } else {
        concat_parts(staging, id, (n - 1) as nat) + entry_at(staging, spec_part_key(id, n)).data@
    }
}

/// `k` is a name that consuming parts `1..=n` removes from the staging
/// directory: a part file or its sidecar.
pub open spec fn removed_part_name(id: Seq<char>, n: nat, k: Seq<char>) -> bool {
    exists|j: nat|
        #![trigger spec_part_key(id, j)]
        1 <= j <= n && (k == spec_part_key(id, j) || k == spec_meta_key(spec_part_key(id, j)))
}

/// What completing an upload leaves behind when `n` parts stood staged:
/// the concatenation published at `key`, the staged files consumed, the
/// rest untouched.
pub open spec fn merged_upload(b0: Bucket, b1: Bucket, key: Seq<char>, id: Seq<char>, n: nat) -> bool {
    let d = concat_parts(b0.staging@, id, n);
    &&& (forall|j: nat| 1 <= j <= n ==> #[trigger] has_key(b0.staging@, spec_part_key(id, j)))
    &&& !has_key(b0.staging@, spec_part_key(id, (n + 1) as nat))
    &&& published(b0.entries@, b1.entries@, key, d, md5_hex_of(d), d.len())
    &&& staging_frame(b0.staging@, b1.staging@, id, n)
    &&& forall|j: nat|
        1 <= j <= n ==> !has_key(b1.staging@, #[trigger] spec_part_key(id, j)) && !has_key(
            b1.staging@,
            spec_meta_key(spec_part_key(id, j)),
        )
}

/// Staging holds exactly what it held, outside the names that consuming
/// parts `1..=n` removes.
pub open spec fn staging_frame(
    staging0: Seq<FsEntry>,
    now: Seq<FsEntry>,
    id: Seq<char>,
    n: nat,
) -> bool {
    forall|k: Seq<char>|
        !removed_part_name(id, n, k) ==> #[trigger] has_key(now, k) == has_key(staging0, k) && (
        has_key(staging0, k) ==> entry_at(now, k) == entry_at(staging0, k))
}

/// The run of consecutively missing staged parts ending at number `n`.
pub open spec fn miss_streak(staging: Seq<FsEntry>, id: Seq<char>, n: nat) -> nat
    decreases n,
{
    if n == 0 {
        0
    } else if has_key(staging, spec_part_key(id, n)) {
        0
    } else {
        (1 + miss_streak(staging, id, (n - 1) as nat)) as nat
    }
}

/// What aborting an upload leaves behind when the probe stopped at `l`:
/// parts one to `l` and their sidecars gone, the rest untouched. The
/// probe counts up from one and gives up only after ten consecutive
/// missing part numbers, or at the hard cap.
pub open spec fn cleaned_upload(b0: Bucket, b1: Bucket, id: Seq<char>, l: nat) -> bool {
    &&& 10 <= l <= 1000
    &&& (l < 1000 ==> miss_streak(b0.staging@, id, l) >= 10)
    &&& (forall|m: nat| 10 <= m < l ==> #[trigger] miss_streak(b0.staging@, id, m) < 10)
    &&& staging_frame(b0.staging@, b1.staging@, id, l)
    &&& forall|j: nat|
        1 <= j <= l ==> !has_key(b1.staging@, #[trigger] spec_part_key(id, j)) && !has_key(
            b1.staging@,
            spec_meta_key(spec_part_key(id, j)),
        )
}

// ---------------------------------------------------------------------------
// Listing.
// ---------------------------------------------------------------------------

/// A prefix with its trailing slashes dropped, as the store resolves it.
pub open spec fn strip_slashes(s: Seq<char>) -> Seq<char>
    decreases s.len(),
{
    if s.len() > 0 && s.last() == '/' {
        strip_slashes(s.drop_last())
    } else {
        s
    }
}

/// Drops the trailing slashes of a prefix.
pub fn strip_trailing_slashes(s: &str) -> (r: String)
    ensures
        r@ == strip_slashes(s@),
{
    let len = s.unicode_len();
    let mut end: usize = len;
    proof {
        assert(s@.take(len as int) =~= s@);
    }
    while end > 0 && s.get_char(end - 1) == '/'
        invariant
            end <= len,
            len == s@.len(),
            strip_slashes(s@) == strip_slashes(s@.take(end as int)),
        decreases end,
    {
        proof {
            assert(s@.take(end as int).last() == s@[end - 1]);
            assert(s@.take(end as int).drop_last() =~= s@.take(end - 1));
        }
        end = end - 1;
    }
    proof {
        if end > 0 {
            assert(s@.take(end as int).last() == s@[end - 1]);
        }
        assert(strip_slashes(s@.take(end as int)) == s@.take(end as int));
    }
    crate::text::substr_string(s, 0, end)
}

/// The key names a sidecar.
pub open spec fn meta_suffixed(k: Seq<char>) -> bool {
    crate::text::is_suffix_of("@@META@@"@, k)
}

/// A sidecar file stands beside the key: the visibility gate.
pub open spec fn has_meta_at(entries: Seq<FsEntry>, k: Seq<char>) -> bool {
    has_key(entries, spec_meta_key(k)) && entry_at(entries, spec_meta_key(k)).kind
        == FileType::File
}

/// The prefix resolves to a directory (the bucket root counts).
pub open spec fn dir_mode(entries: Seq<FsEntry>, p: Seq<char>) -> bool {
    p.len() == 0 || (has_key(entries, p) && entry_at(entries, p).kind == FileType::Directory)
}

/// `k` lies directly inside the directory `p`.
pub open spec fn child_of(k: Seq<char>, p: Seq<char>) -> bool {
    if p.len() == 0 {
        k.len() > 0 && crate::text::last_slash(k) == -1
    } else {
        crate::text::is_prefix_of(p + "/"@, k) && crate::text::last_slash(k) == p.len()
    }
}

/// What the deep, delimiter-less listing keeps: visible data files whose
/// key matches the prefix — everything below a prefix that names a
/// directory, and everything extending it otherwise — past the cursor.
pub open spec fn deep_keep(entries: Seq<FsEntry>, p: Seq<char>, after: Seq<char>, e: FsEntry) -> bool {
    &&& e.kind == FileType::File
    &&& !meta_suffixed(e.key@)
    &&& has_meta_at(entries, e.key@)
    &&& lex_lt(after, e.key@)
    &&& if dir_mode(entries, p) {
        p.len() == 0 || crate::text::is_prefix_of(p + "/"@, e.key@)
    } else {
        crate::text::is_prefix_of(p, e.key@)
    }
}

/// The deep listing's selection, in stored (ascending key) order.
pub open spec fn deep_selection(entries: Seq<FsEntry>, p: Seq<char>, after: Seq<char>) -> Seq<
    FsEntry,
> {
    entries.filter(|e: FsEntry| deep_keep(entries, p, after, e))
}

/// What the shallow, delimiter `/` listing keeps: the prefix directory
/// itself, its direct children (directories as common prefixes, visible
/// files as contents), or the prefix's siblings, past the cursor.
pub open spec fn short_keep(entries: Seq<FsEntry>, p: Seq<char>, after: Seq<char>, e: FsEntry) -> bool {
    &&& lex_lt(after, e.key@)
    &&& if dir_mode(entries, p) {
        ||| (p.len() > 0 && e.key@ == p && e.kind == FileType::Directory)
        ||| (child_of(e.key@, p) && !meta_suffixed(e.key@) && short_keepable(entries, e))
    } else {
        &&& crate::text::is_prefix_of(p, e.key@)
        &&& crate::text::last_slash(e.key@) == crate::text::last_slash(p)
        &&& !meta_suffixed(e.key@)
        &&& short_keepable(entries, e)
    }
}

/// Directories always show; files show when their sidecar stands.
pub open spec fn short_keepable(entries: Seq<FsEntry>, e: FsEntry) -> bool {
    e.kind == FileType::Directory || (e.kind == FileType::File && has_meta_at(entries, e.key@))
}

/// The shallow listing's selection, in stored (ascending key) order.
pub open spec fn short_selection(entries: Seq<FsEntry>, p: Seq<char>, after: Seq<char>) -> Seq<
    FsEntry,
> {
    entries.filter(|e: FsEntry| short_keep(entries, p, after, e))
}

proof fn lemma_filter_entry_ok(entries: Seq<FsEntry>, pred: spec_fn(FsEntry) -> bool, t: int)
    requires
        forall|i: int| 0 <= i < entries.len() ==> entry_ok(#[trigger] entries[i]),
        0 <= t < entries.filter(pred).len(),
    ensures
        entry_ok(entries.filter(pred)[t]),
    decreases entries.len(),
{
    reveal(Seq::filter);
    if entries.len() > 0 {
        let init = entries.drop_last();
        assert forall|i: int| 0 <= i < init.len() implies entry_ok(#[trigger] init[i]) by {
            assert(init[i] == entries[i]);
        }
        if pred(entries.last()) {
            if t < entries.filter(pred).len() - 1 {
                lemma_filter_entry_ok(init, pred, t);
                assert(entries.filter(pred)[t] == init.filter(pred)[t]);
            } else {
                assert(entries.filter(pred)[t] == entries.last());
            }
        } else {
            lemma_filter_entry_ok(init, pred, t);
        }
    }
}

/// A deep selection holds only well-formed entries.
pub proof fn lemma_deep_selection_entry_ok(
    entries: Seq<FsEntry>,
    p: Seq<char>,
    after: Seq<char>,
    t: int,
)
    requires
        entries_wf(entries),
        0 <= t < deep_selection(entries, p, after).len(),
    ensures
        entry_ok(deep_selection(entries, p, after)[t]),
{
    lemma_filter_entry_ok(entries, |e: FsEntry| deep_keep(entries, p, after, e), t);
}

/// A shallow selection holds only well-formed entries.
pub proof fn lemma_short_selection_entry_ok(
    entries: Seq<FsEntry>,
    p: Seq<char>,
    after: Seq<char>,
    t: int,
)
    requires
        entries_wf(entries),
        0 <= t < short_selection(entries, p, after).len(),
    ensures
        entry_ok(short_selection(entries, p, after)[t]),
{
    lemma_filter_entry_ok(entries, |e: FsEntry| short_keep(entries, p, after, e), t);
}

/// The handle `o` carries the entry `e` and its sidecar text.
pub open spec fn obj_rel(entries: Seq<FsEntry>, e: FsEntry, o: S3Object) -> bool {
    &&& o.key@ == e.key@
    &&& o.kind == e.kind
    &&& o.data@ == e.data@
    &&& o.modified_millis == e.modified_millis
    &&& (o.meta_text is Some) == has_meta_at(entries, e.key@)
    &&& (o.meta_text matches Some(t) ==> t@ == entry_at(entries, spec_meta_key(e.key@)).text@)
}

/// The etag a sidecar text records, if the text is a well-formed record.
pub open spec fn spec_sidecar_etag(t: Seq<char>) -> Seq<char> {
    if exists|p: (Seq<char>, nat)|
        crate::meta::no_quote(p.0) && p.1 <= usize::MAX as nat && t == spec_meta_json(p.0, p.1) {
        (choose|p: (Seq<char>, nat)|
            crate::meta::no_quote(p.0) && p.1 <= usize::MAX as nat && t == spec_meta_json(
                p.0,
                p.1,
            )).0
    } else {
        Seq::empty()
    }
}

/// The etag an object handle's sidecar records; empty without one.
pub open spec fn spec_obj_etag(o: S3Object) -> Seq<char> {
    match o.meta_text {
        Option::None => Seq::empty(),
        Option::Some(t) => spec_sidecar_etag(t@),
    }
}

/// The etag the object at `key` reports: what its sidecar records, the
/// empty string without a well-formed sidecar.
pub open spec fn spec_obj_etag_of_entry(entries: Seq<FsEntry>, key: Seq<char>) -> Seq<char> {
    if has_meta_at(entries, key) {
        spec_sidecar_etag(entry_at(entries, spec_meta_key(key)).text@)
    } else {
        Seq::empty()
    }
}

/// A key rendered as a common prefix: with exactly one trailing slash.
pub open spec fn with_trailing_slash(k: Seq<char>) -> Seq<char> {
    if k.len() > 0 && k.last() == '/' {
        k
    } else {
        k.push('/')
    }
}

/// The `Contents` element of a listing.
pub open spec fn spec_contents_xml(
    key: Seq<char>,
    lm: Seq<char>,
    etag: Seq<char>,
    size: nat,
) -> Seq<char> {
    "<Contents>\n        <Key>"@ + key + "</Key>\n        <LastModified>"@ + lm
        + "</LastModified>\n        <ETag>\""@ + etag + "\"</ETag>\n        <Size>"@
        + crate::text::dec_digits(size) + "</Size>\n        <StorageClass>STANDARD</StorageClass>\n      </Contents>"@
}

/// The `CommonPrefixes` element of a shallow listing.
pub open spec fn spec_common_prefix_xml(key: Seq<char>) -> Seq<char> {
    "<CommonPrefixes><Prefix>"@ + key + "</Prefix></CommonPrefixes>"@
}

/// How one listed node renders into the listing body.
pub open spec fn spec_obj_xml(o: S3Object) -> Seq<char> {
    if o.kind == FileType::Directory {
        spec_common_prefix_xml(with_trailing_slash(o.key@))
    } else {
        spec_contents_xml(
            o.key@,
            crate::clock::iso8601_utc_of(o.modified_millis),
            spec_obj_etag(o),
            o.data@.len(),
        )
    }
}

impl S3Object {
    pub fn kind(&self) -> (r: &FileType)
        ensures
            r == &self.kind,
    {
        &self.kind
    }

    /// The object's bytes, refused beyond the whole-read cap.
    pub fn read_as_bytes(&self) -> (r: Result<Vec<u8>, S3FSError>)
        ensures
            self.data@.len() > 10485760 ==> (r matches Err(e) && e.kind
                == S3FSErrorKind::ObjectTooLarge),
            self.data@.len() <= 10485760 ==> (r matches Ok(d) && d@ == self.data@),
    {
        if self.data.len() > 10 * 1024 * 1024 {
            return Err(
                S3FSError::of_kind_and_message(
                    S3FSErrorKind::ObjectTooLarge,
                    "Object larger than 10MiB can't be read as a whole!",
                ),
            );
        }
        Ok(clone_bytes(&self.data))
    }

    /// The object's bytes as text: refused beyond the whole-read cap,
    /// decoded exactly when they are valid UTF-8; ASCII content reads
    /// back character for character.
    pub fn read_as_string(&self) -> (r: Result<String, S3FSError>)
        ensures
            self.data@.len() > 10485760 ==> (r matches Err(e) && e.kind
                == S3FSErrorKind::ObjectTooLarge),
            self.data@.len() <= 10485760 ==> {
                &&& (r is Ok) == vstd::utf8::valid_utf8(self.data@)
                &&& (r matches Ok(s) ==> vstd::utf8::encode_utf8(s@) == self.data@)
                &&& (r matches Err(e) ==> e.kind == S3FSErrorKind::InputOutput)
            },
            (self.data@.len() <= 10485760 && (forall|i: int|
                0 <= i < self.data@.len() ==> self.data@[i] < 128)) ==> (r matches Ok(s) && s@
                == self.data@.map_values(|b: u8| b as char)),
    {
        let bytes = match self.read_as_bytes() {
            Ok(b) => b,
            Err(e) => {
                return Err(e);
            },
        };
        match crate::text::bytes_to_string(bytes) {
            Some(s) => Ok(s),
            None => Err(S3FSError::of_kind(S3FSErrorKind::InputOutput)),
        }
    }

    pub fn is_dir(&self) -> (r: bool)
        ensures
            r == (self.kind == FileType::Directory),
    {
        matches!(self.kind, FileType::Directory)
    }

    pub fn is_file(&self) -> (r: bool)
        ensures
            r == (self.kind == FileType::File),
    {
        matches!(self.kind, FileType::File)
    }

    pub fn is_present(&self) -> (r: bool)
        ensures
            r == (self.kind != FileType::Uninitialized),
    {
        !matches!(self.kind, FileType::Uninitialized)
    }

    pub fn len(&self) -> (r: Result<u64, S3FSError>)
        ensures
            r matches Ok(n) && n == self.data@.len(),
    {
        Ok(self.data.len() as u64)
    }

    /// The sidecar as a handle of its own: a file when it stands, an
    /// uninitialized node when it does not.
    pub fn metafile(&self) -> (r: S3Object)
        ensures
            r.key@ == spec_meta_key(self.key@),
            (r.kind == FileType::File) == (self.meta_text is Some),
            self.meta_text is None ==> r.kind == FileType::Uninitialized,
    {
        let kind = match &self.meta_text {
            Some(_) => FileType::File,
            None => FileType::Uninitialized,
        };
        S3Object {
            key: meta_key_for(self.key.as_str()),
            kind,
            data: Vec::new(),
            meta_text: None,
            modified_millis: self.modified_millis,
        }
    }

    pub fn has_meta(&self) -> (r: bool)
        ensures
            r == (self.meta_text is Some),
    {
        self.metafile().is_file()
    }

    /// The etag the sidecar records.
    pub fn checksum(&self) -> (r: Result<String, S3FSError>)
        ensures
            r matches Ok(et) ==> self.meta_text is Some && et@ == spec_obj_etag(*self),
            self.meta_text is None ==> r is Err,
            (self.meta_text matches Some(t) && (exists|e: Seq<char>, n: nat|
                crate::meta::no_quote(e) && n <= usize::MAX as nat && t@ == spec_meta_json(
                    e,
                    n,
                ))) ==> r is Ok,
    {
        let t = match &self.meta_text {
            Some(t) => t,
            None => {
                return Err(S3FSError::of_kind(S3FSErrorKind::InvalidMeta));
            },
        };
        match crate::meta::parse_meta(t.as_str()) {
            Ok(m) => {
                proof {
                    let ghost tv = t@;
                    let p0 = (m.etag@, m.size as nat);
                    assert(crate::meta::no_quote(p0.0) && p0.1 <= usize::MAX as nat && tv
                        == spec_meta_json(p0.0, p0.1));
                    let q = choose|p: (Seq<char>, nat)|
                        crate::meta::no_quote(p.0) && p.1 <= usize::MAX as nat && tv
                            == spec_meta_json(p.0, p.1);
                    crate::meta::lemma_meta_json_injective(q.0, q.1, m.etag@, m.size as nat);
                }
                Ok(m.etag)
            },
            Err(e) => {
                proof {
                    let ghost tv = t@;
                    if exists|p: (Seq<char>, nat)|
                        crate::meta::no_quote(p.0) && p.1 <= usize::MAX as nat && tv
                            == spec_meta_json(p.0, p.1) {
                        let q = choose|p: (Seq<char>, nat)|
                            crate::meta::no_quote(p.0) && p.1 <= usize::MAX as nat && tv
                                == spec_meta_json(p.0, p.1);
                        assert(false);
                    }
                }
                Err(e)
            },
        }
    }

    /// The modification time, rendered ISO-8601.
    pub fn last_modified_formatted(&self) -> (r: Result<String, S3FSError>)
        requires
            self.modified_millis < YEAR_9999_MILLIS,
        ensures
            r matches Ok(s) && s@ == crate::clock::iso8601_utc_of(self.modified_millis),
    {
        Ok(crate::clock::format_iso8601_utc(self.modified_millis))
    }

    pub fn object_key(&self) -> (r: &str)
        ensures
            r@ == self.key@,
    {
        self.key.as_str()
    }

    /// The last path segment of the key.
    pub fn get_short_name(&self) -> (r: String)
        ensures
            r@ == self.key@.subrange(
                crate::text::last_slash(self.key@) + 1,
                self.key@.len() as int,
            ),
    {
        proof {
            crate::text::lemma_last_slash_bounds(self.key@);
        }
        let len = self.key.as_str().unicode_len();
        match crate::text::find_last_slash(self.key.as_str()) {
            Some(i) => crate::text::substr_string(self.key.as_str(), i + 1, len),
            None => crate::text::substr_string(self.key.as_str(), 0, len),
        }
    }

    /// The key, percent-encoded for a listing.
    pub fn object_key_encoded(&self) -> (r: String)
        ensures
            r@ == crate::urlenc::url_encoded_of(self.key@),
    {
        crate::urlenc::url_encode(self.key.as_str())
    }

    pub fn full_path(&self) -> (r: Option<String>)
        ensures
            r matches Some(s) && s@ == self.key@,
    {
        Some(self.key.clone())
    }

    pub fn path(&self) -> (r: &String)
        ensures
            r@ == self.key@,
    {
        &self.key
    }

    /// Renders the node for a listing body: a `Contents` element for a
    /// file, a `CommonPrefixes` element for a directory.
    pub fn format(&self) -> (r: String)
        requires
            self.modified_millis < YEAR_9999_MILLIS,
        ensures
            r@ == spec_obj_xml(*self),
    {
        if matches!(self.kind, FileType::Directory) {
            let mut object_key = self.key.clone();
            let len = object_key.unicode_len();
            let needs_slash = if len == 0 {
                true
            } else {
                object_key.as_str().get_char(len - 1) != '/'
            };
            if needs_slash {
                crate::text::push_char(&mut object_key, '/');
            }
            let mut s = String::from_str("<CommonPrefixes><Prefix>");
            s.append(object_key.as_str());
            s.append("</Prefix></CommonPrefixes>");
            proof {
                assert(s@ =~= spec_obj_xml(*self));
            }
            return s;
        }
        let lm = match self.last_modified_formatted() {
            Ok(s) => s,
            Err(_) => String::new(),
        };
        let etag = match self.checksum() {
            Ok(e) => e,
            Err(_) => String::new(),
        };
        proof {
            assert(etag@ == spec_obj_etag(*self));
        }
        let size_str = crate::text::usize_to_string(self.data.len());
        let mut s = String::from_str("<Contents>\n        <Key>");
        s.append(self.key.as_str());
        s.append("</Key>\n        <LastModified>");
        s.append(lm.as_str());
        s.append("</LastModified>\n        <ETag>\"");
        s.append(etag.as_str());
        s.append("\"</ETag>\n        <Size>");
        s.append(size_str.as_str());
        s.append("</Size>\n        <StorageClass>STANDARD</StorageClass>\n      </Contents>");
        proof {
            assert(s@ =~= spec_obj_xml(*self));
        }
        s
    }
}

// ---------------------------------------------------------------------------
// The bucket.
// ---------------------------------------------------------------------------

/// The view of one bucket directory: its name, its creation time, every
/// node under it, and the staged multipart files it can see.
#[derive(Debug)]
pub struct Bucket {
    pub name: String,
    pub created_millis: u64,
    pub entries: Vec<FsEntry>,
    pub staging: Vec<FsEntry>,
}

impl Bucket {
    pub open spec fn wf(self) -> bool {
        &&& entries_wf(self.entries@)
        &&& entries_wf(self.staging@)
        &&& self.created_millis < YEAR_9999_MILLIS
    }

    /// Is `name` usable as a bucket name?
    pub fn valid_bucket(name: &str) -> (r: bool)
        ensures
            r == spec_valid_bucket(name@),
    {
        if str_eq(name, "_staging") {
            return false;
        }
        let len = name.unicode_len();
        if len < 1 || len > 255 {
            return false;
        }
        let mut i: usize = 0;
        while i < len
            invariant
                i <= len,
                len == name@.len(),
                forall|j: int| 0 <= j < i ==> bucket_name_char(#[trigger] name@[j]),
            decreases len - i,
        {
            let c = name.get_char(i);
            let u = c as u32;
            let ok = (97 <= u && u <= 122) || (65 <= u && u <= 90) || (48 <= u && u <= 57) || c
                == '.' || c == '-' || c == '_';
            if !ok {
                assert(!bucket_name_char(name@[i as int]));
                return false;
            }
            i = i + 1;
        }
        true
    }

    /// Is `key` usable as an object key?
    pub fn valid_key(key: &str) -> (r: bool)
        ensures
            r == spec_valid_key(key@),
    {
        let len = key.unicode_len();
        let mut i: usize = 0;
        while i < len
            invariant
                i <= len,
                len == key@.len(),
                forall|j: int| 0 <= j < i ==> !bad_key_char(#[trigger] key@[j]),
            decreases len - i,
        {
            let c = key.get_char(i);
            if c == '\\' || c == '>' || c == '<' || c == '|' || c == ':' || c == '&' || c == '$' {
                return false;
            }
            i = i + 1;
        }
        if crate::text::str_contains_sub(key, "/./") {
            return false;
        }
        if crate::text::str_contains_sub(key, "/../") {
            return false;
        }
        if crate::text::str_contains_sub(key, "//") {
            return false;
        }
        if crate::text::str_starts_with(key, "/") {
            return false;
        }
        if crate::text::str_ends_with(key, "@@META@@") {
            return false;
        }
        true
    }

    /// Makes an empty view of the bucket directory called `name`.
    pub fn from(name: &str, created_millis: u64) -> (r: Result<Bucket, S3FSError>)
        ensures
            spec_valid_bucket(name@) ==> (r matches Ok(b) && b.wf() && b.name@ == name@
                && b.entries@.len() == 0 && b.staging@.len() == 0),
            !spec_valid_bucket(name@) ==> (r matches Err(e) && e.kind
                == S3FSErrorKind::InvalidBucketName),
    {
        if !Self::valid_bucket(name) {
            return Err(S3FSError::invalid_bucket_name(name));
        }
        Ok(
            Bucket {
                name: String::from_str(name),
                created_millis: clamp_millis(created_millis),
                entries: Vec::new(),
                staging: Vec::new(),
            },
        )
    }

    /// Records one node of the bucket directory, as read from the store.
    /// Refuses nodes the model cannot hold.
    pub fn load_entry(
        &mut self,
        key: &str,
        kind: FileType,
        data: Vec<u8>,
        text: String,
        modified_millis: u64,
    ) -> (r: bool)
        requires
            old(self).wf(),
        ensures
            final(self).wf(),
            final(self).name == old(self).name,
            final(self).created_millis == old(self).created_millis,
            final(self).staging == old(self).staging,
            r == (key@.len() > 0 && kind != FileType::Uninitialized),
            !r ==> final(self).entries == old(self).entries,
            r ==> has_key(final(self).entries@, key@) && {
                let e = entry_at(final(self).entries@, key@);
                e.kind == kind && e.data@ == data@ && e.text@ == text@
            },
            r ==> forall|k: Seq<char>|
                k != key@ ==> #[trigger] has_key(final(self).entries@, k) == has_key(
                    old(self).entries@,
                    k,
                ) && (has_key(old(self).entries@, k) ==> entry_at(final(self).entries@, k)
                    == entry_at(old(self).entries@, k)),
    {
        if key.unicode_len() == 0 || matches!(kind, FileType::Uninitialized) {
            return false;
        }
        let e = FsEntry {
            key: String::from_str(key),
            kind,
            data,
            text,
            modified_millis: clamp_millis(modified_millis),
        };
        upsert_entry(&mut self.entries, e);
        true
    }

    /// Does the directory tree refuse the renames that would publish
    /// `key`?
    fn rename_blocked(&self, key: &str) -> (r: bool)
        requires
            self.wf(),
        ensures
            r == save_blocked(self.entries@, key@),
    {
        let keylen = key.unicode_len();
        if keylen == 0 {
            return true;
        }
        match find_entry(&self.entries, key) {
            Some(i) => {
                proof {
                    lemma_entry_at(self.entries@, i as int);
                }
                if matches!(self.entries[i].kind, FileType::Directory) {
                    return true;
                }
            },
            None => {},
        }
        let mk = meta_key_for(key);
        match find_entry(&self.entries, mk.as_str()) {
            Some(i) => {
                proof {
                    lemma_entry_at(self.entries@, i as int);
                }
                if matches!(self.entries[i].kind, FileType::Directory) {
                    return true;
                }
            },
            None => {},
        }
        let mut i: usize = 1;
        while i < keylen
            invariant
                1 <= i <= keylen,
                keylen == key@.len(),
                self.wf(),
                forall|a: Seq<char>|
                    ancestor_of(a, key@) && a.len() < i ==> !(#[trigger] has_key(
                        self.entries@,
                        a,
                    ) && entry_at(self.entries@, a).kind == FileType::File),
            decreases keylen - i,
        {
            if key.get_char(i) == '/' {
                let a = crate::text::substr_string(key, 0, i);
                let file_here = match find_entry(&self.entries, a.as_str()) {
                    Some(j) => {
                        proof {
                            lemma_entry_at(self.entries@, j as int);
                        }
                        matches!(self.entries[j].kind, FileType::File)
                    },
                    None => false,
                };
                if file_here {
                    proof {
                        assert(ancestor_of(a@, key@));
                        assert(save_blocked(self.entries@, key@));
                    }
                    return true;
                }
                proof {
                    assert forall|b: Seq<char>| ancestor_of(b, key@) && b.len() < i + 1 implies !(
                    #[trigger] has_key(self.entries@, b) && entry_at(self.entries@, b).kind
                        == FileType::File) by {
                        if b.len() == i as int {
                            assert(b =~= a@);
                        }
                    }
                }
            } else {
                proof {
                    assert forall|b: Seq<char>| ancestor_of(b, key@) && b.len() < i + 1 implies !(
                    #[trigger] has_key(self.entries@, b) && entry_at(self.entries@, b).kind
                        == FileType::File) by {
                        if b.len() == i as int {
                            assert(key@[b.len() as int] != '/');
                        }
                    }
                }
            }
            i = i + 1;
        }
        proof {
            assert(!save_blocked(self.entries@, key@));
        }
        false
    }

    /// Publishes `data` at `key` with a sidecar recording `etag` and
    /// `size`, creating the missing parent directories.
    #[verifier::rlimit(50)]
    fn place_object(&mut self, key: &str, data: Vec<u8>, etag: &str, size: usize)
        requires
            old(self).wf(),
            !save_blocked(old(self).entries@, key@),
        ensures
            final(self).wf(),
            final(self).name == old(self).name,
            final(self).created_millis == old(self).created_millis,
            final(self).staging == old(self).staging,
            published(
                old(self).entries@,
                final(self).entries@,
                key@,
                data@,
                etag@,
                size as nat,
            ),
    {
        let keylen = key.unicode_len();
        let ghost before = self.entries@;
        let now_millis = clamp_millis(crate::clock::now_unix_millis());
        // the missing parent directories
        let mut i: usize = 1;
        while i < keylen
            invariant
                1 <= i <= keylen || keylen == 0,
                i >= 1,
                keylen == key@.len(),
                old(self).wf(),
                before == old(self).entries@,
                entries_wf(self.entries@),
                now_millis < YEAR_9999_MILLIS,
                self.name == old(self).name,
                self.created_millis == old(self).created_millis,
                self.staging == old(self).staging,
                forall|k: Seq<char>|
                    has_key(before, k) ==> #[trigger] has_key(self.entries@, k) && entry_at(
                        self.entries@,
                        k,
                    ) == entry_at(before, k),
                forall|k: Seq<char>|
                    #[trigger] has_key(self.entries@, k) && !has_key(before, k) ==> ancestor_of(
                        k,
                        key@,
                    ) && entry_at(self.entries@, k).kind == FileType::Directory,
                forall|a: Seq<char>|
                    ancestor_of(a, key@) && a.len() < i ==> #[trigger] has_key(self.entries@, a),
            decreases keylen - i,
        {
            if key.get_char(i) == '/' {
                let a = crate::text::substr_string(key, 0, i);
                proof {
                    assert(ancestor_of(a@, key@));
                }
                match find_entry(&self.entries, a.as_str()) {
                    Some(_) => {},
                    None => {
                        let ghost pre = self.entries@;
                        let ghost akey = a@;
                        proof {
                            assert(forall|k2: Seq<char>|
                                has_key(before, k2) ==> #[trigger] has_key(pre, k2) && entry_at(
                                    pre,
                                    k2,
                                ) == entry_at(before, k2));
                            assert(forall|k2: Seq<char>|
                                #[trigger] has_key(pre, k2) && !has_key(before, k2) ==> ancestor_of(
                                    k2,
                                    key@,
                                ) && entry_at(pre, k2).kind == FileType::Directory);
                        }
                        let e = FsEntry {
                            key: a,
                            kind: FileType::Directory,
                            data: Vec::new(),
                            text: String::new(),
                            modified_millis: now_millis,
                        };
                        upsert_entry(&mut self.entries, e);
                        proof {
                            assert(!has_key(pre, akey));
                            assert forall|k: Seq<char>| has_key(before, k) implies #[trigger]
                                has_key(self.entries@, k) && entry_at(self.entries@, k) == entry_at(
                                before,
                                k,
                            ) by {
                                assert(has_key(before, k));
                                assert(has_key(pre, k));
                                assert(entry_at(pre, k) == entry_at(before, k));
                                assert(k != akey);
                                assert(has_key(self.entries@, k));
                                assert(entry_at(self.entries@, k) == entry_at(pre, k));
                            }
                            assert forall|k: Seq<char>|
                                #[trigger] has_key(self.entries@, k) && !has_key(
                                    before,
                                    k,
                                ) implies ancestor_of(k, key@) && entry_at(self.entries@, k).kind
                                == FileType::Directory by {
                                if k != akey {
                                    assert(has_key(pre, k));
                                }
                            }
                        }
                    },
                }
                proof {
                    assert forall|b: Seq<char>| ancestor_of(b, key@) && b.len() < i + 1 implies
                        #[trigger] has_key(self.entries@, b) by {
                        if b.len() == i as int {
                            assert(b =~= key@.subrange(0, i as int));
                        }
                    }
                }
            } else {
                proof {
                    assert forall|b: Seq<char>| ancestor_of(b, key@) && b.len() < i + 1 implies
                        #[trigger] has_key(self.entries@, b) by {
                        if b.len() == i as int {
                            assert(key@[b.len() as int] != '/');
                        }
                    }
                }
            }
            i = i + 1;
        }
        // data file, then sidecar
        let meta = FileMeta { etag: String::from_str(etag), size };
        let json = crate::meta::meta_to_json(&meta);
        let mk = meta_key_for(key);
        let ghost dd = data@;
        let ghost after_dirs = self.entries@;
        let e_data = FsEntry {
            key: String::from_str(key),
            kind: FileType::File,
            data,
            text: String::new(),
            modified_millis: now_millis,
        };
        upsert_entry(&mut self.entries, e_data);
        let ghost after_data = self.entries@;
        let e_meta = FsEntry {
            key: mk,
            kind: FileType::File,
            data: Vec::new(),
            text: json,
            modified_millis: now_millis,
        };
        upsert_entry(&mut self.entries, e_meta);
        proof {
            reveal_strlit("@@META@@");
            let mkk = spec_meta_key(key@);
            let now = self.entries@;
            assert(mkk.len() == key@.len() + 8);
            assert(key@ != mkk);
            assert(has_key(now, key@) && entry_at(now, key@) == entry_at(after_data, key@));
            assert(entry_at(now, key@).kind == FileType::File && entry_at(now, key@).data@ == dd);
            assert(entry_at(now, mkk).text@ == spec_meta_json(etag@, size as nat));
            assert forall|a: Seq<char>| ancestor_of(a, key@) implies #[trigger] has_key(now, a)
                && (if has_key(before, a) {
                entry_at(now, a) == entry_at(before, a)
            } else {
                entry_at(now, a).kind == FileType::Directory
            }) by {
                assert(a.len() < key@.len());
                assert(a != key@ && a != mkk);
                assert(has_key(after_dirs, a));
                assert(has_key(after_data, a) && entry_at(after_data, a) == entry_at(
                    after_dirs,
                    a,
                ));
                assert(has_key(now, a) && entry_at(now, a) == entry_at(after_dirs, a));
                if has_key(before, a) {
                    assert(entry_at(after_dirs, a) == entry_at(before, a));
                } else {
                    assert(entry_at(after_dirs, a).kind == FileType::Directory);
                }
            }
            assert forall|k: Seq<char>| k != key@ && k != mkk && !ancestor_of(k, key@) implies
                #[trigger] has_key(now, k) == has_key(before, k) && (has_key(before, k)
                ==> entry_at(now, k) == entry_at(before, k)) by {
                assert(has_key(now, k) == has_key(after_data, k));
                assert(has_key(after_data, k) == has_key(after_dirs, k));
                if has_key(after_dirs, k) && !has_key(before, k) {
                    assert(ancestor_of(k, key@));
                }
                if has_key(before, k) {
                    assert(has_key(after_dirs, k) && entry_at(after_dirs, k) == entry_at(
                        before,
                        k,
                    ));
                    assert(entry_at(after_data, k) == entry_at(after_dirs, k));
                    assert(entry_at(now, k) == entry_at(after_data, k));
                }
            }
        }
    }

    /// Writes a single-shot object: decodes the body, computes its etag,
    /// and publishes data file and sidecar at `key`, creating the missing
    /// parent directories. A rename the directory tree refuses (the key or
    /// an ancestor occupied by a node of the other kind) is dropped
    /// silently, as the underlying store drops it.
    pub fn save_object(&mut self, key: &str, body: &Vec<u8>, chunked: bool) -> (r: Result<
        (usize, String),
        S3FSError,
    >)
        requires
            old(self).wf(),
        ensures
            final(self).wf(),
            final(self).name == old(self).name,
            final(self).created_millis == old(self).created_millis,
            final(self).staging == old(self).staging,
            !spec_valid_key(key@) ==> (r matches Err(e) && e.kind
                == S3FSErrorKind::InvalidObjectKey && final(self).entries == old(self).entries),
            spec_valid_key(key@) && spec_decoded_body(body@, chunked) is None ==> (r matches Err(e)
                && e.kind == S3FSErrorKind::IncompleteWrite && final(self).entries == old(
                self,
            ).entries),
            (spec_valid_key(key@) && spec_decoded_body(body@, chunked) is Some) ==> {
                let d = spec_decoded_body(body@, chunked)->Some_0;
                &&& r matches Ok(v) && v.0 == d.len() && v.1@ == md5_hex_of(d)
                &&& save_blocked(old(self).entries@, key@) ==> final(self).entries == old(
                    self,
                ).entries
                &&& !save_blocked(old(self).entries@, key@) ==> published(
                    old(self).entries@,
                    final(self).entries@,
                    key@,
                    d,
                    md5_hex_of(d),
                    d.len(),
                )
            },
    {
        if !Self::valid_key(key) {
            return Err(S3FSError::of_kind_and_message(S3FSErrorKind::InvalidObjectKey, key));
        }
        let decoded = match crate::chunk_to_raw::decode_body(body, chunked) {
            Ok(d) => d,
            Err(e) => {
                return Err(e);
            },
        };
        let (data, size, etag) = decoded;
        if self.rename_blocked(key) {
            return Ok((size, etag));
        }
        self.place_object(key, data, etag.as_str(), size);
        Ok((size, etag))
    }

    /// Reads and parses the sidecar record of `key`.
    pub fn get_object_meta(&self, key: &str) -> (r: Result<FileMeta, S3FSError>)
        requires
            self.wf(),
        ensures
            !spec_valid_key(key@) ==> (r matches Err(e) && e.kind
                == S3FSErrorKind::InvalidObjectKey),
            spec_valid_key(key@) && !(has_key(self.entries@, spec_meta_key(key@)) && entry_at(
                self.entries@,
                spec_meta_key(key@),
            ).kind == FileType::File) ==> (r matches Err(e) && e.kind == S3FSErrorKind::InputOutput),
            (spec_valid_key(key@) && has_key(self.entries@, spec_meta_key(key@)) && entry_at(
                self.entries@,
                spec_meta_key(key@),
            ).kind == FileType::File) ==> {
                let text = entry_at(self.entries@, spec_meta_key(key@)).text@;
                &&& (r matches Ok(m) ==> text == spec_meta_json(m.etag@, m.size as nat)
                    && crate::meta::no_quote(m.etag@))
                &&& (r matches Err(e) ==> e.kind == S3FSErrorKind::InvalidMeta)
                &&& forall|e2: Seq<char>, n: nat|
                    crate::meta::no_quote(e2) && n <= usize::MAX as nat && text == spec_meta_json(
                        e2,
                        n,
                    ) ==> (r matches Ok(m) && m.etag@ == e2 && m.size == n)
            },
    {
        if !Self::valid_key(key) {
            return Err(S3FSError::of_kind_and_message(S3FSErrorKind::InvalidObjectKey, key));
        }
        let mk = meta_key_for(key);
        match find_entry(&self.entries, mk.as_str()) {
            Some(i) => {
                proof {
                    lemma_entry_at(self.entries@, i as int);
                }
                if matches!(self.entries[i].kind, FileType::File) {
                    crate::meta::parse_meta(self.entries[i].text.as_str())
                } else {
                    Err(S3FSError::of_kind(S3FSErrorKind::InputOutput))
                }
            },
            None => Err(S3FSError::of_kind(S3FSErrorKind::InputOutput)),
        }
    }

    /// Hands back the bytes of the data file at `key`.
    pub fn read_object(&self, key: &str) -> (r: Result<Vec<u8>, S3FSError>)
        requires
            self.wf(),
        ensures
            !spec_valid_key(key@) ==> (r matches Err(e) && e.kind
                == S3FSErrorKind::InvalidObjectKey),
            spec_valid_key(key@) && !(has_key(self.entries@, key@) && entry_at(
                self.entries@,
                key@,
            ).kind == FileType::File) ==> (r matches Err(e) && e.kind == S3FSErrorKind::InputOutput),
            (spec_valid_key(key@) && has_key(self.entries@, key@) && entry_at(
                self.entries@,
                key@,
            ).kind == FileType::File) ==> (r matches Ok(d) && d@ == entry_at(
                self.entries@,
                key@,
            ).data@),
    {
        if !Self::valid_key(key) {
            return Err(S3FSError::of_kind_and_message(S3FSErrorKind::InvalidObjectKey, key));
        }
        match find_entry(&self.entries, key) {
            Some(i) => {
                proof {
                    lemma_entry_at(self.entries@, i as int);
                }
                if matches!(self.entries[i].kind, FileType::File) {
                    Ok(clone_bytes(&self.entries[i].data))
                } else {
                    Err(S3FSError::of_kind(S3FSErrorKind::InputOutput))
                }
            },
            None => Err(S3FSError::of_kind(S3FSErrorKind::InputOutput)),
        }
    }

    /// Looks the key up and hands back a detached object handle for the
    /// data file there, if one stands there.
    pub fn get_object_by_key(&self, key: &str) -> (r: Option<S3Object>)
        requires
            self.wf(),
        ensures
            (r is Some) == (has_key(self.entries@, key@) && entry_at(self.entries@, key@).kind
                == FileType::File),
            r matches Some(o) ==> {
                let e = entry_at(self.entries@, key@);
                let mk = spec_meta_key(key@);
                &&& o.key@ == key@
                &&& o.kind == FileType::File
                &&& o.data@ == e.data@
                &&& o.modified_millis == e.modified_millis
                &&& o.modified_millis < YEAR_9999_MILLIS
                &&& (o.meta_text is Some) == (has_key(self.entries@, mk) && entry_at(
                    self.entries@,
                    mk,
                ).kind == FileType::File)
                &&& (o.meta_text matches Some(t) ==> t@ == entry_at(self.entries@, mk).text@)
            },
    {
        match find_entry(&self.entries, key) {
            Some(i) => {
                proof {
                    lemma_entry_at(self.entries@, i as int);
                }
                if matches!(self.entries[i].kind, FileType::File) {
                    let mk = meta_key_for(key);
                    let meta_text = match find_entry(&self.entries, mk.as_str()) {
                        Some(j) => {
                            proof {
                                lemma_entry_at(self.entries@, j as int);
                            }
                            if matches!(self.entries[j].kind, FileType::File) {
                                Some(self.entries[j].text.clone())
                            } else {
                                None
                            }
                        },
                        None => None,
                    };
                    Some(
                        S3Object {
                            key: String::from_str(key),
                            kind: FileType::File,
                            data: clone_bytes(&self.entries[i].data),
                            meta_text,
                            modified_millis: self.entries[i].modified_millis,
                        },
                    )
                } else {
                    None
                }
            },
            None => None,
        }
    }

    /// Removes the data file and sidecar at `key`, an empty directory
    /// standing at the key, and, best-effort, the emptied parent
    /// directory.
    pub fn delete_object(&mut self, key: &str) -> (r: bool)
        requires
            old(self).wf(),
        ensures
            final(self).wf(),
            final(self).name == old(self).name,
            final(self).created_millis == old(self).created_millis,
            final(self).staging == old(self).staging,
            r == spec_valid_key(key@),
            !spec_valid_key(key@) ==> final(self).entries == old(self).entries,
            spec_valid_key(key@) ==> deleted_object(*old(self), *final(self), key@),
    {
        if !Self::valid_key(key) {
            return false;
        }
        let ghost before = self.entries@;
        // the data file, or an empty directory standing at the key
        match find_entry(&self.entries, key) {
            Some(i) => {
                proof {
                    lemma_entry_at(self.entries@, i as int);
                }
                if matches!(self.entries[i].kind, FileType::File) {
                    remove_entry(&mut self.entries, key);
                } else {
                    if !has_child(&self.entries, key) {
                        remove_entry(&mut self.entries, key);
                    }
                }
            },
            None => {},
        }
        // the sidecar
        let mk = meta_key_for(key);
        proof {
            reveal_strlit("@@META@@");
            assert(mk@.len() == key@.len() + 8);
        }
        remove_entry(&mut self.entries, mk.as_str());
        // the emptied parent directory, best-effort
        match crate::text::find_last_slash(key) {
            Some(ls) => {
                proof {
                    crate::text::lemma_last_slash_bounds(key@);
                }
                if ls > 0 {
                    let p = crate::text::substr_string(key, 0, ls);
                    proof {
                        assert(p@.len() < key@.len());
                    }
                    match find_entry(&self.entries, p.as_str()) {
                        Some(j) => {
                            proof {
                                lemma_entry_at(self.entries@, j as int);
                            }
                            if matches!(self.entries[j].kind, FileType::Directory) {
                                if !has_child(&self.entries, p.as_str()) {
                                    remove_entry(&mut self.entries, p.as_str());
                                }
                            }
                        },
                        None => {},
                    }
                }
            },
            None => {},
        }
        true
    }

    /// A detached handle for the entry at index `i`.
    fn object_for_entry(&self, i: usize) -> (o: S3Object)
        requires
            self.wf(),
            i < self.entries@.len(),
        ensures
            obj_rel(self.entries@, self.entries@[i as int], o),
    {
        let mk = meta_key_for(self.entries[i].key.as_str());
        let meta_text = match find_entry(&self.entries, mk.as_str()) {
            Some(j) => {
                proof {
                    lemma_entry_at(self.entries@, j as int);
                }
                if matches!(self.entries[j].kind, FileType::File) {
                    Some(self.entries[j].text.clone())
                } else {
                    None
                }
            },
            None => None,
        };
        S3Object {
            key: self.entries[i].key.clone(),
            kind: self.entries[i].kind,
            data: clone_bytes(&self.entries[i].data),
            meta_text,
            modified_millis: self.entries[i].modified_millis,
        }
    }

    /// Does the visible data file at `k` have its sidecar?
    fn check_meta_at(&self, k: &str) -> (r: bool)
        requires
            self.wf(),
        ensures
            r == has_meta_at(self.entries@, k@),
    {
        let mk = meta_key_for(k);
        match find_entry(&self.entries, mk.as_str()) {
            Some(j) => {
                proof {
                    lemma_entry_at(self.entries@, j as int);
                }
                matches!(self.entries[j].kind, FileType::File)
            },
            None => false,
        }
    }

    /// Does the prefix resolve to a directory?
    fn check_dir_mode(&self, p: &str) -> (r: bool)
        requires
            self.wf(),
        ensures
            r == dir_mode(self.entries@, p@),
    {
        if p.unicode_len() == 0 {
            return true;
        }
        match find_entry(&self.entries, p) {
            Some(i) => {
                proof {
                    lemma_entry_at(self.entries@, i as int);
                }
                matches!(self.entries[i].kind, FileType::Directory)
            },
            None => false,
        }
    }

    /// The deep listing: every visible object matching `prefix`, past the
    /// exclusive cursor `after`, in ascending key order, at most `limit`
    /// of them.
    pub fn list_objects(&self, prefix: &str, after: &str, limit: usize) -> (r: Vec<S3Object>)
        requires
            self.wf(),
        ensures
            !spec_valid_key(prefix@) ==> r@.len() == 0,
            spec_valid_key(prefix@) ==> {
                let sel = deep_selection(self.entries@, strip_slashes(prefix@), after@);
                &&& r@.len() == if sel.len() < limit {
                    sel.len() as int
                } else {
                    limit as int
                }
                &&& forall|t: int|
                    0 <= t < r@.len() ==> obj_rel(self.entries@, sel[t], #[trigger] r@[t])
            },
    {
        let mut result: Vec<S3Object> = Vec::new();
        if !Self::valid_key(prefix) {
            return result;
        }
        let p = strip_trailing_slashes(prefix);
        let dmode = self.check_dir_mode(p.as_str());
        let mut pslash = p.clone();
        pslash.append("/");
        let ghost pred = |e: FsEntry| deep_keep(self.entries@, p@, after@, e);
        let n = self.entries.len();
        let mut i: usize = 0;
        proof {
            assert(self.entries@.take(0).filter(pred) =~= Seq::<FsEntry>::empty()) by {
                reveal(Seq::filter);
                assert(self.entries@.take(0) =~= Seq::<FsEntry>::empty());
            }
        }
        while i < n
            invariant
                i <= n,
                n == self.entries@.len(),
                self.wf(),
                p@ == strip_slashes(prefix@),
                dmode == dir_mode(self.entries@, p@),
                pslash@ == p@ + "/"@,
                pred == (|e: FsEntry| deep_keep(self.entries@, p@, after@, e)),
                result@.len() == if self.entries@.take(i as int).filter(pred).len() < limit {
                    self.entries@.take(i as int).filter(pred).len() as int
                } else {
                    limit as int
                },
                forall|t: int|
                    0 <= t < result@.len() ==> obj_rel(
                        self.entries@,
                        self.entries@.take(i as int).filter(pred)[t],
                        #[trigger] result@[t],
                    ),
            decreases n - i,
        {
            let e_kind_file = matches!(self.entries[i].kind, FileType::File);
            let mut keep = e_kind_file;
            if keep {
                keep = !crate::text::str_ends_with(self.entries[i].key.as_str(), "@@META@@");
            }
            if keep {
                keep = crate::text::str_lt(after, self.entries[i].key.as_str());
            }
            if keep {
                if dmode {
                    if p.unicode_len() > 0 {
                        keep = crate::text::str_starts_with(
                            self.entries[i].key.as_str(),
                            pslash.as_str(),
                        );
                    }
                } else {
                    keep = crate::text::str_starts_with(self.entries[i].key.as_str(), p.as_str());
                }
            }
            if keep {
                keep = self.check_meta_at(self.entries[i].key.as_str());
            }
            proof {
                assert(keep == pred(self.entries@[i as int]));
                assert(self.entries@.take(i + 1) =~= self.entries@.take(i as int).push(
                    self.entries@[i as int],
                ));
                lemma_filter_push(self.entries@.take(i as int), self.entries@[i as int], pred);
            }
            if keep && result.len() < limit {
                let o = self.object_for_entry(i);
                result.push(o);
            }
            i = i + 1;
        }
        proof {
            assert(self.entries@.take(n as int) =~= self.entries@);
        }
        result
    }

    /// The shallow listing with delimiter `/`: the prefix directory, its
    /// direct children, or the prefix's siblings, past the cursor, in
    /// ascending key order, at most `limit` of them.
    pub fn list_objects_short(&self, key: &str, after: &str, limit: usize) -> (r: Vec<S3Object>)
        requires
            self.wf(),
        ensures
            !spec_valid_key(key@) ==> r@.len() == 0,
            spec_valid_key(key@) ==> {
                let sel = short_selection(self.entries@, strip_slashes(key@), after@);
                &&& r@.len() == if sel.len() < limit {
                    sel.len() as int
                } else {
                    limit as int
                }
                &&& forall|t: int|
                    0 <= t < r@.len() ==> obj_rel(self.entries@, sel[t], #[trigger] r@[t])
            },
    {
        let mut result: Vec<S3Object> = Vec::new();
        if !Self::valid_key(key) {
            return result;
        }
        let p = strip_trailing_slashes(key);
        let plen = p.unicode_len();
        let dmode = self.check_dir_mode(p.as_str());
        let mut pslash = p.clone();
        pslash.append("/");
        let p_last_slash = crate::text::find_last_slash(p.as_str());
        let ghost pred = |e: FsEntry| short_keep(self.entries@, p@, after@, e);
        let n = self.entries.len();
        let mut i: usize = 0;
        proof {
            assert(self.entries@.take(0).filter(pred) =~= Seq::<FsEntry>::empty()) by {
                reveal(Seq::filter);
                assert(self.entries@.take(0) =~= Seq::<FsEntry>::empty());
            }
        }
        while i < n
            invariant
                i <= n,
                n == self.entries@.len(),
                self.wf(),
                p@ == strip_slashes(key@),
                plen == p@.len(),
                dmode == dir_mode(self.entries@, p@),
                pslash@ == p@ + "/"@,
                (p_last_slash matches Some(v) ==> v == crate::text::last_slash(p@)),
                (p_last_slash is None ==> crate::text::last_slash(p@) == -1),
                pred == (|e: FsEntry| short_keep(self.entries@, p@, after@, e)),
                result@.len() == if self.entries@.take(i as int).filter(pred).len() < limit {
                    self.entries@.take(i as int).filter(pred).len() as int
                } else {
                    limit as int
                },
                forall|t: int|
                    0 <= t < result@.len() ==> obj_rel(
                        self.entries@,
                        self.entries@.take(i as int).filter(pred)[t],
                        #[trigger] result@[t],
                    ),
            decreases n - i,
        {
            let k = self.entries[i].key.as_str();
            let is_dir = matches!(self.entries[i].kind, FileType::Directory);
            let is_file = matches!(self.entries[i].kind, FileType::File);
            let mut keep = crate::text::str_lt(after, k);
            if keep {
                let e_last_slash = crate::text::find_last_slash(k);
                let structural: bool;
                let mut want_visibility = true;
                if dmode {
                    let is_self = plen > 0 && crate::text::str_eq(k, p.as_str());
                    if is_self && is_dir {
                        structural = true;
                        want_visibility = false;
                    } else {
                        let child = if plen == 0 {
                            matches!(e_last_slash, None)
                        } else {
                            crate::text::str_starts_with(k, pslash.as_str()) && (match e_last_slash {
                                Some(v) => v == plen,
                                None => false,
                            })
                        };
                        structural = child;
                    }
                } else {
                    let same_parent = match (e_last_slash, p_last_slash) {
                        (Some(a), Some(b)) => a == b,
                        (None, None) => true,
                        _ => false,
                    };
                    structural = crate::text::str_starts_with(k, p.as_str()) && same_parent;
                }
                keep = structural;
                if keep && want_visibility {
                    keep = !crate::text::str_ends_with(k, "@@META@@") && (is_dir || (is_file
                        && self.check_meta_at(k)));
                }
            }
            proof {
                if self.entries@[i as int].key@.len() > 0 {
                }
                assert(keep == pred(self.entries@[i as int]));
                assert(self.entries@.take(i + 1) =~= self.entries@.take(i as int).push(
                    self.entries@[i as int],
                ));
                lemma_filter_push(self.entries@.take(i as int), self.entries@[i as int], pred);
            }
            if keep && result.len() < limit {
                let o = self.object_for_entry(i);
                result.push(o);
            }
            i = i + 1;
        }
        proof {
            assert(self.entries@.take(n as int) =~= self.entries@);
        }
        result
    }

    /// Every data file of the bucket, sidecar files left out, in
    /// ascending key order, sidecar or not.
    pub fn list_all_objects(&self) -> (r: Vec<S3Object>)
        requires
            self.wf(),
        ensures
            ({
                let sel = self.entries@.filter(
                    |e: FsEntry| e.kind == FileType::File && !meta_suffixed(e.key@),
                );
                &&& r@.len() == sel.len()
                &&& forall|t: int|
                    0 <= t < r@.len() ==> obj_rel(self.entries@, sel[t], #[trigger] r@[t])
            }),
    {
        let ghost pred = |e: FsEntry| e.kind == FileType::File && !meta_suffixed(e.key@);
        let mut result: Vec<S3Object> = Vec::new();
        let n = self.entries.len();
        let mut i: usize = 0;
        proof {
            assert(self.entries@.take(0).filter(pred) =~= Seq::<FsEntry>::empty()) by {
                reveal(Seq::filter);
                assert(self.entries@.take(0) =~= Seq::<FsEntry>::empty());
            }
        }
        while i < n
            invariant
                i <= n,
                n == self.entries@.len(),
                self.wf(),
                pred == (|e: FsEntry| e.kind == FileType::File && !meta_suffixed(e.key@)),
                result@.len() == self.entries@.take(i as int).filter(pred).len(),
                forall|t: int|
                    0 <= t < result@.len() ==> obj_rel(
                        self.entries@,
                        self.entries@.take(i as int).filter(pred)[t],
                        #[trigger] result@[t],
                    ),
            decreases n - i,
        {
            let keep = matches!(self.entries[i].kind, FileType::File) && !crate::text::str_ends_with(
                self.entries[i].key.as_str(),
                "@@META@@",
            );
            proof {
                assert(keep == pred(self.entries@[i as int]));
                assert(self.entries@.take(i + 1) =~= self.entries@.take(i as int).push(
                    self.entries@[i as int],
                ));
                lemma_filter_push(self.entries@.take(i as int), self.entries@[i as int], pred);
            }
            if keep {
                let o = self.object_for_entry(i);
                result.push(o);
            }
            i = i + 1;
        }
        proof {
            assert(self.entries@.take(n as int) =~= self.entries@);
        }
        result
    }

    /// The flat, unpaginated listing of an earlier protocol round: every
    /// data file whose key extends `prefix`.
    pub fn list_objects_old(&self, prefix: &str) -> (r: Vec<S3Object>)
        requires
            self.wf(),
        ensures
            ({
                let sel = self.entries@.filter(
                    |e: FsEntry| e.kind == FileType::File && !meta_suffixed(e.key@)
                        && crate::text::is_prefix_of(prefix@, e.key@),
                );
                &&& r@.len() == sel.len()
                &&& forall|t: int|
                    0 <= t < r@.len() ==> obj_rel(self.entries@, sel[t], #[trigger] r@[t])
            }),
    {
        let ghost pred = |e: FsEntry| e.kind == FileType::File && !meta_suffixed(e.key@)
            && crate::text::is_prefix_of(prefix@, e.key@);
        let mut result: Vec<S3Object> = Vec::new();
        let n = self.entries.len();
        let mut i: usize = 0;
        proof {
            assert(self.entries@.take(0).filter(pred) =~= Seq::<FsEntry>::empty()) by {
                reveal(Seq::filter);
                assert(self.entries@.take(0) =~= Seq::<FsEntry>::empty());
            }
        }
        while i < n
            invariant
                i <= n,
                n == self.entries@.len(),
                self.wf(),
                pred == (|e: FsEntry| e.kind == FileType::File && !meta_suffixed(e.key@)
                    && crate::text::is_prefix_of(prefix@, e.key@)),
                result@.len() == self.entries@.take(i as int).filter(pred).len(),
                forall|t: int|
                    0 <= t < result@.len() ==> obj_rel(
                        self.entries@,
                        self.entries@.take(i as int).filter(pred)[t],
                        #[trigger] result@[t],
                    ),
            decreases n - i,
        {
            let keep = matches!(self.entries[i].kind, FileType::File) && !crate::text::str_ends_with(
                self.entries[i].key.as_str(),
                "@@META@@",
            ) && crate::text::str_starts_with(self.entries[i].key.as_str(), prefix);
            proof {
                assert(keep == pred(self.entries@[i as int]));
                assert(self.entries@.take(i + 1) =~= self.entries@.take(i as int).push(
                    self.entries@[i as int],
                ));
                lemma_filter_push(self.entries@.take(i as int), self.entries@[i as int], pred);
            }
            if keep {
                let o = self.object_for_entry(i);
                result.push(o);
            }
            i = i + 1;
        }
        proof {
            assert(self.entries@.take(n as int) =~= self.entries@);
        }
        result
    }

    /// The shallow counterpart of the earlier protocol round never
    /// produced anything.
    pub fn list_objects_short_old(&self, prefix: &str) -> (r: Vec<S3Object>)
        ensures
            r@.len() == 0,
    {
        let _ = prefix;
        Vec::new()
    }

    /// Stages one part of a multipart upload: decodes the body and writes
    /// the part file and its sidecar into the staging directory. No
    /// rename: parts become visible only through completion.
    pub fn save_object_part(
        &mut self,
        _key: &str,
        upload_id: &str,
        part_number: u32,
        body: &Vec<u8>,
        chunked: bool,
    ) -> (r: Result<(usize, String), S3FSError>)
        requires
            old(self).wf(),
        ensures
            final(self).wf(),
            final(self).name == old(self).name,
            final(self).created_millis == old(self).created_millis,
            final(self).entries == old(self).entries,
            spec_decoded_body(body@, chunked) is None ==> (r matches Err(e) && e.kind
                == S3FSErrorKind::IncompleteWrite && final(self).staging == old(self).staging),
            spec_decoded_body(body@, chunked) is Some ==> {
                let d = spec_decoded_body(body@, chunked)->Some_0;
                let pk = spec_part_key(upload_id@, part_number as nat);
                let mpk = spec_meta_key(pk);
                let now = final(self).staging@;
                let before = old(self).staging@;
                &&& r matches Ok(v) && v.0 == d.len() && v.1@ == md5_hex_of(d)
                &&& has_key(now, pk) && entry_at(now, pk).kind == FileType::File && entry_at(
                    now,
                    pk,
                ).data@ == d
                &&& has_key(now, mpk) && entry_at(now, mpk).kind == FileType::File && entry_at(
                    now,
                    mpk,
                ).text@ == spec_meta_json(md5_hex_of(d), d.len())
                &&& forall|k: Seq<char>|
                    k != pk && k != mpk ==> #[trigger] has_key(now, k) == has_key(before, k) && (
                    has_key(before, k) ==> entry_at(now, k) == entry_at(before, k))
            },
    {
        let decoded = match crate::chunk_to_raw::decode_body(body, chunked) {
            Ok(d) => d,
            Err(e) => {
                return Err(e);
            },
        };
        let (data, size, etag) = decoded;
        let pname = part_name(upload_id, part_number as u64);
        let mname = meta_key_for(pname.as_str());
        let meta = FileMeta { etag: etag.clone(), size };
        let json = crate::meta::meta_to_json(&meta);
        proof {
            lemma_part_key_not_meta(upload_id@, part_number as nat, pname@);
            crate::text::lemma_dec_digits_wf(part_number as nat);
            reveal_strlit("_");
            reveal_strlit("@@META@@");
            assert(pname@.len() > 0);
            assert(mname@.len() > 0);
        }
        let ghost before = self.staging@;
        let e_part = FsEntry {
            key: pname,
            kind: FileType::File,
            data,
            text: String::new(),
            modified_millis: 0,
        };
        upsert_entry(&mut self.staging, e_part);
        let ghost mid = self.staging@;
        let e_meta = FsEntry {
            key: mname,
            kind: FileType::File,
            data: Vec::new(),
            text: json,
            modified_millis: 0,
        };
        upsert_entry(&mut self.staging, e_meta);
        Ok((size, etag))
    }

    /// Completes a multipart upload: concatenates the staged parts in
    /// strictly ascending number from one until the first gap, publishes
    /// the result at `key` with the etag of the concatenated bytes, and
    /// consumes the staged files.
    #[verifier::rlimit(50)]
    pub fn merge_part(&mut self, key: &str, upload_id: &str) -> (r: Result<
        (usize, String),
        S3FSError,
    >)
        requires
            old(self).wf(),
        ensures
            final(self).wf(),
            final(self).name == old(self).name,
            final(self).created_millis == old(self).created_millis,
            save_blocked(old(self).entries@, key@) ==> (r matches Err(e) && e.kind
                == S3FSErrorKind::InputOutput && final(self).entries == old(self).entries
                && final(self).staging == old(self).staging),
            !save_blocked(old(self).entries@, key@) ==> exists|n: nat|
                #![trigger concat_parts(old(self).staging@, upload_id@, n)]
                {
                    let d = concat_parts(old(self).staging@, upload_id@, n);
                    &&& merged_upload(*old(self), *final(self), key@, upload_id@, n)
                    &&& r matches Ok(v) && v.0 == d.len() && v.1@ == md5_hex_of(d)
                },
    {
        if self.rename_blocked(key) {
            return Err(S3FSError::of_kind(S3FSErrorKind::InputOutput));
        }
        let ghost staging0 = self.staging@;
        let staging_len0 = self.staging.len();
        let mut acc: Vec<u8> = Vec::new();
        let mut counter: u64 = 0;
        let mut done = false;
        while !done
            invariant
                old(self).wf(),
                self.wf(),
                self.entries == old(self).entries,
                self.name == old(self).name,
                self.created_millis == old(self).created_millis,
                staging0 == old(self).staging@,
                !save_blocked(old(self).entries@, key@),
                staging_len0 as int == staging0.len(),
                counter as int + self.staging@.len() <= staging_len0 as int,
                acc@ == concat_parts(staging0, upload_id@, counter as nat),
                forall|j: nat|
                    1 <= j <= counter as nat ==> #[trigger] has_key(
                        staging0,
                        spec_part_key(upload_id@, j),
                    ),
                forall|k: Seq<char>|
                    !removed_part_name(upload_id@, counter as nat, k) ==> #[trigger] has_key(
                        self.staging@,
                        k,
                    ) == has_key(staging0, k) && (has_key(staging0, k) ==> entry_at(
                        self.staging@,
                        k,
                    ) == entry_at(staging0, k)),
                forall|j: nat|
                    1 <= j <= counter as nat ==> !has_key(
                        self.staging@,
                        #[trigger] spec_part_key(upload_id@, j),
                    ) && !has_key(self.staging@, spec_meta_key(spec_part_key(upload_id@, j))),
                done ==> !has_key(staging0, spec_part_key(upload_id@, (counter + 1) as nat)),
            decreases self.staging@.len() + (if done {
                0int
            } else {
                1int
            }),
        {
            if self.staging.len() == 0 {
                proof {
                    let nk = spec_part_key(upload_id@, (counter + 1) as nat);
                    assert forall|j: nat| 1 <= j <= counter as nat implies nk != spec_part_key(
                        upload_id@,
                        j,
                    ) && nk != spec_meta_key(spec_part_key(upload_id@, j)) by {
                        lemma_part_key_injective(upload_id@, (counter + 1) as nat, j);
                        lemma_part_key_not_meta(
                            upload_id@,
                            (counter + 1) as nat,
                            spec_part_key(upload_id@, j),
                        );
                    }
                    assert(!removed_part_name(upload_id@, counter as nat, nk));
                    assert(!has_key(self.staging@, nk));
                }
                done = true;
                continue;
            }
            let next_n = counter + 1;
            let pname = part_name(upload_id, next_n);
            proof {
                assert forall|j: nat| 1 <= j <= counter as nat implies pname@ != spec_part_key(
                    upload_id@,
                    j,
                ) && pname@ != spec_meta_key(spec_part_key(upload_id@, j)) by {
                    lemma_part_key_injective(upload_id@, next_n as nat, j);
                    lemma_part_key_not_meta(upload_id@, next_n as nat, spec_part_key(upload_id@, j));
                }
                assert(!removed_part_name(upload_id@, counter as nat, pname@));
            }
            match find_entry(&self.staging, pname.as_str()) {
                Some(i) => {
                    proof {
                        lemma_entry_at(self.staging@, i as int);
                        assert(has_key(staging0, pname@));
                        assert(entry_at(self.staging@, pname@) == entry_at(staging0, pname@));
                    }
                    let mut part = clone_bytes(&self.staging[i].data);
                    acc.append(&mut part);
                    proof {
                        assert(acc@ == concat_parts(staging0, upload_id@, next_n as nat));
                    }
                    let ghost pre = self.staging@;
                    remove_entry(&mut self.staging, pname.as_str());
                    let pmk = meta_key_for(pname.as_str());
                    remove_entry(&mut self.staging, pmk.as_str());
                    counter = next_n;
                    proof {
                        assert forall|k: Seq<char>|
                            !removed_part_name(upload_id@, counter as nat, k) implies #[trigger]
                            has_key(self.staging@, k) == has_key(staging0, k) && (has_key(
                            staging0,
                            k,
                        ) ==> entry_at(self.staging@, k) == entry_at(staging0, k)) by {
                            assert(!removed_part_name(upload_id@, (counter - 1) as nat, k));
                            assert(k != pname@ && k != spec_meta_key(pname@));
                            assert(has_key(pre, k) == has_key(staging0, k));
                        }
                        assert forall|j: nat| 1 <= j <= counter as nat implies !has_key(
                            self.staging@,
                            #[trigger] spec_part_key(upload_id@, j),
                        ) && !has_key(
                            self.staging@,
                            spec_meta_key(spec_part_key(upload_id@, j)),
                        ) by {
                            if j < counter as nat {
                                lemma_part_key_injective(upload_id@, j, counter as nat);
                                lemma_meta_key_injective(
                                    spec_part_key(upload_id@, j),
                                    spec_part_key(upload_id@, counter as nat),
                                );
                                lemma_part_key_not_meta(
                                    upload_id@,
                                    j,
                                    spec_part_key(upload_id@, counter as nat),
                                );
                                lemma_part_key_not_meta(
                                    upload_id@,
                                    counter as nat,
                                    spec_part_key(upload_id@, j),
                                );
                            }
                        }
                    }
                },
                None => {
                    proof {
                        assert(!has_key(staging0, pname@));
                    }
                    done = true;
                },
            }
        }
        let etag = crate::digest::md5_hex(acc.as_slice());
        let size = acc.len();
        let ghost n_final = counter as nat;
        let ghost dfin = acc@;
        self.place_object(key, acc, etag.as_str(), size);
        proof {
            assert(concat_parts(old(self).staging@, upload_id@, n_final) == dfin);
        }
        Ok((size, etag))
    }

    /// Removes the staged files of an upload: parts counted up from one,
    /// tolerating gaps, giving up after ten consecutive missing part
    /// numbers, and never probing past the hard cap.
    #[verifier::rlimit(100)]
    pub fn cleanup_upload_id(&mut self, id: &str) -> (probed: Ghost<nat>)
        requires
            old(self).wf(),
        ensures
            final(self).wf(),
            final(self).name == old(self).name,
            final(self).created_millis == old(self).created_millis,
            final(self).entries == old(self).entries,
            cleaned_upload(*old(self), *final(self), id@, probed@),
    {
        let ghost staging0 = self.staging@;
        let mut counter: u64 = 0;
        let mut streak: u64 = 0;
        let mut done = false;
        while !done
            invariant
                old(self).wf(),
                self.wf(),
                self.entries == old(self).entries,
                self.name == old(self).name,
                self.created_millis == old(self).created_millis,
                staging0 == old(self).staging@,
                counter <= 1000,
                !done ==> counter < 1000,
                streak <= 10,
                !done ==> streak < 10,
                streak <= counter,
                done ==> 10 <= counter,
                done ==> (counter == 1000 || streak == 10),
                streak as nat == miss_streak(staging0, id@, counter as nat),
                forall|m: nat|
                    10 <= m < counter as nat ==> #[trigger] miss_streak(staging0, id@, m) < 10,
                staging_frame(staging0, self.staging@, id@, counter as nat),
                forall|j: nat|
                    1 <= j <= counter as nat ==> !has_key(
                        self.staging@,
                        #[trigger] spec_part_key(id@, j),
                    ) && !has_key(self.staging@, spec_meta_key(spec_part_key(id@, j))),
            decreases 1001 - counter,
        {
            let next_n = counter + 1;
            let pname = part_name(id, next_n);
            let pmk = meta_key_for(pname.as_str());
            proof {
                assert forall|j: nat| 1 <= j <= counter as nat implies pname@ != spec_part_key(
                    id@,
                    j,
                ) && pname@ != spec_meta_key(spec_part_key(id@, j)) && pmk@ != spec_part_key(
                    id@,
                    j,
                ) && pmk@ != spec_meta_key(spec_part_key(id@, j)) by {
                    lemma_part_key_injective(id@, next_n as nat, j);
                    lemma_part_key_not_meta(id@, next_n as nat, spec_part_key(id@, j));
                    lemma_part_key_not_meta(id@, j, pname@);
                    lemma_meta_key_injective(pname@, spec_part_key(id@, j));
                }
                lemma_part_key_not_meta(id@, next_n as nat, pname@);
                assert(!removed_part_name(id@, counter as nat, pname@));
                assert(!removed_part_name(id@, counter as nat, pmk@));
            }
            let ghost pre = self.staging@;
            remove_entry(&mut self.staging, pmk.as_str());
            let ghost mid = self.staging@;
            let existed = remove_entry(&mut self.staging, pname.as_str());
            proof {
                assert(pname@ != pmk@);
                assert(has_key(mid, pname@) == has_key(pre, pname@));
                assert(has_key(pre, pname@) == has_key(staging0, pname@));
                assert(existed == has_key(staging0, pname@));
            }
            counter = next_n;
            if existed {
                streak = 0;
            } else {
                streak = streak + 1;
                if streak == 10 {
                    done = true;
                }
            }
            if counter == 1000 {
                done = true;
            }
            proof {
                assert(spec_part_key(id@, counter as nat) == pname@);
                assert(streak as nat == miss_streak(staging0, id@, counter as nat));
                assert forall|m: nat|
                    10 <= m < counter as nat implies #[trigger] miss_streak(staging0, id@, m)
                    < 10 by {}
                assert(staging_frame(staging0, self.staging@, id@, counter as nat)) by {
                    assert forall|k: Seq<char>|
                        !removed_part_name(id@, counter as nat, k) implies #[trigger] has_key(
                        self.staging@,
                        k,
                    ) == has_key(staging0, k) && (has_key(staging0, k) ==> entry_at(
                        self.staging@,
                        k,
                    ) == entry_at(staging0, k)) by {
                        assert(spec_part_key(id@, counter as nat) == pname@);
                        assert(!removed_part_name(id@, (counter - 1) as nat, k)) by {
                            if removed_part_name(id@, (counter - 1) as nat, k) {
                                let j = choose|j: nat|
                                    #![trigger spec_part_key(id@, j)]
                                    1 <= j <= (counter - 1) as nat && (k == spec_part_key(id@, j)
                                        || k == spec_meta_key(spec_part_key(id@, j)));
                                assert(removed_part_name(id@, counter as nat, k));
                            }
                        }
                        assert(k != pname@ && k != pmk@);
                        assert(staging_frame(staging0, pre, id@, (counter - 1) as nat));
                        assert(has_key(pre, k) == has_key(staging0, k));
                    }
                }
                assert forall|j: nat| 1 <= j <= counter as nat implies !has_key(
                    self.staging@,
                    #[trigger] spec_part_key(id@, j),
                ) && !has_key(self.staging@, spec_meta_key(spec_part_key(id@, j))) by {
                    if j < counter as nat {
                        lemma_part_key_injective(id@, j, counter as nat);
                        lemma_meta_key_injective(
                            spec_part_key(id@, j),
                            spec_part_key(id@, counter as nat),
                        );
                        lemma_part_key_not_meta(id@, j, spec_part_key(id@, counter as nat));
                        lemma_part_key_not_meta(id@, counter as nat, spec_part_key(id@, j));
                    }
                }
            }
        }
        Ghost(counter as nat)
    }

    /// A fresh upload token: `upload_` and ten random alphanumerics.
    pub fn gen_upload_id(&self) -> (r: String)
        ensures
            r@.len() == 17,
            crate::text::is_prefix_of("upload_"@, r@),
            forall|i: int| 7 <= i < 17 ==> crate::randid::is_alnum_char(#[trigger] r@[i]),
    {
        let bytes = crate::randid::random_alphanumeric(10);
        let mut s = String::from_str("upload_");
        proof {
            reveal_strlit("upload_");
        }
        let mut i: usize = 0;
        while i < bytes.len()
            invariant
                i <= bytes@.len(),
                bytes@.len() == 10,
                s@.len() == 7 + i,
                s@.subrange(0, 7) == "upload_"@,
                forall|j: int| 0 <= j < bytes@.len() ==> crate::randid::is_alnum_byte(
                    #[trigger] bytes@[j],
                ),
                forall|j: int| 7 <= j < 7 + i ==> crate::randid::is_alnum_char(#[trigger] s@[j]),
            decreases bytes@.len() - i,
        {
            let c = bytes[i] as char;
            proof {
                assert(crate::randid::is_alnum_char(c));
            }
            crate::text::push_char(&mut s, c);
            proof {
                assert(s@.subrange(0, 7) =~= s@.drop_last().subrange(0, 7));
            }
            i = i + 1;
        }
        s
    }

    /// The bucket directory's creation time, rendered ISO-8601.
    pub fn get_creation_time(&self) -> (r: Result<String, S3FSError>)
        requires
            self.wf(),
        ensures
            r matches Ok(s) && s@ == crate::clock::iso8601_utc_of(self.created_millis),
    {
        Ok(crate::clock::format_iso8601_utc(self.created_millis))
    }

    /// Records one staged multipart file, as read from the staging
    /// directory.
    pub fn load_staging(&mut self, name: &str, data: Vec<u8>, text: String) -> (r: bool)
        requires
            old(self).wf(),
        ensures
            final(self).wf(),
            final(self).name == old(self).name,
            final(self).created_millis == old(self).created_millis,
            final(self).entries == old(self).entries,
            r == (name@.len() > 0),
            !r ==> final(self).staging == old(self).staging,
            r ==> has_key(final(self).staging@, name@) && {
                let e = entry_at(final(self).staging@, name@);
                e.kind == FileType::File && e.data@ == data@ && e.text@ == text@
            },
            r ==> forall|k: Seq<char>|
                k != name@ ==> #[trigger] has_key(final(self).staging@, k) == has_key(
                    old(self).staging@,
                    k,
                ) && (has_key(old(self).staging@, k) ==> entry_at(final(self).staging@, k)
                    == entry_at(old(self).staging@, k)),
    {
        if name.unicode_len() == 0 {
            return false;
        }
        let e = FsEntry {
            key: String::from_str(name),
            kind: FileType::File,
            data,
            text,
            modified_millis: 0,
        };
        upsert_entry(&mut self.staging, e);
        true
    }
}

} // verus!
