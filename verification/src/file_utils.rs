//! Per-file records and the operations over them: content fingerprinting,
//! extension filtering, top-N selection and duplicate grouping.
//!
//! Reading file bytes and metadata is I/O and happens outside the crate;
//! the functions here work on values already read.

use crate::sorting::insert_desc;
use crate::sorting::lemma_insert_desc_at;
use crate::sorting::lemma_insert_desc_sorted;
use crate::sorting::lemma_sort_desc_identity;
use crate::sorting::lemma_sort_desc_len;
use crate::sorting::lemma_sort_desc_multiset;
use crate::sorting::lemma_sort_desc_sorted;
use crate::sorting::lemma_sort_desc_stable;
use crate::sorting::sort_desc;
use crate::sorting::sorted_desc;
use crate::text::lemma_spec_hex_len;
use crate::text::rfind_char;
use crate::text::spec_chars_ieq;
use crate::text::spec_hex;
use crate::text::spec_rfind;
use crate::text::str_eq;
use crate::text::str_ieq;
use crate::text::u64_to_hex_string;
use std::hash::Hasher;
use vstd::prelude::*;
use vstd::slice::slice_index_get;
use vstd::slice::slice_subrange;
use vstd::string::StrSliceExecFns;

verus! {

/// One discovered regular file: its path (an opaque identifier), its size
/// in bytes, and its content fingerprint — empty when none was computed.
pub struct FileInfo {
    pub path: String,
    pub size: u64,
    pub hash: String,
}

/// A record as mathematical values: the view of `FileInfo`.
pub struct FileInfoView {
    pub path: Seq<char>,
    pub size: u64,
    pub hash: Seq<char>,
}

impl View for FileInfo {
    type V = FileInfoView;

    open spec fn view(&self) -> FileInfoView {
        FileInfoView { path: self.path@, size: self.size, hash: self.hash@ }
    }
}

impl Clone for FileInfo {
    /// A clone carries the same path, size and fingerprint.
    fn clone(&self) -> (r: Self)
        ensures
            r == *self,
    {
        FileInfo { path: self.path.clone(), size: self.size, hash: self.hash.clone() }
    }
}

#[verifier::external_type_specification]
#[verifier::external_body]
pub struct ExXxHash64(twox_hash::XxHash64);

/// The seed a hasher was created with.
pub uninterp spec fn xxh64_seed(h: twox_hash::XxHash64) -> u64;

/// The bytes fed to a hasher so far, in order.
pub uninterp spec fn xxh64_written(h: twox_hash::XxHash64) -> Seq<u8>;

/// The 64-bit digest of a byte sequence under the given seed.
pub uninterp spec fn xxhash64_of(seed: u64, data: Seq<u8>) -> u64;

/// Relies on twox_hash::XxHash64::with_seed: a fresh hasher holds the given
/// seed and has seen no bytes.
#[verifier::external_body]
fn xxh64_with_seed(seed: u64) -> (h: twox_hash::XxHash64)
    ensures
        xxh64_seed(h) == seed,
        xxh64_written(h) == Seq::<u8>::empty(),
{
    twox_hash::XxHash64::with_seed(seed)
}

/// Relies on std::hash::Hasher::write for twox_hash::XxHash64: writing
/// appends the bytes to the stream the hasher has seen and keeps its seed.
#[verifier::external_body]
fn xxh64_write(h: &mut twox_hash::XxHash64, bytes: &[u8])
    requires
        xxh64_written(*old(h)).len() + bytes@.len() <= u64::MAX,
    ensures
        xxh64_seed(*final(h)) == xxh64_seed(*old(h)),
        xxh64_written(*final(h)) == xxh64_written(*old(h)) + bytes@,
{
    h.write(bytes);
}

/// Relies on std::hash::Hasher::finish for twox_hash::XxHash64: the digest
/// depends on the seed and the byte stream alone, however the stream was
/// chunked, and finishing does not disturb the hasher.
#[verifier::external_body]
fn xxh64_finish(h: &twox_hash::XxHash64) -> (r: u64)
    ensures
        r == xxhash64_of(xxh64_seed(*h), xxh64_written(*h)),
{
    h.finish()
}

/// How many bytes go to the hasher at a time.
pub const HASH_CHUNK_SIZE: usize = 1024;

/// The content fingerprint of a byte sequence: the 64-bit digest, in
/// lowercase hexadecimal.
pub open spec fn spec_fingerprint(data: Seq<u8>) -> Seq<char> {
    spec_hex(xxhash64_of(0, data) as nat)
}

/// Computes the content fingerprint of `data`, feeding the bytes to the
/// hasher in fixed-size chunks. The fingerprint is a function of the bytes
/// alone, and is never empty: byte-identical contents always agree, and
/// differing contents disagree unless the digest collides — an accepted
/// risk of the fast, non-cryptographic digest.
pub fn calculate_hash(data: &[u8]) -> (r: String)
    ensures
        r@ == spec_fingerprint(data@),
        r@.len() >= 1,
{
    let mut hasher = xxh64_with_seed(0);
    let len = data.len();
    let mut i: usize = 0;
    proof {
        assert(data@.take(0) =~= Seq::<u8>::empty());
    }
    while i < len
        invariant
            i <= len,
            len == data@.len(),
            xxh64_seed(hasher) == 0,
            xxh64_written(hasher) == data@.take(i as int),
        decreases len - i,
    {
        let end = if len - i < HASH_CHUNK_SIZE {
            len
        } else {
            i + HASH_CHUNK_SIZE
        };
        let chunk = slice_subrange(data, i, end);
        xxh64_write(&mut hasher, chunk);
        proof {
            assert(data@.take(i as int) + data@.subrange(i as int, end as int) =~= data@.take(
                end as int,
            ));
        }
        i = end;
    }
    proof {
        assert(data@.take(len as int) =~= data@);
        lemma_spec_hex_len(xxhash64_of(0, data@) as nat);
    }
    u64_to_hex_string(xxh64_finish(&hasher))
}

/// The extension of the final `'/'`-separated component of `p`: the portion
/// after the component's last `'.'`, provided that dot comes after the
/// component's first character. A component with no dot, or only a leading
/// one, has no extension.
pub open spec fn spec_extension_of(p: Seq<char>) -> Option<Seq<char>> {
    let name_start: int = match spec_rfind(p, '/') {
        None => 0,
        Some(k) => k + 1,
    };
    match spec_rfind(p, '.') {
        None => None,
        Some(k) => if k > name_start {
            Some(p.subrange(k + 1, p.len() as int))
        } else {
            None
        },
    }
}

/// Whether `p`'s extension is one of `exts`, compared ASCII-case-insensitively.
/// A path without an extension matches nothing.
pub open spec fn spec_has_allowed_extension(p: Seq<char>, exts: Seq<Seq<char>>) -> bool {
    match spec_extension_of(p) {
        None => false,
        Some(e) => exists|i: int| 0 <= i < exts.len() && spec_chars_ieq(exts[i], e),
    }
}

/// A found occurrence lies in range, carries the character, and nothing
/// after it does.
proof fn lemma_rfind_bounds(s: Seq<char>, c: char)
    ensures
        match spec_rfind(s, c) {
            None => true,
            Some(k) => 0 <= k < s.len() && s[k] == c,
        },
    decreases s.len(),
{
    if s.len() > 0 && s.last() != c {
        lemma_rfind_bounds(s.drop_last(), c);
    }
}

/// Whether the file at `path` passes the extension allow-list.
pub fn has_allowed_extension(path: &str, extensions: &[String]) -> (r: bool)
    ensures
        r == spec_has_allowed_extension(path@, extensions@.map_values(|s: String| s@)),
{
    proof {
        lemma_rfind_bounds(path@, '/');
        lemma_rfind_bounds(path@, '.');
    }
    let len = path.unicode_len();
    let name_start: usize = match rfind_char(path, '/') {
        None => 0,
        Some(k) => k + 1,
    };
    match rfind_char(path, '.') {
        None => false,
        Some(k) => {
            if k > name_start {
                let ext = path.substring_char(k + 1, len);
                let ghost exts = extensions@.map_values(|s: String| s@);
                let mut i: usize = 0;
                while i < extensions.len()
                    invariant
                        i <= extensions.len(),
                        exts == extensions@.map_values(|s: String| s@),
                        ext@ == path@.subrange(k + 1, path@.len() as int),
                        spec_extension_of(path@) == Some(ext@),
                        forall|j: int| 0 <= j < i ==> !spec_chars_ieq(exts[j], ext@),
                    decreases extensions.len() - i,
                {
                    if str_ieq(extensions[i].as_str(), ext) {
                        proof {
                            assert(exts[i as int] == extensions@[i as int]@);
                            assert(spec_chars_ieq(exts[i as int], ext@));
                        }
                        return true;
                    }
                    i += 1;
                }
                false
            } else {
                false
            }
        },
    }
}

/// The sort key of the top-N selection: a record's size in bytes.
pub open spec fn size_key_fn() -> spec_fn(FileInfo) -> int {
    |f: FileInfo| f.size as int
}

/// The records stably sorted by size, descending, truncated to `n`.
pub open spec fn spec_top_n(s: Seq<FileInfo>, n: int) -> Seq<FileInfo> {
    sort_desc(s, size_key_fn()).take(
        if n <= s.len() {
            n
        } else {
            s.len() as int
        },
    )
}

fn insert_file_desc(v: &mut Vec<FileInfo>, x: FileInfo)
    requires
        sorted_desc(old(v)@, size_key_fn()),
    ensures
        final(v)@ == insert_desc(old(v)@, x, size_key_fn()),
        sorted_desc(final(v)@, size_key_fn()),
{
    proof {
        let ghost key = size_key_fn();
        assert(forall|f: FileInfo| #[trigger] key(f) == f.size as int);
    }
    let mut i: usize = v.len();
    while i > 0 && v[i - 1].size < x.size
        invariant
            i <= v@.len(),
            v@ == old(v)@,
            forall|j: int| i <= j < v@.len() ==> (v@[j].size as int) < x.size as int,
        decreases i,
    {
        i -= 1;
    }
    proof {
        lemma_insert_desc_at(v@, x, size_key_fn(), i as int);
        lemma_insert_desc_sorted(v@, x, size_key_fn());
    }
    v.insert(i, x);
}

/// The `count` largest records by size, descending; records of equal size
/// keep their input order, and with fewer than `count` records all of them
/// come back, sorted.
pub fn get_largest_files(files: &[FileInfo], count: &usize) -> (r: Vec<FileInfo>)
    ensures
        r@ == spec_top_n(files@, *count as int),
        r@.len() == (if *count as int <= files@.len() {
            *count as int
        } else {
            files@.len() as int
        }),
        sorted_desc(r@, size_key_fn()),
{
    let mut sorted_files: Vec<FileInfo> = Vec::new();
    let mut idx: usize = 0;
    proof {
        assert(files@.take(0) =~= Seq::<FileInfo>::empty());
    }
    while idx < files.len()
        invariant
            idx <= files@.len(),
            sorted_files@ == sort_desc(files@.take(idx as int), size_key_fn()),
            sorted_desc(sorted_files@, size_key_fn()),
        decreases files@.len() - idx,
    {
        let x = slice_index_get(files, idx).clone();
        insert_file_desc(&mut sorted_files, x);
        proof {
            assert(files@.take(idx as int + 1).drop_last() =~= files@.take(idx as int));
            assert(files@.take(idx as int + 1).last() == files@[idx as int]);
            assert(sort_desc(files@.take(idx as int + 1), size_key_fn()) == insert_desc(
                sort_desc(files@.take(idx as int), size_key_fn()),
                files@[idx as int],
                size_key_fn(),
            ));
        }
        idx += 1;
    }
    proof {
        assert(files@.take(files@.len() as int) =~= files@);
        lemma_sort_desc_len(files@, size_key_fn());
    }
    let ghost sorted_all = sorted_files@;
    sorted_files.truncate(*count);
    proof {
        if *count as int <= files@.len() {
            assert(sorted_files@ =~= spec_top_n(files@, *count as int));
        } else {
            assert(sorted_files@ =~= spec_top_n(files@, *count as int));
        }
        assert forall|i: int, j: int| 0 <= i <= j < sorted_files@.len() implies size_key_fn()(
            sorted_files@[i],
        ) >= size_key_fn()(sorted_files@[j]) by {
            assert(sorted_files@[i] == sorted_all[i]);
            assert(sorted_files@[j] == sorted_all[j]);
        }
    }
    sorted_files
}

/// Top-N selection keeps, for every size value, the records of that size as
/// a prefix of how they stand in the input: ties preserve input order.
pub proof fn lemma_top_n_stable(s: Seq<FileInfo>, n: int, v: int)
    requires
        0 <= n,
    ensures
        sort_desc(s, size_key_fn()).filter(same_size_fn(v)) == s.filter(same_size_fn(v)),
        spec_top_n(s, n).filter(same_size_fn(v)).is_prefix_of(s.filter(same_size_fn(v))),
{
    let key = size_key_fn();
    let pred = same_size_fn(v);
    assert(forall|f: FileInfo| #[trigger] pred(f) <==> key(f) == v);
    lemma_sort_desc_stable(s, key, pred, v);
    lemma_sort_desc_len(s, key);
    let sorted = sort_desc(s, key);
    let m: int = if n <= s.len() {
        n
    } else {
        s.len() as int
    };
    assert(sorted =~= spec_top_n(s, n) + sorted.skip(m));
    Seq::<FileInfo>::filter_distributes_over_add(spec_top_n(s, n), sorted.skip(m), pred);
}

/// The test for having the given size.
pub open spec fn same_size_fn(v: int) -> spec_fn(FileInfo) -> bool {
    |f: FileInfo| f.size as int == v
}

/// Selecting from an already sorted-descending sequence returns its own
/// prefix: on such input, top-N is the first min(n, len) records unchanged.
pub proof fn lemma_top_n_of_sorted_is_prefix(s: Seq<FileInfo>, n: int)
    requires
        0 <= n,
        sorted_desc(s, size_key_fn()),
    ensures
        spec_top_n(s, n) == s.take(
            if n <= s.len() {
                n
            } else {
                s.len() as int
            },
        ),
{
    lemma_sort_desc_identity(s, size_key_fn());
}

/// Selecting top-N twice is the same as selecting it once: the selection is
/// idempotent.
pub proof fn lemma_top_n_idempotent(s: Seq<FileInfo>, n: int)
    requires
        0 <= n,
    ensures
        spec_top_n(spec_top_n(s, n), n) == spec_top_n(s, n),
{
    lemma_sort_desc_len(s, size_key_fn());
    lemma_sort_desc_sorted(s, size_key_fn());
    let t = spec_top_n(s, n);
    let sorted = sort_desc(s, size_key_fn());
    assert forall|i: int, j: int| 0 <= i <= j < t.len() implies size_key_fn()(t[i])
        >= size_key_fn()(t[j]) by {
        assert(t[i] == sorted[i]);
        assert(t[j] == sorted[j]);
    }
    lemma_top_n_of_sorted_is_prefix(t, n);
    assert(t.take(t.len() as int) =~= t);
}

/// The test for carrying fingerprint `h`.
pub open spec fn has_hash_fn(h: Seq<char>) -> spec_fn(FileInfo) -> bool {
    |f: FileInfo| f.hash@ == h
}

/// The records carrying fingerprint `h`, in input order.
pub open spec fn spec_group_of(s: Seq<FileInfo>, h: Seq<char>) -> Seq<FileInfo> {
    s.filter(has_hash_fn(h))
}

/// A well-formed duplicate group for `s`: a non-empty fingerprint together
/// with every record of `s` carrying it, at least two of them, in input
/// order.
pub open spec fn spec_group_ok(s: Seq<FileInfo>, g: (String, Vec<FileInfo>)) -> bool {
    &&& g.0@.len() > 0
    &&& g.1@ == spec_group_of(s, g.0@)
    &&& g.1@.len() >= 2
}

/// The sort key of duplicate groups: the member count.
pub open spec fn group_key_fn() -> spec_fn((String, Vec<FileInfo>)) -> int {
    |g: (String, Vec<FileInfo>)| g.1@.len() as int
}

fn vec_contains_str(keys: &Vec<String>, h: &str) -> (r: bool)
    ensures
        r == (exists|j: int| 0 <= j < keys@.len() && (#[trigger] keys@[j])@ == h@),
{
    let mut i: usize = 0;
    while i < keys.len()
        invariant
            i <= keys@.len(),
            forall|j: int| 0 <= j < i ==> (#[trigger] keys@[j])@ != h@,
        decreases keys@.len() - i,
    {
        if str_eq(keys[i].as_str(), h) {
            return true;
        }
        i += 1;
    }
    false
}

fn collect_matching(files: &[FileInfo], h: &str) -> (r: Vec<FileInfo>)
    ensures
        r@ == spec_group_of(files@, h@),
{
    let ghost pred = has_hash_fn(h@);
    let mut out: Vec<FileInfo> = Vec::new();
    let mut i: usize = 0;
    proof {
        assert(forall|f: FileInfo| #[trigger] pred(f) <==> f.hash@ == h@);
        assert(files@.take(0) =~= Seq::<FileInfo>::empty());
        assert(Seq::<FileInfo>::empty().filter(pred) =~= Seq::<FileInfo>::empty());
    }
    while i < files.len()
        invariant
            i <= files@.len(),
            pred == has_hash_fn(h@),
            forall|f: FileInfo| #[trigger] pred(f) <==> f.hash@ == h@,
            out@ == files@.take(i as int).filter(pred),
        decreases files@.len() - i,
    {
        let f = slice_index_get(files, i);
        proof {
            assert(files@.take(i as int + 1) =~= files@.take(i as int).push(files@[i as int]));
            files@.take(i as int).lemma_filter_push(files@[i as int], pred);
        }
        if str_eq(f.hash.as_str(), h) {
            out.push(f.clone());
        }
        i += 1;
    }
    proof {
        assert(files@.take(files@.len() as int) =~= files@);
    }
    out
}

fn insert_group_desc(v: &mut Vec<(String, Vec<FileInfo>)>, x: (String, Vec<FileInfo>))
    requires
        sorted_desc(old(v)@, group_key_fn()),
    ensures
        final(v)@ == insert_desc(old(v)@, x, group_key_fn()),
        sorted_desc(final(v)@, group_key_fn()),
{
    proof {
        let ghost key = group_key_fn();
        assert(forall|g: (String, Vec<FileInfo>)| #[trigger] key(g) == g.1@.len() as int);
    }
    let mut i: usize = v.len();
    while i > 0 && v[i - 1].1.len() < x.1.len()
        invariant
            i <= v@.len(),
            v@ == old(v)@,
            forall|j: int|
                i <= j < v@.len() ==> ((#[trigger] v@[j]).1@.len() as int) < x.1@.len() as int,
        decreases i,
    {
        i -= 1;
    }
    proof {
        lemma_insert_desc_at(v@, x, group_key_fn(), i as int);
        lemma_insert_desc_sorted(v@, x, group_key_fn());
    }
    v.insert(i, x);
}

/// Collects the distinct non-empty fingerprints of `files`, in discovery
/// order.
fn collect_keys(files: &[FileInfo]) -> (keys: Vec<String>)
    ensures
        forall|a: int, b: int|
            #![trigger keys@[a], keys@[b]]
            0 <= a < b < keys@.len() ==> keys@[a]@ != keys@[b]@,
        forall|a: int| 0 <= a < keys@.len() ==> (#[trigger] keys@[a])@.len() > 0,
        forall|b: int|
            0 <= b < files@.len() && (#[trigger] files@[b]).hash@.len() > 0 ==> exists|a: int|
                0 <= a < keys@.len() && (#[trigger] keys@[a])@ == files@[b].hash@,
{
    let mut keys: Vec<String> = Vec::new();
    let mut i: usize = 0;
    while i < files.len()
        invariant
            i <= files@.len(),
            forall|a: int, b: int|
                #![trigger keys@[a], keys@[b]]
                0 <= a < b < keys@.len() ==> keys@[a]@ != keys@[b]@,
            forall|a: int| 0 <= a < keys@.len() ==> (#[trigger] keys@[a])@.len() > 0,
            forall|b: int|
                0 <= b < i && (#[trigger] files@[b]).hash@.len() > 0 ==> exists|a: int|
                    0 <= a < keys@.len() && (#[trigger] keys@[a])@ == files@[b].hash@,
        decreases files@.len() - i,
    {
        let ghost prev = keys@;
        let f = slice_index_get(files, i);
        if !f.hash.as_str().is_empty() {
            if !vec_contains_str(&keys, f.hash.as_str()) {
                keys.push(f.hash.clone());
                proof {
                    assert(keys@[prev.len() as int]@ == files@[i as int].hash@);
                }
            } else {
                proof {
                    let a = choose|a: int|
                        0 <= a < keys@.len() && (#[trigger] keys@[a])@ == f.hash@;
                    assert(keys@[a]@ == files@[i as int].hash@);
                }
            }
        }
        proof {
            assert(forall|a: int| 0 <= a < prev.len() ==> keys@[a] == prev[a]);
            assert forall|b: int|
                0 <= b <= i && (#[trigger] files@[b]).hash@.len() > 0 implies exists|a: int|
                0 <= a < keys@.len() && (#[trigger] keys@[a])@ == files@[b].hash@ by {
                if b < i {
                    let a = choose|a: int|
                        0 <= a < prev.len() && (#[trigger] prev[a])@ == files@[b].hash@;
                    assert(keys@[a]@ == files@[b].hash@);
                }
            }
        }
        i += 1;
    }
    keys
}

/// Builds one group per fingerprint and keeps those with two or more
/// members.
fn build_groups(files: &[FileInfo], keys: &Vec<String>) -> (groups: Vec<(String, Vec<FileInfo>)>)
    requires
        forall|a: int, b: int|
            #![trigger keys@[a], keys@[b]]
            0 <= a < b < keys@.len() ==> keys@[a]@ != keys@[b]@,
        forall|a: int| 0 <= a < keys@.len() ==> (#[trigger] keys@[a])@.len() > 0,
    ensures
        forall|a: int| 0 <= a < groups@.len() ==> spec_group_ok(files@, #[trigger] groups@[a]),
        forall|a: int, b: int|
            #![trigger groups@[a], groups@[b]]
            0 <= a < b < groups@.len() ==> groups@[a].0@ != groups@[b].0@,
        forall|a: int|
            0 <= a < keys@.len() && spec_group_of(files@, (#[trigger] keys@[a])@).len() >= 2
                ==> exists|b: int|
                0 <= b < groups@.len() && (#[trigger] groups@[b]).0@ == keys@[a]@,
{
    let mut groups: Vec<(String, Vec<FileInfo>)> = Vec::new();
    let mut k: usize = 0;
    while k < keys.len()
        invariant
            k <= keys@.len(),
            forall|a: int, b: int|
                #![trigger keys@[a], keys@[b]]
                0 <= a < b < keys@.len() ==> keys@[a]@ != keys@[b]@,
            forall|a: int| 0 <= a < keys@.len() ==> (#[trigger] keys@[a])@.len() > 0,
            forall|a: int| 0 <= a < groups@.len() ==> spec_group_ok(files@, #[trigger] groups@[a]),
            forall|b: int|
                0 <= b < groups@.len() ==> exists|a: int|
                    0 <= a < k && (#[trigger] keys@[a])@ == (#[trigger] groups@[b]).0@,
            forall|a: int, b: int|
                #![trigger groups@[a], groups@[b]]
                0 <= a < b < groups@.len() ==> groups@[a].0@ != groups@[b].0@,
            forall|a: int|
                0 <= a < k && spec_group_of(files@, (#[trigger] keys@[a])@).len() >= 2 ==> exists|
                    b: int,
                |
                    0 <= b < groups@.len() && (#[trigger] groups@[b]).0@ == keys@[a]@,
        decreases keys@.len() - k,
    {
        let ghost prevg = groups@;
        let members = collect_matching(files, keys[k].as_str());
        let ghost mems = members@;
        if members.len() >= 2 {
            let g = (keys[k].clone(), members);
            groups.push(g);
            proof {
                assert(groups@[prevg.len() as int].0@ == keys@[k as int]@);
                assert(groups@[prevg.len() as int].1@ == mems);
                assert(spec_group_ok(files@, groups@[prevg.len() as int]));
            }
        }
        proof {
            assert(forall|b: int| 0 <= b < prevg.len() ==> groups@[b] == prevg[b]);
            assert forall|b: int| 0 <= b < groups@.len() implies exists|a: int|
                0 <= a < k + 1 && (#[trigger] keys@[a])@ == (#[trigger] groups@[b]).0@ by {
                if b < prevg.len() {
                    let a = choose|a: int|
                        0 <= a < k && (#[trigger] keys@[a])@ == prevg[b].0@;
                    assert(keys@[a]@ == groups@[b].0@);
                } else {
                    assert(keys@[k as int]@ == groups@[b].0@);
                }
            }
            assert forall|a: int, b: int|
                #![trigger groups@[a], groups@[b]]
                0 <= a < b < groups@.len() implies groups@[a].0@ != groups@[b].0@ by {
                if b >= prevg.len() {
                    let a2 = choose|a2: int|
                        0 <= a2 < k && (#[trigger] keys@[a2])@ == groups@[a].0@;
                    assert(keys@[a2]@ != keys@[k as int]@);
                }
            }
            assert forall|a: int|
                0 <= a <= k && spec_group_of(files@, (#[trigger] keys@[a])@).len() >= 2 implies
                exists|b: int|
                    0 <= b < groups@.len() && (#[trigger] groups@[b]).0@ == keys@[a]@ by {
                if a < k {
                    let b = choose|b: int|
                        0 <= b < prevg.len() && (#[trigger] prevg[b]).0@ == keys@[a]@;
                    assert(groups@[b].0@ == keys@[a]@);
                } else {
                    assert(mems == spec_group_of(files@, keys@[k as int]@));
                    assert(groups@[prevg.len() as int].0@ == keys@[a]@);
                }
            }
        }
        k += 1;
    }
    groups
}

/// Orders the groups by member count, descending.
fn sort_groups(groups: Vec<(String, Vec<FileInfo>)>) -> (r: Vec<(String, Vec<FileInfo>)>)
    ensures
        r@ == sort_desc(groups@, group_key_fn()),
        sorted_desc(r@, group_key_fn()),
{
    let ghost pre = groups@;
    let mut rest = groups;
    let mut result: Vec<(String, Vec<FileInfo>)> = Vec::new();
    proof {
        assert(pre.take(0) =~= Seq::<(String, Vec<FileInfo>)>::empty());
    }
    while rest.len() > 0
        invariant
            rest@.len() <= pre.len(),
            rest@ == pre.skip(pre.len() - rest@.len()),
            result@ == sort_desc(pre.take(pre.len() - rest@.len()), group_key_fn()),
            sorted_desc(result@, group_key_fn()),
        decreases rest@.len(),
    {
        let ghost done = pre.len() - rest@.len();
        let g = rest.remove(0);
        proof {
            assert(g == pre[done as int]);
            assert(rest@ =~= pre.skip(done as int + 1));
            assert(pre.take(done as int + 1).drop_last() =~= pre.take(done as int));
            assert(pre.take(done as int + 1).last() == pre[done as int]);
        }
        insert_group_desc(&mut result, g);
        proof {
            assert(sort_desc(pre.take(done as int + 1), group_key_fn()) == insert_desc(
                sort_desc(pre.take(done as int), group_key_fn()),
                pre[done as int],
                group_key_fn(),
            ));
        }
    }
    proof {
        assert(pre.take(pre.len() as int) =~= pre);
    }
    result
}

/// Partitions the records by fingerprint. Records with an empty fingerprint
/// are never grouped; each group holds every record carrying its
/// fingerprint, in discovery order; only fingerprints shared by at least
/// two records form groups; and groups come ordered by member count,
/// largest first.
pub fn find_duplicate_groups(files: &[FileInfo]) -> (r: Vec<(String, Vec<FileInfo>)>)
    ensures
        forall|i: int| 0 <= i < r@.len() ==> spec_group_ok(files@, #[trigger] r@[i]),
        forall|i: int, j: int|
            #![trigger r@[i].1@[j]]
            0 <= i < r@.len() && 0 <= j < r@[i].1@.len() ==> r@[i].1@[j].hash@ == r@[i].0@
                && r@[i].1@[j].hash@.len() > 0,
        forall|i: int, j: int|
            #![trigger r@[i], r@[j]]
            0 <= i <= j < r@.len() ==> r@[i].1@.len() >= r@[j].1@.len(),
        forall|i: int, j: int|
            #![trigger r@[i], r@[j]]
            0 <= i < j < r@.len() ==> r@[i].0@ != r@[j].0@,
        forall|h: Seq<char>|
            h.len() > 0 && (#[trigger] spec_group_of(files@, h)).len() >= 2 ==> exists|i: int|
                0 <= i < r@.len() && r@[i].0@ == h,
{
    let keys = collect_keys(files);
    let groups = build_groups(files, &keys);
    let ghost pre = groups@;
    let result = sort_groups(groups);
    proof {
        lemma_duplicate_groups_transfer(files@, pre, result@);
        let key = group_key_fn();
        assert(forall|g: (String, Vec<FileInfo>)| #[trigger] key(g) == g.1@.len() as int);
        assert forall|i: int, j: int|
            #![trigger result@[i].1@[j]]
            0 <= i < result@.len() && 0 <= j < result@[i].1@.len() implies result@[i].1@[j].hash@
            == result@[i].0@ && result@[i].1@[j].hash@.len() > 0 by {
            assert(spec_group_ok(files@, result@[i]));
            let p = has_hash_fn(result@[i].0@);
            assert(forall|f: FileInfo| #[trigger] p(f) <==> f.hash@ == result@[i].0@);
            files@.lemma_filter_pred(p, j);
        }
        assert forall|h: Seq<char>|
            h.len() > 0 && (#[trigger] spec_group_of(files@, h)).len() >= 2 implies exists|i: int|
            0 <= i < result@.len() && result@[i].0@ == h by {
            let p = has_hash_fn(h);
            assert(forall|f: FileInfo| #[trigger] p(f) <==> f.hash@ == h);
            let grp = spec_group_of(files@, h);
            files@.lemma_filter_pred(p, 0);
            assert(grp.contains(grp[0]));
            files@.lemma_filter_contains_rev(p, grp[0]);
            let b = choose|b: int| 0 <= b < files@.len() && files@[b] == grp[0];
            assert(files@[b].hash@ == h);
            let a = choose|a: int|
                0 <= a < keys@.len() && (#[trigger] keys@[a])@ == files@[b].hash@;
            assert(spec_group_of(files@, keys@[a]@) == grp);
            let b2 = choose|b2: int|
                0 <= b2 < pre.len() && (#[trigger] pre[b2]).0@ == keys@[a]@;
            let iw = choose|i: int|
                0 <= i < result@.len() && (#[trigger] pre[b2]).0@ == result@[i].0@;
            assert(result@[iw].0@ == h);
        }
    }
    result
}

/// Carries the per-group facts across the reordering of the sort: the
/// sorted sequence holds the same groups, so well-formedness, key
/// distinctness and completeness carry over.
proof fn lemma_duplicate_groups_transfer(
    files: Seq<FileInfo>,
    pre: Seq<(String, Vec<FileInfo>)>,
    sorted: Seq<(String, Vec<FileInfo>)>,
)
    requires
        sorted == sort_desc(pre, group_key_fn()),
        forall|a: int| 0 <= a < pre.len() ==> spec_group_ok(files, #[trigger] pre[a]),
        forall|a: int, b: int|
            #![trigger pre[a], pre[b]]
            0 <= a < b < pre.len() ==> pre[a].0@ != pre[b].0@,
    ensures
        forall|i: int| 0 <= i < sorted.len() ==> spec_group_ok(files, #[trigger] sorted[i]),
        forall|i: int, j: int|
            #![trigger sorted[i], sorted[j]]
            0 <= i < j < sorted.len() ==> sorted[i].0@ != sorted[j].0@,
        forall|b: int|
            0 <= b < pre.len() ==> exists|i: int|
                0 <= i < sorted.len() && (#[trigger] pre[b]).0@ == sorted[i].0@,
{
    broadcast use vstd::multiset::group_multiset_axioms;

    let key = group_key_fn();
    lemma_sort_desc_multiset(pre, key);
    lemma_sort_desc_len(pre, key);
    sorted.to_multiset_ensures();
    pre.to_multiset_ensures();
    assert forall|i: int| 0 <= i < sorted.len() implies spec_group_ok(
        files,
        #[trigger] sorted[i],
    ) by {
        assert(sorted.contains(sorted[i]));
        assert(pre.to_multiset().count(sorted[i]) > 0);
        assert(pre.contains(sorted[i]));
        let b = choose|b: int| 0 <= b < pre.len() && pre[b] == sorted[i];
        assert(spec_group_ok(files, pre[b]));
    }
    assert(pre.no_duplicates()) by {
        assert forall|a: int, b: int|
            0 <= a < pre.len() && 0 <= b < pre.len() && a != b implies pre[a] != pre[b] by {
            if a < b {
                assert(pre[a].0@ != pre[b].0@);
            } else {
                assert(pre[b].0@ != pre[a].0@);
            }
        }
    }
    pre.lemma_multiset_has_no_duplicates();
    assert(forall|x: (String, Vec<FileInfo>)|
        sorted.to_multiset().contains(x) ==> sorted.to_multiset().count(x) == 1);
    sorted.lemma_multiset_has_no_duplicates_conv();
    assert forall|i: int, j: int|
        #![trigger sorted[i], sorted[j]]
        0 <= i < j < sorted.len() implies sorted[i].0@ != sorted[j].0@ by {
        assert(sorted[i] != sorted[j]);
        assert(sorted.contains(sorted[i]));
        assert(pre.to_multiset().count(sorted[i]) > 0);
        assert(pre.contains(sorted[i]));
        assert(sorted.contains(sorted[j]));
        assert(pre.to_multiset().count(sorted[j]) > 0);
        assert(pre.contains(sorted[j]));
        let a = choose|a: int| 0 <= a < pre.len() && pre[a] == sorted[i];
        let b = choose|b: int| 0 <= b < pre.len() && pre[b] == sorted[j];
        assert(a != b);
        if a < b {
            assert(pre[a].0@ != pre[b].0@);
        } else {
            assert(pre[b].0@ != pre[a].0@);
        }
    }
    assert forall|b: int| 0 <= b < pre.len() implies exists|i: int|
        0 <= i < sorted.len() && (#[trigger] pre[b]).0@ == sorted[i].0@ by {
        assert(pre.contains(pre[b]));
        assert(sorted.to_multiset().count(pre[b]) > 0);
        assert(sorted.contains(pre[b]));
        let i = choose|i: int| 0 <= i < sorted.len() && sorted[i] == pre[b];
        assert(pre[b].0@ == sorted[i].0@);
    }
}

} // verus!
