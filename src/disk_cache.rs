//! The logic of the durable cache tier: where an entry lives, how it is
//! encoded, how the running size is kept, and which files a sweep removes.
//! Reading, writing and walking the cache directory is left to the caller.
use vstd::prelude::*;
use vstd::utf8::encode_utf8;
use crate::text::{chars_of, string_from_chars};

verus! {

/// The result of gzip-compressing `data` at the default level with an empty header.
pub uninterp spec fn gzip_of(data: Seq<u8>) -> Seq<u8>;

/// Relies on flate2's `read::GzEncoder` with `Compression::default()`: the
/// header carries no time stamp, so the output depends on the input alone;
/// reading from an in-memory slice with a fresh encoder does not fail.
#[verifier::external_body]
fn gzip_bytes(data: &[u8]) -> (r: Option<Vec<u8>>)
    ensures
        r is Some,
        r matches Some(b) ==> b@ == gzip_of(data@),
{
    let mut enc = flate2::read::GzEncoder::new(data, flate2::Compression::default());
    let mut buf = Vec::new();
    std::io::Read::read_to_end(&mut enc, &mut buf).ok().map(|_| buf)
}

/// Relies on flate2's `read::GzDecoder` and `Read::read_to_string`: a gzip
/// stream of UTF-8 text decodes to that text.
#[verifier::external_body]
fn gunzip_text(data: &[u8]) -> (r: Option<String>)
    ensures
        r is Some || forall|s: Seq<char>| #[trigger] gzip_of(encode_utf8(s)) != data@,
        r matches Some(t) ==> forall|s: Seq<char>| #[trigger] gzip_of(encode_utf8(s)) == data@ ==> t@ == s,
{
    let mut dec = flate2::read::GzDecoder::new(data);
    let mut s = String::new();
    std::io::Read::read_to_string(&mut dec, &mut s).ok().map(|_| s)
}

pub const FNV_OFFSET: u64 = 0xcbf29ce484222325;

pub const FNV_PRIME: u64 = 0x100000001b3;

/// 64-bit FNV-1a over `data`.
pub open spec fn fnv1a(data: Seq<u8>) -> u64
    decreases data.len(),
{
    if data.len() == 0 {
        FNV_OFFSET
    } else {
        let h = fnv1a(data.drop_last()) ^ (data.last() as u64);
        ((h as nat * FNV_PRIME as nat) % 0x1_0000_0000_0000_0000nat) as u64
    }
}

/// 64-bit FNV-1a hash of `data`.
pub fn fnv1a64(data: &[u8]) -> (r: u64)
    ensures
        r == fnv1a(data@),
{
    let mut hash: u64 = FNV_OFFSET;
    let mut i: usize = 0;
    while i < data.len()
        invariant
            i <= data@.len(),
            hash == fnv1a(data@.take(i as int)),
        decreases data.len() - i,
    {
        assert(data@.take(i + 1).drop_last() =~= data@.take(i as int));
        hash = hash ^ (data[i] as u64);
        hash = hash.wrapping_mul(FNV_PRIME);
        i = i + 1;
    }
    assert(data@.take(i as int) =~= data@);
    hash
}

/// A character kept in a cache file name.
pub open spec fn is_name_char(c: char) -> bool {
    ('a' <= c && c <= 'z') || ('A' <= c && c <= 'Z') || ('0' <= c && c <= '9') || c == '-'
        || c == '_' || c == '.' || c == ':' || c == '/'
}

pub open spec fn name_char(c: char) -> char {
    if is_name_char(c) {
        c
    } else {
        '_'
    }
}

pub open spec fn sanitized_name(id: Seq<char>) -> Seq<char> {
    id.map_values(|c: char| name_char(c))
}

/// `id` with every character outside ASCII alphanumerics and `-_.:/` replaced by `_`.
pub fn sanitize_filename(id: &str) -> (r: String)
    ensures
        r@ == sanitized_name(id@),
{
    let cs = chars_of(id);
    let mut out: Vec<char> = Vec::new();
    let mut i: usize = 0;
    while i < cs.len()
        invariant
            i <= cs@.len(),
            cs@ == id@,
            out@ == sanitized_name(cs@.take(i as int)),
        decreases cs.len() - i,
    {
        let c = cs[i];
        let keep = ('a' <= c && c <= 'z') || ('A' <= c && c <= 'Z') || ('0' <= c && c <= '9')
            || c == '-' || c == '_' || c == '.' || c == ':' || c == '/';
        out.push(if keep { c } else { '_' });
        assert(out@ =~= sanitized_name(cs@.take(i + 1)));
        i = i + 1;
    }
    assert(cs@.take(i as int) =~= cs@);
    string_from_chars(&out)
}

pub open spec fn hex_digit(n: u8) -> char {
    if n < 10 {
        ((n + 48) as u32) as char
    } else {
        ((n + 87) as u32) as char
    }
}

/// Two lower-case hex digits of a byte.
pub open spec fn hex_byte(b: u8) -> Seq<char> {
    seq![hex_digit(b / 16), hex_digit(b % 16)]
}

fn hex_digit_char(n: u8) -> (r: char)
    requires
        n < 16,
    ensures
        r == hex_digit(n),
{
    let digits: [char; 16] = [
        '0', '1', '2', '3', '4', '5', '6', '7', '8', '9', 'a', 'b', 'c', 'd', 'e', 'f',
    ];
    let r = digits[n as usize];
    assert(r == hex_digit(n)) by {
        assert(digits@ == seq![
            '0', '1', '2', '3', '4', '5', '6', '7', '8', '9', 'a', 'b', 'c', 'd', 'e', 'f',
        ]);
    }
    r
}

/// The leading `/` characters removed.
pub open spec fn trim_slashes(s: Seq<char>) -> Seq<char>
    decreases s.len(),
{
    if s.len() > 0 && s[0] == '/' {
        trim_slashes(s.drop_first())
    } else {
        s
    }
}

/// The file name of an entry: the sanitized key without leading slashes
/// (`_` when nothing is left), with the suffix `.md.gz`.
pub open spec fn entry_file_name(key: Seq<char>) -> Seq<char> {
    let t = trim_slashes(sanitized_name(key));
    let safe = if t.len() == 0 {
        seq!['_']
    } else {
        t
    };
    safe + seq!['.', 'm', 'd', '.', 'g', 'z']
}

/// The path of an entry below the cache root: two shard directories named
/// after the two most significant bytes of the key's FNV-1a hash, then the file name.
pub open spec fn entry_path(key: Seq<char>) -> Seq<char> {
    let h = fnv1a(encode_utf8(key));
    hex_byte((h >> 56u64) as u8) + seq!['/'] + hex_byte(((h >> 48u64) & 0xffu64) as u8) + seq!['/']
        + entry_file_name(key)
}

/// The path of the entry for `key` relative to the cache root.
pub fn entry_relative_path(key: &str) -> (r: String)
    ensures
        r@ == entry_path(key@),
{
    let h = fnv1a64(key.as_bytes());
    let a: u8 = (h >> 56u64) as u8;
    let b: u8 = ((h >> 48u64) & 0xffu64) as u8;
    let name = sanitize_filename(key);
    let cs = chars_of(name.as_str());
    let mut k: usize = 0;
    assert(cs@.skip(0) =~= cs@);
    while k < cs.len() && cs[k] == '/'
        invariant
            k <= cs@.len(),
            trim_slashes(cs@) == trim_slashes(cs@.skip(k as int)),
        decreases cs.len() - k,
    {
        assert(cs@.skip(k as int).drop_first() =~= cs@.skip(k + 1));
        k = k + 1;
    }
    let mut out: Vec<char> = Vec::new();
    out.push(hex_digit_char(a / 16));
    out.push(hex_digit_char(a % 16));
    out.push('/');
    out.push(hex_digit_char(b / 16));
    out.push(hex_digit_char(b % 16));
    out.push('/');
    let ghost head = out@;
    if k == cs.len() {
        out.push('_');
    }
    let mut i: usize = k;
    while i < cs.len()
        invariant
            k <= i <= cs@.len(),
            out@ == head + (if k == cs@.len() { seq!['_'] } else { cs@.subrange(k as int, i as int) }),
        decreases cs.len() - i,
    {
        out.push(cs[i]);
        assert(out@ =~= head + cs@.subrange(k as int, i + 1));
        i = i + 1;
    }
    out.push('.');
    out.push('m');
    out.push('d');
    out.push('.');
    out.push('g');
    out.push('z');
    proof {
        assert(cs@.skip(0) =~= cs@);
        let t = cs@.skip(k as int);
        assert(k == cs@.len() || cs@[k as int] != '/');
        assert(trim_slashes(t) == t);
        assert(cs@.subrange(k as int, cs@.len() as int) =~= t);
        assert(out@ =~= entry_path(key@));
    }
    string_from_chars(&out)
}

} // verus!

verus! {

/// What a sweep knows of one cache file: its modification time and length in bytes.
#[derive(Clone, Copy, Debug, PartialEq, Eq, Structural)]
pub struct FileStat {
    pub mtime: u64,
    pub len: u64,
}

/// The index `j` is listed in `order`.
pub open spec fn lists(order: Seq<usize>, j: int) -> bool {
    exists|a: int| 0 <= a < order.len() && order[a] as int == j
}

/// The total length of the files among the first `n` whose index is not in `order`.
pub open spec fn kept_total(files: Seq<FileStat>, order: Seq<usize>, n: int) -> int
    decreases n,
{
    if n <= 0 {
        0
    } else {
        kept_total(files, order, n - 1) + if lists(order, n - 1) {
            0
        } else {
            files[n - 1].len as int
        }
    }
}

/// `order` is the removal order of a sweep over the files found on disk,
/// and `after` the running size it leaves: distinct indices, oldest first,
/// every removed file at least as old as every kept one, each removal made
/// while the files still kept were over `cap` in total, and the sweep ends
/// at or under `cap` or with every file removed. The running size is then
/// the exact total of the kept files. A zero cap disables sweeping; the
/// running size is then the files' total (saturated to `u64`).
pub open spec fn is_sweep(files: Seq<FileStat>, cap: u64, order: Seq<usize>, after: u64) -> bool {
    &&& forall|a: int| 0 <= a < order.len() ==> order[a] < files.len()
    &&& forall|a: int, b: int| 0 <= a < b < order.len() ==> order[a] != order[b]
    &&& forall|a: int, b: int| 0 <= a < b < order.len() ==> files[order[a] as int].mtime <= files[order[b] as int].mtime
    &&& forall|a: int, j: int| #![trigger order[a], files[j]] 0 <= a < order.len() && 0 <= j < files.len() && !lists(order, j)
        ==> files[order[a] as int].mtime <= files[j].mtime
    &&& forall|t: int| 0 <= t < order.len() ==> kept_total(files, order.take(t), files.len() as int) > cap
    &&& if cap == 0 {
        &&& order.len() == 0
        &&& after == if files_total(files) > u64::MAX { u64::MAX as int } else { files_total(files) }
    } else {
        &&& after == kept_total(files, order, files.len() as int)
        &&& (after <= cap || forall|j: int| 0 <= j < files.len() ==> #[trigger] lists(order, j))
    }
}

/// How many entries of `s` are `false`.
pub open spec fn unremoved(s: Seq<bool>) -> nat
    decreases s.len(),
{
    if s.len() == 0 {
        0
    } else {
        unremoved(s.drop_last()) + if s.last() {
            0nat
        } else {
            1nat
        }
    }
}

proof fn lemma_unremoved_set(s: Seq<bool>, k: int)
    requires
        0 <= k < s.len(),
        !s[k],
    ensures
        unremoved(s.update(k, true)) + 1 == unremoved(s),
    decreases s.len(),
{
    let t = s.update(k, true);
    if k < s.len() - 1 {
        assert(t.drop_last() =~= s.drop_last().update(k, true));
        lemma_unremoved_set(s.drop_last(), k);
    } else {
        assert(t.drop_last() =~= s.drop_last());
    }
}

proof fn lemma_unremoved_all(s: Seq<bool>)
    requires
        forall|j: int| 0 <= j < s.len() ==> !s[j],
    ensures
        unremoved(s) == s.len(),
    decreases s.len(),
{
    if s.len() > 0 {
        lemma_unremoved_all(s.drop_last());
    }
}

/// The total length of `files`, exactly.
fn total_len(files: &Vec<FileStat>) -> (r: u128)
    ensures
        r == files_total(files@),
{
    let mut total: u128 = 0;
    let mut i: usize = 0;
    while i < files.len()
        invariant
            i <= files@.len(),
            total == kept_total(files@, seq![], i as int),
            total <= i * 0xffff_ffff_ffff_ffffnat,
        decreases files.len() - i,
    {
        assert(!lists(seq![], i as int));
        let len = files[i].len;
        proof {
            assert(total + len <= (i + 1) * 0xffff_ffff_ffff_ffffnat) by (nonlinear_arith)
                requires
                    total <= i * 0xffff_ffff_ffff_ffffnat,
                    len <= 0xffff_ffff_ffff_ffffnat,
            ;
            assert((i + 1) * 0xffff_ffff_ffff_ffffnat < 0x1_0000_0000_0000_0000_0000_0000_0000_0000nat) by (nonlinear_arith)
                requires
                    i < 0x1_0000_0000_0000_0000nat,
            ;
        }
        total = total + len as u128;
        i = i + 1;
    }
    total
}

/// Picks the files a sweep removes and the exact size it leaves (see `is_sweep`).
pub fn plan_sweep(files: &Vec<FileStat>, cap: u64) -> (r: (Vec<usize>, u64))
    ensures
        is_sweep(files@, cap, r.0@, r.1),
{
    let mut order: Vec<usize> = Vec::new();
    let mut cur: u128 = total_len(files);
    proof {
        assert(order@ =~= seq![]);
    }
    if cap == 0 {
        let after: u64 = if cur > 0xffff_ffff_ffff_ffffu128 {
            0xffff_ffff_ffff_ffffu64
        } else {
            cur as u64
        };
        return (order, after);
    }
    let mut removed: Vec<bool> = Vec::new();
    let mut i: usize = 0;
    while i < files.len()
        invariant
            i <= files@.len(),
            removed@.len() == i,
            forall|j: int| 0 <= j < i ==> !removed@[j],
        decreases files.len() - i,
    {
        removed.push(false);
        i = i + 1;
    }
    proof {
        lemma_unremoved_all(removed@);
    }
    while cur > cap as u128
        invariant
            cap > 0,
            removed@.len() == files@.len(),
            order@.len() + unremoved(removed@) == files@.len(),
            forall|j: int| 0 <= j < files@.len() ==> (removed@[j] <==> #[trigger] lists(order@, j)),
            forall|a: int| 0 <= a < order@.len() ==> order@[a] < files@.len(),
            forall|a: int, b: int| 0 <= a < b < order@.len() ==> order@[a] != order@[b],
            forall|a: int, b: int| 0 <= a < b < order@.len() ==> files@[order@[a] as int].mtime <= files@[order@[b] as int].mtime,
            forall|a: int, j: int| #![trigger order@[a], files@[j]] 0 <= a < order@.len() && 0 <= j < files@.len() && !lists(order@, j)
                ==> files@[order@[a] as int].mtime <= files@[j].mtime,
            cur == kept_total(files@, order@, files@.len() as int),
            forall|t: int| 0 <= t < order@.len() ==> kept_total(files@, order@.take(t), files@.len() as int) > cap,
        ensures
            cur <= cap || forall|j: int| 0 <= j < files@.len() ==> #[trigger] lists(order@, j),
        decreases unremoved(removed@),
    {
        // the oldest file left; among equally old ones the largest, then the first
        let mut pick: Option<usize> = None;
        let mut j: usize = 0;
        while j < files.len()
            invariant
                j <= files@.len(),
                removed@.len() == files@.len(),
                pick matches Some(p) ==> p < j && !removed@[p as int] && forall|t: int| 0 <= t < j && !removed@[t] ==> files@[p as int].mtime <= files@[t].mtime,
                pick is None ==> forall|t: int| 0 <= t < j ==> removed@[t],
            decreases files.len() - j,
        {
            if !removed[j] {
                match pick {
                    None => {
                        pick = Some(j);
                    },
                    Some(p) => {
                        if files[j].mtime < files[p].mtime || (files[j].mtime == files[p].mtime
                            && files[j].len > files[p].len) {
                            pick = Some(j);
                        }
                    },
                }
            }
            j = j + 1;
        }
        let k = match pick {
            None => {
                assert forall|t: int| 0 <= t < files@.len() implies #[trigger] lists(order@, t) by {
                    assert(removed@[t]);
                }
                break;
            },
            Some(k) => k,
        };
        let ghost old_order = order@;
        assert(!lists(old_order, k as int));
        proof {
            lemma_unremoved_set(removed@, k as int);
            lemma_kept_push(files@, old_order, k, files@.len() as int);
            lemma_kept_nonneg(files@, old_order.push(k), files@.len() as int);
        }
        order.push(k);
        removed.set(k, true);
        proof {
            assert(order@ =~= old_order.push(k));
            assert(order@.take(old_order.len() as int) =~= old_order);
            assert forall|t: int| 0 <= t < order@.len() implies kept_total(files@, order@.take(t), files@.len() as int) > cap by {
                if t < old_order.len() {
                    assert(order@.take(t) =~= old_order.take(t));
                }
            }
            assert forall|j: int| 0 <= j < files@.len() implies (removed@[j] <==> #[trigger] lists(order@, j)) by {
                if j != k {
                    if lists(order@, j) {
                        let a = choose|a: int| 0 <= a < order@.len() && order@[a] as int == j;
                        assert(old_order[a] as int == j);
                    }
                    if lists(old_order, j) {
                        let a = choose|a: int| 0 <= a < old_order.len() && old_order[a] as int == j;
                        assert(order@[a] as int == j);
                    }
                } else {
                    assert(order@[old_order.len() as int] == k);
                }
            }
            assert forall|a: int, j: int| #![trigger order@[a], files@[j]] 0 <= a < order@.len() && 0 <= j < files@.len() && !lists(order@, j)
                implies files@[order@[a] as int].mtime <= files@[j].mtime by {
                assert(!removed@[j]);
                if a < old_order.len() {
                    assert(order@[a] == old_order[a]);
                    assert(!lists(old_order, j)) by {
                        if lists(old_order, j) {
                            let b = choose|b: int| 0 <= b < old_order.len() && old_order[b] as int == j;
                            assert(order@[b] as int == j);
                        }
                    }
                }
            }
            assert forall|a: int, b: int| 0 <= a < b < order@.len()
                implies files@[order@[a] as int].mtime <= files@[order@[b] as int].mtime by {
                if b == old_order.len() {
                    assert(order@[b] == k);
                    assert(!lists(old_order, k as int));
                }
            }
        }
        cur = cur - files[k].len as u128;
    }
    proof {
        if !(cur <= cap) {
            lemma_kept_none(files@, order@, files@.len() as int);
        }
    }
    (order, cur as u64)
}

} // verus!

verus! {

/// The total length of all files.
pub open spec fn files_total(files: Seq<FileStat>) -> int {
    kept_total(files, seq![], files.len() as int)
}

proof fn lemma_kept_push(files: Seq<FileStat>, order: Seq<usize>, k: usize, n: int)
    requires
        !lists(order, k as int),
        0 <= n <= files.len(),
    ensures
        kept_total(files, order.push(k), n) + (if k < n { files[k as int].len as int } else { 0 })
            == kept_total(files, order, n),
    decreases n,
{
    if n > 0 {
        lemma_kept_push(files, order, k, n - 1);
        let o2 = order.push(k);
        assert(lists(o2, n - 1) <==> (lists(order, n - 1) || k as int == n - 1)) by {
            if lists(o2, n - 1) {
                let a = choose|a: int| 0 <= a < o2.len() && o2[a] as int == n - 1;
                if a < order.len() {
                    assert(order[a] == o2[a]);
                }
            }
            if lists(order, n - 1) {
                let a = choose|a: int| 0 <= a < order.len() && order[a] as int == n - 1;
                assert(o2[a] == order[a]);
            }
            if k as int == n - 1 {
                assert(o2[order.len() as int] == k);
            }
        }
    }
}

proof fn lemma_kept_none(files: Seq<FileStat>, order: Seq<usize>, n: int)
    requires
        0 <= n <= files.len(),
        forall|j: int| 0 <= j < files.len() ==> #[trigger] lists(order, j),
    ensures
        kept_total(files, order, n) == 0,
    decreases n,
{
    if n > 0 {
        lemma_kept_none(files, order, n - 1);
        assert(lists(order, n - 1));
    }
}

proof fn lemma_kept_nonneg(files: Seq<FileStat>, order: Seq<usize>, n: int)
    ensures
        kept_total(files, order, n) >= 0,
    decreases n,
{
    if n > 0 {
        lemma_kept_nonneg(files, order, n - 1);
    }
}

/// After a sweep the files it keeps hold at most `cap` bytes in total, and
/// the running size equals that total.
pub proof fn sweep_meets_cap(files: Seq<FileStat>, cap: u64, order: Seq<usize>, after: u64)
    requires
        is_sweep(files, cap, order, after),
        cap > 0,
    ensures
        kept_total(files, order, files.len() as int) <= cap,
        after == kept_total(files, order, files.len() as int),
{
    if !(after <= cap) {
        lemma_kept_none(files, order, files.len() as int);
    }
}

} // verus!

verus! {

/// `r` is what decoding `bytes` may give: the text that `bytes` encodes,
/// whenever they encode one.
pub open spec fn decodes_to(bytes: Seq<u8>, r: Option<String>) -> bool {
    &&& (r is Some || forall|s: Seq<char>| #[trigger] gzip_of(encode_utf8(s)) != bytes)
    &&& (r matches Some(t) ==> forall|s: Seq<char>| #[trigger] gzip_of(encode_utf8(s)) == bytes ==> t@ == s)
}

/// A stored file's bytes could not be decoded.
#[derive(Clone, Copy, Debug, PartialEq, Eq, Structural)]
pub struct CorruptEntry;

/// `r` is what reading a key's file may give: nothing without a file; with
/// one, the text its bytes encode, or `CorruptEntry` when they encode none.
pub open spec fn read_as(stored: Option<Seq<u8>>, r: Result<Option<String>, CorruptEntry>) -> bool {
    match stored {
        None => r == Ok::<Option<String>, CorruptEntry>(None),
        Some(b) => match r {
            Ok(Some(t)) => decodes_to(b, Some(t)),
            Ok(None) => false,
            Err(_) => decodes_to(b, None),
        },
    }
}

/// What `put` stores for `key` and `value` is read back by `get` as `value`,
/// from the file that `path_for(key)` names.
pub proof fn disk_cache_roundtrip(
    key: Seq<char>,
    value: Seq<char>,
    written: (Seq<char>, Seq<u8>),
    r: Result<Option<String>, CorruptEntry>,
)
    requires
        written.0 == entry_path(key),
        written.1 == gzip_of(encode_utf8(value)),
        read_as(Some(written.1), r),
    ensures
        r matches Ok(Some(t)) && t@ == value,
        written.0 == entry_path(key),
{
}

/// Settings of the durable tier. A zero `cap_bytes` disables it.
#[derive(Clone, Debug)]
pub struct DiskCacheConfig {
    pub root: String,
    pub cap_bytes: u64,
    pub sweep_interval_secs: u64,
}

/// The durable tier's own state: its settings and the running total of the
/// bytes it has written (approximate between sweeps).
pub struct DiskCache {
    pub cfg: DiskCacheConfig,
    pub size_bytes: u64,
}

impl DiskCache {
    /// A cache over `cfg`, starting from the `initial_size` bytes found under its root.
    pub fn new(cfg: DiskCacheConfig, initial_size: u64) -> (r: DiskCache)
        ensures
            r.cfg.cap_bytes == cfg.cap_bytes,
            r.cfg.root@ == cfg.root@,
            r.cfg.sweep_interval_secs == cfg.sweep_interval_secs,
            r.size_bytes == initial_size,
    {
        DiskCache { cfg, size_bytes: initial_size }
    }

    /// Whether the tier is in use, and a sweeper runs: only with a nonzero cap.
    pub fn is_enabled(&self) -> (r: bool)
        ensures
            r == (self.cfg.cap_bytes > 0),
    {
        self.cfg.cap_bytes > 0
    }

    /// The path of `key`'s file below the root (see `entry_path`).
    pub fn path_for(&self, key: &str) -> (r: String)
        ensures
            r@ == entry_path(key@),
    {
        entry_relative_path(key)
    }

    /// The entry to store for `key`: the file below the root that holds it
    /// (see `entry_path`) and its bytes, the UTF-8 text of `value`
    /// gzip-compressed. The caller writes them and then counts them with `record_write`.
    pub fn put(&self, key: &str, value: &str) -> (r: (String, Vec<u8>))
        ensures
            r.0@ == entry_path(key@),
            r.1@ == gzip_of(encode_utf8(value@)),
    {
        let bytes = match gzip_bytes(value.as_bytes()) {
            Some(b) => b,
            None => {
                assert(false);
                Vec::new()
            },
        };
        (entry_relative_path(key), bytes)
    }

    /// The value held in the file of a key, given that file's bytes (`None`
    /// when there is no such file); `CorruptEntry` when they are no gzip
    /// stream of UTF-8 text.
    pub fn get(&self, stored: Option<&[u8]>) -> (r: Result<Option<String>, CorruptEntry>)
        ensures
            read_as(
                match stored {
                    Some(b) => Some(b@),
                    None => None,
                },
                r,
            ),
    {
        match stored {
            None => Ok(None),
            Some(b) => match gunzip_text(b) {
                Some(t) => Ok(Some(t)),
                None => Err(CorruptEntry),
            },
        }
    }

    /// Counts a write of `len` bytes into the running total, saturating.
    pub fn record_write(&mut self, len: u64)
        ensures
            final(self).size_bytes == if old(self).size_bytes + len > u64::MAX {
                u64::MAX as int
            } else {
                old(self).size_bytes + len
            },
            final(self).cfg == old(self).cfg,
    {
        self.size_bytes = self.size_bytes.saturating_add(len);
    }

    /// Whether a sweep has work: the tier is enabled and the total is over the cap.
    pub fn needs_sweep(&self) -> (r: bool)
        ensures
            r == (self.cfg.cap_bytes > 0 && self.size_bytes > self.cfg.cap_bytes),
    {
        self.cfg.cap_bytes > 0 && self.size_bytes > self.cfg.cap_bytes
    }

    /// Plans a sweep over the files found under the root and resets the
    /// running size to the exact total of the files it keeps; returns the
    /// indices to delete, oldest first.
    pub fn sweep(&mut self, files: &Vec<FileStat>) -> (r: Vec<usize>)
        ensures
            is_sweep(files@, old(self).cfg.cap_bytes, r@, final(self).size_bytes),
            final(self).cfg == old(self).cfg,
    {
        let (order, after) = plan_sweep(files, self.cfg.cap_bytes);
        self.size_bytes = after;
        order
    }
}

} // verus!
