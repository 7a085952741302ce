//! Reconstruction of per-account ledger state from a point-in-time snapshot.
//!
//! A snapshot is a container (a loose directory tree or a tape archive)
//! holding one manifest and a set of append-only shards.  The library
//! decodes the shard record format, parses the manifest into a
//! storage-entry directory, validates candidate shards against that
//! directory, and dispatches accepted shards to consumers.

use vstd::prelude::*;

pub mod append_vec;
pub mod archived;
pub mod parallel;
pub mod solana;
pub mod unpacked;

use crate::append_vec::AppendVec;
use crate::append_vec::AppendVecView;
use crate::append_vec::StoredAccountMeta;
use crate::append_vec::spec_record_at;
use crate::append_vec::spec_record_offsets_from;
use crate::append_vec::spec_records_from;

verus! {

/// Failure taxonomy for snapshot extraction.  Every error is fatal for
/// the scan that produced it; no stage retries.
#[derive(Debug)]
pub enum SnapshotError {
    /// An underlying reader failed, a declared file was absent, or a
    /// source ended before every declared shard arrived.
    IOError,
    /// The manifest bytes did not deserialize: unsupported version tag,
    /// truncated field, or a malformed storage-entry table.
    DeserializeError,
    /// The container ended without a manifest member ever resolving.
    NoSnapshotManifest,
    /// A container member held a shard the directory does not declare,
    /// declares with a different length, or that arrived out of order.
    UnexpectedAppendVec,
    /// Construction of a read-progress tracker failed.
    ReadProgressTracking(String),
}

pub type SnapshotResult<T> = Result<T, SnapshotError>;

/// Whether `c` is an ASCII decimal digit.
pub open spec fn spec_is_digit(c: u8) -> bool {
    48 <= c && c <= 57
}

/// Value of the digit string `s` read in base 10, most significant
/// digit first.
pub open spec fn spec_dec_value(s: Seq<u8>) -> int
    decreases s.len(),
{
    if s.len() == 0 {
        0
    } else {
        spec_dec_value(s.drop_last()) * 10 + (s.last() - 48)
    }
}

/// The unsigned 64-bit number denoted by `s` in canonical decimal:
/// defined when `s` is non-empty, all digits, without leading zeros
/// (`0` itself is the one value that starts with a zero), and the
/// value fits.
pub open spec fn spec_parse_u64_dec(s: Seq<u8>) -> Option<u64> {
    if s.len() > 0 && (forall|i: int| 0 <= i < s.len() ==> spec_is_digit(#[trigger] s[i]))
        && (s.len() == 1 || s[0] != 48) && spec_dec_value(s) <= u64::MAX {
        Some(spec_dec_value(s) as u64)
    } else {
        None
    }
}

/// A string of digits denotes a nonnegative value.
proof fn lemma_dec_value_nonneg(s: Seq<u8>)
    requires
        forall|j: int| 0 <= j < s.len() ==> spec_is_digit(#[trigger] s[j]),
    ensures
        spec_dec_value(s) >= 0,
    decreases s.len(),
{
    if s.len() > 0 {
        lemma_dec_value_nonneg(s.drop_last());
    }
}

/// Extending a digit string never shrinks its value.
proof fn lemma_dec_value_prefix(s: Seq<u8>, i: int)
    requires
        0 <= i <= s.len(),
        forall|j: int| 0 <= j < s.len() ==> spec_is_digit(#[trigger] s[j]),
    ensures
        spec_dec_value(s.subrange(0, i)) <= spec_dec_value(s),
    decreases s.len() - i,
{
    if i < s.len() {
        let p = s.subrange(0, i);
        let q = s.subrange(0, i + 1);
        assert(q.drop_last() =~= p);
        assert forall|j: int| 0 <= j < p.len() implies spec_is_digit(#[trigger] p[j]) by {
            assert(p[j] == s[j]);
        }
        lemma_dec_value_nonneg(p);
        assert(spec_dec_value(p) <= spec_dec_value(q));
        lemma_dec_value_prefix(s, i + 1);
        assert(s.subrange(0, s.len() as int) =~= s);
    } else {
        assert(s.subrange(0, i) =~= s);
    }
}

/// Parse a decimal `u64`, accepting exactly the strings for which
/// `spec_parse_u64_dec` is defined.
pub fn parse_u64_dec(s: &[u8]) -> (r: Option<u64>)
    ensures
        r == spec_parse_u64_dec(s@),
{
    if s.len() == 0 {
        return None;
    }
    if s.len() > 1 && s[0] == 48 {
        return None;
    }
    let mut acc: u64 = 0;
    let mut i: usize = 0;
    while i < s.len()
        invariant
            0 <= i <= s@.len(),
            forall|j: int| 0 <= j < i ==> spec_is_digit(#[trigger] s@[j]),
            acc == spec_dec_value(s@.subrange(0, i as int)),
        decreases s@.len() - i,
    {
        let c = s[i];
        if c < 48 || c > 57 {
            return None;
        }
        let d: u64 = (c - 48) as u64;
        let shifted = match acc.checked_mul(10) {
            Some(v) => v,
            None => {
                proof {
                    let p = s@.subrange(0, i as int);
                    let q = s@.subrange(0, i as int + 1);
                    assert(q.drop_last() =~= p);
                    assert(spec_dec_value(q) > u64::MAX);
                    if forall|j: int| 0 <= j < s@.len() ==> spec_is_digit(#[trigger] s@[j]) {
                        lemma_dec_value_prefix(s@, i as int + 1);
                    }
                }
                return None;
            },
        };
        let acc2 = match shifted.checked_add(d) {
            Some(v) => v,
            None => {
                proof {
                    let p = s@.subrange(0, i as int);
                    let q = s@.subrange(0, i as int + 1);
                    assert(q.drop_last() =~= p);
                    assert(spec_dec_value(q) > u64::MAX);
                    if forall|j: int| 0 <= j < s@.len() ==> spec_is_digit(#[trigger] s@[j]) {
                        lemma_dec_value_prefix(s@, i as int + 1);
                    }
                }
                return None;
            },
        };
        proof {
            let p = s@.subrange(0, i as int);
            let q = s@.subrange(0, i as int + 1);
            assert(q.drop_last() =~= p);
        }
        acc = acc2;
        i = i + 1;
    }
    proof {
        assert(s@.subrange(0, i as int) =~= s@);
    }
    Some(acc)
}

/// First index of byte `c` in `s` at or after `i`.
pub open spec fn spec_find_byte(s: Seq<u8>, c: u8, i: int) -> Option<int>
    decreases s.len() - i,
{
    if i < 0 || i >= s.len() {
        None
    } else if s[i] == c {
        Some(i)
    } else {
        spec_find_byte(s, c, i + 1)
    }
}

/// The `(slot, id)` pair denoted by a shard member name: decimal slot,
/// one separating period, decimal id.  Anything else — no period, an
/// empty side, a stray character, a second period, a leading zero, a
/// value that does not fit — denotes nothing.
pub open spec fn spec_parse_append_vec_name(s: Seq<u8>) -> Option<(u64, u64)> {
    match spec_find_byte(s, 46, 0) {
        None => None,
        Some(k) => match (
            spec_parse_u64_dec(s.subrange(0, k)),
            spec_parse_u64_dec(s.subrange(k + 1, s.len() as int)),
        ) {
            (Some(slot), Some(id)) => Some((slot, id)),
            _ => None,
        },
    }
}

/// First index of byte `c` in `s`, front to back.
pub fn find_byte(s: &[u8], c: u8) -> (r: Option<usize>)
    ensures
        match r {
            Some(k) => k < s@.len() && spec_find_byte(s@, c, 0) == Some(k as int),
            None => spec_find_byte(s@, c, 0) is None,
        },
{
    let mut i: usize = 0;
    while i < s.len()
        invariant
            0 <= i <= s@.len(),
            spec_find_byte(s@, c, 0) == spec_find_byte(s@, c, i as int),
        decreases s@.len() - i,
    {
        if s[i] == c {
            return Some(i);
        }
        i = i + 1;
    }
    None
}

/// Parse a shard file or member name of the form `<slot>.<id>`.
pub fn parse_append_vec_name(name: &[u8]) -> (r: Option<(u64, u64)>)
    ensures
        r == spec_parse_append_vec_name(name@),
{
    let n = name.len();
    match find_byte(name, 46) {
        None => None,
        Some(k) => {
            let slot = parse_u64_dec(vstd::slice::slice_subrange(name, 0, k));
            let id = parse_u64_dec(vstd::slice::slice_subrange(name, k + 1, n));
            match (slot, id) {
                (Some(slot), Some(id)) => Some((slot, id)),
                _ => None,
            }
        },
    }
}

/// What kind of snapshot source a locator names.
#[derive(PartialEq, Eq, Structural, Clone, Copy, Debug)]
pub enum SourceKind {
    /// An `http://` or `https://` locator: an archive streamed over
    /// the network, read strictly forward.
    Url,
    /// A directory on disk: an unpacked snapshot tree.
    UnpackedDir,
    /// Any other file: a seekable archive.
    ArchiveFile,
}

/// Whether `s` starts with the bytes of `http://` or `https://`.
pub open spec fn spec_is_url(s: Seq<u8>) -> bool {
    ||| (s.len() >= 7 && s.subrange(0, 7) == seq![104u8, 116u8, 116u8, 112u8, 58u8, 47u8, 47u8])
    ||| (s.len() >= 8 && s.subrange(0, 8) == seq![
        104u8,
        116u8,
        116u8,
        112u8,
        115u8,
        58u8,
        47u8,
        47u8,
    ])
}

/// Classification of a snapshot source: a locator with an `http` or
/// `https` scheme is streamed, a directory (`is_dir` is the caller's
/// file-system answer) is an unpacked tree, anything else is a
/// seekable archive file.
pub open spec fn spec_classify_source(source: Seq<u8>, is_dir: bool) -> SourceKind {
    if spec_is_url(source) {
        SourceKind::Url
    } else if is_dir {
        SourceKind::UnpackedDir
    } else {
        SourceKind::ArchiveFile
    }
}

/// Decide which extractor variant a snapshot source calls for.
pub fn classify_source(source: &[u8], is_dir: bool) -> (r: SourceKind)
    ensures
        r == spec_classify_source(source@, is_dir),
{
    let http = source.len() >= 7 && source[0] == 104 && source[1] == 116 && source[2] == 116
        && source[3] == 112 && source[4] == 58 && source[5] == 47 && source[6] == 47;
    let https = source.len() >= 8 && source[0] == 104 && source[1] == 116 && source[2] == 116
        && source[3] == 112 && source[4] == 115 && source[5] == 58 && source[6] == 47 && source[7]
        == 47;
    proof {
        if http {
            assert(source@.subrange(0, 7) =~= seq![104u8, 116u8, 116u8, 112u8, 58u8, 47u8, 47u8]);
        } else if source@.len() >= 7 {
            assert(source@.subrange(0, 7)[0] == source@[0]);
            assert(source@.subrange(0, 7)[1] == source@[1]);
            assert(source@.subrange(0, 7)[2] == source@[2]);
            assert(source@.subrange(0, 7)[3] == source@[3]);
            assert(source@.subrange(0, 7)[4] == source@[4]);
            assert(source@.subrange(0, 7)[5] == source@[5]);
            assert(source@.subrange(0, 7)[6] == source@[6]);
        }
        if https {
            assert(source@.subrange(0, 8) =~= seq![
                104u8,
                116u8,
                116u8,
                112u8,
                115u8,
                58u8,
                47u8,
                47u8,
            ]);
        } else if source@.len() >= 8 {
            assert(source@.subrange(0, 8)[0] == source@[0]);
            assert(source@.subrange(0, 8)[1] == source@[1]);
            assert(source@.subrange(0, 8)[2] == source@[2]);
            assert(source@.subrange(0, 8)[3] == source@[3]);
            assert(source@.subrange(0, 8)[4] == source@[4]);
            assert(source@.subrange(0, 8)[5] == source@[5]);
            assert(source@.subrange(0, 8)[6] == source@[6]);
            assert(source@.subrange(0, 8)[7] == source@[7]);
        }
    }
    if http || https {
        SourceKind::Url
    } else if is_dir {
        SourceKind::UnpackedDir
    } else {
        SourceKind::ArchiveFile
    }
}

/// Enumerate the records of `append_vec` eagerly by offset, decoding
/// lazily: the i-th handle holds the i-th record's start offset, so
/// accessing the handles in order decodes exactly the shard's record
/// sequence.
pub fn append_vec_iter<'a>(append_vec: &'a AppendVec) -> (r: Vec<StoredAccountMetaHandle<'a>>)
    ensures
        r@.len() == spec_record_offsets_from(append_vec@.bytes, 0).len(),
        r@.len() == spec_records_from(append_vec@.bytes, 0).len(),
        forall|i: int|
            0 <= i < r@.len() ==> (#[trigger] r@[i]).spec_append_vec() == append_vec@
                && r@[i].spec_offset() as int == spec_record_offsets_from(append_vec@.bytes, 0)[i],
        forall|i: int|
            0 <= i < r@.len() ==> spec_record_at(
                append_vec@.bytes,
                (#[trigger] r@[i]).spec_offset() as int,
            ) == Some(spec_records_from(append_vec@.bytes, 0)[i]),
{
    proof {
        crate::append_vec::lemma_offsets_decode(append_vec@.bytes, 0);
    }
    let ghost b = append_vec@.bytes;
    let mut handles: Vec<StoredAccountMetaHandle<'a>> = Vec::new();
    let mut offset: usize = 0;
    loop
        invariant
            offset <= b.len() + 7,
            append_vec@.bytes == b,
            spec_record_offsets_from(b, 0) =~= handles@.map_values(
                |h: StoredAccountMetaHandle| h.spec_offset() as int,
            ) + spec_record_offsets_from(b, offset as int),
            forall|i: int|
                0 <= i < handles@.len() ==> (#[trigger] handles@[i]).spec_append_vec()
                    == append_vec@,
        ensures
            spec_record_at(b, offset as int) is None,
        decreases b.len() + 7 - offset,
    {
        match append_vec.get_account(offset) {
            None => {
                break;
            },
            Some((_, next_offset)) => {
                let h = StoredAccountMetaHandle::new(append_vec, offset);
                proof {
                    assert(handles@.push(h).map_values(
                        |hh: StoredAccountMetaHandle| hh.spec_offset() as int,
                    ) =~= handles@.map_values(|hh: StoredAccountMetaHandle| hh.spec_offset() as int)
                        + seq![offset as int]);
                }
                handles.push(h);
                offset = next_offset;
            },
        }
    }
    proof {
        let offs = spec_record_offsets_from(b, 0);
        let mapped = handles@.map_values(|h: StoredAccountMetaHandle| h.spec_offset() as int);
        assert(offs =~= mapped);
        assert forall|i: int| 0 <= i < handles@.len() implies handles@[i].spec_offset() as int
            == offs[i] by {
            assert(mapped[i] == handles@[i].spec_offset() as int);
        }
        assert forall|i: int| 0 <= i < handles@.len() implies spec_record_at(
            b,
            handles@[i].spec_offset() as int,
        ) == Some(spec_records_from(b, 0)[i]) by {
            assert(spec_record_at(b, offs[i]) == Some(spec_records_from(b, 0)[i]));
        }
    }
    handles
}

/// A deferred-access pair: a shard reference and a record start offset,
/// decoded on access rather than up front.
pub struct StoredAccountMetaHandle<'a> {
    append_vec: &'a AppendVec,
    offset: usize,
}

impl<'a> StoredAccountMetaHandle<'a> {
    /// The shard this handle points into.
    pub closed spec fn spec_append_vec(self) -> AppendVecView {
        self.append_vec@
    }

    /// The record start offset this handle holds.
    pub closed spec fn spec_offset(self) -> usize {
        self.offset
    }

    pub fn new(append_vec: &'a AppendVec, offset: usize) -> (r: StoredAccountMetaHandle<'a>)
        ensures
            r.spec_append_vec() == append_vec@,
            r.spec_offset() == offset,
    {
        StoredAccountMetaHandle { append_vec, offset }
    }

    /// Decode the record this handle refers to, or `None` if no
    /// complete record starts at the held offset.
    pub fn access(&self) -> (r: Option<StoredAccountMeta>)
        ensures
            match r {
                Some(meta) => spec_record_at(self.spec_append_vec().bytes, self.spec_offset() as int)
                    == Some(meta@),
                None => spec_record_at(self.spec_append_vec().bytes, self.spec_offset() as int)
                    is None,
            },
    {
        match self.append_vec.get_account(self.offset) {
            Some((meta, _)) => Some(meta),
            None => None,
        }
    }
}

} // verus!
