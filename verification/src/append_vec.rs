//! Decoder for the append-only shard format.
//!
//! A shard (append vec) is an immutable byte buffer holding a sequential
//! run of records.  Each record is a fixed 136-byte header followed by a
//! data slice of the declared length; record starts are aligned to 8
//! bytes.  Decoding stops, without error, at the first offset where no
//! complete record fits in the remaining bytes.

use vstd::prelude::*;
use vstd::bytes::spec_u64_from_le_bytes;
use vstd::bytes::u64_from_le_bytes;
use vstd::slice::slice_subrange;
use vstd::slice::slice_to_vec;

verus! {

/// Bytes from a record's start to the start of its data slice.
pub const RECORD_HEADER_LEN: usize = 136;

/// Record starts are aligned to this many bytes.
pub const ALIGN: usize = 8;

/// Mathematical value of one decoded record.
pub ghost struct RecordView {
    pub write_version: u64,
    pub data_len: u64,
    pub pubkey: Seq<u8>,
    pub lamports: u64,
    pub rent_epoch: u64,
    pub owner: Seq<u8>,
    pub executable: bool,
    pub data: Seq<u8>,
}

/// Round `x` up to the next multiple of 8.
pub open spec fn spec_align8(x: int) -> int {
    if x % 8 == 0 {
        x
    } else {
        x + (8 - x % 8)
    }
}

/// The unsigned 64-bit little-endian integer stored at byte offset `i`.
pub open spec fn spec_u64_at(b: Seq<u8>, i: int) -> u64 {
    spec_u64_from_le_bytes(b.subrange(i, i + 8))
}

/// The declared data length of the record starting at `off`.
pub open spec fn spec_data_len_at(b: Seq<u8>, off: int) -> u64 {
    spec_u64_at(b, off + 8)
}

/// Whether a complete record (header plus declared data) starts at `off`.
pub open spec fn spec_record_fits(b: Seq<u8>, off: int) -> bool {
    &&& 0 <= off
    &&& off + RECORD_HEADER_LEN <= b.len()
    &&& off + RECORD_HEADER_LEN + spec_data_len_at(b, off) <= b.len()
}

/// The record starting at `off`, or `None` if no complete record fits
/// there.  Header layout, in byte offsets from the record start:
/// 0 write-version, 8 declared data length, 16 account identity key,
/// 48 lamport balance, 56 rent epoch, 64 owner identity key,
/// 96 executable flag (one byte; the rest of the header is padding and
/// reserved bytes that decoding ignores), 136 start of the data slice.
pub open spec fn spec_record_at(b: Seq<u8>, off: int) -> Option<RecordView> {
    if spec_record_fits(b, off) {
        Some(RecordView {
            write_version: spec_u64_at(b, off),
            data_len: spec_data_len_at(b, off),
            pubkey: b.subrange(off + 16, off + 48),
            lamports: spec_u64_at(b, off + 48),
            rent_epoch: spec_u64_at(b, off + 56),
            owner: b.subrange(off + 64, off + 96),
            executable: b[off + 96] != 0,
            data: b.subrange(off + 136, off + 136 + spec_data_len_at(b, off)),
        })
    } else {
        None
    }
}

/// The aligned offset of the record following the one at `off`.
pub open spec fn spec_next_offset(b: Seq<u8>, off: int) -> int {
    spec_align8(off + RECORD_HEADER_LEN + spec_data_len_at(b, off))
}

/// Mathematical value of one shard: its `(slot, id)` tag and its bytes.
pub ghost struct AppendVecView {
    pub slot: u64,
    pub id: u64,
    pub bytes: Seq<u8>,
}

/// One append-only shard: an immutable byte buffer tagged `(slot, id)`.
/// Only bytes within the buffer are ever interpreted; offset 0 is the
/// first record's start.
pub struct AppendVec {
    slot: u64,
    id: u64,
    buf: Vec<u8>,
}

impl View for AppendVec {
    type V = AppendVecView;

    closed spec fn view(&self) -> AppendVecView {
        AppendVecView { slot: self.slot, id: self.id, bytes: self.buf@ }
    }
}

impl AppendVec {
    /// Buffers are bounded so that aligning an in-range offset up to the
    /// next multiple of 8 cannot overflow a `usize`.
    #[verifier::type_invariant]
    spec fn inv(self) -> bool {
        self.buf@.len() + 7 <= usize::MAX
    }

    pub fn new(slot: u64, id: u64, buf: Vec<u8>) -> (r: AppendVec)
        requires
            buf@.len() + 7 <= usize::MAX,
        ensures
            r@ == (AppendVecView { slot, id, bytes: buf@ }),
    {
        AppendVec { slot, id, buf }
    }

    pub fn slot(&self) -> (r: u64)
        ensures
            r == self@.slot,
    {
        self.slot
    }

    pub fn id(&self) -> (r: u64)
        ensures
            r == self@.id,
    {
        self.id
    }

    pub fn len(&self) -> (r: usize)
        ensures
            r == self@.bytes.len(),
    {
        self.buf.len()
    }

    /// The shard's raw bytes.
    pub fn bytes(&self) -> (r: &Vec<u8>)
        ensures
            r@ == self@.bytes,
    {
        &self.buf
    }

    /// Decode the record starting at `offset`, returning it together
    /// with the aligned offset of the following record.  Returns `None`
    /// exactly when no complete record (header plus its declared data)
    /// fits in the remaining bytes: the normal end-of-shard condition,
    /// which also silently drops a corrupt tail record whose declared
    /// length overruns the buffer.
    pub fn get_account(&self, offset: usize) -> (r: Option<(StoredAccountMeta, usize)>)
        ensures
            match r {
                Some((meta, next)) => {
                    &&& spec_record_at(self@.bytes, offset as int) == Some(meta@)
                    &&& next as int == spec_next_offset(self@.bytes, offset as int)
                    &&& offset < next
                },
                None => spec_record_at(self@.bytes, offset as int) is None,
            },
    {
        proof {
            use_type_invariant(self);
        }
        let buf_len = self.buf.len();
        if offset >= buf_len || buf_len - offset < RECORD_HEADER_LEN {
            return None;
        }
        let avail: usize = buf_len - offset - RECORD_HEADER_LEN;
        let data_len = u64_from_le_bytes(slice_subrange(self.buf.as_slice(), offset + 8, offset + 16));
        if data_len > avail as u64 {
            return None;
        }
        let data_len_usize: usize = data_len as usize;
        let write_version = u64_from_le_bytes(slice_subrange(self.buf.as_slice(), offset, offset + 8));
        let pubkey = slice_to_vec(slice_subrange(self.buf.as_slice(), offset + 16, offset + 48));
        let lamports = u64_from_le_bytes(slice_subrange(self.buf.as_slice(), offset + 48, offset + 56));
        let rent_epoch = u64_from_le_bytes(slice_subrange(self.buf.as_slice(), offset + 56, offset + 64));
        let owner = slice_to_vec(slice_subrange(self.buf.as_slice(), offset + 64, offset + 96));
        let executable = *vstd::slice::slice_index_get(self.buf.as_slice(), offset + 96) != 0;
        let data_end: usize = offset + RECORD_HEADER_LEN + data_len_usize;
        let data = slice_to_vec(slice_subrange(self.buf.as_slice(), offset + RECORD_HEADER_LEN, data_end));
        let rem: usize = data_end % ALIGN;
        let next: usize = if rem == 0 {
            data_end
        } else {
            data_end + (ALIGN - rem)
        };
        let meta = StoredAccountMeta {
            write_version,
            data_len,
            pubkey,
            lamports,
            rent_epoch,
            owner,
            executable,
            data,
        };
        Some((meta, next))
    }
}

/// Offsets of every record in `b`, starting the walk at `off`: `off`
/// itself if a complete record starts there, then the records after it.
pub open spec fn spec_record_offsets_from(b: Seq<u8>, off: int) -> Seq<int>
    decreases b.len() + 7 - off,
{
    match spec_record_at(b, off) {
        None => Seq::empty(),
        Some(_) => seq![off] + spec_record_offsets_from(b, spec_next_offset(b, off)),
    }
}

/// Every record decoded from `b` by a walk starting at `off`.
pub open spec fn spec_records_from(b: Seq<u8>, off: int) -> Seq<RecordView>
    decreases b.len() + 7 - off,
{
    match spec_record_at(b, off) {
        None => Seq::empty(),
        Some(r) => seq![r] + spec_records_from(b, spec_next_offset(b, off)),
    }
}

/// The record walk visits offsets and records in lockstep: the record
/// at the i-th visited offset is the i-th decoded record.
pub proof fn lemma_offsets_decode(b: Seq<u8>, off: int)
    ensures
        spec_record_offsets_from(b, off).len() == spec_records_from(b, off).len(),
        forall|i: int|
            0 <= i < spec_record_offsets_from(b, off).len() ==> spec_record_at(
                b,
                #[trigger] spec_record_offsets_from(b, off)[i],
            ) == Some(spec_records_from(b, off)[i]),
    decreases b.len() + 7 - off,
{
    match spec_record_at(b, off) {
        None => {},
        Some(_) => {
            lemma_offsets_decode(b, spec_next_offset(b, off));
        },
    }
}

/// `r` is stored at `off` in `b` with a correct header: every header
/// field holds `r`'s value, the declared length equals the length of
/// `r`'s data, and the data slice follows the header.
pub open spec fn spec_record_encoded_at(b: Seq<u8>, off: int, r: RecordView) -> bool {
    &&& 0 <= off
    &&& off + RECORD_HEADER_LEN + r.data.len() <= b.len()
    &&& spec_u64_at(b, off) == r.write_version
    &&& spec_u64_at(b, off + 8) == r.data_len
    &&& r.data_len == r.data.len()
    &&& b.subrange(off + 16, off + 48) == r.pubkey
    &&& spec_u64_at(b, off + 48) == r.lamports
    &&& spec_u64_at(b, off + 56) == r.rent_epoch
    &&& b.subrange(off + 64, off + 96) == r.owner
    &&& (b[off + 96] != 0) == r.executable
    &&& b.subrange(off + 136, off + 136 + r.data.len()) == r.data
}

/// The bytes of `b` from `off` on are a concatenation of the records
/// `rs`, each with a correct header, each start aligned by advancing
/// `spec_align8` past the previous record, with less than one header of
/// trailing padding after the last record.
pub open spec fn spec_records_encoded_from(b: Seq<u8>, off: int, rs: Seq<RecordView>) -> bool
    decreases rs.len(),
{
    if rs.len() == 0 {
        b.len() < off + RECORD_HEADER_LEN
    } else {
        &&& spec_record_encoded_at(b, off, rs[0])
        &&& spec_records_encoded_from(
            b,
            spec_align8(off + RECORD_HEADER_LEN + rs[0].data.len()),
            rs.drop_first(),
        )
    }
}

/// Law: for any buffer built by concatenating records with correct
/// headers and 8-byte-aligned padding, the decoder walk yields exactly
/// those records, in order, with byte-identical data slices.
pub proof fn lemma_decoder_yields_concatenation(b: Seq<u8>, off: int, rs: Seq<RecordView>)
    requires
        spec_records_encoded_from(b, off, rs),
    ensures
        spec_records_from(b, off) == rs,
    decreases rs.len(),
{
    if rs.len() == 0 {
        assert(spec_records_from(b, off) =~= rs);
    } else {
        let r = rs[0];
        assert(spec_record_fits(b, off));
        assert(spec_record_at(b, off) == Some(r));
        assert(spec_next_offset(b, off) == spec_align8(off + RECORD_HEADER_LEN + r.data.len()));
        lemma_decoder_yields_concatenation(b, spec_next_offset(b, off), rs.drop_first());
        assert(spec_records_from(b, off) =~= rs);
    }
}

/// Law: a record whose declared data length is zero decodes to an empty
/// data slice, and the walk continues at the aligned end of the header
/// alone.
pub proof fn lemma_empty_data_record(b: Seq<u8>, off: int)
    requires
        spec_record_at(b, off) is Some,
        spec_data_len_at(b, off) == 0,
    ensures
        spec_record_at(b, off).unwrap().data == Seq::<u8>::empty(),
        spec_next_offset(b, off) == spec_align8(off + RECORD_HEADER_LEN),
{
    assert(spec_record_at(b, off).unwrap().data =~= Seq::<u8>::empty());
}

/// One decoded record: fixed header fields, account fields, and a copy
/// of its data slice of exactly the declared length.
pub struct StoredAccountMeta {
    pub write_version: u64,
    pub data_len: u64,
    pub pubkey: Vec<u8>,
    pub lamports: u64,
    pub rent_epoch: u64,
    pub owner: Vec<u8>,
    pub executable: bool,
    pub data: Vec<u8>,
}

impl View for StoredAccountMeta {
    type V = RecordView;

    open spec fn view(&self) -> RecordView {
        RecordView {
            write_version: self.write_version,
            data_len: self.data_len,
            pubkey: self.pubkey@,
            lamports: self.lamports,
            rent_epoch: self.rent_epoch,
            owner: self.owner@,
            executable: self.executable,
            data: self.data@,
        }
    }
}

} // verus!
