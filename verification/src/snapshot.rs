//! The persisted form of a session.
//!
//! A snapshot file is a header, the magic number and the format version,
//! followed by the compressed body. The body holds, in this order and with
//! all numbers little-endian: the context size (8 bytes), whether the
//! engine's memory is in half precision (1 byte, 0 or 1), whether the first
//! evaluation is still to come (1 byte, 0 or 1), the length of the engine's
//! memory (8 bytes), that memory, the number of tokens taken in (8 bytes) and
//! the tokens (4 bytes each).

use vstd::prelude::*;
use vstd::bytes::lemma_auto_spec_u32_to_from_le_bytes;
use vstd::bytes::lemma_auto_spec_u64_to_from_le_bytes;
use vstd::bytes::spec_u32_from_le_bytes;
use vstd::bytes::spec_u32_to_le_bytes;
use vstd::bytes::spec_u64_from_le_bytes;
use vstd::bytes::spec_u64_to_le_bytes;
use vstd::bytes::u32_from_le_bytes;
use vstd::bytes::u32_to_le_bytes;
use vstd::bytes::u64_from_le_bytes;
use vstd::bytes::u64_to_le_bytes;
use vstd::slice::slice_subrange;
use crate::session::Session;
use crate::session::SessionView;
use crate::TokenId;

verus! {

/// The number a snapshot file starts with.
pub const SNAPSHOT_MAGIC: u32 = 0x4e53_4c4c;

/// The version of the format written here.
pub const SNAPSHOT_VERSION: u32 = 1;

/// The compression level: low, for speed.
pub const COMPRESSION_LEVEL: i32 = 1;

/// The length of the header.
pub const HEADER_LEN: usize = 8;

/// The length of a body without memory and tokens.
pub const BODY_FIXED_LEN: usize = 26;

/// What a snapshot holds, as plain values.
#[verifier::ext_equal]
pub struct SnapshotView {
    pub n_ctx: u64,
    pub half_precision: bool,
    pub first_evaluation: bool,
    pub memory: Seq<u8>,
    pub history: Seq<TokenId>,
}

/// A session as it is persisted: the engine's memory of the conversation, the
/// tokens taken in, and what the memory was made for.
#[derive(Clone, Debug)]
pub struct SnapshotRecord {
    /// The size of the context window the session was made for.
    pub n_ctx: u64,
    /// Whether the engine keeps its memory in half precision.
    pub half_precision: bool,
    /// Whether the engine has evaluated nothing yet for this session.
    pub first_evaluation: bool,
    /// The engine's memory, as the engine gave it.
    pub memory: Vec<u8>,
    /// The tokens taken in, oldest first.
    pub history: Vec<TokenId>,
}

impl View for SnapshotRecord {
    type V = SnapshotView;

    open spec fn view(&self) -> SnapshotView {
        SnapshotView {
            n_ctx: self.n_ctx,
            half_precision: self.half_precision,
            first_evaluation: self.first_evaluation,
            memory: self.memory@,
            history: self.history@,
        }
    }
}

/// What the model at hand expects of a session's memory.
#[derive(Clone, Copy, Debug, PartialEq, Eq, Structural)]
pub struct Layout {
    pub n_ctx: usize,
    pub half_precision: bool,
    /// The length of the engine's memory, in bytes.
    pub memory_len: usize,
}

/// Why a snapshot could not be written or read.
#[derive(Clone, Copy, Debug, PartialEq, Eq, Structural)]
pub enum SnapshotError {
    /// There is no snapshot where one was to be restored.
    Missing,
    /// The bytes do not start with the header of a snapshot.
    NotASnapshot,
    /// The snapshot is of a version that is not read here.
    UnsupportedVersion,
    /// The body cannot be decompressed, or is not the body of a snapshot.
    Corrupt,
    /// The snapshot was made for another context size or memory layout.
    Incompatible,
    /// The record holds more tokens than its context window has room for.
    Invalid,
    /// The body could not be compressed.
    Compression,
}

impl SnapshotView {
    /// Whether the tokens fit the context window and the lengths fit their
    /// fields.
    pub open spec fn valid(self) -> bool {
        &&& self.history.len() <= self.n_ctx
        &&& self.memory.len() <= u64::MAX
    }

    /// Whether the snapshot was made for `layout`.
    pub open spec fn fits(self, layout: Layout) -> bool {
        &&& self.n_ctx == layout.n_ctx
        &&& self.half_precision == layout.half_precision
        &&& self.memory.len() == layout.memory_len
    }
}

/// The four bytes' worth of a token: the token itself where it is not
/// negative, else its two's complement.
pub open spec fn token_bits(token: TokenId) -> u32 {
    if token >= 0 {
        token as u32
    } else {
        (token + 0x1_0000_0000) as u32
    }
}

/// The token that four bytes' worth stand for.
pub open spec fn bits_token(bits: u32) -> TokenId {
    if bits < 0x8000_0000 {
        bits as i32
    } else {
        (bits - 0x1_0000_0000) as i32
    }
}

/// The byte that stands for a flag.
pub open spec fn flag(set: bool) -> u8 {
    if set {
        1
    } else {
        0
    }
}

/// The bytes of the tokens, four for each and in order.
pub open spec fn tokens_bytes(tokens: Seq<TokenId>) -> Seq<u8>
    decreases tokens.len(),
{
    if tokens.len() == 0 {
        Seq::empty()
    } else {
        tokens_bytes(tokens.drop_last()) + spec_u32_to_le_bytes(token_bits(tokens.last()))
    }
}

/// The body that holds `r`.
pub open spec fn body_of(r: SnapshotView) -> Seq<u8> {
    spec_u64_to_le_bytes(r.n_ctx) + seq![flag(r.half_precision), flag(r.first_evaluation)]
        + spec_u64_to_le_bytes(r.memory.len() as u64) + r.memory + spec_u64_to_le_bytes(
        r.history.len() as u64,
    ) + tokens_bytes(r.history)
}

/// The header of every snapshot file written here.
pub open spec fn header() -> Seq<u8> {
    spec_u32_to_le_bytes(SNAPSHOT_MAGIC) + spec_u32_to_le_bytes(SNAPSHOT_VERSION)
}

/// Whether `bytes` are the body that holds the valid snapshot `r`.
pub open spec fn parses_to(bytes: Seq<u8>, r: SnapshotView) -> bool {
    r.valid() && body_of(r) == bytes
}

/// The snapshot that the body `bytes` holds, if it holds one.
pub open spec fn parse_body(bytes: Seq<u8>) -> Option<SnapshotView> {
    if exists|r: SnapshotView| parses_to(bytes, r) {
        Some(choose|r: SnapshotView| parses_to(bytes, r))
    } else {
        None
    }
}

/// Where the tokens stand among their bytes.
pub proof fn lemma_tokens_layout(tokens: Seq<TokenId>)
    ensures
        tokens_bytes(tokens).len() == 4 * tokens.len(),
        forall|i: int|
            0 <= i < tokens.len() ==> #[trigger] tokens_bytes(tokens).subrange(4 * i, 4 * i + 4)
                == spec_u32_to_le_bytes(token_bits(tokens[i])),
    decreases tokens.len(),
{
    lemma_auto_spec_u32_to_from_le_bytes();
    if tokens.len() > 0 {
        let shorter = tokens.drop_last();
        lemma_tokens_layout(shorter);
        let all = tokens_bytes(tokens);
        let last = spec_u32_to_le_bytes(token_bits(tokens.last()));
        assert forall|i: int| 0 <= i < tokens.len() implies #[trigger] all.subrange(
            4 * i,
            4 * i + 4,
        ) == spec_u32_to_le_bytes(token_bits(tokens[i])) by {
            if i < shorter.len() {
                assert(all.subrange(4 * i, 4 * i + 4) =~= tokens_bytes(shorter).subrange(
                    4 * i,
                    4 * i + 4,
                ));
                assert(shorter[i] == tokens[i]);
            } else {
                assert(all.subrange(4 * i, 4 * i + 4) =~= last);
            }
        }
    }
}

/// A token is what its four bytes' worth stand for.
pub proof fn lemma_token_bits_round_trip(token: TokenId)
    ensures
        bits_token(token_bits(token)) == token,
{
}

/// Four bytes' worth are those of the token they stand for.
pub proof fn lemma_bits_token_round_trip(bits: u32)
    ensures
        token_bits(bits_token(bits)) == bits,
{
}

/// Where the parts of a snapshot stand in its body.
pub proof fn lemma_body_layout(r: SnapshotView)
    requires
        r.valid(),
    ensures
        ({
            let b = body_of(r);
            let m = r.memory.len() as int;
            let h = r.history.len() as int;
            &&& b.len() == BODY_FIXED_LEN + m + 4 * h
            &&& b.subrange(0, 8) == spec_u64_to_le_bytes(r.n_ctx)
            &&& b[8] == flag(r.half_precision)
            &&& b[9] == flag(r.first_evaluation)
            &&& b.subrange(10, 18) == spec_u64_to_le_bytes(m as u64)
            &&& b.subrange(18, 18 + m) == r.memory
            &&& b.subrange(18 + m, 26 + m) == spec_u64_to_le_bytes(h as u64)
            &&& b.subrange(26 + m, b.len() as int) == tokens_bytes(r.history)
        }),
{
    lemma_auto_spec_u64_to_from_le_bytes();
    lemma_tokens_layout(r.history);
    let b = body_of(r);
    let m = r.memory.len() as int;
    let h = r.history.len() as int;
    assert(b.subrange(0, 8) =~= spec_u64_to_le_bytes(r.n_ctx));
    assert(b.subrange(10, 18) =~= spec_u64_to_le_bytes(m as u64));
    assert(b.subrange(18, 18 + m) =~= r.memory);
    assert(b.subrange(18 + m, 26 + m) =~= spec_u64_to_le_bytes(h as u64));
    assert(b.subrange(26 + m, b.len() as int) =~= tokens_bytes(r.history));
}

/// Tokens with the same bytes are the same tokens.
proof fn lemma_tokens_bytes_injective(a: Seq<TokenId>, b: Seq<TokenId>)
    requires
        tokens_bytes(a) == tokens_bytes(b),
    ensures
        a == b,
{
    lemma_tokens_layout(a);
    lemma_tokens_layout(b);
    lemma_auto_spec_u32_to_from_le_bytes();
    assert(a.len() == b.len());
    assert forall|i: int| 0 <= i < a.len() implies a[i] == b[i] by {
        let x = tokens_bytes(a).subrange(4 * i, 4 * i + 4);
        assert(x == spec_u32_to_le_bytes(token_bits(a[i])));
        assert(x == spec_u32_to_le_bytes(token_bits(b[i])));
        assert(spec_u32_from_le_bytes(x) == token_bits(a[i]));
        assert(spec_u32_from_le_bytes(x) == token_bits(b[i]));
        lemma_token_bits_round_trip(a[i]);
        lemma_token_bits_round_trip(b[i]);
    }
    assert(a =~= b);
}

/// A body holds one snapshot only: two valid snapshots with the same body are
/// the same.
pub proof fn lemma_body_is_of_one_snapshot(a: SnapshotView, b: SnapshotView)
    requires
        a.valid(),
        b.valid(),
        body_of(a) == body_of(b),
    ensures
        a == b,
{
    lemma_body_layout(a);
    lemma_body_layout(b);
    lemma_auto_spec_u64_to_from_le_bytes();
    let bytes = body_of(a);
    assert(spec_u64_from_le_bytes(bytes.subrange(0, 8)) == a.n_ctx);
    assert(spec_u64_from_le_bytes(bytes.subrange(0, 8)) == b.n_ctx);
    assert(spec_u64_from_le_bytes(bytes.subrange(10, 18)) == a.memory.len());
    assert(spec_u64_from_le_bytes(bytes.subrange(10, 18)) == b.memory.len());
    assert(a.memory == b.memory);
    lemma_tokens_bytes_injective(a.history, b.history);
    assert(a =~= b);
}

/// What a body parses to: the one snapshot that it holds.
pub proof fn lemma_parse_body_of(r: SnapshotView)
    requires
        r.valid(),
    ensures
        parse_body(body_of(r)) == Some(r),
{
    assert(parses_to(body_of(r), r));
    let found = choose|x: SnapshotView| parses_to(body_of(r), x);
    lemma_body_is_of_one_snapshot(found, r);
}

fn append(out: &mut Vec<u8>, part: &[u8])
    ensures
        final(out)@ == old(out)@ + part@,
{
    let mut i: usize = 0;
    while i < part.len()
        invariant
            i <= part@.len(),
            out@ == old(out)@ + part@.subrange(0, i as int),
        decreases part@.len() - i,
    {
        out.push(part[i]);
        proof {
            assert(out@ =~= old(out)@ + part@.subrange(0, i + 1));
        }
        i += 1;
    }
    proof {
        assert(part@.subrange(0, part@.len() as int) =~= part@);
    }
}

fn token_to_bits(token: TokenId) -> (r: u32)
    ensures
        r == token_bits(token),
{
    if token >= 0 {
        token as u32
    } else {
        let wide: i64 = token as i64;
        (wide + 0x1_0000_0000) as u32
    }
}

fn bits_to_token(bits: u32) -> (r: TokenId)
    ensures
        r == bits_token(bits),
{
    if bits < 0x8000_0000 {
        bits as i32
    } else {
        let wide: i64 = bits as i64;
        (wide - 0x1_0000_0000) as i32
    }
}

fn flag_byte(set: bool) -> (r: u8)
    ensures
        r == flag(set),
{
    if set {
        1
    } else {
        0
    }
}

impl SnapshotRecord {
    /// Whether the tokens fit the context window.
    pub fn is_valid(&self) -> (r: bool)
        ensures
            r == self@.valid(),
    {
        let memory_len: usize = self.memory.len();
        proof {
            assert(memory_len <= u64::MAX);
        }
        self.history.len() as u64 <= self.n_ctx
    }

    /// Whether the snapshot was made for `layout`.
    pub fn is_for(&self, layout: &Layout) -> (r: bool)
        ensures
            r == self@.fits(*layout),
    {
        self.n_ctx == layout.n_ctx as u64 && self.half_precision == layout.half_precision
            && self.memory.len() == layout.memory_len
    }

    /// The body that holds the snapshot.
    pub fn encode(&self) -> (r: Vec<u8>)
        ensures
            r@ == body_of(self@),
    {
        let mut out: Vec<u8> = u64_to_le_bytes(self.n_ctx);
        out.push(flag_byte(self.half_precision));
        out.push(flag_byte(self.first_evaluation));
        let memory_len = u64_to_le_bytes(self.memory.len() as u64);
        append(&mut out, memory_len.as_slice());
        append(&mut out, self.memory.as_slice());
        let history_len = u64_to_le_bytes(self.history.len() as u64);
        append(&mut out, history_len.as_slice());
        let ghost fixed = out@;
        proof {
            assert(fixed =~= spec_u64_to_le_bytes(self.n_ctx) + seq![
                flag(self.half_precision),
                flag(self.first_evaluation),
            ] + spec_u64_to_le_bytes(self.memory@.len() as u64) + self.memory@
                + spec_u64_to_le_bytes(self.history@.len() as u64));
        }
        let mut i: usize = 0;
        while i < self.history.len()
            invariant
                i <= self.history@.len(),
                out@ == fixed + tokens_bytes(self.history@.subrange(0, i as int)),
            decreases self.history@.len() - i,
        {
            let word = u32_to_le_bytes(token_to_bits(self.history[i]));
            append(&mut out, word.as_slice());
            proof {
                assert(self.history@.subrange(0, i + 1).drop_last() =~= self.history@.subrange(
                    0,
                    i as int,
                ));
                assert(out@ =~= fixed + tokens_bytes(self.history@.subrange(0, i + 1)));
            }
            i += 1;
        }
        proof {
            assert(self.history@.subrange(0, self.history@.len() as int) =~= self.history@);
        }
        out
    }

    /// The snapshot that the body `bytes` holds; an error where it holds
    /// none.
    pub fn decode(bytes: &Vec<u8>) -> (r: Result<SnapshotRecord, SnapshotError>)
        ensures
            match r {
                Ok(record) => parse_body(bytes@) == Some(record@),
                Err(e) => e == SnapshotError::Corrupt && parse_body(bytes@) is None,
            },
    {
        proof {
            lemma_auto_spec_u64_to_from_le_bytes();
            lemma_auto_spec_u32_to_from_le_bytes();
            assert forall|v: SnapshotView| parses_to(bytes@, v) implies {
                let m = v.memory.len() as int;
                let h = v.history.len() as int;
                &&& bytes@.len() == BODY_FIXED_LEN + m + 4 * h
                &&& spec_u64_from_le_bytes(bytes@.subrange(0, 8)) == v.n_ctx
                &&& bytes@[8] == flag(v.half_precision)
                &&& bytes@[9] == flag(v.first_evaluation)
                &&& spec_u64_from_le_bytes(bytes@.subrange(10, 18)) == m
                &&& spec_u64_from_le_bytes(bytes@.subrange(18 + m, 26 + m)) == h
            } by {
                lemma_body_layout(v);
            }
        }
        let n: usize = bytes.len();
        if n < BODY_FIXED_LEN {
            return Err(SnapshotError::Corrupt);
        }
        let all = bytes.as_slice();
        let n_ctx: u64 = u64_from_le_bytes(slice_subrange(all, 0, 8));
        let half: u8 = bytes[8];
        let first: u8 = bytes[9];
        if half > 1 || first > 1 {
            return Err(SnapshotError::Corrupt);
        }
        let memory_len: u64 = u64_from_le_bytes(slice_subrange(all, 10, 18));
        if memory_len > (n - BODY_FIXED_LEN) as u64 {
            return Err(SnapshotError::Corrupt);
        }
        let m: usize = memory_len as usize;
        let history_len: u64 = u64_from_le_bytes(slice_subrange(all, 18 + m, 26 + m));
        let rest: usize = n - BODY_FIXED_LEN - m;
        if rest % 4 != 0 || (rest / 4) as u64 != history_len || history_len > n_ctx {
            return Err(SnapshotError::Corrupt);
        }
        let h: usize = rest / 4;
        let mut memory: Vec<u8> = Vec::new();
        append(&mut memory, slice_subrange(all, 18, 18 + m));
        let mut history: Vec<TokenId> = Vec::new();
        let mut i: usize = 0;
        while i < h
            invariant
                i <= h,
                all@ == bytes@,
                n == bytes@.len(),
                n == BODY_FIXED_LEN + m + 4 * h,
                history@.len() == i,
                tokens_bytes(history@) == bytes@.subrange(26 + m, 26 + m + 4 * i),
            decreases h - i,
        {
            let at: usize = 26 + m + 4 * i;
            let bits: u32 = u32_from_le_bytes(slice_subrange(all, at, at + 4));
            let ghost before = history@;
            history.push(bits_to_token(bits));
            proof {
                lemma_auto_spec_u32_to_from_le_bytes();
                lemma_bits_token_round_trip(bits);
                assert(history@.drop_last() =~= before);
                assert(spec_u32_to_le_bytes(bits) == bytes@.subrange(at as int, at + 4));
                assert(tokens_bytes(history@) =~= bytes@.subrange(26 + m, 26 + m + 4 * (i + 1)));
            }
            i += 1;
        }
        let record = SnapshotRecord {
            n_ctx,
            half_precision: half == 1,
            first_evaluation: first == 1,
            memory,
            history,
        };
        proof {
            assert(record@.valid());
            assert(spec_u64_to_le_bytes(n_ctx) == bytes@.subrange(0, 8));
            assert(spec_u64_to_le_bytes(memory_len) == bytes@.subrange(10, 18));
            assert(spec_u64_to_le_bytes(history_len) == bytes@.subrange(18 + m, 26 + m));
            assert(body_of(record@) =~= bytes@);
            assert(parses_to(bytes@, record@));
            let found = choose|v: SnapshotView| parses_to(bytes@, v);
            lemma_body_is_of_one_snapshot(found, record@);
        }
        Ok(record)
    }
}

/// What `zstd::stream::encode_all` makes of `data` at `level`: the compressed
/// bytes, or nothing where it reports an error.
pub uninterp spec fn zstd_encoded(data: Seq<u8>, level: i32) -> Option<Seq<u8>>;

/// What `zstd::stream::decode_all` makes of `data`: the decompressed bytes, or
/// nothing where it reports an error.
pub uninterp spec fn zstd_decoded(data: Seq<u8>) -> Option<Seq<u8>>;

#[verifier::external_type_specification]
#[verifier::external_body]
pub struct ExIoError(std::io::Error);

/// Calls `zstd::stream::encode_all` on `data`. Taken on trust: its outcome
/// depends on the bytes of `data` and on `level` alone, which is what gives it
/// the name [`zstd_encoded`]; and what it gives on success is a frame that
/// `zstd::stream::decode_all` decompresses to `data` again.
#[verifier::external_body]
fn compress(data: &Vec<u8>, level: i32) -> (r: Result<Vec<u8>, std::io::Error>)
    ensures
        match r {
            Ok(packed) => zstd_encoded(data@, level) == Some(packed@) && zstd_decoded(packed@)
                == Some(data@),
            Err(_) => zstd_encoded(data@, level) is None,
        },
{
    zstd::stream::encode_all(data.as_slice(), level)
}

/// Calls `zstd::stream::decode_all` on `data`. Taken on trust: its outcome
/// depends on the bytes of `data` alone, which is what gives it the name
/// [`zstd_decoded`].
#[verifier::external_body]
fn decompress(data: &[u8]) -> (r: Result<Vec<u8>, std::io::Error>)
    ensures
        match r {
            Ok(plain) => zstd_decoded(data@) == Some(plain@),
            Err(_) => zstd_decoded(data@) is None,
        },
{
    zstd::stream::decode_all(data)
}

/// Whether `file` is a snapshot file for `r`: the header, then bytes that
/// decompress to the body that holds `r`.
pub open spec fn holds(file: Seq<u8>, r: SnapshotView) -> bool {
    &&& file.len() >= HEADER_LEN
    &&& file.subrange(0, HEADER_LEN as int) == header()
    &&& zstd_decoded(file.subrange(HEADER_LEN as int, file.len() as int)) == Some(body_of(r))
}

/// What reading `file` for a model with `layout` gives. A file that is too
/// short for a header or starts with another number is no snapshot; one of
/// another version is not read; one whose body does not decompress, or holds
/// no snapshot, is corrupt; and a snapshot made for another layout is
/// incompatible.
pub open spec fn read_of(file: Seq<u8>, layout: Layout) -> Result<SnapshotView, SnapshotError> {
    if file.len() < HEADER_LEN || spec_u32_from_le_bytes(file.subrange(0, 4)) != SNAPSHOT_MAGIC {
        Err(SnapshotError::NotASnapshot)
    } else if spec_u32_from_le_bytes(file.subrange(4, 8)) != SNAPSHOT_VERSION {
        Err(SnapshotError::UnsupportedVersion)
    } else {
        match zstd_decoded(file.subrange(HEADER_LEN as int, file.len() as int)) {
            None => Err(SnapshotError::Corrupt),
            Some(body) => match parse_body(body) {
                None => Err(SnapshotError::Corrupt),
                Some(r) => if r.fits(layout) {
                    Ok(r)
                } else {
                    Err(SnapshotError::Incompatible)
                },
            },
        }
    }
}

/// The snapshot file with the compressed body `packed`.
pub fn frame(packed: &Vec<u8>) -> (r: Vec<u8>)
    ensures
        r@ == header() + packed@,
{
    let mut out: Vec<u8> = u32_to_le_bytes(SNAPSHOT_MAGIC);
    let version = u32_to_le_bytes(SNAPSHOT_VERSION);
    append(&mut out, version.as_slice());
    append(&mut out, packed.as_slice());
    out
}

/// What writing the snapshot `r` gives. A snapshot with more tokens than its
/// context window holds is refused as invalid. For any other the file is the
/// header and then its body as the compressor packs it at the fixed level;
/// it fails only where the compressor does.
pub open spec fn written_of(r: SnapshotView) -> Result<Seq<u8>, SnapshotError> {
    if !r.valid() {
        Err(SnapshotError::Invalid)
    } else {
        match zstd_encoded(body_of(r), COMPRESSION_LEVEL) {
            Some(packed) => Ok(header() + packed),
            None => Err(SnapshotError::Compression),
        }
    }
}

/// The bytes of the snapshot file for `record`; see [`written_of`]. A file
/// that is written holds the record: it reads back as what was written.
pub fn write_session(record: &SnapshotRecord) -> (r: Result<Vec<u8>, SnapshotError>)
    ensures
        match r {
            Ok(file) => written_of(record@) == Ok::<Seq<u8>, SnapshotError>(file@) && holds(
                file@,
                record@,
            ),
            Err(e) => written_of(record@) == Err::<Seq<u8>, SnapshotError>(e),
        },
{
    if !record.is_valid() {
        return Err(SnapshotError::Invalid);
    }
    let body = record.encode();
    match compress(&body, COMPRESSION_LEVEL) {
        Ok(packed) => {
            let file = frame(&packed);
            proof {
                lemma_auto_spec_u32_to_from_le_bytes();
                assert(file@.subrange(0, HEADER_LEN as int) =~= header());
                assert(file@.subrange(HEADER_LEN as int, file@.len() as int) =~= packed@);
            }
            Ok(file)
        },
        Err(_) => Err(SnapshotError::Compression),
    }
}

/// The snapshot in `file`, for a model with `layout`; see [`read_of`].
pub fn read_session(file: &Vec<u8>, layout: &Layout) -> (r: Result<SnapshotRecord, SnapshotError>)
    ensures
        match r {
            Ok(record) => read_of(file@, *layout) == Ok::<SnapshotView, SnapshotError>(record@),
            Err(e) => read_of(file@, *layout) == Err::<SnapshotView, SnapshotError>(e),
        },
{
    if file.len() < HEADER_LEN {
        return Err(SnapshotError::NotASnapshot);
    }
    let all = file.as_slice();
    if u32_from_le_bytes(slice_subrange(all, 0, 4)) != SNAPSHOT_MAGIC {
        return Err(SnapshotError::NotASnapshot);
    }
    if u32_from_le_bytes(slice_subrange(all, 4, 8)) != SNAPSHOT_VERSION {
        return Err(SnapshotError::UnsupportedVersion);
    }
    match decompress(slice_subrange(all, HEADER_LEN, file.len())) {
        Err(_) => Err(SnapshotError::Corrupt),
        Ok(body) => match SnapshotRecord::decode(&body) {
            Err(_) => Err(SnapshotError::Corrupt),
            Ok(record) => if record.is_for(layout) {
                Ok(record)
            } else {
                Err(SnapshotError::Incompatible)
            },
        },
    }
}

/// Round trip: a file written for a valid snapshot reads back as that
/// snapshot, for the model it was made for.
pub proof fn lemma_read_recovers_what_was_written(file: Seq<u8>, r: SnapshotView, layout: Layout)
    requires
        r.valid(),
        r.fits(layout),
        holds(file, r),
    ensures
        read_of(file, layout) == Ok::<SnapshotView, SnapshotError>(r),
{
    lemma_auto_spec_u32_to_from_le_bytes();
    assert(file.subrange(0, 4) =~= spec_u32_to_le_bytes(SNAPSHOT_MAGIC)) by {
        assert(file.subrange(0, 4) =~= file.subrange(0, HEADER_LEN as int).subrange(0, 4));
    }
    assert(file.subrange(4, 8) =~= spec_u32_to_le_bytes(SNAPSHOT_VERSION)) by {
        assert(file.subrange(4, 8) =~= file.subrange(0, HEADER_LEN as int).subrange(4, 8));
    }
    lemma_parse_body_of(r);
}

/// A snapshot made for another model is not restored: a file written for a
/// valid snapshot reads as incompatible for every layout that it does not
/// fit.
pub proof fn lemma_other_layout_is_refused(file: Seq<u8>, r: SnapshotView, layout: Layout)
    requires
        r.valid(),
        !r.fits(layout),
        holds(file, r),
    ensures
        read_of(file, layout) == Err::<SnapshotView, SnapshotError>(SnapshotError::Incompatible),
{
    lemma_auto_spec_u32_to_from_le_bytes();
    assert(file.subrange(0, 4) =~= spec_u32_to_le_bytes(SNAPSHOT_MAGIC)) by {
        assert(file.subrange(0, 4) =~= file.subrange(0, HEADER_LEN as int).subrange(0, 4));
    }
    assert(file.subrange(4, 8) =~= spec_u32_to_le_bytes(SNAPSHOT_VERSION)) by {
        assert(file.subrange(4, 8) =~= file.subrange(0, HEADER_LEN as int).subrange(4, 8));
    }
    lemma_parse_body_of(r);
}

/// What the host found where the request says to restore the session from.
#[derive(Debug)]
pub enum Stored {
    /// The request names no place to restore from.
    NotRequested,
    /// There is nothing at the place.
    Missing,
    /// The bytes found at the place.
    Found(Vec<u8>),
}

/// A session to start from.
#[derive(Debug)]
pub struct Opened {
    pub session: Session,
    /// The engine's memory to put back; none for a session that starts
    /// afresh.
    pub memory: Option<Vec<u8>>,
}

impl Opened {
    /// Whether this is the session that starts afresh in `layout`.
    pub open spec fn fresh(self, layout: Layout) -> bool {
        &&& self.session@.n_ctx == layout.n_ctx
        &&& self.session@.history.len() == 0
        &&& self.session@.first_evaluation
        &&& self.memory is None
    }

    /// Whether this is the session that the snapshot `r` holds.
    pub open spec fn restored(self, r: SnapshotView) -> bool {
        &&& self.session@.n_ctx == r.n_ctx
        &&& self.session@.history == r.history
        &&& self.session@.first_evaluation == r.first_evaluation
        &&& self.memory matches Some(memory) && memory@ == r.memory
    }
}

fn copy_tokens(tokens: &Vec<TokenId>) -> (r: Vec<TokenId>)
    ensures
        r@ == tokens@,
{
    let mut out: Vec<TokenId> = Vec::new();
    let mut i: usize = 0;
    while i < tokens.len()
        invariant
            i <= tokens@.len(),
            out@ == tokens@.subrange(0, i as int),
        decreases tokens@.len() - i,
    {
        out.push(tokens[i]);
        proof {
            assert(out@ =~= tokens@.subrange(0, i + 1));
        }
        i += 1;
    }
    proof {
        assert(tokens@.subrange(0, tokens@.len() as int) =~= tokens@);
    }
    out
}

/// The snapshot of `session` with the engine's `memory`.
pub fn snapshot(session: &Session, half_precision: bool, memory: Vec<u8>) -> (r: SnapshotRecord)
    ensures
        r@ == (SnapshotView {
            n_ctx: session@.n_ctx as u64,
            half_precision,
            first_evaluation: session@.first_evaluation,
            memory: memory@,
            history: session@.history,
        }),
{
    SnapshotRecord {
        n_ctx: session.n_ctx() as u64,
        half_precision,
        first_evaluation: session.is_first_evaluation(),
        memory,
        history: copy_tokens(session.history()),
    }
}

/// The session a generation starts from. Without a place to restore from it
/// starts afresh. With nothing at the place it starts afresh only where the
/// caller permits that, and else fails as missing. With bytes at the place
/// it is the session that they hold, or fails as [`read_of`] says: bytes that
/// do not read as a snapshot for this model never lead to a fresh session.
pub fn read_or_create_session(stored: Stored, layout: &Layout, create_if_missing: bool) -> (r:
    Result<Opened, SnapshotError>)
    ensures
        match stored {
            Stored::NotRequested => r matches Ok(opened) && opened.fresh(*layout),
            Stored::Missing => if create_if_missing {
                r matches Ok(opened) && opened.fresh(*layout)
            } else {
                r matches Err(e) && e == SnapshotError::Missing
            },
            Stored::Found(file) => match read_of(file@, *layout) {
                Ok(found) => r matches Ok(opened) && opened.restored(found),
                Err(error) => r matches Err(e) && e == error,
            },
        },
{
    match stored {
        Stored::NotRequested => Ok(Opened { session: Session::new(layout.n_ctx), memory: None }),
        Stored::Missing => if create_if_missing {
            Ok(Opened { session: Session::new(layout.n_ctx), memory: None })
        } else {
            Err(SnapshotError::Missing)
        },
        Stored::Found(file) => match read_session(&file, layout) {
            Err(e) => Err(e),
            Ok(record) => {
                proof {
                    let body = zstd_decoded(
                        file@.subrange(HEADER_LEN as int, file@.len() as int),
                    )->Some_0;
                    assert(parses_to(body, record@));
                }
                match Session::restore(layout.n_ctx, record.history, record.first_evaluation) {
                    Some(session) => Ok(Opened { session, memory: Some(record.memory) }),
                    None => Err(SnapshotError::Corrupt),
                }
            },
        },
    }
}

} // verus!
