//! Content-addressed archives: block framing, integrity, and the v1/v2
//! headers, over bytes in memory.
use crate::cid::{BLAKE2B_256, Cid, CidModel, IDENTITY, MAX_DIGEST_LEN, SHA2_256, append_bytes, cid_at, cid_bytes, copy_range, lemma_sub};
use crate::message::bytes_eq;
use crate::varint::{decode_varint, encode_varint, has_varint_at, lemma_u64_varint_len, lemma_varint_shape, varint};
use vstd::prelude::*;

verus! {

/// Errors of the CAR codec.
#[derive(Clone, Copy, Debug, PartialEq, Eq, Structural)]
pub enum CarError {
    InvalidData,
    UnexpectedEof,
}

pub uninterp spec fn blake2b_256(data: Seq<u8>) -> Seq<u8>;

pub uninterp spec fn sha2_256(data: Seq<u8>) -> Seq<u8>;

/// Relies on blake2b_simd's `Params::hash` with a 32-byte output: the
/// BLAKE2b-256 digest of the input.
#[verifier::external_body]
fn blake2b_256_digest(data: &[u8]) -> (r: Vec<u8>)
    ensures
        r@ == blake2b_256(data@),
        r@.len() == 32,
{
    blake2b_simd::Params::new().hash_length(32).hash(data).as_bytes().to_vec()
}

/// Relies on sha2's `Sha256::digest`: the SHA2-256 digest of the input.
#[verifier::external_body]
fn sha2_256_digest(data: &[u8]) -> (r: Vec<u8>)
    ensures
        r@ == sha2_256(data@),
        r@.len() == 32,
{
    <sha2::Sha256 as sha2::Digest>::digest(data).to_vec()
}

/// A block of an archive: its identifier and its data.
#[derive(Clone, Debug, PartialEq, Eq, PartialOrd, Ord, Hash)]
pub struct CarBlock {
    pub cid: Cid,
    pub data: Vec<u8>,
}

/// A varint-length-prefixed frame around `payload`.
pub open spec fn frame(payload: Seq<u8>) -> Seq<u8> {
    varint(payload.len()) + payload
}

/// The bytes of a block inside its frame: the identifier, then the data.
pub open spec fn block_bytes(c: CidModel, data: Seq<u8>) -> Seq<u8> {
    cid_bytes(c) + data
}

/// The identifier that `data` must have under `c`'s codec and hash code:
/// version 1, with the digest of the data.
pub open spec fn valid_block(c: CidModel, data: Seq<u8>) -> bool {
    ||| (c.hash_code == BLAKE2B_256 && c == CidModel {
        version: 1,
        codec: c.codec,
        hash_code: BLAKE2B_256,
        digest: blake2b_256(data),
    })
    ||| (c.hash_code == SHA2_256 && c == CidModel {
        version: 1,
        codec: c.codec,
        hash_code: SHA2_256,
        digest: sha2_256(data),
    })
    ||| (c.hash_code == IDENTITY && data.len() <= MAX_DIGEST_LEN && c == CidModel {
        version: 1,
        codec: c.codec,
        hash_code: IDENTITY,
        digest: data,
    })
}

/// The encoding of a well-formed identifier takes at most 128 bytes.
pub proof fn lemma_cid_len(c: CidModel)
    requires
        c.wf(),
    ensures
        cid_bytes(c).len() <= 128,
{
    lemma_u64_varint_len(c.version);
    lemma_u64_varint_len(c.codec);
    lemma_u64_varint_len(c.hash_code);
    lemma_u64_varint_len(c.digest.len() as u64);
}

impl CarBlock {
    /// Appends the block's frame to `out`: the varint of the frame length,
    /// the identifier, then the data.
    pub fn write(&self, out: &mut Vec<u8>)
        requires
            self.cid@.wf(),
            self.data@.len() <= usize::MAX - 128,
        ensures
            final(out)@ == old(out)@ + frame(block_bytes(self.cid@, self.data@)),
    {
        let cid_bytes = self.cid.to_bytes();
        proof {
            lemma_cid_len(self.cid@);
        }
        let frame_length = cid_bytes.len() + self.data.len();
        proof {
            assert(frame_length == block_bytes(self.cid@, self.data@).len());
        }
        encode_varint(frame_length as u64, out);
        append_bytes(out, cid_bytes.as_slice());
        append_bytes(out, self.data.as_slice());
        proof {
            assert(final(out)@ =~= old(out)@ + frame(block_bytes(self.cid@, self.data@)));
        }
    }

    /// Splits frame contents into identifier and data.
    pub fn from_bytes(bytes: &[u8]) -> (r: Result<CarBlock, CarError>)
        ensures
            r matches Ok(b) ==> b.cid@.wf() && bytes@ == block_bytes(b.cid@, b.data@),
            r matches Err(e) ==> e == CarError::InvalidData,
            forall|c: CidModel, d: Seq<u8>| #[trigger] block_bytes(c, d) == bytes@ && c.wf() ==> (r matches Ok(
                b,
            ) && b.cid@ == c && b.data@ == d),
    {
        match Cid::read_bytes(bytes, 0) {
            None => {
                proof {
                    assert forall|c: CidModel, d: Seq<u8>| #[trigger] block_bytes(c, d) == bytes@ && c.wf() implies false by {
                        assert(bytes@.subrange(0, cid_bytes(c).len() as int) =~= cid_bytes(c));
                        assert(cid_at(bytes@, 0, c));
                    }
                }
                Err(CarError::InvalidData)
            },
            Some((cid, end)) => {
                let data = copy_range(bytes, end, bytes.len());
                proof {
                    assert(bytes@ =~= block_bytes(cid@, data@));
                    assert forall|c: CidModel, d: Seq<u8>| #[trigger] block_bytes(c, d) == bytes@ && c.wf() implies cid@ == c && data@ == d by {
                        assert(bytes@.subrange(0, cid_bytes(c).len() as int) =~= cid_bytes(c));
                        assert(cid_at(bytes@, 0, c));
                        assert(d =~= bytes@.subrange(cid_bytes(c).len() as int, bytes@.len() as int));
                    }
                }
                Ok(CarBlock { cid, data })
            },
        }
    }

    /// Recomputes the identifier from the data and compares.
    pub fn validate(&self) -> (r: Result<(), CarError>)
        ensures
            r is Ok <==> valid_block(self.cid@, self.data@),
            r matches Err(e) ==> e == CarError::InvalidData,
    {
        let code = self.cid.hash_code;
        let digest = if code == BLAKE2B_256 {
            blake2b_256_digest(self.data.as_slice())
        } else if code == SHA2_256 {
            sha2_256_digest(self.data.as_slice())
        } else if code == IDENTITY && self.data.len() <= MAX_DIGEST_LEN {
            let d = copy_range(self.data.as_slice(), 0, self.data.len());
            assert(d@ =~= self.data@);
            d
        } else {
            return Err(CarError::InvalidData);
        };
        self.validate_digest(digest.as_slice())
    }

    /// Compares the identifier with the version 1 identifier that has the
    /// block's codec and hash code and the digest `digest` of its data.
    pub fn validate_digest(&self, digest: &[u8]) -> (r: Result<(), CarError>)
        ensures
            r is Ok <==> self.cid.version == 1 && digest@ == self.cid.digest@,
            r matches Err(e) ==> e == CarError::InvalidData,
    {
        let mut computed: Vec<u8> = Vec::new();
        append_bytes(&mut computed, digest);
        if self.cid.version == 1 && bytes_eq(&computed, &self.cid.digest) {
            Ok(())
        } else {
            Err(CarError::InvalidData)
        }
    }

    /// Whether [`CarBlock::validate`] succeeds.
    pub fn valid(&self) -> (r: bool)
        ensures
            r == valid_block(self.cid@, self.data@),
    {
        self.validate().is_ok()
    }
}


/// Size of the v2 pragma and header together, in bytes.
pub const V2_PREFIX_LEN: usize = 51;

/// The fixed-size header of a v2 archive.
#[derive(Clone, Copy, Debug, PartialEq, Eq)]
pub struct CarV2Header {
    pub characteristics: [u8; 16],
    pub data_offset: u64,
    pub data_size: u64,
    pub index_offset: u64,
}

/// The eleven bytes that open a v2 archive.
pub open spec fn is_v2_pragma(b: Seq<u8>) -> bool {
    &&& b.len() >= 11
    &&& b[0] == 0x0a && b[1] == 0xa1 && b[2] == 0x67 && b[3] == 0x76 && b[4] == 0x65
    &&& b[5] == 0x72 && b[6] == 0x73 && b[7] == 0x69 && b[8] == 0x6f && b[9] == 0x6e
    &&& b[10] == 0x02
}

/// The little-endian 64-bit integer at `i`.
pub open spec fn le_u64(b: Seq<u8>, i: int) -> nat {
    (b[i] + b[i + 1] * 0x100 + b[i + 2] * 0x10000 + b[i + 3] * 0x1000000 + b[i + 4] * 0x100000000
        + b[i + 5] * 0x10000000000 + b[i + 6] * 0x1000000000000 + b[i + 7] * 0x100000000000000) as nat
}

fn read_le_u64(b: &[u8], i: usize) -> (r: u64)
    requires
        i + 8 <= b@.len(),
    ensures
        r == le_u64(b@, i as int),
{
    (b[i] as u64) + (b[i + 1] as u64) * 0x100 + (b[i + 2] as u64) * 0x10000 + (b[i + 3] as u64)
        * 0x1000000 + (b[i + 4] as u64) * 0x100000000 + (b[i + 5] as u64) * 0x10000000000 + (b[i
        + 6] as u64) * 0x1000000000000 + (b[i + 7] as u64) * 0x100000000000000
}

/// Reads a v2 header from the first 51 bytes, if they open with the v2 pragma.
pub fn read_v2_header(b: &[u8]) -> (r: Option<CarV2Header>)
    ensures
        r is Some <==> b@.len() >= V2_PREFIX_LEN && is_v2_pragma(b@),
        r matches Some(h) ==> {
            &&& h.characteristics@ == b@.subrange(11, 27)
            &&& h.data_offset == le_u64(b@, 27)
            &&& h.data_size == le_u64(b@, 35)
            &&& h.index_offset == le_u64(b@, 43)
        },
{
    if b.len() < V2_PREFIX_LEN {
        return None;
    }
    if !(b[0] == 0x0a && b[1] == 0xa1 && b[2] == 0x67 && b[3] == 0x76 && b[4] == 0x65 && b[5]
        == 0x72 && b[6] == 0x73 && b[7] == 0x69 && b[8] == 0x6f && b[9] == 0x6e && b[10] == 0x02) {
        return None;
    }
    let characteristics = [
        b[11], b[12], b[13], b[14], b[15], b[16], b[17], b[18],
        b[19], b[20], b[21], b[22], b[23], b[24], b[25], b[26],
    ];
    assert(characteristics@ =~= b@.subrange(11, 27));
    Some(CarV2Header {
        characteristics,
        data_offset: read_le_u64(b, 27),
        data_size: read_le_u64(b, 35),
        index_offset: read_le_u64(b, 43),
    })
}

pub uninterp spec fn zstd_frame_header_ok(b: Seq<u8>) -> bool;

pub uninterp spec fn zstd_decode_all(b: Seq<u8>) -> Option<Seq<u8>>;

/// Relies on zstd-safe's `get_frame_content_size`: whether the input opens
/// with a zstd frame header.
#[verifier::external_body]
fn is_zstd(buf: &[u8]) -> (r: bool)
    ensures
        r == zstd_frame_header_ok(buf@),
{
    zstd::zstd_safe::get_frame_content_size(buf).is_ok()
}

/// Relies on zstd's `stream::decode_all`: the input decompressed, with
/// concatenated frames decoded one after the other.
#[verifier::external_body]
fn zstd_decode(buf: &[u8]) -> (r: Option<Vec<u8>>)
    ensures
        match r {
            Some(v) => zstd_decode_all(buf@) == Some(v@),
            None => zstd_decode_all(buf@) is None,
        },
{
    zstd::stream::decode_all(buf).ok()
}

/// The archive bytes after decompression, when the input is zstd; `None`
/// when it is zstd and does not decode.
pub open spec fn decoded_input(input: Seq<u8>) -> Option<Seq<u8>> {
    if zstd_frame_header_ok(input) {
        zstd_decode_all(input)
    } else {
        Some(input)
    }
}

/// `h` is what `read_v2_header` finds in `d`: a header exactly where `d`
/// holds the pragma and 40 more bytes.
pub open spec fn v2_header_in(h: Option<CarV2Header>, d: Seq<u8>) -> bool {
    match h {
        None => !(d.len() >= V2_PREFIX_LEN && is_v2_pragma(d)),
        Some(h) => {
            &&& d.len() >= V2_PREFIX_LEN && is_v2_pragma(d)
            &&& h.characteristics@ == d.subrange(11, 27)
            &&& h.data_offset == le_u64(d, 27)
            &&& h.data_size == le_u64(d, 35)
            &&& h.index_offset == le_u64(d, 43)
        },
    }
}

/// The bounds of the v1 payload: under a v2 header, `data_size` bytes from
/// `data_offset` (fewer where the input ends first); otherwise everything.
pub open spec fn v1_bounds(d: Seq<u8>, h: Option<CarV2Header>) -> (int, int) {
    match h {
        Some(h) => {
            let off = h.data_offset as int;
            let size = h.data_size as int;
            (off, if off + size <= d.len() { off + size } else { d.len() as int })
        },
        None => (0, d.len() as int),
    }
}

/// The DAG-CBOR head of an item of major type `major` and argument `n`, in
/// its shortest form (arguments below 2^16).
pub open spec fn cbor_head(major: nat, n: nat) -> Seq<u8> {
    if n < 24 {
        seq![(major * 32 + n) as u8]
    } else if n < 256 {
        seq![(major * 32 + 24) as u8, n as u8]
    } else {
        seq![(major * 32 + 25) as u8, (n / 256) as u8, (n % 256) as u8]
    }
}

/// One root in the header: the identifier tagged 42, as a byte string
/// holding a zero byte and then its encoding.
pub open spec fn root_item(c: CidModel) -> Seq<u8> {
    seq![0xd8u8, 0x2au8] + cbor_head(2, cid_bytes(c).len() + 1) + seq![0u8] + cid_bytes(c)
}

pub open spec fn root_items(roots: Seq<CidModel>) -> Seq<u8>
    decreases roots.len(),
{
    if roots.len() == 0 {
        Seq::empty()
    } else {
        root_items(roots.drop_last()) + root_item(roots.last())
    }
}

proof fn lemma_root_items_step(rs: Seq<CidModel>, i: int)
    requires
        0 <= i < rs.len(),
    ensures
        root_items(rs.take(i + 1)) == root_items(rs.take(i)) + root_item(rs[i]),
{
    assert(rs.take(i + 1).drop_last() =~= rs.take(i));
}

proof fn lemma_root_items_prefix(rs: Seq<CidModel>, j: int)
    requires
        0 <= j <= rs.len(),
    ensures
        root_items(rs.take(j)).len() <= root_items(rs).len(),
        root_items(rs).subrange(0, root_items(rs.take(j)).len() as int) == root_items(rs.take(j)),
    decreases rs.len(),
{
    if j == rs.len() {
        assert(rs.take(j) =~= rs);
        assert(root_items(rs).subrange(0, root_items(rs).len() as int) =~= root_items(rs));
    } else {
        let dl = rs.drop_last();
        assert(rs.take(j) =~= dl.take(j));
        lemma_root_items_prefix(dl, j);
        let a = root_items(dl.take(j));
        assert(root_items(rs) == root_items(dl) + root_item(rs.last()));
        assert(root_items(rs).subrange(0, a.len() as int) =~= root_items(dl).subrange(0, a.len() as int));
    }
}

pub open spec fn key_roots() -> Seq<u8> {
    seq![0x65u8, 0x72u8, 0x6fu8, 0x6fu8, 0x74u8, 0x73u8]
}

pub open spec fn key_version() -> Seq<u8> {
    seq![0x67u8, 0x76u8, 0x65u8, 0x72u8, 0x73u8, 0x69u8, 0x6fu8, 0x6eu8]
}

/// The DAG-CBOR encoding of a v1 header with `roots`: a map of two entries,
/// `roots` (an array of tagged identifiers) and `version` (1).
pub open spec fn header_bytes(roots: Seq<CidModel>) -> Seq<u8> {
    seq![0xa2u8] + key_roots() + cbor_head(4, roots.len()) + root_items(roots) + key_version()
        + seq![1u8]
}

/// The header of a v1 archive.
#[derive(Clone, Debug, PartialEq, Eq)]
pub struct CarV1Header {
    pub roots: Vec<Cid>,
    pub version: u64,
}

/// The models of a list of identifiers.
pub open spec fn cids_view(v: Seq<Cid>) -> Seq<CidModel> {
    v.map_values(|c: Cid| c@)
}

fn push_cbor_head(out: &mut Vec<u8>, major: u8, n: usize)
    requires
        major < 8,
        n < 65536,
    ensures
        final(out)@ == old(out)@ + cbor_head(major as nat, n as nat),
{
    if n < 24 {
        out.push(major * 32 + n as u8);
    } else if n < 256 {
        out.push(major * 32 + 24);
        out.push(n as u8);
    } else {
        out.push(major * 32 + 25);
        out.push((n / 256) as u8);
        out.push((n % 256) as u8);
    }
    assert(final(out)@ =~= old(out)@ + cbor_head(major as nat, n as nat));
}

/// Reads a head of major type `major` in its shortest form at `p`.
fn read_cbor_head(b: &[u8], p: usize, major: u8) -> (r: Option<(usize, usize)>)
    requires
        major < 8,
    ensures
        r matches Some((n, e)) ==> n < 65536 && p < e <= b@.len() && b@.subrange(p as int, e as int)
            == cbor_head(major as nat, n as nat),
        forall|n: nat| #![trigger cbor_head(major as nat, n)] n < 65536 && p + cbor_head(major as nat, n).len() <= b@.len()
            && b@.subrange(p as int, p + cbor_head(major as nat, n).len()) == cbor_head(major as nat, n)
            ==> r == Some((n as usize, (p + cbor_head(major as nat, n).len()) as usize)),
{
    proof {
        assert forall|n: nat| #![trigger cbor_head(major as nat, n)] n < 65536 && p + cbor_head(major as nat, n).len() <= b@.len()
            && b@.subrange(p as int, p + cbor_head(major as nat, n).len()) == cbor_head(major as nat, n)
            implies b@[p as int] == cbor_head(major as nat, n)[0] && (cbor_head(major as nat, n).len() > 1 ==> b@[p + 1] == cbor_head(major as nat, n)[1])
            && (cbor_head(major as nat, n).len() > 2 ==> b@[p + 2] == cbor_head(major as nat, n)[2]) by {
            let h = cbor_head(major as nat, n);
            assert(b@.subrange(p as int, p + h.len())[0] == b@[p as int]);
            if h.len() > 1 {
                assert(b@.subrange(p as int, p + h.len())[1] == b@[p + 1]);
            }
            if h.len() > 2 {
                assert(b@.subrange(p as int, p + h.len())[2] == b@[p + 2]);
            }
        }
    }
    if p >= b.len() {
        return None;
    }
    let first = b[p];
    let base = major * 32;
    if first >= base && first < base + 24 {
        let n = (first - base) as usize;
        assert(b@.subrange(p as int, p + 1) =~= cbor_head(major as nat, n as nat));
        Some((n, p + 1))
    } else if first == base + 24 {
        if b.len() - p <= 1 || b[p + 1] < 24 {
            return None;
        }
        let n = b[p + 1] as usize;
        assert(b@.subrange(p as int, p + 2) =~= cbor_head(major as nat, n as nat));
        Some((n, p + 2))
    } else if first == base + 25 {
        if b.len() - p <= 2 || b[p + 1] == 0 {
            return None;
        }
        let n = (b[p + 1] as usize) * 256 + b[p + 2] as usize;
        assert(n / 256 == b[p + 1] as nat && n % 256 == b[p + 2] as nat);
        assert(b@.subrange(p as int, p + 3) =~= cbor_head(major as nat, n as nat));
        Some((n, p + 3))
    } else {
        None
    }
}

/// Whether `b[p..]` opens with `lit`.
fn expect_bytes(b: &[u8], p: usize, lit: &[u8]) -> (r: bool)
    ensures
        r == (p + lit@.len() <= b@.len() && b@.subrange(p as int, p + lit@.len()) == lit@),
{
    if p > b.len() || b.len() - p < lit.len() {
        return false;
    }
    let blen = b.len();
    let mut i: usize = 0;
    while i < lit.len()
        invariant
            blen == b@.len(),
            p + lit@.len() <= b@.len(),
            i <= lit@.len(),
            forall|j: int| 0 <= j < i ==> b@[p + j] == lit@[j],
        decreases lit.len() - i,
    {
        if b[p + i] != lit[i] {
            assert(b@.subrange(p as int, p + lit@.len())[i as int] != lit@[i as int]);
            return false;
        }
        i = i + 1;
    }
    assert(b@.subrange(p as int, p + lit@.len()) =~= lit@);
    true
}

/// `b` is the encoding of a header with `rs`, a non-empty list of fewer
/// than 65536 well-formed identifiers.
pub open spec fn header_ok(rs: Seq<CidModel>, b: Seq<u8>) -> bool {
    &&& header_bytes(rs) == b
    &&& 0 < rs.len() < 65536
    &&& forall|i: int| 0 <= i < rs.len() ==> (#[trigger] rs[i]).wf()
}

proof fn lemma_header_parts(b: Seq<u8>, rs: Seq<CidModel>)
    requires
        header_ok(rs, b),
    ensures
        ({
            let hd = cbor_head(4, rs.len());
            let hs = 7 + hd.len() as int;
            let ri = root_items(rs);
            let rl = ri.len() as int;
            &&& b.len() == hs + rl + 9
            &&& b[0] == 0xa2
            &&& b.subrange(1, 7) == key_roots()
            &&& b.subrange(7, hs) == hd
            &&& b.subrange(hs, hs + rl) == ri
            &&& b.subrange(hs + rl, hs + rl + 8) == key_version()
            &&& b[hs + rl + 8] == 1
        }),
{
    let hd = cbor_head(4, rs.len());
    let ri = root_items(rs);
    let hs = 7 + hd.len() as int;
    let rl = ri.len() as int;
    let x = header_bytes(rs);
    assert(x =~= seq![0xa2u8] + key_roots() + hd + ri + key_version() + seq![1u8]);
    assert(b.subrange(0, b.len() as int) =~= b);
    lemma_sub(b, 0, x, 1, 7);
    lemma_sub(b, 0, x, 7, hs);
    lemma_sub(b, 0, x, hs, hs + rl);
    lemma_sub(b, 0, x, hs + rl, hs + rl + 8);
    assert(x.subrange(1, 7) =~= key_roots());
    assert(x.subrange(7, hs) =~= hd);
    assert(x.subrange(hs, hs + rl) =~= ri);
    assert(x.subrange(hs + rl, hs + rl + 8) =~= key_version());
}

#[verifier::rlimit(80)]
#[verifier::spinoff_prover]
proof fn lemma_item_parts(b: Seq<u8>, rs: Seq<CidModel>, i: int)
    requires
        header_ok(rs, b),
        0 <= i < rs.len(),
    ensures
        ({
            let hs = 7 + cbor_head(4, rs.len()).len() as int;
            let p = hs + root_items(rs.take(i)).len() as int;
            let c = rs[i];
            let h2 = cbor_head(2, cid_bytes(c).len() + 1);
            let q = p + 2 + h2.len() as int;
            &&& p + root_item(c).len() <= b.len()
            &&& b[p] == 0xd8 && b[p + 1] == 0x2a
            &&& b.subrange(p + 2, q) == h2
            &&& b[q] == 0
            &&& cid_at(b, q + 1, c)
            &&& root_items(rs.take(i + 1)).len() == root_items(rs.take(i)).len() + root_item(c).len()
            &&& root_item(c).len() == 3 + h2.len() + cid_bytes(c).len()
        }),
{
    lemma_header_parts(b, rs);
    let hs = 7 + cbor_head(4, rs.len()).len() as int;
    let ri = root_items(rs);
    let c = rs[i];
    let h2 = cbor_head(2, cid_bytes(c).len() + 1);
    let x = root_item(c);
    lemma_root_items_step(rs, i);
    lemma_root_items_prefix(rs, i + 1);
    let pre = root_items(rs.take(i));
    let pl = pre.len() as int;
    let xl = x.len() as int;
    let h2l = h2.len() as int;
    let p = hs + pl;
    let q = p + 2 + h2l;
    // the item lies inside the roots section
    lemma_sub(b, hs, ri, pl, pl + xl);
    assert(ri.subrange(pl, pl + xl) =~= x) by {
        assert(ri.subrange(0, pl + xl) == pre + x);
        assert forall|k: int| 0 <= k < xl implies ri.subrange(pl, pl + xl)[k] == x[k] by {
            assert(ri.subrange(0, pl + xl)[pl + k] == ri[pl + k]);
        }
    }
    assert(x =~= seq![0xd8u8, 0x2au8] + h2 + seq![0u8] + cid_bytes(c));
    lemma_sub(b, p, x, 0, 1);
    lemma_sub(b, p, x, 1, 2);
    lemma_sub(b, p, x, 2, 2 + h2l);
    lemma_sub(b, p, x, 2 + h2l, 3 + h2l);
    lemma_sub(b, p, x, 3 + h2l, xl);
    assert(x.subrange(2, 2 + h2l) =~= h2);
    assert(x.subrange(3 + h2l, xl) =~= cid_bytes(c));
    assert(b.subrange(p, p + 1)[0] == b[p]);
    assert(b.subrange(p + 1, p + 2)[0] == b[p + 1]);
    assert(b.subrange(q, q + 1)[0] == b[q]);
}

impl CarV1Header {
    /// Appends the DAG-CBOR encoding of a version 1 header with `roots`.
    pub fn encode(roots: &Vec<Cid>, out: &mut Vec<u8>)
        requires
            roots@.len() < 65536,
            forall|i: int| 0 <= i < roots@.len() ==> (#[trigger] roots@[i])@.wf(),
        ensures
            final(out)@ == old(out)@ + header_bytes(cids_view(roots@)),
    {
        out.push(0xa2);
        let key: [u8; 6] = [0x65, 0x72, 0x6f, 0x6f, 0x74, 0x73];
        append_bytes(out, key.as_slice());
        assert(key@ =~= key_roots());
        push_cbor_head(out, 4, roots.len());
        let ghost items_start = out@.len();
        let mut i: usize = 0;
        while i < roots.len()
            invariant
                i <= roots@.len(),
                roots@.len() < 65536,
                forall|j: int| 0 <= j < roots@.len() ==> (#[trigger] roots@[j])@.wf(),
                items_start <= out@.len(),
                out@.subrange(items_start as int, out@.len() as int) == root_items(cids_view(roots@).take(i as int)),
                out@.subrange(0, items_start as int) == old(out)@ + seq![0xa2u8] + key_roots() + cbor_head(4, roots@.len()),
            decreases roots.len() - i,
        {
            let ghost before = out@;
            let c = &roots[i];
            let bytes = c.to_bytes();
            proof {
                lemma_cid_len(c@);
            }
            out.push(0xd8);
            out.push(0x2a);
            push_cbor_head(out, 2, bytes.len() + 1);
            out.push(0);
            append_bytes(out, bytes.as_slice());
            proof {
                let v = cids_view(roots@);
                assert(v.take(i + 1).drop_last() =~= v.take(i as int));
                assert(v.take(i + 1).last() == roots@[i as int]@);
                assert(out@ =~= before + root_item(roots@[i as int]@));
                assert(out@.subrange(items_start as int, out@.len() as int) =~= before.subrange(items_start as int, before.len() as int) + root_item(roots@[i as int]@));
                assert(out@.subrange(0, items_start as int) =~= before.subrange(0, items_start as int));
            }
            i = i + 1;
        }
        let ghost items_end = out@.len();
        let ghost mid = out@;
        proof {
            assert(mid =~= mid.subrange(0, items_start as int) + mid.subrange(items_start as int, items_end as int));
            assert(cids_view(roots@).take(roots@.len() as int) =~= cids_view(roots@));
        }
        let key2: [u8; 8] = [0x67, 0x76, 0x65, 0x72, 0x73, 0x69, 0x6f, 0x6e];
        append_bytes(out, key2.as_slice());
        assert(key2@ =~= key_version());
        out.push(1);
        proof {
            assert(out@ =~= mid + key_version() + seq![1u8]);
            assert(final(out)@ =~= old(out)@ + header_bytes(cids_view(roots@)));
        }
    }

    /// Parses the DAG-CBOR encoding of a header. Only version 1 with at
    /// least one root is accepted.
    #[verifier::rlimit(80)]
    #[verifier::spinoff_prover]
    pub fn parse(b: &[u8]) -> (r: Option<CarV1Header>)
        ensures
            r matches Some(h) ==> {
                &&& h.version == 1
                &&& h.roots@.len() > 0
                &&& forall|i: int| 0 <= i < h.roots@.len() ==> (#[trigger] h.roots@[i])@.wf()
                &&& b@ == header_bytes(cids_view(h.roots@))
            },
            forall|rs: Seq<CidModel>| #[trigger] header_ok(rs, b@) ==> (r is Some && cids_view(r->0.roots@) == rs),
    {
        if !(b.len() > 0 && b[0] == 0xa2) {
            proof {
                assert forall|rs: Seq<CidModel>| !#[trigger] header_ok(rs, b@) by {
                    if header_ok(rs, b@) {
                        lemma_header_parts(b@, rs);
                    }
                }
            }
            return None;
        }
        let key: [u8; 6] = [0x65, 0x72, 0x6f, 0x6f, 0x74, 0x73];
        assert(key@ =~= key_roots());
        if !expect_bytes(b, 1, key.as_slice()) {
            proof {
                assert forall|rs: Seq<CidModel>| !#[trigger] header_ok(rs, b@) by {
                    if header_ok(rs, b@) {
                        lemma_header_parts(b@, rs);
                    }
                }
            }
            return None;
        }
        let rn = read_cbor_head(b, 7, 4);
        proof {
            assert forall|rs: Seq<CidModel>| #[trigger] header_ok(rs, b@) implies rn == Some((rs.len() as usize, (7 + cbor_head(4, rs.len()).len()) as usize)) by {
                lemma_header_parts(b@, rs);
                assert(cbor_head(4, rs.len()) == cbor_head(4 as nat, rs.len()));
            }
        }
        let (n, mut p) = match rn {
            Some(x) => x,
            None => {
                return None;
            },
        };
        if n == 0 {
            return None;
        }
        let items_start = p;
        let mut roots: Vec<Cid> = Vec::new();
        let mut i: usize = 0;
        while i < n
            invariant
                i <= n < 65536,
                roots@.len() == i,
                items_start <= p <= b@.len(),
                forall|j: int| 0 <= j < roots@.len() ==> (#[trigger] roots@[j])@.wf(),
                b@.subrange(items_start as int, p as int) == root_items(cids_view(roots@)),
                forall|rs: Seq<CidModel>| #[trigger] header_ok(rs, b@) ==> {
                    &&& rs.len() == n
                    &&& items_start == 7 + cbor_head(4, rs.len()).len()
                    &&& cids_view(roots@) == rs.take(i as int)
                    &&& p == items_start + root_items(rs.take(i as int)).len()
                },
            decreases n - i,
        {
            proof {
                assert forall|rs: Seq<CidModel>| #[trigger] header_ok(rs, b@) implies ({
                    let c = rs[i as int];
                    let h2 = cbor_head(2, cid_bytes(c).len() + 1);
                    let q = p + 2 + h2.len() as int;
                    &&& b@[p as int] == 0xd8 && b@[p + 1] == 0x2a
                    &&& b@.subrange(p + 2, q) == h2
                    &&& b@[q] == 0
                    &&& cid_at(b@, q + 1, c)
                    &&& p + root_item(c).len() <= b@.len()
                }) by {
                    lemma_item_parts(b@, rs, i as int);
                }
            }
            if !(b.len() - p > 1 && b[p] == 0xd8 && b[p + 1] == 0x2a) {
                proof {
                    assert forall|rs: Seq<CidModel>| !#[trigger] header_ok(rs, b@) by {
                        if header_ok(rs, b@) {
                            lemma_item_parts(b@, rs, i as int);
                        }
                    }
                }
                return None;
            }
            let rb = read_cbor_head(b, p + 2, 2);
            proof {
                assert forall|rs: Seq<CidModel>| #[trigger] header_ok(rs, b@) implies rb == Some(((cid_bytes(rs[i as int]).len() + 1) as usize, (p + 2 + cbor_head(2, cid_bytes(rs[i as int]).len() + 1).len()) as usize)) by {
                    lemma_item_parts(b@, rs, i as int);
                    lemma_cid_len(rs[i as int]);
                    assert(cbor_head(2, cid_bytes(rs[i as int]).len() + 1) == cbor_head(2 as nat, (cid_bytes(rs[i as int]).len() + 1) as nat));
                }
            }
            let (blen, q) = match rb {
                Some(x) => x,
                None => {
                    return None;
                },
            };
            if blen == 0 || q >= b.len() || b[q] != 0 {
                return None;
            }
            let (c, e) = match Cid::read_bytes(b, q + 1) {
                Some(x) => x,
                None => {
                    return None;
                },
            };
            if e - q != blen {
                return None;
            }
            proof {
                let old_roots = roots@;
                assert(b@.subrange(p as int, e as int) =~= seq![0xd8u8, 0x2au8] + b@.subrange(p + 2, q as int) + seq![0u8] + b@.subrange(q + 1, e as int));
                assert(b@.subrange(p as int, e as int) == root_item(c@));
                assert(b@.subrange(items_start as int, e as int) =~= b@.subrange(items_start as int, p as int) + b@.subrange(p as int, e as int));
                assert(cids_view(old_roots.push(c)).drop_last() =~= cids_view(old_roots));
                assert forall|rs: Seq<CidModel>| #[trigger] header_ok(rs, b@) implies cids_view(old_roots.push(c)) == rs.take(i + 1)
                    && e == items_start + root_items(rs.take(i + 1)).len() by {
                    lemma_item_parts(b@, rs, i as int);
                    assert(c@ == rs[i as int]);
                    assert(cids_view(old_roots.push(c)) =~= rs.take(i + 1));
                }
            }
            roots.push(c);
            p = e;
            i = i + 1;
        }
        let key2: [u8; 8] = [0x67, 0x76, 0x65, 0x72, 0x73, 0x69, 0x6f, 0x6e];
        assert(key2@ =~= key_version());
        proof {
            assert forall|rs: Seq<CidModel>| #[trigger] header_ok(rs, b@) implies {
                &&& p + 8 <= b@.len()
                &&& b@.subrange(p as int, p + 8) == key_version()
                &&& b@.len() - p == 9
                &&& b@[p + 8] == 1
            } by {
                lemma_header_parts(b@, rs);
                assert(rs.take(rs.len() as int) =~= rs);
            }
        }
        if !expect_bytes(b, p, key2.as_slice()) {
            return None;
        }
        if !(b.len() - p == 9 && b[p + 8] == 1) {
            return None;
        }
        proof {
            assert(b@ =~= seq![0xa2u8] + b@.subrange(1, 7) + b@.subrange(7, items_start as int) + b@.subrange(items_start as int, p as int) + b@.subrange(p as int, p + 8) + seq![1u8]);
            assert forall|rs: Seq<CidModel>| #[trigger] header_ok(rs, b@) implies cids_view(roots@) == rs by {
                assert(rs.take(rs.len() as int) =~= rs);
            }
        }
        Some(CarV1Header { roots, version: 1 })
    }
}


/// `b` holds a frame around `content` at `p`.
pub open spec fn frame_at(b: Seq<u8>, p: int, content: Seq<u8>) -> bool {
    &&& 0 <= p
    &&& p + frame(content).len() <= b.len()
    &&& b.subrange(p, p + frame(content).len()) == frame(content)
}

/// Reads the frame at `p`: the bounds of its contents.
pub fn read_frame(b: &[u8], p: usize) -> (r: Result<(usize, usize), CarError>)
    ensures
        r matches Ok((q, e)) ==> p < q <= e <= b@.len() && frame_at(b@, p as int, b@.subrange(q as int, e as int)) && e == p + frame(b@.subrange(q as int, e as int)).len(),
        r matches Err(e) ==> e == CarError::InvalidData,
        forall|x: Seq<u8>| #[trigger] frame_at(b@, p as int, x) && x.len() <= u64::MAX ==> (r matches Ok((q, e)) && e == p + frame(x).len() && b@.subrange(q as int, e as int) == x),
{
    proof {
        assert forall|x: Seq<u8>| #[trigger] frame_at(b@, p as int, x) implies has_varint_at(b@, p as int, x.len()) by {
            assert(b@.subrange(p as int, p + varint(x.len()).len()) =~= b@.subrange(p as int, p + frame(x).len()).subrange(0, varint(x.len()).len() as int));
            assert(frame(x).subrange(0, varint(x.len()).len() as int) =~= varint(x.len()));
        }
    }
    let (len, q) = match decode_varint(b, p) {
        Some(x) => x,
        None => {
            return Err(CarError::InvalidData);
        },
    };
    if ((b.len() - q) as u64) < len {
        return Err(CarError::InvalidData);
    }
    let e = q + len as usize;
    proof {
        assert(b@.subrange(p as int, e as int) =~= b@.subrange(p as int, q as int) + b@.subrange(q as int, e as int));
        assert forall|x: Seq<u8>| #[trigger] frame_at(b@, p as int, x) && x.len() <= u64::MAX implies e == p + frame(x).len() && b@.subrange(q as int, e as int) == x by {
            assert(x =~= b@.subrange(p as int, p + frame(x).len()).subrange(varint(x.len()).len() as int, frame(x).len() as int));
        }
    }
    Ok((q, e))
}

/// A stream of the blocks of an archive held in memory. A zstd input is
/// decompressed first; a v2 archive is read within its v1 payload.
pub struct CarStream {
    pub payload: Vec<u8>,
    pub pos: usize,
    pub header_v1: CarV1Header,
    pub header_v2: Option<CarV2Header>,
    pub first_block: Option<CarBlock>,
}

/// `p` opens with the frame of a header with valid roots `rs`.
pub open spec fn starts_v1(p: Seq<u8>, rs: Seq<CidModel>) -> bool {
    &&& header_ok(rs, header_bytes(rs))
    &&& frame_at(p, 0, header_bytes(rs))
}

/// Where the header frame with `rs` ends.
pub open spec fn header_end(rs: Seq<CidModel>) -> int {
    frame(header_bytes(rs)).len() as int
}

/// After the header, `p` ends, or holds the frame of a valid block.
pub open spec fn first_frame_ok(p: Seq<u8>, at: int) -> bool {
    ||| at == p.len()
    ||| exists|c: CidModel, d: Seq<u8>| #[trigger] frame_at(p, at, block_bytes(c, d)) && c.wf() && valid_block(c, d)
        && block_bytes(c, d).len() <= u64::MAX
}

/// The v1 payload of `d` under the v2 header `h`.
pub open spec fn payload_of(d: Seq<u8>, h: Option<CarV2Header>) -> Seq<u8> {
    d.subrange(v1_bounds(d, h).0, v1_bounds(d, h).1)
}

/// A v2 archive whose header bounds exactly the bytes `v` has `v` as its
/// v1 payload: wrapping is transparent to the reader, whatever lies before
/// the payload or after it.
pub proof fn lemma_v2_payload(w: Seq<u8>, h: CarV2Header, v: Seq<u8>)
    requires
        v2_header_in(Some(h), w),
        h.data_offset + h.data_size <= w.len(),
        w.subrange(h.data_offset as int, h.data_offset + h.data_size) == v,
    ensures
        payload_of(w, Some(h)) == v,
{
}

proof fn lemma_header_len(rs: Seq<CidModel>)
    requires
        forall|i: int| 0 <= i < rs.len() ==> (#[trigger] rs[i]).wf(),
    ensures
        root_items(rs).len() <= 134 * rs.len(),
    decreases rs.len(),
{
    if rs.len() > 0 {
        let dl = rs.drop_last();
        assert forall|i: int| 0 <= i < dl.len() implies (#[trigger] dl[i]).wf() by {
            assert(dl[i] == rs[i]);
        }
        lemma_header_len(dl);
        lemma_cid_len(rs.last());
    }
}

/// The frames of `bs`, in order.
pub open spec fn block_frames(bs: Seq<(CidModel, Seq<u8>)>) -> Seq<u8>
    decreases bs.len(),
{
    if bs.len() == 0 {
        Seq::empty()
    } else {
        block_frames(bs.drop_last()) + frame(block_bytes(bs.last().0, bs.last().1))
    }
}

/// A v1 archive with roots `rs` and blocks `bs`, as [`CarWriter`] lays it out.
pub open spec fn car_v1_bytes(rs: Seq<CidModel>, bs: Seq<(CidModel, Seq<u8>)>) -> Seq<u8> {
    frame(header_bytes(rs)) + block_frames(bs)
}

proof fn lemma_block_frames_prefix(bs: Seq<(CidModel, Seq<u8>)>, j: int)
    requires
        0 <= j <= bs.len(),
    ensures
        block_frames(bs.take(j)).len() <= block_frames(bs).len(),
        block_frames(bs).subrange(0, block_frames(bs.take(j)).len() as int) == block_frames(bs.take(j)),
    decreases bs.len(),
{
    if j == bs.len() {
        assert(bs.take(j) =~= bs);
        assert(block_frames(bs).subrange(0, block_frames(bs).len() as int) =~= block_frames(bs));
    } else {
        let dl = bs.drop_last();
        assert(bs.take(j) =~= dl.take(j));
        lemma_block_frames_prefix(dl, j);
        let a = block_frames(dl.take(j));
        assert(block_frames(bs).subrange(0, a.len() as int) =~= block_frames(dl).subrange(0, a.len() as int));
    }
}

/// In a v1 archive written with roots `rs` and blocks `bs`, the header frame
/// with `rs` opens the bytes, the frame of block `i` follows those of the
/// blocks before it, and the frames of all blocks end the archive. With the
/// contracts of [`CarStream::new_with_header_v2`] and [`CarStream::next`],
/// reading such an archive yields `rs` and then `bs` in order.
pub proof fn lemma_v1_layout(rs: Seq<CidModel>, bs: Seq<(CidModel, Seq<u8>)>, i: int)
    requires
        header_ok(rs, header_bytes(rs)),
        0 <= i < bs.len(),
    ensures
        starts_v1(car_v1_bytes(rs, bs), rs),
        frame_at(car_v1_bytes(rs, bs), header_end(rs) + block_frames(bs.take(i)).len(), block_bytes(bs[i].0, bs[i].1)),
        block_frames(bs.take(i + 1)).len() == block_frames(bs.take(i)).len() + frame(block_bytes(bs[i].0, bs[i].1)).len(),
        header_end(rs) + block_frames(bs.take(0)).len() == header_end(rs),
        header_end(rs) + block_frames(bs.take(bs.len() as int)).len() == car_v1_bytes(rs, bs).len(),
{
    let car = car_v1_bytes(rs, bs);
    let h = frame(header_bytes(rs));
    let hl = h.len() as int;
    assert(car.subrange(0, hl) =~= h);
    assert(bs.take(i + 1).drop_last() =~= bs.take(i));
    assert(bs.take(0) =~= Seq::<(CidModel, Seq<u8>)>::empty());
    assert(bs.take(bs.len() as int) =~= bs);
    lemma_block_frames_prefix(bs, i + 1);
    let pre = block_frames(bs.take(i));
    let x = frame(block_bytes(bs[i].0, bs[i].1));
    let pl = pre.len() as int;
    let xl = x.len() as int;
    let all = block_frames(bs);
    assert(block_frames(bs.take(i + 1)) == pre + x);
    assert(car.subrange(hl + pl, hl + pl + xl) =~= x) by {
        assert forall|k: int| 0 <= k < xl implies car.subrange(hl + pl, hl + pl + xl)[k] == x[k] by {
            assert(all.subrange(0, pl + xl)[pl + k] == all[pl + k]);
            assert(car[hl + pl + k] == all[pl + k]);
        }
    }
}

impl CarStream {
    /// What the stream holds after opening a payload that starts with the
    /// header frame with `rs`: those roots, and as first block the block in
    /// the frame that follows, if any.
    pub open spec fn reads_from(s: CarStream, rs: Seq<CidModel>) -> bool {
        &&& cids_view(s.header_v1.roots@) == rs
        &&& (header_end(rs) == s.payload@.len() ==> s.first_block is None && s.pos == header_end(rs))
        &&& forall|c: CidModel, d: Seq<u8>| #[trigger] frame_at(s.payload@, header_end(rs), block_bytes(c, d))
            && c.wf() && block_bytes(c, d).len() <= u64::MAX ==> (s.first_block is Some && s.first_block->0.cid@ == c
            && s.first_block->0.data@ == d && s.pos == header_end(rs) + frame(block_bytes(c, d)).len())
    }

    pub open spec fn wf(&self) -> bool {
        self.pos <= self.payload@.len()
    }

    /// The input after decompression, when it is zstd.
    fn decode_input(input: &[u8]) -> (r: Result<Vec<u8>, CarError>)
        ensures
            decoded_input(input@) is None <==> r is Err,
            r matches Ok(d) ==> decoded_input(input@) == Some(d@),
            r matches Err(e) ==> e == CarError::InvalidData,
    {
        if is_zstd(input) {
            match zstd_decode(input) {
                Some(d) => Ok(d),
                None => Err(CarError::InvalidData),
            }
        } else {
            let d = copy_range(input, 0, input.len());
            assert(input@.subrange(0, input@.len() as int) =~= input@);
            Ok(d)
        }
    }

    /// Reads the v2 header from the first 51 bytes of the decompressed
    /// input; fewer bytes than that is an error.
    pub fn extract_header_v2(input: &[u8]) -> (r: Result<Option<CarV2Header>, CarError>)
        ensures
            decoded_input(input@) is None ==> r == Err::<Option<CarV2Header>, CarError>(CarError::InvalidData),
            decoded_input(input@) matches Some(d) ==> {
                &&& (d.len() < V2_PREFIX_LEN <==> r == Err::<Option<CarV2Header>, CarError>(CarError::UnexpectedEof))
                &&& (d.len() >= V2_PREFIX_LEN ==> r is Ok)
                &&& (r matches Ok(h) ==> v2_header_in(h, d))
            },
    {
        let d = match Self::decode_input(input) {
            Ok(d) => d,
            Err(e) => {
                return Err(e);
            },
        };
        if d.len() < V2_PREFIX_LEN {
            return Err(CarError::UnexpectedEof);
        }
        Ok(read_v2_header(d.as_slice()))
    }

    /// Opens an archive, reading its v2 header first; input shorter than a
    /// v2 header is an error.
    pub fn new(input: &[u8]) -> (r: Result<CarStream, CarError>)
        ensures
            decoded_input(input@) is None ==> r == Err::<CarStream, CarError>(CarError::InvalidData),
            decoded_input(input@) is Some && decoded_input(input@)->0.len() < V2_PREFIX_LEN ==> r == Err::<CarStream, CarError>(CarError::UnexpectedEof),
            decoded_input(input@) is Some && decoded_input(input@)->0.len() >= V2_PREFIX_LEN ==> exists|h: Option<CarV2Header>|
                #[trigger] v2_header_in(h, decoded_input(input@)->0) && Self::from_decoded_outcome(decoded_input(input@)->0, h, r),
    {
        let header_v2 = match Self::extract_header_v2(input) {
            Ok(h) => h,
            Err(e) => {
                return Err(e);
            },
        };
        assert(v2_header_in(header_v2, decoded_input(input@)->0));
        Self::new_with_header_v2(input, header_v2)
    }

    /// Opens an archive, taking a v2 header where the decompressed input
    /// holds one and reading it as v1 otherwise.
    pub fn new_unsafe(input: &[u8]) -> (r: Result<CarStream, CarError>)
        ensures
            decoded_input(input@) is None ==> r == Err::<CarStream, CarError>(CarError::InvalidData),
            decoded_input(input@) is Some ==> exists|h: Option<CarV2Header>|
                #[trigger] v2_header_in(h, decoded_input(input@)->0) && Self::from_decoded_outcome(decoded_input(input@)->0, h, r),
    {
        let d = match Self::decode_input(input) {
            Ok(d) => d,
            Err(e) => {
                return Err(e);
            },
        };
        let header_v2 = read_v2_header(d.as_slice());
        assert(v2_header_in(header_v2, d@));
        Self::new_with_header_v2(input, header_v2)
    }

    /// The outcome of [`CarStream::from_decoded`] on `decoded` under
    /// `header_v2`: a data offset past the end is an error; an opened stream
    /// holds the v1 payload, its header and a valid first block, and holds
    /// exactly the roots and first block written there; and opening succeeds
    /// whenever the payload starts with a header frame followed by nothing
    /// or by the frame of a valid block.
    pub open spec fn from_decoded_outcome(decoded: Seq<u8>, header_v2: Option<CarV2Header>, r: Result<CarStream, CarError>) -> bool {
        &&& (header_v2 is Some && header_v2->0.data_offset > decoded.len() ==> r == Err::<CarStream, CarError>(CarError::UnexpectedEof))
        &&& (r matches Ok(s) ==> {
            &&& s.wf()
            &&& s.payload@ == decoded.subrange(v1_bounds(decoded, header_v2).0, v1_bounds(decoded, header_v2).1)
            &&& s.header_v2 == header_v2
            &&& s.header_v1.version == 1
            &&& s.header_v1.roots@.len() > 0
            &&& exists|hend: int| 0 <= hend <= s.pos && #[trigger] s.payload@.subrange(0, hend) == frame(header_bytes(cids_view(s.header_v1.roots@)))
            &&& (s.first_block matches Some(b) ==> valid_block(b.cid@, b.data@))
            &&& (s.first_block is None ==> s.pos == s.payload@.len())
            &&& forall|rs: Seq<CidModel>| #[trigger] starts_v1(s.payload@, rs) ==> Self::reads_from(s, rs)
        })
        &&& ((header_v2 is Some ==> header_v2->0.data_offset <= decoded.len())
            && (exists|rs: Seq<CidModel>| #[trigger] starts_v1(payload_of(decoded, header_v2), rs)
                && first_frame_ok(payload_of(decoded, header_v2), header_end(rs))) ==> r is Ok)
        &&& (r is Err && !(header_v2 is Some && header_v2->0.data_offset > decoded.len())
            ==> r == Err::<CarStream, CarError>(CarError::InvalidData))
        &&& (forall|rs: Seq<CidModel>, c: CidModel, d: Seq<u8>| !(header_v2 is Some && header_v2->0.data_offset > decoded.len())
            && #[trigger] starts_v1(payload_of(decoded, header_v2), rs)
            && #[trigger] frame_at(payload_of(decoded, header_v2), header_end(rs), block_bytes(c, d)) && c.wf()
            && block_bytes(c, d).len() <= u64::MAX && !valid_block(c, d) ==> r == Err::<CarStream, CarError>(CarError::InvalidData))
    }

    /// Opens decompressed archive bytes under the v2 header `header_v2`:
    /// keeps the v1 payload that the header bounds, parses the v1 header,
    /// and reads and validates the first block, which the stream then
    /// yields first.
    pub fn from_decoded(decoded: &[u8], header_v2: Option<CarV2Header>) -> (r: Result<CarStream, CarError>)
        ensures
            Self::from_decoded_outcome(decoded@, header_v2, r),
    {
        let len = decoded.len();
        let (lo, hi): (usize, usize) = match &header_v2 {
            Some(h) => {
                if h.data_offset > len as u64 {
                    return Err(CarError::UnexpectedEof);
                }
                let lo = h.data_offset as usize;
                let hi = if h.data_size <= (len - lo) as u64 {
                    lo + h.data_size as usize
                } else {
                    len
                };
                (lo, hi)
            },
            None => (0, len),
        };
        assert(v1_bounds(decoded@, header_v2) == (lo as int, hi as int));
        let payload = copy_range(decoded, lo, hi);
        proof {
            assert forall|rs: Seq<CidModel>| #[trigger] starts_v1(payload@, rs) implies header_bytes(rs).len() <= u64::MAX by {
                lemma_header_len(rs);
            }
        }
        let (hq, he) = match read_frame(payload.as_slice(), 0) {
            Ok(x) => x,
            Err(e) => {
                return Err(e);
            },
        };
        let hbytes = copy_range(payload.as_slice(), hq, he);
        proof {
            assert forall|rs: Seq<CidModel>| #[trigger] starts_v1(payload@, rs) implies header_ok(rs, hbytes@) && he == header_end(rs) by {
                lemma_header_len(rs);
            }
        }
        let header_v1 = match CarV1Header::parse(hbytes.as_slice()) {
            Some(h) => h,
            None => {
                return Err(CarError::InvalidData);
            },
        };
        proof {
            assert forall|rs: Seq<CidModel>| #[trigger] starts_v1(payload@, rs) implies cids_view(header_v1.roots@) == rs by {
                assert(header_ok(rs, hbytes@));
            }
            assert forall|c: CidModel, d: Seq<u8>| #[trigger] frame_at(payload@, he as int, block_bytes(c, d)) implies he < payload@.len() by {
                lemma_varint_shape(block_bytes(c, d).len());
            }
        }
        proof {
            assert(payload@.subrange(0, he as int) == frame(header_bytes(cids_view(header_v1.roots@))));
            assert(exists|hend: int| 0 <= hend <= he && payload@.subrange(0, hend) == frame(header_bytes(cids_view(header_v1.roots@))));
        }
        if he >= payload.len() {
            let s = CarStream { payload, pos: he, header_v1, header_v2, first_block: None };
            proof {
                let d = decoded@;
                assert(s.wf());
                assert(s.payload@ == d.subrange(v1_bounds(d, header_v2).0, v1_bounds(d, header_v2).1));
                assert(s.header_v1.version == 1);
                assert(s.header_v1.roots@.len() > 0);
                assert(s.payload@.subrange(0, he as int) == frame(header_bytes(cids_view(s.header_v1.roots@))));
            }
            return Ok(s);
        }
        let (q, e) = match read_frame(payload.as_slice(), he) {
            Ok(x) => x,
            Err(err) => {
                return Err(err);
            },
        };
        let content = copy_range(payload.as_slice(), q, e);
        let block = match CarBlock::from_bytes(content.as_slice()) {
            Ok(b) => b,
            Err(err) => {
                return Err(err);
            },
        };
        proof {
            assert forall|c: CidModel, d: Seq<u8>| #[trigger] frame_at(payload@, he as int, block_bytes(c, d)) && c.wf() && block_bytes(c, d).len() <= u64::MAX
                implies block.cid@ == c && block.data@ == d && e == he + frame(block_bytes(c, d)).len() by {
                assert(content@ == block_bytes(c, d));
            }
        }
        if !block.valid() {
            return Err(CarError::InvalidData);
        }
        let s = CarStream { payload, pos: e, header_v1, header_v2, first_block: Some(block) };
            proof {
                let d = decoded@;
                assert(s.wf());
                assert(s.payload@ == d.subrange(v1_bounds(d, header_v2).0, v1_bounds(d, header_v2).1));
                assert(s.header_v1.version == 1);
                assert(s.header_v1.roots@.len() > 0);
                assert(s.payload@.subrange(0, he as int) == frame(header_bytes(cids_view(s.header_v1.roots@))));
            }
        Ok(s)
    }

    /// Opens an archive whose v2 header, if any, was read beforehand:
    /// decompresses a zstd input, then reads it as [`CarStream::from_decoded`] does.
    pub fn new_with_header_v2(input: &[u8], header_v2: Option<CarV2Header>) -> (r: Result<CarStream, CarError>)
        ensures
            decoded_input(input@) is None ==> r == Err::<CarStream, CarError>(CarError::InvalidData),
            decoded_input(input@) is Some ==> Self::from_decoded_outcome(decoded_input(input@)->0, header_v2, r),
    {
        let decoded = match Self::decode_input(input) {
            Ok(d) => d,
            Err(e) => {
                return Err(e);
            },
        };
        Self::from_decoded(decoded.as_slice(), header_v2)
    }

    /// The next block: the retained first block, then one per frame until
    /// the payload ends. A frame that does not hold a block yields an error
    /// and ends the stream.
    pub fn next(&mut self) -> (r: Option<Result<CarBlock, CarError>>)
        requires
            old(self).wf(),
        ensures
            final(self).wf(),
            final(self).payload == old(self).payload,
            final(self).header_v1 == old(self).header_v1,
            final(self).header_v2 == old(self).header_v2,
            final(self).first_block is None,
            old(self).first_block matches Some(b) ==> r == Some(Ok::<CarBlock, CarError>(b)) && final(self).pos == old(self).pos,
            old(self).first_block is None ==> {
                &&& (old(self).pos == old(self).payload@.len() <==> r is None)
                &&& (r matches Some(Ok(b)) ==> b.cid@.wf() && final(self).pos <= final(self).payload@.len() && frame_at(
                    old(self).payload@,
                    old(self).pos as int,
                    block_bytes(b.cid@, b.data@),
                ) && final(self).pos == old(self).pos + frame(block_bytes(b.cid@, b.data@)).len())
                &&& (r matches Some(Err(_)) ==> final(self).pos == final(self).payload@.len())
                &&& forall|c: CidModel, d: Seq<u8>| #[trigger] frame_at(old(self).payload@, old(self).pos as int, block_bytes(c, d))
                    && c.wf() && block_bytes(c, d).len() <= u64::MAX ==> (r matches Some(Ok(b)) && b.cid@ == c && b.data@ == d)
            },
    {
        match self.first_block.take() {
            Some(b) => {
                return Some(Ok(b));
            },
            None => {},
        }
        if self.pos >= self.payload.len() {
            return None;
        }
        let (q, e) = match read_frame(self.payload.as_slice(), self.pos) {
            Ok(x) => x,
            Err(err) => {
                self.pos = self.payload.len();
                return Some(Err(err));
            },
        };
        let content = copy_range(self.payload.as_slice(), q, e);
        match CarBlock::from_bytes(content.as_slice()) {
            Ok(b) => {
                self.pos = e;
                Some(Ok(b))
            },
            Err(err) => {
                self.pos = self.payload.len();
                Some(Err(err))
            },
        }
    }
}

/// Writes an archive into a buffer: the v1 header on construction, then
/// one frame per block sent. The owner drains the buffer into its sink,
/// advancing past what each write took.
pub struct CarWriter {
    pub buffer: Vec<u8>,
}

impl CarWriter {
    /// A writer whose buffer holds the header frame with `roots`. Fails on
    /// an empty root list, a malformed identifier, or 65536 roots or more.
    pub fn new_carv1(roots: &Vec<Cid>) -> (r: Result<CarWriter, CarError>)
        ensures
            r is Ok <==> 0 < roots@.len() < 65536 && forall|i: int| 0 <= i < roots@.len() ==> (#[trigger] roots@[i])@.wf(),
            r matches Ok(w) ==> w.buffer@ == frame(header_bytes(cids_view(roots@))),
            r matches Err(e) ==> e == CarError::InvalidData,
    {
        if roots.len() == 0 || roots.len() >= 65536 {
            return Err(CarError::InvalidData);
        }
        let mut i: usize = 0;
        while i < roots.len()
            invariant
                i <= roots@.len(),
                forall|j: int| 0 <= j < i ==> (#[trigger] roots@[j])@.wf(),
            decreases roots.len() - i,
        {
            if !roots[i].is_well_formed() {
                return Err(CarError::InvalidData);
            }
            i = i + 1;
        }
        let mut header: Vec<u8> = Vec::new();
        CarV1Header::encode(roots, &mut header);
        let mut buffer: Vec<u8> = Vec::new();
        encode_varint(header.len() as u64, &mut buffer);
        append_bytes(&mut buffer, header.as_slice());
        assert(buffer@ =~= frame(header_bytes(cids_view(roots@))));
        Ok(CarWriter { buffer })
    }

    /// Appends the frame of `block`; a malformed identifier is refused.
    pub fn start_send(&mut self, block: &CarBlock) -> (r: Result<(), CarError>)
        requires
            block.data@.len() <= usize::MAX - 128,
        ensures
            r is Ok <==> block.cid@.wf(),
            r is Ok ==> final(self).buffer@ == old(self).buffer@ + frame(block_bytes(block.cid@, block.data@)),
            r is Err ==> final(self).buffer@ == old(self).buffer@ && r == Err::<(), CarError>(CarError::InvalidData),
    {
        if !block.cid.is_well_formed() {
            return Err(CarError::InvalidData);
        }
        block.write(&mut self.buffer);
        Ok(())
    }

    /// Drops the first `n` bytes of the buffer, which the sink has taken.
    pub fn advance(&mut self, n: usize)
        requires
            n <= old(self).buffer@.len(),
        ensures
            final(self).buffer@ == old(self).buffer@.subrange(n as int, old(self).buffer@.len() as int),
    {
        let rest = copy_range(self.buffer.as_slice(), n, self.buffer.len());
        self.buffer = rest;
    }
}

} // verus!
