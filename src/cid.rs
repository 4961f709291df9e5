//! Content identifiers: their fields, byte encoding and parsing.
use crate::varint::{decode_varint, encode_varint, has_varint_at, lemma_varint_shape, varint};
use vstd::prelude::*;

verus! {

/// Multicodec of DAG-PB, the only codec of a version 0 identifier.
pub const DAG_PB: u64 = 0x70;

/// Multicodec of DAG-CBOR.
pub const DAG_CBOR: u64 = 0x71;

/// Multihash code of SHA2-256.
pub const SHA2_256: u64 = 0x12;

/// Multihash code of the identity hash: the digest is the data itself.
pub const IDENTITY: u64 = 0x00;

/// Multihash code of BLAKE2b-256.
pub const BLAKE2B_256: u64 = 0xb220;

/// Largest digest a multihash may carry, in bytes.
pub const MAX_DIGEST_LEN: usize = 64;

/// A content identifier: version, codec, and the multihash (code and digest).
#[derive(Clone, Debug, PartialEq, Eq, PartialOrd, Ord, Hash)]
pub struct Cid {
    pub version: u64,
    pub codec: u64,
    pub hash_code: u64,
    pub digest: Vec<u8>,
}

pub struct CidModel {
    pub version: u64,
    pub codec: u64,
    pub hash_code: u64,
    pub digest: Seq<u8>,
}

impl View for Cid {
    type V = CidModel;

    open spec fn view(&self) -> CidModel {
        CidModel {
            version: self.version,
            codec: self.codec,
            hash_code: self.hash_code,
            digest: self.digest@,
        }
    }
}

impl CidModel {
    /// A version 0 identifier is a bare SHA2-256 multihash of DAG-PB data;
    /// a version 1 identifier carries a digest of at most 64 bytes.
    pub open spec fn wf(self) -> bool {
        ||| (self.version == 0 && self.codec == DAG_PB && self.hash_code == SHA2_256
            && self.digest.len() == 32)
        ||| (self.version == 1 && self.digest.len() <= MAX_DIGEST_LEN)
    }
}

/// The byte encoding of an identifier: the bare multihash for version 0;
/// otherwise varints of version, codec, hash code and digest length, then the digest.
pub open spec fn cid_bytes(c: CidModel) -> Seq<u8> {
    if c.version == 0 {
        seq![0x12u8, 0x20u8] + c.digest
    } else {
        varint(c.version as nat) + varint(c.codec as nat) + varint(c.hash_code as nat) + varint(
            c.digest.len(),
        ) + c.digest
    }
}

/// Copies `b[from..to]`.
pub fn copy_range(b: &[u8], from: usize, to: usize) -> (r: Vec<u8>)
    requires
        from <= to <= b@.len(),
    ensures
        r@ == b@.subrange(from as int, to as int),
{
    let mut r: Vec<u8> = Vec::new();
    let mut i: usize = from;
    while i < to
        invariant
            from <= i <= to <= b@.len(),
            r@ == b@.subrange(from as int, i as int),
        decreases to - i,
    {
        r.push(b[i]);
        i = i + 1;
        assert(r@ =~= b@.subrange(from as int, i as int));
    }
    r
}

/// Appends the bytes of `a` to `out`.
pub fn append_bytes(out: &mut Vec<u8>, a: &[u8])
    ensures
        final(out)@ == old(out)@ + a@,
{
    let mut i: usize = 0;
    while i < a.len()
        invariant
            i <= a@.len(),
            out@ == old(out)@ + a@.subrange(0, i as int),
        decreases a.len() - i,
    {
        out.push(a[i]);
        i = i + 1;
        assert(out@ =~= old(out)@ + a@.subrange(0, i as int));
    }
    assert(a@.subrange(0, a@.len() as int) =~= a@);
}

impl Cid {
    /// Appends the byte encoding of the identifier to `out`.
    pub fn write_bytes(&self, out: &mut Vec<u8>)
        requires
            self@.wf(),
        ensures
            final(out)@ == old(out)@ + cid_bytes(self@),
    {
        if self.version == 0 {
            out.push(0x12);
            out.push(0x20);
            append_bytes(out, self.digest.as_slice());
            assert(final(out)@ =~= old(out)@ + cid_bytes(self@));
        } else {
            encode_varint(self.version, out);
            encode_varint(self.codec, out);
            encode_varint(self.hash_code, out);
            encode_varint(self.digest.len() as u64, out);
            append_bytes(out, self.digest.as_slice());
            assert(final(out)@ =~= old(out)@ + cid_bytes(self@));
        }
    }

    /// Whether the identifier is well formed.
    pub fn is_well_formed(&self) -> (r: bool)
        ensures
            r == self@.wf(),
    {
        (self.version == 0 && self.codec == DAG_PB && self.hash_code == SHA2_256
            && self.digest.len() == 32) || (self.version == 1 && self.digest.len()
            <= MAX_DIGEST_LEN)
    }

    /// The byte encoding of the identifier.
    pub fn to_bytes(&self) -> (r: Vec<u8>)
        requires
            self@.wf(),
        ensures
            r@ == cid_bytes(self@),
    {
        let mut out: Vec<u8> = Vec::new();
        self.write_bytes(&mut out);
        assert(out@ =~= cid_bytes(self@));
        out
    }

    /// Reads an identifier at `start`: the identifier and the index just past it.
    pub fn read_bytes(b: &[u8], start: usize) -> (r: Option<(Cid, usize)>)
        ensures
            r matches Some((c, end)) ==> {
                &&& c@.wf()
                &&& start + cid_bytes(c@).len() == end
                &&& cid_at(b@, start as int, c@)
            },
            forall|c: CidModel| #[trigger] cid_at(b@, start as int, c) && c.wf() ==> (r matches Some((
                c2,
                end,
            )) && c2@ == c && end == start + cid_bytes(c).len()),
    {
        let len = b.len();
        let (version, at1) = match decode_varint(b, start) {
            Some(x) => x,
            None => {
                proof {
                    assert forall|c: CidModel| #[trigger] cid_at(b@, start as int, c) && c.wf() implies false by {
                        lemma_cid_prefix(b@, start as int, c);
                    }
                }
                return None;
            },
        };
        let (codec, at2) = match decode_varint(b, at1) {
            Some(x) => x,
            None => {
                proof {
                    assert forall|c: CidModel| #[trigger] cid_at(b@, start as int, c) && c.wf() implies false by {
                        lemma_cid_prefix(b@, start as int, c);
                    }
                }
                return None;
            },
        };
        proof {
            lemma_varint_shape(18);
            lemma_varint_shape(32);
            lemma_varint_shape(1);
        }
        if version == 0x12 && codec == 0x20 {
            if at2 > len || len - at2 < 32 {
                proof {
                    assert forall|c: CidModel| #[trigger] cid_at(b@, start as int, c) && c.wf() implies false by {
                        lemma_cid_prefix(b@, start as int, c);
                    }
                }
                return None;
            }
            let digest = copy_range(b, at2, at2 + 32);
            let c = Cid { version: 0, codec: DAG_PB, hash_code: SHA2_256, digest };
            proof {
                assert(b@.subrange(start as int, at2 + 32) =~= b@.subrange(start as int, at1 as int) + b@.subrange(at1 as int, at2 as int) + b@.subrange(at2 as int, at2 + 32));
                assert(cid_bytes(c@) =~= seq![0x12u8] + seq![0x20u8] + c@.digest);
                assert forall|c1: CidModel| #[trigger] cid_at(b@, start as int, c1) && c1.wf() implies c@ == c1 by {
                    lemma_cid_prefix(b@, start as int, c1);
                }
            }
            return Some((c, at2 + 32));
        }
        if version != 1 {
            proof {
                assert forall|c: CidModel| #[trigger] cid_at(b@, start as int, c) && c.wf() implies false by {
                    lemma_cid_prefix(b@, start as int, c);
                }
            }
            return None;
        }
        let (code, at3) = match decode_varint(b, at2) {
            Some(x) => x,
            None => {
                proof {
                    assert forall|c: CidModel| #[trigger] cid_at(b@, start as int, c) && c.wf() implies false by {
                        lemma_cid_prefix(b@, start as int, c);
                    }
                }
                return None;
            },
        };
        let (dlen, at4) = match decode_varint(b, at3) {
            Some(x) => x,
            None => {
                proof {
                    assert forall|c: CidModel| #[trigger] cid_at(b@, start as int, c) && c.wf() implies false by {
                        lemma_cid_prefix(b@, start as int, c);
                    }
                }
                return None;
            },
        };
        if dlen > MAX_DIGEST_LEN as u64 || at4 > len || ((len - at4) as u64) < dlen {
            proof {
                assert forall|c: CidModel| #[trigger] cid_at(b@, start as int, c) && c.wf() implies false by {
                    lemma_cid_prefix(b@, start as int, c);
                }
            }
            return None;
        }
        let end = at4 + dlen as usize;
        let digest = copy_range(b, at4, end);
        let c = Cid { version, codec, hash_code: code, digest };
        proof {
            assert(b@.subrange(start as int, end as int) =~= b@.subrange(start as int, at1 as int) + b@.subrange(at1 as int, at2 as int) + b@.subrange(at2 as int, at3 as int) + b@.subrange(at3 as int, at4 as int) + b@.subrange(at4 as int, end as int));
            assert(cid_bytes(c@) == b@.subrange(start as int, end as int));
            assert forall|c1: CidModel| #[trigger] cid_at(b@, start as int, c1) && c1.wf() implies c@ == c1 && end == start + cid_bytes(c1).len() by {
                lemma_cid_prefix(b@, start as int, c1);
            }
        }
        Some((c, end))
    }
}

/// `b` holds the encoding of `c` from `start` on.
pub open spec fn cid_at(b: Seq<u8>, start: int, c: CidModel) -> bool {
    &&& 0 <= start
    &&& start + cid_bytes(c).len() <= b.len()
    &&& b.subrange(start, start + cid_bytes(c).len()) == cid_bytes(c)
}

pub proof fn lemma_sub(b: Seq<u8>, s: int, x: Seq<u8>, i: int, j: int)
    requires
        0 <= s,
        s + x.len() <= b.len(),
        b.subrange(s, s + x.len()) == x,
        0 <= i <= j <= x.len(),
    ensures
        b.subrange(s + i, s + j) == x.subrange(i, j),
{
    assert(b.subrange(s + i, s + j) =~= x.subrange(i, j)) by {
        assert forall|k: int| 0 <= k < j - i implies b.subrange(s + i, s + j)[k] == x.subrange(i, j)[k] by {
            assert(b.subrange(s, s + x.len())[i + k] == b[s + i + k]);
        }
    }
}

/// What the encoding of a well-formed identifier at `start` tells about its parts.
proof fn lemma_cid_prefix(b: Seq<u8>, start: int, c: CidModel)
    requires
        cid_at(b, start, c),
        c.wf(),
    ensures
        c.version == 0 ==> {
            &&& has_varint_at(b, start, 18)
            &&& has_varint_at(b, start + 1, 32)
            &&& start + 34 <= b.len()
            &&& b.subrange(start + 2, start + 34) == c.digest
        },
        c.version != 0 ==> {
            let l1 = varint(1).len() as int;
            let l2 = l1 + varint(c.codec as nat).len();
            let l3 = l2 + varint(c.hash_code as nat).len();
            let l4 = l3 + varint(c.digest.len()).len();
            &&& c.version == 1
            &&& has_varint_at(b, start, 1)
            &&& has_varint_at(b, start + l1, c.codec as nat)
            &&& has_varint_at(b, start + l2, c.hash_code as nat)
            &&& has_varint_at(b, start + l3, c.digest.len())
            &&& start + l4 + c.digest.len() <= b.len()
            &&& b.subrange(start + l4, start + l4 + c.digest.len()) == c.digest
            &&& l4 + c.digest.len() == cid_bytes(c).len()
            &&& (c.codec as nat) < 0x10000000000000000
            &&& c.digest.len() < 0x10000000000000000
        },
{
    let x = cid_bytes(c);
    lemma_varint_shape(18);
    lemma_varint_shape(32);
    lemma_varint_shape(1);
    if c.version == 0 {
        lemma_sub(b, start, x, 0, 1);
        lemma_sub(b, start, x, 1, 2);
        lemma_sub(b, start, x, 2, 34);
        assert(x.subrange(0, 1) =~= varint(18));
        assert(x.subrange(1, 2) =~= varint(32));
        assert(x.subrange(2, 34) =~= c.digest);
    } else {
        let v1 = varint(1);
        let v2 = varint(c.codec as nat);
        let v3 = varint(c.hash_code as nat);
        let v4 = varint(c.digest.len());
        let l1 = v1.len() as int;
        let l2 = l1 + v2.len();
        let l3 = l2 + v3.len();
        let l4 = l3 + v4.len();
        assert(x.len() == l4 + c.digest.len());
        lemma_sub(b, start, x, 0, l1);
        lemma_sub(b, start, x, l1, l2);
        lemma_sub(b, start, x, l2, l3);
        lemma_sub(b, start, x, l3, l4);
        lemma_sub(b, start, x, l4, x.len() as int);
        assert(x.subrange(0, l1) =~= v1);
        assert(x.subrange(l1, l2) =~= v2);
        assert(x.subrange(l2, l3) =~= v3);
        assert(x.subrange(l3, l4) =~= v4);
        assert(x.subrange(l4, x.len() as int) =~= c.digest);
    }
}

} // verus!
