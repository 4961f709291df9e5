use forest_mpool::car::{read_v2_header, CarBlock, CarError, CarStream, CarV1Header, CarWriter};
use forest_mpool::cid::{Cid, BLAKE2B_256, DAG_CBOR, DAG_PB, SHA2_256};
use forest_mpool::varint::{decode_varint, encode_varint};

fn blake(data: &[u8]) -> Vec<u8> {
    blake2b_simd::Params::new().hash_length(32).hash(data).as_bytes().to_vec()
}

fn sha(data: &[u8]) -> Vec<u8> {
    <sha2::Sha256 as sha2::Digest>::digest(data).to_vec()
}

fn block(data: &[u8]) -> CarBlock {
    CarBlock {
        cid: Cid { version: 1, codec: DAG_CBOR, hash_code: BLAKE2B_256, digest: blake(data) },
        data: data.to_vec(),
    }
}

fn sha_block(data: &[u8]) -> CarBlock {
    CarBlock {
        cid: Cid { version: 1, codec: 0x55, hash_code: SHA2_256, digest: sha(data) },
        data: data.to_vec(),
    }
}

fn v1_car(roots: &Vec<Cid>, blocks: &[CarBlock]) -> Vec<u8> {
    let mut w = CarWriter::new_carv1(roots).unwrap();
    for b in blocks {
        w.start_send(b).unwrap();
    }
    w.buffer
}

fn read_all(input: &[u8]) -> Result<(CarStream, Vec<CarBlock>), CarError> {
    let mut s = CarStream::new(input)?;
    let mut out = Vec::new();
    while let Some(b) = s.next() {
        out.push(b?);
    }
    Ok((s, out))
}

fn v2_wrap(v1: &[u8], data_offset: usize, trailer: &[u8]) -> Vec<u8> {
    let mut out = vec![0x0a, 0xa1, 0x67, 0x76, 0x65, 0x72, 0x73, 0x69, 0x6f, 0x6e, 0x02];
    out.extend_from_slice(&[0u8; 16]);
    out.extend_from_slice(&(data_offset as u64).to_le_bytes());
    out.extend_from_slice(&(v1.len() as u64).to_le_bytes());
    out.extend_from_slice(&((data_offset + v1.len()) as u64).to_le_bytes());
    out.resize(data_offset, 0);
    out.extend_from_slice(v1);
    out.extend_from_slice(trailer);
    out
}

fn sample() -> (Vec<Cid>, Vec<CarBlock>) {
    let blocks = vec![block(b"first"), sha_block(b"second"), block(&[7u8; 300]), block(b"")];
    (vec![blocks[0].cid.clone(), blocks[1].cid.clone()], blocks)
}

#[test]
fn varint_encoding() {
    let mut out = Vec::new();
    encode_varint(300, &mut out);
    assert_eq!(out, vec![0xac, 0x02]);
    assert_eq!(decode_varint(&out, 0), Some((300, 2)));
    let mut big = Vec::new();
    encode_varint(u64::MAX, &mut big);
    assert_eq!(big.len(), 10);
    assert_eq!(decode_varint(&big, 0), Some((u64::MAX, 10)));
    assert_eq!(decode_varint(&[0x80, 0x00], 0), None);
    assert_eq!(decode_varint(&[0x80], 0), None);
    assert_eq!(decode_varint(&[5, 0x7f], 1), Some((127, 2)));
}

#[test]
fn cid_bytes_round_trip() {
    let v1 = Cid { version: 1, codec: DAG_CBOR, hash_code: BLAKE2B_256, digest: blake(b"x") };
    let bytes = v1.to_bytes();
    assert_eq!(&bytes[..4], &[0x01, 0x71, 0xa0, 0xe4]);
    assert_eq!(Cid::read_bytes(&bytes, 0), Some((v1.clone(), bytes.len())));
    let v0 = Cid { version: 0, codec: DAG_PB, hash_code: SHA2_256, digest: sha(b"x") };
    let bytes0 = v0.to_bytes();
    assert_eq!(bytes0.len(), 34);
    assert_eq!(Cid::read_bytes(&bytes0, 0), Some((v0, 34)));
    assert_eq!(Cid::read_bytes(&[0x02, 0x71, 0x12, 0x00], 0), None);
}

#[test]
fn block_write_then_read() {
    for b in [block(b"hello"), sha_block(b"world"), block(b"")] {
        let mut framed = Vec::new();
        b.write(&mut framed);
        let (len, start) = decode_varint(&framed, 0).unwrap();
        assert_eq!(len as usize + start, framed.len());
        let back = CarBlock::from_bytes(&framed[start..]).unwrap();
        assert_eq!(back, b);
        assert!(back.valid());
        assert_eq!(back.validate(), Ok(()));
    }
}

#[test]
fn block_with_wrong_digest_is_invalid() {
    let mut b = block(b"hello");
    b.data = b"hellp".to_vec();
    assert!(!b.valid());
    assert_eq!(b.validate(), Err(CarError::InvalidData));
    let mut c = block(b"hello");
    c.cid.hash_code = 0x13;
    assert!(!c.valid());
}

#[test]
fn v1_archive_round_trip() {
    let (roots, blocks) = sample();
    let bytes = v1_car(&roots, &blocks);
    let (s, read) = read_all(&bytes).unwrap();
    assert_eq!(s.header_v1.roots, roots);
    assert_eq!(s.header_v1.version, 1);
    assert!(s.header_v2.is_none());
    assert_eq!(read, blocks);
}

#[test]
fn header_only_archive_yields_nothing() {
    let roots = vec![block(b"r").cid];
    let bytes = v1_car(&roots, &[]);
    let (_, read) = read_all(&bytes).unwrap();
    assert!(read.is_empty());
}

#[test]
fn v2_wrapping_is_transparent() {
    let (roots, blocks) = sample();
    let v1 = v1_car(&roots, &blocks);
    let wrapped = v2_wrap(&v1, 51, &[1, 2, 3, 4]);
    let h = read_v2_header(&wrapped).unwrap();
    assert_eq!(h.data_offset, 51);
    assert_eq!(h.data_size, v1.len() as u64);
    let (s, read) = read_all(&wrapped).unwrap();
    assert!(s.header_v2.is_some());
    assert_eq!(s.header_v1.roots, roots);
    assert_eq!(read, blocks);
}

#[test]
fn v2_reading_stops_at_data_size() {
    let (roots, blocks) = sample();
    let v1 = v1_car(&roots, &blocks);
    let extra = v1_car(&roots, &[block(b"index-like")]);
    let wrapped = v2_wrap(&v1, 200, &extra);
    let (s, read) = read_all(&wrapped).unwrap();
    assert_eq!(s.payload.len(), v1.len());
    assert_eq!(read, blocks);
}

#[test]
fn v2_offset_past_end_fails() {
    let (roots, blocks) = sample();
    let v1 = v1_car(&roots, &blocks);
    let mut wrapped = v2_wrap(&v1, 51, &[]);
    wrapped[27..35].copy_from_slice(&(10_000u64).to_le_bytes());
    assert!(matches!(CarStream::new(&wrapped), Err(CarError::UnexpectedEof)));
}

#[test]
fn zstd_wrapping_is_transparent() {
    let (roots, blocks) = sample();
    let v1 = v1_car(&roots, &blocks);
    for level in [1, 3, 9, 19] {
        let compressed = zstd::stream::encode_all(&v1[..], level).unwrap();
        assert_ne!(compressed, v1);
        let (_, read) = read_all(&compressed).unwrap();
        assert_eq!(read, blocks);
    }
    let half = v1.len() / 2;
    let mut multi = zstd::stream::encode_all(&v1[..half], 3).unwrap();
    multi.extend(zstd::stream::encode_all(&v1[half..], 3).unwrap());
    let (_, read) = read_all(&multi).unwrap();
    assert_eq!(read, blocks);
}

#[test]
fn zstd_v2_archive() {
    let (roots, blocks) = sample();
    let wrapped = v2_wrap(&v1_car(&roots, &blocks), 64, &[9, 9]);
    let compressed = zstd::stream::encode_all(&wrapped[..], 5).unwrap();
    let (s, read) = read_all(&compressed).unwrap();
    assert!(s.header_v2.is_some());
    assert_eq!(read, blocks);
}

#[test]
fn invalid_first_block_fails_early() {
    let roots = vec![block(b"a").cid];
    let mut bad = block(b"a");
    bad.data = b"b".to_vec();
    let bytes = v1_car(&roots, &[bad, block(b"c")]);
    assert!(matches!(CarStream::new(&bytes), Err(CarError::InvalidData)));
}

#[test]
fn later_blocks_are_not_validated() {
    let roots = vec![block(b"a").cid];
    let mut bad = block(b"x");
    bad.data = b"y".to_vec();
    let bytes = v1_car(&roots, &[block(b"a"), bad.clone()]);
    let (_, read) = read_all(&bytes).unwrap();
    assert_eq!(read[1], bad);
}

#[test]
fn truncated_frame_is_an_error() {
    let (roots, blocks) = sample();
    let mut bytes = v1_car(&roots, &blocks);
    bytes.truncate(bytes.len() - 1);
    assert_eq!(read_all(&bytes).err(), Some(CarError::InvalidData));
}

#[test]
fn header_rules() {
    let cid = block(b"a").cid;
    let mut enc = Vec::new();
    CarV1Header::encode(&vec![cid.clone()], &mut enc);
    assert_eq!(enc[0], 0xa2);
    assert_eq!(*enc.last().unwrap(), 1);
    assert_eq!(CarV1Header::parse(&enc), Some(CarV1Header { roots: vec![cid.clone()], version: 1 }));
    let mut v2 = enc.clone();
    *v2.last_mut().unwrap() = 2;
    assert_eq!(CarV1Header::parse(&v2), None);
    let mut empty = Vec::new();
    CarV1Header::encode(&vec![], &mut empty);
    assert_eq!(CarV1Header::parse(&empty), None);
    assert!(CarWriter::new_carv1(&vec![]).is_err());
    let bad = Cid { version: 2, codec: 1, hash_code: 1, digest: vec![] };
    assert!(CarWriter::new_carv1(&vec![bad]).is_err());
}

#[test]
fn writer_resumes_partial_writes() {
    let (roots, blocks) = sample();
    let mut w = CarWriter::new_carv1(&roots).unwrap();
    for b in &blocks {
        w.start_send(b).unwrap();
    }
    let whole = w.buffer.clone();
    let mut sink = Vec::new();
    while !w.buffer.is_empty() {
        let n = std::cmp::min(7, w.buffer.len());
        sink.extend_from_slice(&w.buffer[..n]);
        w.advance(n);
    }
    assert_eq!(sink, whole);
}

#[test]
fn short_input_needs_the_unsafe_constructor() {
    let tiny_root = Cid { version: 1, codec: 0x55, hash_code: 0x00, digest: vec![] };
    let bytes = v1_car(&vec![tiny_root.clone()], &[]);
    assert!(bytes.len() < 51);
    assert_eq!(CarStream::extract_header_v2(&bytes), Err(CarError::UnexpectedEof));
    assert!(matches!(CarStream::new(&bytes), Err(CarError::UnexpectedEof)));
    let mut s = CarStream::new_unsafe(&bytes).unwrap();
    assert_eq!(s.header_v1.roots, vec![tiny_root]);
    assert!(s.next().is_none());
}

#[test]
fn constructors_agree_on_v2_input() {
    let (roots, blocks) = sample();
    let v1 = v1_car(&roots, &blocks);
    let wrapped = v2_wrap(&v1, 51, &[]);
    let h = CarStream::extract_header_v2(&wrapped).unwrap().unwrap();
    assert_eq!(h.data_offset, 51);
    assert_eq!(h.index_offset, 51 + v1.len() as u64);
    assert_eq!(CarStream::extract_header_v2(&v1), Ok(None));
    let mut a = CarStream::new_unsafe(&wrapped).unwrap();
    let mut b = CarStream::new_with_header_v2(&wrapped, Some(h)).unwrap();
    for expected in &blocks {
        assert_eq!(a.next(), Some(Ok(expected.clone())));
        assert_eq!(b.next(), Some(Ok(expected.clone())));
    }
    assert!(a.next().is_none());
}

#[test]
fn digest_comparison_on_given_values() {
    let b = block(b"data");
    let digest = blake(b"data");
    assert_eq!(b.validate_digest(&digest), Ok(()));
    assert_eq!(b.validate_digest(&blake(b"other")), Err(CarError::InvalidData));
    assert_eq!(b.validate_digest(b"data"), Err(CarError::InvalidData));
    let v0 = CarBlock {
        cid: Cid { version: 0, codec: DAG_PB, hash_code: SHA2_256, digest: sha(b"d") },
        data: b"d".to_vec(),
    };
    assert_eq!(v0.validate_digest(&sha(b"d")), Err(CarError::InvalidData));
}

#[test]
fn from_decoded_reads_plain_bytes() {
    let (roots, blocks) = sample();
    let v1 = v1_car(&roots, &blocks);
    let mut s = CarStream::from_decoded(&v1, None).unwrap();
    assert_eq!(s.header_v1.roots, roots);
    let mut read = Vec::new();
    while let Some(b) = s.next() {
        read.push(b.unwrap());
    }
    assert_eq!(read, blocks);
    let compressed = zstd::stream::encode_all(&v1[..], 3).unwrap();
    assert!(CarStream::from_decoded(&compressed, None).is_err());
}

#[test]
fn identity_hash_blocks_validate() {
    let data = b"tiny".to_vec();
    let b = CarBlock {
        cid: Cid { version: 1, codec: 0x55, hash_code: 0x00, digest: data.clone() },
        data: data.clone(),
    };
    assert_eq!(b.validate(), Ok(()));
    let mut wrong = b.clone();
    wrong.data = b"tinz".to_vec();
    assert_eq!(wrong.validate(), Err(CarError::InvalidData));
    let unknown = CarBlock {
        cid: Cid { version: 1, codec: 0x55, hash_code: 0x1b, digest: vec![0; 32] },
        data: vec![],
    };
    assert_eq!(unknown.validate(), Err(CarError::InvalidData));
}
