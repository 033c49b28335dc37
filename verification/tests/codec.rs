use archive_node::block::{AuxData, Block, Header};
use archive_node::codec::{
    decode_aux, decode_block, decode_block_list, decode_broadcast, decode_bytes,
    decode_bytes_list, decode_digest, decode_digest_list, decode_u32, decode_u64, encode_aux,
    encode_block, encode_block_list, encode_bytes, encode_bytes_list, encode_digest,
    encode_digest_list, encode_header, encode_u32, encode_u64, decode_header, parse_digest,
};
use archive_node::digest::Digest;

fn header(height: u32, own: u64, prev: u64) -> Header {
    Header {
        height,
        state_hash: Digest::of_word(own),
        prev_hash: Digest::of_word(prev),
        global_slot: height * 2,
        coinbase_receiver: Digest::of_word(7),
        staged_hash: Digest::of_word(own + 1000),
        snarked_ledger_hash: Digest::of_word(own + 2000),
    }
}

fn block(height: u32, own: u64, prev: u64) -> Block {
    Block { header: header(height, own, prev), body: vec![height as u8, own as u8, 3] }
}

#[test]
fn u32_round_trip() {
    let mut out = Vec::new();
    encode_u32(0, &mut out);
    encode_u32(1, &mut out);
    encode_u32(4294967295, &mut out);
    assert_eq!(out.len(), 12);
    assert_eq!(out[0..4], [0, 0, 0, 0]);
    assert_eq!(out[4..8], [0, 0, 0, 1]);
    assert_eq!(out[8..12], [255, 255, 255, 255]);
    let (a, i) = decode_u32(&out, 0).unwrap();
    let (b, j) = decode_u32(&out, i).unwrap();
    let (c, k) = decode_u32(&out, j).unwrap();
    assert_eq!((a, b, c, k), (0, 1, 4294967295, 12));
    assert!(decode_u32(&out, 9).is_none());
}

#[test]
fn u32_layout_is_big_endian() {
    let mut out = Vec::new();
    encode_u32(16909060, &mut out);
    assert_eq!(out, vec![1, 2, 3, 4]);
}

#[test]
fn u64_round_trip() {
    let mut out = Vec::new();
    encode_u64(72623859790382856, &mut out);
    assert_eq!(out, vec![1, 2, 3, 4, 5, 6, 7, 8]);
    let (x, j) = decode_u64(&out, 0).unwrap();
    assert_eq!(x, 72623859790382856);
    assert_eq!(j, 8);
}

#[test]
fn digest_round_trip() {
    let d = Digest { w0: 1, w1: 2, w2: 3, w3: u64::MAX };
    let mut out = Vec::new();
    encode_digest(&d, &mut out);
    assert_eq!(out.len(), 32);
    let (d2, j) = decode_digest(&out, 0).unwrap();
    assert_eq!(d2, d);
    assert_eq!(j, 32);
}

#[test]
fn bytes_round_trip() {
    let b = vec![9u8, 8, 7, 6, 5];
    let mut out = Vec::new();
    encode_bytes(&b, &mut out);
    assert_eq!(out.len(), 9);
    let (b2, j) = decode_bytes(&out, 0).unwrap();
    assert_eq!(b2, b);
    assert_eq!(j, 9);
    // A length prefix pointing past the buffer is refused.
    let short = vec![0u8, 0, 0, 9, 1, 2];
    assert!(decode_bytes(&short, 0).is_none());
}

#[test]
fn digest_list_round_trip() {
    let l = vec![Digest::of_word(1), Digest::of_word(2), Digest::of_word(1)];
    let mut out = Vec::new();
    encode_digest_list(&l, &mut out);
    let (l2, j) = decode_digest_list(&out, 0).unwrap();
    assert_eq!(l2, l);
    assert_eq!(j, out.len());
}

#[test]
fn bytes_list_round_trip() {
    let l = vec![vec![1u8, 2], vec![], vec![3u8]];
    let mut out = Vec::new();
    encode_bytes_list(&l, &mut out);
    let (l2, j) = decode_bytes_list(&out, 0).unwrap();
    assert_eq!(l2, l);
    assert_eq!(j, out.len());
}

#[test]
fn header_round_trip() {
    let h = header(42, 5, 4);
    let mut out = Vec::new();
    encode_header(&h, &mut out);
    assert_eq!(out.len(), 168);
    let (h2, j) = decode_header(&out, 0).unwrap();
    assert_eq!(h2, h);
    assert_eq!(j, 168);
}

#[test]
fn block_round_trip() {
    let b = block(42, 5, 4);
    let mut out = Vec::new();
    encode_block(&b, &mut out);
    let (b2, j) = decode_block(&out, 0).unwrap();
    assert_eq!(b2.header, b.header);
    assert_eq!(b2.body, b.body);
    assert_eq!(j, out.len());
}

#[test]
fn block_list_round_trip() {
    let l = vec![block(1, 10, 9), block(2, 20, 10)];
    let mut out = Vec::new();
    encode_block_list(&l, &mut out);
    let (l2, j) = decode_block_list(&out, 0).unwrap();
    assert_eq!(l2.len(), 2);
    assert_eq!(l2[0].header, l[0].header);
    assert_eq!(l2[1].header, l[1].header);
    assert_eq!(l2[1].body, l[1].body);
    assert_eq!(j, out.len());
}

#[test]
fn aux_round_trip() {
    let a = AuxData {
        scan_state: vec![1, 2, 3],
        pending_coinbase: vec![],
        states: vec![vec![4, 5], vec![6]],
    };
    let mut out = Vec::new();
    encode_aux(&a, &mut out);
    let (a2, j) = decode_aux(&out, 0).unwrap();
    assert_eq!(a2.scan_state, a.scan_state);
    assert_eq!(a2.pending_coinbase, a.pending_coinbase);
    assert_eq!(a2.states, a.states);
    assert_eq!(j, out.len());
}

#[test]
fn broadcast_well_framed_block_decodes() {
    let b = block(3, 30, 20);
    let mut data = vec![0u8; 8];
    data.push(0);
    encode_block(&b, &mut data);
    let got = decode_broadcast(&data).unwrap();
    assert_eq!(got.header, b.header);
    assert_eq!(got.body, b.body);
}

#[test]
fn broadcast_short_payload_is_ignored() {
    assert!(decode_broadcast(&vec![]).is_none());
    assert!(decode_broadcast(&vec![0u8; 8]).is_none());
}

#[test]
fn broadcast_wrong_tag_is_ignored() {
    let b = block(3, 30, 20);
    let mut data = vec![0u8; 8];
    data.push(1);
    encode_block(&b, &mut data);
    assert!(decode_broadcast(&data).is_none());
}

#[test]
fn broadcast_trailing_bytes_are_refused() {
    let b = block(3, 30, 20);
    let mut data = vec![0u8; 8];
    data.push(0);
    encode_block(&b, &mut data);
    data.push(99);
    assert!(decode_broadcast(&data).is_none());
}

#[test]
fn hex_digest_parses_exactly() {
    let text: Vec<u8> =
        b"00000000000000010000000000000002000000000000000aFFFFffffFFFFffff".to_vec();
    let d = parse_digest(&text).unwrap();
    assert_eq!(d, Digest { w0: 1, w1: 2, w2: 10, w3: u64::MAX });
    // Wrong length and stray characters are refused.
    assert!(parse_digest(&b"0011".to_vec()).is_none());
    let mut bad = text.clone();
    bad[5] = b'g';
    assert!(parse_digest(&bad).is_none());
}
