use dect_dump::dect::seed_for;
use dect_dump::dect::BFieldIdentification;
use dect_dump::dect::MACPacket;
use dect_dump::dect::Rcrc;
use dect_dump::dect::TailIdentification;
use dect_dump::dect::TailIdentificationPP;
use dect_dump::decode::BitIterator;
use dect_dump::decode::ChannelState;
use dect_dump::decode::Decoder;
use dect_dump::decode::DecoderState;

fn new_decoder(data: Vec<u8>) -> Decoder {
    Decoder {
        bits: BitIterator::new(data),
        state: ChannelState::NewMessage,
    }
}

/// The bits of `bytes`, most significant bit of each byte first.
fn bits_of(bytes: &[u8]) -> Vec<bool> {
    let mut v = Vec::new();
    for b in bytes {
        for i in 0..8 {
            v.push((b >> (7 - i)) & 1 == 1);
        }
    }
    v
}

/// Pack bits into bytes, padding the tail with zeros.
fn bytes_of(bits: &[bool]) -> Vec<u8> {
    let mut v = Vec::new();
    for chunk in bits.chunks(8) {
        let mut b = 0u8;
        for i in 0..8 {
            b <<= 1;
            if i < chunk.len() && chunk[i] {
                b |= 1;
            }
        }
        v.push(b);
    }
    v
}

/// A byte-aligned frame: a window ending in the fixed-part sync word, then
/// the A-field block `[seed, tail, header]` with a seed that passes the CRC.
fn frame(tail: [u8; 5], header: u8) -> Vec<u8> {
    let block = [tail[0], tail[1], tail[2], tail[3], tail[4], header];
    let seed = seed_for(&block);
    let mut data = vec![0u8, 0, 0, 0, 0, 0xAA, 0xE9, 0x8A];
    data.push((seed >> 8) as u8);
    data.push(seed as u8);
    data.extend_from_slice(&block);
    data
}

/// Parse until the decoder asks for more data, collecting complete packets.
fn drain(dec: &mut Decoder) -> Vec<MACPacket> {
    let mut out = Vec::new();
    loop {
        match dec.parse() {
            DecoderState::MoreData => break,
            DecoderState::Partial => continue,
            DecoderState::Full(p) => out.push(p),
        }
    }
    out
}

#[test]
fn all_zero_buffer_never_leaves_new_message() {
    let mut dec = new_decoder(vec![0u8; 16]);
    for _ in 0..5 {
        let r = dec.parse();
        assert!(matches!(r, DecoderState::MoreData));
        assert!(matches!(dec.state, ChannelState::NewMessage));
    }
}

#[test]
fn short_buffer_in_a_field_stays_in_a_field() {
    // Only the sync window is supplied: after the sync is found, no bit of
    // the tail-and-header window is available.
    let mut dec = new_decoder(vec![0, 0, 0, 0, 0, 0xAA, 0xE9, 0x8A]);
    assert!(matches!(dec.parse(), DecoderState::Partial));
    assert!(matches!(dec.state, ChannelState::AField { .. }));
    for _ in 0..3 {
        assert!(matches!(dec.parse(), DecoderState::MoreData));
        assert!(matches!(dec.state, ChannelState::AField { .. }));
    }
}

#[test]
fn no_slot_frame_completes_without_payload() {
    // header: tail identification 0b011, q1 0, payload class 0b111, q2 0.
    let header: u8 = 0b0110_1110;
    let mut dec = new_decoder(frame([1, 2, 3, 4, 5], header));
    assert!(matches!(dec.parse(), DecoderState::Partial));
    assert!(matches!(dec.state, ChannelState::AField { .. }));
    assert!(matches!(dec.parse(), DecoderState::Partial));
    let r = dec.parse();
    match r {
        DecoderState::Full(p) => {
            assert_eq!(p.tail, [1, 2, 3, 4, 5]);
            assert!(p.b_field.is_none());
            assert_eq!(p.header.b_field_ident, BFieldIdentification::NoSlotRequired);
            assert_eq!(
                p.header.tail_ident,
                TailIdentification::Pp(TailIdentificationPP::NtIdentitiesInfo)
            );
            assert!(!p.header.q1_bck_bit);
            assert!(!p.header.q2_bit);
        }
        other => panic!("expected a complete packet, got {:?}", other),
    }
    assert!(matches!(dec.state, ChannelState::NewMessage));
}

#[test]
fn double_slot_frame_needs_and_returns_100_payload_bits() {
    // header: tail identification 0b011, q1 0, payload class 0b010, q2 0.
    let header: u8 = 0b0110_0100;
    let payload: Vec<u8> = (0u8..13).map(|i| i.wrapping_mul(37).wrapping_add(11)).collect();
    let mut data = frame([9, 8, 7, 6, 5], header);
    // supply only 96 of the 100 payload bits at first
    data.extend_from_slice(&payload[..12]);
    let mut dec = new_decoder(data);
    assert!(matches!(dec.parse(), DecoderState::Partial));
    assert!(matches!(dec.parse(), DecoderState::Partial));
    assert!(matches!(dec.state, ChannelState::BField { length: 100, .. }));
    assert!(matches!(dec.parse(), DecoderState::MoreData));
    assert!(matches!(dec.state, ChannelState::BField { .. }));
    dec.extend(&payload[12..]);
    let r = dec.parse();
    match r {
        DecoderState::Full(p) => {
            assert_eq!(p.tail, [9, 8, 7, 6, 5]);
            assert_eq!(p.header.b_field_ident, BFieldIdentification::DoubleSlotRequired);
            let expected: Vec<bool> = bits_of(&payload)[..100].to_vec();
            assert_eq!(p.b_field.unwrap(), expected);
        }
        other => panic!("expected a complete packet, got {:?}", other),
    }
}

#[test]
fn frame_is_found_at_any_bit_alignment() {
    // the same frame shifted five bits into the stream
    let header: u8 = 0b0110_1110;
    let mut bits = vec![false; 5];
    bits.extend(bits_of(&frame([10, 20, 30, 40, 50], header)));
    let mut dec = new_decoder(bytes_of(&bits));
    let packets = drain(&mut dec);
    assert_eq!(packets.len(), 1);
    assert_eq!(packets[0].tail, [10, 20, 30, 40, 50]);
    assert!(packets[0].b_field.is_none());
}

#[test]
fn corrupted_frame_is_dropped_and_scanning_resumes() {
    let header: u8 = 0b0110_1110;
    let mut bad = frame([1, 1, 1, 1, 1], header);
    // corrupt the seed so the CRC check fails
    bad[8] ^= 0xFF;
    let mut data = bad;
    data.extend(frame([2, 2, 2, 2, 2], header));
    let mut dec = new_decoder(data);
    let packets = drain(&mut dec);
    assert_eq!(packets.len(), 1);
    assert_eq!(packets[0].tail, [2, 2, 2, 2, 2]);
}

#[test]
fn chunked_and_whole_input_give_identical_packets() {
    let mut data: Vec<u8> = vec![0x13, 0x37, 0xBE, 0xEF];
    data.extend(frame([1, 2, 3, 4, 5], 0b0110_1110));
    let mut with_payload = frame([9, 8, 7, 6, 5], 0b0110_0100);
    with_payload.extend((0u8..13).map(|i| i.wrapping_mul(91).wrapping_add(3)));
    // shift the second frame by three bits to break byte alignment
    let mut shifted = vec![false; 3];
    shifted.extend(bits_of(&with_payload));
    data.extend(bytes_of(&shifted));
    let mut corrupt = frame([7, 7, 7, 7, 7], 0b0110_1110);
    corrupt[9] ^= 0x10;
    data.extend(corrupt);
    data.extend(frame([6, 6, 6, 6, 6], 0b0101_1000));
    data.extend([0u8; 10]);

    let mut whole = new_decoder(Vec::new());
    whole.extend(&data);
    let mut whole_packets = drain(&mut whole);

    let mut chunked = new_decoder(Vec::new());
    let mut chunked_packets = Vec::new();
    for b in &data {
        chunked.extend(&[*b]);
        chunked_packets.extend(drain(&mut chunked));
    }

    assert!(!whole_packets.is_empty());
    assert_eq!(whole_packets, chunked_packets);

    // a third cut, in uneven chunks
    let mut uneven = new_decoder(Vec::new());
    let mut uneven_packets = Vec::new();
    for chunk in data.chunks(7) {
        uneven.extend(chunk);
        uneven_packets.extend(drain(&mut uneven));
    }
    assert_eq!(whole_packets, uneven_packets);
}

#[test]
fn crc_matches_reference_value() {
    let block: [u8; 8] = [0x12, 0x34, 0x56, 0x78, 0x9A, 0xBC, 0xDE, 0xF0];
    assert_eq!(block.crc(), 0xC516);
    let zero: [u8; 8] = [0; 8];
    assert_eq!(zero.crc(), 0x0001);
}

#[test]
fn generated_seed_round_trips_to_zero() {
    // 256 pseudo-random 6-byte blocks from a linear congruential generator
    let mut state: u64 = 0x1234_5678_9ABC_DEF0;
    let mut next = || {
        state = state.wrapping_mul(6364136223846793005).wrapping_add(1442695040888963407);
        (state >> 33) as u8
    };
    for _ in 0..256 {
        let block = [next(), next(), next(), next(), next(), next()];
        let seed = seed_for(&block);
        let full: [u8; 8] = [
            (seed >> 8) as u8,
            seed as u8,
            block[0],
            block[1],
            block[2],
            block[3],
            block[4],
            block[5],
        ];
        assert_eq!(full.crc(), 0);
    }
}
