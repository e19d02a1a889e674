use bytes::BytesMut;
use softpaw::codec::{CodecError, Packet, PacketCodec};

fn codec(cipher_block_size: usize, mac_length: usize) -> PacketCodec {
    let mut c = PacketCodec::new(35000, mac_length);
    c.set_cipher_block_size(cipher_block_size);
    c
}

fn payload_of(len: usize) -> Vec<u8> {
    (0..len).map(|i| (i * 7 + 3) as u8).collect()
}

fn round_trip(cipher_block_size: usize, mac_length: usize, len: usize) {
    let c = codec(cipher_block_size, mac_length);
    let mut d = codec(cipher_block_size, mac_length);
    let payload = payload_of(len);
    let mut frame = c.encode(&payload).unwrap();
    let tag: Vec<u8> = (0..mac_length).map(|i| (200 - i) as u8).collect();
    frame.extend_from_slice(&tag);
    let mut buf = BytesMut::from(&frame[..]);
    let packet = d.decode(&mut buf).unwrap().unwrap();
    assert_eq!(packet.payload, payload);
    if mac_length > 0 {
        assert_eq!(packet.mac, Some(tag));
    } else {
        assert_eq!(packet.mac, None);
    }
    assert!(buf.is_empty());
}

#[test]
fn round_trip_unencrypted() {
    for len in [1, 2, 3, 7, 8, 100, 1000, 32768] {
        round_trip(0, 0, len);
    }
}

#[test]
fn round_trip_block_8_mac_16() {
    for len in [1, 2, 3, 7, 8, 100, 1000, 32768] {
        round_trip(8, 16, len);
    }
}

#[test]
fn round_trip_block_16_mac_32() {
    for len in [1, 2, 3, 15, 16, 100, 1000, 32768] {
        round_trip(16, 32, len);
    }
}

#[test]
fn padding_bounds_hold_for_generated_frames() {
    for (cbs, mac) in [(0, 0), (8, 16), (16, 32)] {
        let c = codec(cbs, mac);
        let block = cbs.max(8);
        for len in 0..200 {
            let frame = c.encode(&payload_of(len)).unwrap();
            let padding = frame[4] as usize;
            assert!(padding >= 4);
            assert_eq!((4 + 1 + len + padding) % block, 0);
            assert_eq!(frame.len(), 4 + 1 + len + padding);
            let packet_length = u32::from_be_bytes([frame[0], frame[1], frame[2], frame[3]]);
            assert_eq!(packet_length as usize, 1 + len + padding);
        }
    }
}

#[test]
fn unencrypted_frame_is_exact() {
    let c = PacketCodec::new(35000, 0);
    let frame = c.encode(&[1, 2, 3]).unwrap();
    assert_eq!(frame, vec![0, 0, 0, 12, 8, 1, 2, 3, 0, 0, 0, 0, 0, 0, 0, 0]);
}

#[test]
fn calculate_padding_length_values() {
    assert_eq!(codec(0, 0).calculate_padding_length(3), Some(8));
    assert_eq!(codec(0, 0).calculate_padding_length(0), Some(11));
    assert_eq!(codec(16, 0).calculate_padding_length(10), Some(17));
    assert_eq!(codec(16, 0).calculate_padding_length(11), Some(16));
    assert_eq!(codec(255, 0).calculate_padding_length(247), None);
}

#[test]
fn encode_with_padding_uses_given_bytes() {
    let c = codec(8, 0);
    let frame = c.encode_with_padding(&[9, 9, 9], &[1, 2, 3, 4, 5, 6, 7, 8]).unwrap();
    assert_eq!(frame, vec![0, 0, 0, 12, 8, 9, 9, 9, 1, 2, 3, 4, 5, 6, 7, 8]);
}

#[test]
fn encode_rejects_too_large_payload() {
    let c = PacketCodec::new(100, 0);
    assert_eq!(c.encode(&payload_of(200)), Err(CodecError::PacketTooLarge));
    let c = PacketCodec::new(100, 20);
    assert_eq!(c.encode(&payload_of(72)), Err(CodecError::PacketTooLarge));
    assert!(c.encode(&payload_of(60)).is_ok());
}

#[test]
fn encode_rejects_padding_that_overflows_its_byte() {
    let mut c = PacketCodec::new(100000, 0);
    c.set_cipher_block_size(255);
    assert_eq!(c.encode(&payload_of(247)), Err(CodecError::PaddingTooLong));
    assert!(c.encode(&payload_of(250)).is_ok());
}

#[test]
fn size_ceiling_rejects_before_reserving() {
    let mut c = PacketCodec::new(35000, 0);
    // claims 4 + 34997 = 35001 bytes
    let mut buf = BytesMut::from(&[0u8, 0, 0x88, 0xB5][..]);
    assert_eq!(c.decode(&mut buf), Err(CodecError::PacketTooLarge));
    assert_eq!(&buf[..], &[0u8, 0, 0x88, 0xB5][..]);
    assert!(buf.capacity() < 35000);
}

#[test]
fn size_ceiling_counts_the_mac() {
    let mut c = PacketCodec::new(35000, 16);
    // 4 + 34981 + 16 = 35001
    let mut buf = BytesMut::from(&[0u8, 0, 0x88, 0xA5][..]);
    assert_eq!(c.decode(&mut buf), Err(CodecError::PacketTooLarge));
    // 4 + 34980 + 16 = 35000 is accepted and waits for the rest
    let mut buf = BytesMut::from(&[0u8, 0, 0x88, 0xA4][..]);
    assert_eq!(c.decode(&mut buf), Ok(None));
}

#[test]
fn zero_length_packet_rejected() {
    let mut c = PacketCodec::new(35000, 0);
    let mut buf = BytesMut::from(&[0u8, 0, 0, 0, 0, 0, 0, 0][..]);
    assert_eq!(c.decode(&mut buf), Err(CodecError::PacketTooSmall));
}

#[test]
fn padding_longer_than_packet_is_malformed() {
    let mut c = PacketCodec::new(35000, 0);
    let mut buf = BytesMut::from(&[0u8, 0, 0, 5, 5, 1, 2, 3, 4][..]);
    assert_eq!(c.decode(&mut buf), Err(CodecError::MalformedPacket));
}

#[test]
fn short_head_is_incomplete() {
    let mut c = PacketCodec::new(35000, 0);
    let mut buf = BytesMut::from(&[0u8, 0, 0][..]);
    assert_eq!(c.decode(&mut buf), Ok(None));
    assert_eq!(buf.len(), 3);
}

#[test]
fn fragmentation_resumability() {
    for (cbs, mac) in [(0, 0), (8, 16)] {
        let c = codec(cbs, mac);
        let mut frame = c.encode(&payload_of(37)).unwrap();
        frame.extend((0..mac).map(|i| i as u8));

        let mut whole = codec(cbs, mac);
        let mut all = BytesMut::from(&frame[..]);
        let expected: Packet = whole.decode(&mut all).unwrap().unwrap();

        let mut d = codec(cbs, mac);
        let mut buf = BytesMut::new();
        for (i, b) in frame.iter().enumerate() {
            buf.extend_from_slice(&[*b]);
            let r = d.decode(&mut buf).unwrap();
            if i + 1 < frame.len() {
                assert!(r.is_none());
            } else {
                assert_eq!(r, Some(expected.clone()));
            }
        }
        assert!(buf.is_empty());
    }
}

#[test]
fn two_frames_in_one_buffer() {
    let c = PacketCodec::new(35000, 0);
    let mut bytes = c.encode(&[1, 2]).unwrap();
    bytes.extend(c.encode(&[3, 4, 5]).unwrap());
    let mut d = PacketCodec::new(35000, 0);
    let mut buf = BytesMut::from(&bytes[..]);
    assert_eq!(d.decode(&mut buf).unwrap().unwrap().payload, vec![1, 2]);
    assert_eq!(d.decode(&mut buf).unwrap().unwrap().payload, vec![3, 4, 5]);
    assert_eq!(d.decode(&mut buf), Ok(None));
}

#[test]
fn random_padding_under_encryption() {
    let c = codec(16, 0);
    let frame = c.encode(&payload_of(20)).unwrap();
    let padding = frame[4] as usize;
    assert_eq!((5 + 20 + padding) % 16, 0);
    assert_eq!(frame.len(), 5 + 20 + padding);
    assert_eq!(&frame[5..25], &payload_of(20)[..]);
}

#[test]
fn getters_and_setters() {
    let mut c = PacketCodec::new(35000, 0);
    assert_eq!(c.max_packet_size(), 35000);
    assert_eq!(c.mac_length(), 0);
    assert_eq!(c.cipher_block_size(), 0);
    c.set_max_packet_size(1000);
    c.set_mac_length(32);
    c.set_cipher_block_size(16);
    assert_eq!(c.max_packet_size(), 1000);
    assert_eq!(c.mac_length(), 32);
    assert_eq!(c.cipher_block_size(), 16);
}

#[test]
fn encrypted_padding_is_random() {
    let c = codec(16, 0);
    let paddings: Vec<Vec<u8>> = (0..4)
        .map(|_| {
            let frame = c.encode(&[1, 2, 3]).unwrap();
            assert_eq!(frame[4], 8);
            frame[8..].to_vec()
        })
        .collect();
    assert!(paddings.iter().any(|p| p.iter().any(|b| *b != 0)));
    assert!(paddings.windows(2).any(|w| w[0] != w[1]));
}
