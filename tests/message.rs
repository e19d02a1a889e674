use softpaw::message::{Disconnect, Kexinit, Message, MessageType, ParseError, ReasonCode};

fn names(list: &[&str]) -> Vec<String> {
    list.iter().map(|s| s.to_string()).collect()
}

fn sample_kexinit() -> Kexinit {
    Kexinit {
        cookie: [0u8; 16],
        kex_algorithms: names(&["curve25519-sha256"]),
        server_host_key_algorithms: names(&["ssh-ed25519"]),
        encryption_algorithms_client_to_server: names(&["aes256-ctr"]),
        encryption_algorithms_server_to_client: names(&["aes256-ctr"]),
        mac_algorithms_client_to_server: names(&["hmac-sha2-256"]),
        mac_algorithms_server_to_client: names(&["hmac-sha2-256"]),
        compression_algorithms_client_to_server: names(&[""]),
        compression_algorithms_server_to_client: names(&[""]),
        languages_client_to_server: names(&[""]),
        languages_server_to_client: names(&[""]),
        first_kex_packet_follows: false,
        reserved: 0,
    }
}

/// A Kexinit payload built by hand, with the given name-list contents.
fn kexinit_bytes(lists: [&[u8]; 10], follows: u8, reserved: u32) -> Vec<u8> {
    let mut out = vec![20u8];
    out.extend_from_slice(&[7u8; 16]);
    for l in lists {
        out.extend_from_slice(&(l.len() as u32).to_be_bytes());
        out.extend_from_slice(l);
    }
    out.push(follows);
    out.extend_from_slice(&reserved.to_be_bytes());
    out
}

#[test]
fn kexinit_round_trip() {
    let k = sample_kexinit();
    let payload = Message::Kexinit(k.clone()).into_payload();
    assert_eq!(payload[0], 20);
    assert_eq!(Message::parse(&payload), Ok(Message::Kexinit(k)));
}

#[test]
fn kexinit_fields_in_wire_order() {
    let payload = kexinit_bytes(
        [b"a,b", b"c", b"d", b"e", b"f", b"g", b"h", b"i", b"", b"j,,k"],
        1,
        0x01020304,
    );
    match Message::parse(&payload) {
        Ok(Message::Kexinit(k)) => {
            assert_eq!(k.cookie, [7u8; 16]);
            assert_eq!(k.kex_algorithms, names(&["a", "b"]));
            assert_eq!(k.server_host_key_algorithms, names(&["c"]));
            assert_eq!(k.encryption_algorithms_client_to_server, names(&["d"]));
            assert_eq!(k.encryption_algorithms_server_to_client, names(&["e"]));
            assert_eq!(k.mac_algorithms_client_to_server, names(&["f"]));
            assert_eq!(k.mac_algorithms_server_to_client, names(&["g"]));
            assert_eq!(k.compression_algorithms_client_to_server, names(&["h"]));
            assert_eq!(k.compression_algorithms_server_to_client, names(&["i"]));
            assert_eq!(k.languages_client_to_server, names(&[""]));
            assert_eq!(k.languages_server_to_client, names(&["j", "", "k"]));
            assert!(k.first_kex_packet_follows);
            assert_eq!(k.reserved, 0x01020304);
            assert_eq!(k.into_payload(), payload);
        }
        other => panic!("unexpected {:?}", other),
    }
}

#[test]
fn unknown_type() {
    assert_eq!(Message::parse(&[255]), Err(ParseError::UnknownMessageType(255)));
    assert_eq!(Message::parse(&[7, 1, 2]), Err(ParseError::UnknownMessageType(7)));
}

#[test]
fn unsupported_type() {
    assert_eq!(
        Message::parse(&[2]),
        Err(ParseError::UnsupportedMessage(MessageType::Ignore))
    );
    assert_eq!(
        Message::parse(&[21]),
        Err(ParseError::UnsupportedMessage(MessageType::Newkeys))
    );
}

#[test]
fn empty_payload_is_invalid_length() {
    assert_eq!(Message::parse(&[]), Err(ParseError::InvalidLength));
}

#[test]
fn trailing_byte_rejection() {
    let mut payload = sample_kexinit().into_payload();
    payload.push(0);
    assert_eq!(Message::parse(&payload), Err(ParseError::InvalidLength));
}

#[test]
fn truncated_kexinit_is_invalid_length() {
    let payload = sample_kexinit().into_payload();
    for cut in [1, 10, 17, 20, payload.len() - 1] {
        assert_eq!(Message::parse(&payload[..cut]), Err(ParseError::InvalidLength));
    }
}

#[test]
fn invalid_name_list_utf8() {
    let payload = kexinit_bytes(
        [b"a", &[0xff], b"", b"", b"", b"", b"", b"", b"", b""],
        0,
        0,
    );
    assert_eq!(Message::parse(&payload), Err(ParseError::InvalidNameList));
}

#[test]
fn disconnect_round_trip() {
    let d = Disconnect {
        reason_code: ReasonCode::ByApplication,
        description: "bye".to_string(),
        language_tag: String::new(),
    };
    let payload = d.clone().into_payload();
    assert_eq!(payload, vec![1, 0, 0, 0, 11, 0, 0, 0, 3, b'b', b'y', b'e', 0, 0, 0, 0]);
    match Message::parse(&payload) {
        Ok(Message::Disconnect(got)) => {
            assert_eq!(got.reason_code, ReasonCode::ByApplication);
            assert_eq!(got.description, "bye");
            assert_eq!(got.language_tag, "");
        }
        other => panic!("unexpected {:?}", other),
    }
    assert_eq!(Message::Disconnect(d).into_payload(), payload);
}

#[test]
fn disconnect_unmapped_reason_code() {
    let mut payload = vec![1, 0, 0, 0, 16, 0, 0, 0, 0, 0, 0, 0, 0];
    assert_eq!(Message::parse(&payload), Err(ParseError::InvalidReasonCode(16)));
    payload[4] = 0;
    assert_eq!(Message::parse(&payload), Err(ParseError::InvalidReasonCode(0)));
}

#[test]
fn disconnect_invalid_string() {
    let payload = vec![1, 0, 0, 0, 2, 0, 0, 0, 1, 0xc3, 0, 0, 0, 0];
    assert_eq!(Message::parse(&payload), Err(ParseError::InvalidString));
}

#[test]
fn disconnect_non_ascii_text() {
    let d = Disconnect {
        reason_code: ReasonCode::ProtocolError,
        description: "über".to_string(),
        language_tag: "de".to_string(),
    };
    let payload = d.clone().into_payload();
    assert_eq!(&payload[5..9], &[0u8, 0, 0, 5][..]);
    assert_eq!(Message::parse(&payload), Ok(Message::Disconnect(d)));
}

#[test]
fn registry_codes_and_names() {
    assert_eq!(MessageType::try_from(20), Ok(MessageType::Kexinit));
    assert_eq!(MessageType::try_from(1), Ok(MessageType::Disconnect));
    assert_eq!(MessageType::try_from(100), Ok(MessageType::ChannelFailure));
    assert_eq!(MessageType::try_from(0), Err(ParseError::UnknownMessageType(0)));
    assert_eq!(MessageType::Kexinit.code(), 20);
    assert_eq!(MessageType::ChannelOpenConfirmation.code(), 91);
    assert_eq!(MessageType::Kexinit.name(), "SSH_MSG_KEXINIT");
    assert_eq!(MessageType::Disconnect.name(), "SSH_MSG_DISCONNECT");
    for code in 0..=255u8 {
        if let Ok(t) = MessageType::try_from(code) {
            assert_eq!(t.code(), code);
        }
    }
}

#[test]
fn reason_codes() {
    assert_eq!(ReasonCode::from_code(11), Some(ReasonCode::ByApplication));
    assert_eq!(ReasonCode::from_code(4), Some(ReasonCode::Reserved));
    assert_eq!(ReasonCode::from_code(15), Some(ReasonCode::IllegalUserName));
    assert_eq!(ReasonCode::from_code(16), None);
    assert_eq!(ReasonCode::IllegalUserName.code(), 15);
}
