use fo_meta_server::protocol::{DayTime, GameServerToMetaServer, MetaServerToGameServer,
    ServerStatus};
use fo_meta_server::codec::{check_handshake, decode_msg_in, decode_msg_out, encode_handshake,
    encode_msg_in, encode_msg_in_framed, encode_msg_out, encode_msg_out_framed, read_frame_len,
    ProtocolError};

#[test]
fn hour_buckets() {
    assert_eq!(DayTime::from_hour(0), DayTime::Night);
    assert_eq!(DayTime::from_hour(5), DayTime::Night);
    assert_eq!(DayTime::from_hour(6), DayTime::Morning);
    assert_eq!(DayTime::from_hour(11), DayTime::Morning);
    assert_eq!(DayTime::from_hour(12), DayTime::Day);
    assert_eq!(DayTime::from_hour(16), DayTime::Day);
    assert_eq!(DayTime::from_hour(17), DayTime::Evening);
    assert_eq!(DayTime::from_hour(20), DayTime::Evening);
    assert_eq!(DayTime::from_hour(21), DayTime::Night);
    assert_eq!(DayTime::from_hour(23), DayTime::Night);
    assert_eq!(DayTime::from_hour(999), DayTime::Night);
}

#[test]
fn handshake_accepts_only_this_build() {
    let good = encode_handshake();
    assert_eq!(good, vec![0xBA, 0xBA, 0x06, 0x00]);
    assert!(check_handshake(&good).is_ok());
    // Right magic, protocol version 5 against this build's 6: rejected.
    assert_eq!(check_handshake(&[0xBA, 0xBA, 0x05, 0x00]),
        Err(ProtocolError::BadHandshake));
    // Wrong magic.
    assert_eq!(check_handshake(&[0xBB, 0xBA, 0x06, 0x00]),
        Err(ProtocolError::BadHandshake));
    // Wrong length.
    assert_eq!(check_handshake(&[0xBA, 0xBA, 0x06]), Err(ProtocolError::BadHandshake));
    assert_eq!(check_handshake(&[]), Err(ProtocolError::BadHandshake));
}

#[test]
fn msg_in_round_trip_player() {
    let body = encode_msg_in(&GameServerToMetaServer::PlayerConnected(77)).unwrap();
    assert!(matches!(decode_msg_in(&body), Ok(GameServerToMetaServer::PlayerConnected(77))));
    let body = encode_msg_in(&GameServerToMetaServer::PlayerAuth(12345)).unwrap();
    assert!(matches!(decode_msg_in(&body), Ok(GameServerToMetaServer::PlayerAuth(12345))));
}

#[test]
fn msg_in_round_trip_status() {
    let msg = GameServerToMetaServer::Status(ServerStatus {
        connections: 42,
        day_time: DayTime::Evening,
    });
    let body = encode_msg_in(&msg).unwrap();
    match decode_msg_in(&body) {
        Ok(GameServerToMetaServer::Status(s)) => {
            assert_eq!(s.connections, 42);
            assert_eq!(s.day_time, DayTime::Evening);
        },
        other => panic!("unexpected: {:?}", other),
    }
}

#[test]
fn msg_in_round_trip_discord() {
    let msg = GameServerToMetaServer::DiscordSendMessage {
        channel: "general".to_string(),
        text: "héllo wörld ✓".to_string(),
    };
    let body = encode_msg_in(&msg).unwrap();
    match decode_msg_in(&body) {
        Ok(GameServerToMetaServer::DiscordSendMessage { channel, text }) => {
            assert_eq!(channel, "general");
            assert_eq!(text, "héllo wörld ✓");
        },
        other => panic!("unexpected: {:?}", other),
    }
}

#[test]
fn msg_in_rejects_malformed() {
    assert!(matches!(decode_msg_in(&[]), Err(ProtocolError::MalformedFrame)));
    // Unknown tag.
    assert!(matches!(decode_msg_in(&[9, 0, 0, 0, 0]), Err(ProtocolError::MalformedFrame)));
    // Truncated player id.
    assert!(matches!(decode_msg_in(&[1, 7, 0]), Err(ProtocolError::MalformedFrame)));
    // Status with an unknown day-time tag.
    assert!(matches!(decode_msg_in(&[3, 42, 0, 0, 0, 7]), Err(ProtocolError::MalformedFrame)));
    // Trailing garbage after a complete message.
    assert!(matches!(decode_msg_in(&[1, 7, 0, 0, 0, 0]), Err(ProtocolError::MalformedFrame)));
}

#[test]
fn msg_out_round_trips() {
    let body = encode_msg_out(&MetaServerToGameServer::UpdateCharLeaf {
        id: 5,
        ver: 3,
        secret: 0xDEADBEEF,
    })
    .unwrap();
    assert!(matches!(decode_msg_out(&body),
        Ok(MetaServerToGameServer::UpdateCharLeaf { id: 5, ver: 3, secret: 0xDEADBEEF })));

    let body = encode_msg_out(&MetaServerToGameServer::SendKeyToPlayer(9, [1, 2, 3])).unwrap();
    assert!(matches!(decode_msg_out(&body),
        Ok(MetaServerToGameServer::SendKeyToPlayer(9, [1, 2, 3]))));

    let body = encode_msg_out(&MetaServerToGameServer::SendConfig {
        player_id: 4,
        url: "https://example.net/config".to_string(),
    })
    .unwrap();
    match decode_msg_out(&body) {
        Ok(MetaServerToGameServer::SendConfig { player_id, url }) => {
            assert_eq!(player_id, 4);
            assert_eq!(url, "https://example.net/config");
        },
        other => panic!("unexpected: {:?}", other),
    }

    let body = encode_msg_out(&MetaServerToGameServer::StartGame { player_id: 8 }).unwrap();
    assert!(matches!(decode_msg_out(&body),
        Ok(MetaServerToGameServer::StartGame { player_id: 8 })));

    let body = encode_msg_out(&MetaServerToGameServer::Nop).unwrap();
    assert!(matches!(decode_msg_out(&body), Ok(MetaServerToGameServer::Nop)));
}

#[test]
fn msg_out_rejects_malformed() {
    assert!(matches!(decode_msg_out(&[]), Err(ProtocolError::MalformedFrame)));
    assert!(matches!(decode_msg_out(&[0]), Err(ProtocolError::MalformedFrame)));
    // Nop with a payload.
    assert!(matches!(decode_msg_out(&[5, 1]), Err(ProtocolError::MalformedFrame)));
    // Truncated key.
    assert!(matches!(decode_msg_out(&[2, 1, 0, 0, 0, 2, 0, 0, 0]),
        Err(ProtocolError::MalformedFrame)));
}

#[test]
fn frames_carry_their_length() {
    let msg = MetaServerToGameServer::StartGame { player_id: 66 };
    let framed = encode_msg_out_framed(&msg).unwrap();
    let header: [u8; 4] = framed[0..4].try_into().unwrap();
    let len = read_frame_len(&header);
    assert_eq!(len, framed.len() - 4);
    assert!(matches!(decode_msg_out(&framed[4..]),
        Ok(MetaServerToGameServer::StartGame { player_id: 66 })));

    let msg = GameServerToMetaServer::PlayerConnected(1);
    let framed = encode_msg_in_framed(&msg).unwrap();
    let header: [u8; 4] = framed[0..4].try_into().unwrap();
    assert_eq!(read_frame_len(&header), framed.len() - 4);
    assert!(matches!(decode_msg_in(&framed[4..]),
        Ok(GameServerToMetaServer::PlayerConnected(1))));
}
