use fo_meta_server::bridge::{start_game, Bridge, BridgeAction, Phase, RoutingError};
use fo_meta_server::codec::{encode_handshake, ProtocolError};
use fo_meta_server::protocol::{DayTime, GameServerToMetaServer, MetaServerToGameServer,
    ServerStatus};
use fo_meta_server::status::{get_user_self, presence_of, ConditionColor};

#[test]
fn no_connection_means_unavailable_not_blocking() {
    let mut bridge = Bridge::new();
    assert!(bridge.get_sender().is_none());
    assert!(matches!(bridge.send_current(MetaServerToGameServer::Nop),
        Err(RoutingError::Unavailable)));
    assert!(matches!(
        bridge.send_to_player(1, MetaServerToGameServer::StartGame { player_id: 1 }),
        Err(RoutingError::Unavailable)));
}

#[test]
fn established_connection_carries_the_message() {
    let mut bridge = Bridge::new();
    let id = bridge.accept();
    assert!(bridge.get_sender().is_none());

    bridge.on_handshake(id, &encode_handshake()).expect("good handshake");
    assert_eq!(bridge.get_sender(), Some(id));

    // The same request that was unavailable now succeeds, and the message is
    // observable on that connection.
    bridge.send_current(MetaServerToGameServer::StartGame { player_id: 9 }).expect("send");
    assert_eq!(bridge.connections[id].outbound.len(), 1);
    assert!(matches!(bridge.connections[id].outbound[0],
        MetaServerToGameServer::StartGame { player_id: 9 }));
}

#[test]
fn version_five_handshake_is_rejected_before_any_message() {
    let mut bridge = Bridge::new();
    let id = bridge.accept();

    // Correct magic, protocol version 5 against this build's expected 6.
    let r = bridge.on_handshake(id, &[0xBA, 0xBA, 0x05, 0x00]);
    assert_eq!(r, Err(ProtocolError::BadHandshake));
    assert_eq!(bridge.connections[id].phase, Phase::Failed);
    assert!(bridge.get_sender().is_none());

    // No application message is accepted on that link.
    let r = bridge.handle_message(id, GameServerToMetaServer::PlayerConnected(4));
    assert!(matches!(r, Err(ProtocolError::NotEstablished)));
    assert!(bridge.players.is_empty());
    assert!(bridge.status.is_none());
}

#[test]
fn player_notices_route_and_reroute() {
    let mut bridge = Bridge::new();
    let a = bridge.accept();
    bridge.on_handshake(a, &encode_handshake()).expect("handshake a");
    match bridge.handle_message(a, GameServerToMetaServer::PlayerConnected(42)) {
        Ok(BridgeAction::Done) => {},
        other => panic!("unexpected: {:?}", other),
    }
    bridge
        .send_to_player(42, MetaServerToGameServer::SendKeyToPlayer(42, [7, 8, 9]))
        .expect("routed");
    assert!(matches!(bridge.connections[a].outbound[0],
        MetaServerToGameServer::SendKeyToPlayer(42, [7, 8, 9])));

    // A second connection takes the player over on re-auth.
    let b = bridge.accept();
    bridge.on_handshake(b, &encode_handshake()).expect("handshake b");
    bridge.handle_message(b, GameServerToMetaServer::PlayerAuth(42)).expect("auth");
    bridge
        .send_to_player(42, MetaServerToGameServer::StartGame { player_id: 42 })
        .expect("routed to b");
    assert_eq!(bridge.connections[a].outbound.len(), 1);
    assert!(matches!(bridge.connections[b].outbound[0],
        MetaServerToGameServer::StartGame { player_id: 42 }));
}

#[test]
fn status_reports_overwrite_the_snapshot() {
    let mut bridge = Bridge::new();
    let id = bridge.accept();
    bridge.on_handshake(id, &encode_handshake()).expect("handshake");
    bridge
        .handle_message(id, GameServerToMetaServer::Status(ServerStatus {
            connections: 3,
            day_time: DayTime::Morning,
        }))
        .expect("status");
    bridge
        .handle_message(id, GameServerToMetaServer::Status(ServerStatus {
            connections: 4,
            day_time: DayTime::Day,
        }))
        .expect("status again");
    let s = bridge.status.expect("snapshot");
    assert_eq!(s.connections, 4);
    assert_eq!(s.day_time, DayTime::Day);
}

#[test]
fn chat_requests_are_handed_back_for_forwarding() {
    let mut bridge = Bridge::new();
    let id = bridge.accept();
    bridge.on_handshake(id, &encode_handshake()).expect("handshake");
    match bridge.handle_message(id, GameServerToMetaServer::DiscordSendMessage {
        channel: "town".to_string(),
        text: "hello".to_string(),
    }) {
        Ok(BridgeAction::Forward(f)) => {
            assert_eq!(f.channel, "town");
            assert_eq!(f.text, "hello");
        },
        _ => panic!("expected a forward request"),
    }
}

#[test]
fn teardown_clears_routing_and_the_sender_at_once() {
    let mut bridge = Bridge::new();
    let id = bridge.accept();
    bridge.on_handshake(id, &encode_handshake()).expect("handshake");
    bridge.handle_message(id, GameServerToMetaServer::PlayerConnected(1)).expect("p1");
    bridge.handle_message(id, GameServerToMetaServer::PlayerConnected(2)).expect("p2");

    bridge.on_teardown(id);
    assert_eq!(bridge.connections[id].phase, Phase::Closed);
    assert!(bridge.players.is_empty());
    assert!(bridge.get_sender().is_none());
    assert!(matches!(bridge.send_to_player(1, MetaServerToGameServer::Nop),
        Err(RoutingError::Unavailable)));
}

#[test]
fn presence_policy() {
    let offline = presence_of(&None);
    assert_eq!(offline.name, "Offline");
    assert!(matches!(offline.color, ConditionColor::Red));

    let idle = presence_of(&Some(ServerStatus { connections: 0, day_time: DayTime::Day }));
    assert_eq!(idle.name, "Day");
    assert!(matches!(idle.color, ConditionColor::Yellow));

    let busy = presence_of(&Some(ServerStatus { connections: 7, day_time: DayTime::Morning }));
    assert_eq!(busy.name, "Morning");
    assert!(matches!(busy.color, ConditionColor::Green));
}

#[test]
fn identity_endpoint() {
    assert_eq!(get_user_self(), "https://discordapp.com/api/users/@me");
}

#[test]
fn start_game_needs_a_live_link() {
    let mut bridge = Bridge::new();
    assert!(matches!(start_game(&mut bridge, 31), Err(RoutingError::Unavailable)));

    let id = bridge.accept();
    bridge.on_handshake(id, &encode_handshake()).expect("handshake");
    start_game(&mut bridge, 31).expect("request sent");
    assert!(matches!(bridge.connections[id].outbound[0],
        MetaServerToGameServer::StartGame { player_id: 31 }));
}
