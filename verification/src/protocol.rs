//! Message types exchanged between a game server and the meta server, and the
//! fixed handshake constants that gate them.
use vstd::prelude::*;

verus! {

/// Magic constant that opens every game-server connection.
pub const HANDSHAKE: u16 = 0xBABA;

/// Protocol version; both sides must agree on it before any message flows.
pub const VERSION: u16 = 6;

/// Coarse time-of-day bucket derived from an hour of day.
#[derive(Debug, Clone, Copy, PartialEq, Eq, Structural)]
pub enum DayTime {
    Morning,
    Day,
    Evening,
    Night,
}

/// The bucketing rule: hours 0-5 and 21-23 are night, 6-11 morning,
/// 12-16 day, 17-20 evening.
pub open spec fn spec_from_hour(hour: u16) -> DayTime {
    if hour <= 5 {
        DayTime::Night
    } else if hour <= 11 {
        DayTime::Morning
    } else if hour <= 16 {
        DayTime::Day
    } else if hour <= 20 {
        DayTime::Evening
    } else {
        DayTime::Night
    }
}

impl DayTime {
    /// Buckets an hour of day (any `u16`; out-of-range hours count as night).
    pub fn from_hour(hour: u16) -> (r: Self)
        ensures
            r == spec_from_hour(hour),
    {
        if hour <= 5 {
            DayTime::Night
        } else if hour <= 11 {
            DayTime::Morning
        } else if hour <= 16 {
            DayTime::Day
        } else if hour <= 20 {
            DayTime::Evening
        } else {
            DayTime::Night
        }
    }
}

/// Presence snapshot a game server reports about itself.
#[derive(Debug, Clone, Copy, PartialEq, Eq, Structural)]
pub struct ServerStatus {
    pub connections: u32,
    pub day_time: DayTime,
}

/// Inbound application messages: game server to meta server.
#[derive(Debug, Clone)]
pub enum GameServerToMetaServer {
    PlayerConnected(u32),
    PlayerAuth(u32),
    Status(ServerStatus),
    DiscordSendMessage { channel: String, text: String },
}

/// Outbound application messages: meta server to game server.
#[derive(Debug, Clone)]
pub enum MetaServerToGameServer {
    UpdateCharLeaf { id: u32, ver: u32, secret: u32 },
    SendKeyToPlayer(u32, [u32; 3]),
    SendConfig { player_id: u32, url: String },
    StartGame { player_id: u32 },
    Nop,
}

/// Mathematical model of an inbound message: strings become char sequences.
pub enum MsgInModel {
    PlayerConnected(u32),
    PlayerAuth(u32),
    Status(ServerStatus),
    DiscordSendMessage { channel: Seq<char>, text: Seq<char> },
}

/// Mathematical model of an outbound message.
pub enum MsgOutModel {
    UpdateCharLeaf { id: u32, ver: u32, secret: u32 },
    SendKeyToPlayer(u32, Seq<u32>),
    SendConfig { player_id: u32, url: Seq<char> },
    StartGame { player_id: u32 },
    Nop,
}

impl View for GameServerToMetaServer {
    type V = MsgInModel;

    open spec fn view(&self) -> MsgInModel {
        match self {
            GameServerToMetaServer::PlayerConnected(id) => MsgInModel::PlayerConnected(*id),
            GameServerToMetaServer::PlayerAuth(id) => MsgInModel::PlayerAuth(*id),
            GameServerToMetaServer::Status(s) => MsgInModel::Status(*s),
            GameServerToMetaServer::DiscordSendMessage { channel, text } => (
                MsgInModel::DiscordSendMessage { channel: channel@, text: text@ }
            ),
        }
    }
}

impl View for MetaServerToGameServer {
    type V = MsgOutModel;

    open spec fn view(&self) -> MsgOutModel {
        match self {
            MetaServerToGameServer::UpdateCharLeaf { id, ver, secret } => (
                MsgOutModel::UpdateCharLeaf { id: *id, ver: *ver, secret: *secret }
            ),
            MetaServerToGameServer::SendKeyToPlayer(id, key) => (
                MsgOutModel::SendKeyToPlayer(*id, key@)
            ),
            MetaServerToGameServer::SendConfig { player_id, url } => (
                MsgOutModel::SendConfig { player_id: *player_id, url: url@ }
            ),
            MetaServerToGameServer::StartGame { player_id } => (
                MsgOutModel::StartGame { player_id: *player_id }
            ),
            MetaServerToGameServer::Nop => MsgOutModel::Nop,
        }
    }
}

} // verus!
