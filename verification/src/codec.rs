//! Frame codec: the fixed handshake preamble and the tagged, length-prefixed
//! application messages, as byte-level encode/decode functions.
//!
//! The wire format is little-endian throughout. A connection opens with four
//! bytes (magic, then protocol version, two bytes each); any mismatch is fatal
//! before a single application message is read. After the handshake every
//! message travels as a frame: a four-byte length followed by a tagged body.
use vstd::prelude::*;
use vstd::bytes::*;
use vstd::utf8::{valid_utf8, decode_utf8, encode_utf8, encode_utf8_valid_utf8,
    encode_utf8_decode_utf8};
use vstd::slice::slice_to_vec;
use crate::protocol::{DayTime, GameServerToMetaServer, MetaServerToGameServer, MsgInModel,
    MsgOutModel, ServerStatus, HANDSHAKE, VERSION};

verus! {

/// Why a byte stream was rejected. Either failure tears the connection down;
/// a desynchronized stream is never re-read.
#[derive(Debug, Clone, Copy, PartialEq, Eq, Structural)]
pub enum ProtocolError {
    /// The first four bytes were not the expected magic and version.
    BadHandshake,
    /// A frame body did not decode as exactly one known message.
    MalformedFrame,
    /// An application message arrived on a link whose handshake has not
    /// completed: a sequencing violation of the same severity.
    NotEstablished,
}

// ===== Handshake =====

/// The only four bytes that open a compatible connection.
pub open spec fn handshake_bytes() -> Seq<u8> {
    spec_u16_to_le_bytes(HANDSHAKE) + spec_u16_to_le_bytes(VERSION)
}

/// Emits the handshake preamble this build sends on a new connection.
pub fn encode_handshake() -> (r: Vec<u8>)
    ensures
        r@ == handshake_bytes(),
{
    let mut r = u16_to_le_bytes(HANDSHAKE);
    let mut v = u16_to_le_bytes(VERSION);
    r.append(&mut v);
    r
}

/// Accepts exactly the handshake preamble of this build: right magic, right
/// version, nothing else. Anything different is a `BadHandshake`.
pub fn check_handshake(bytes: &[u8]) -> (r: Result<(), ProtocolError>)
    ensures
        r is Ok <==> bytes@ == handshake_bytes(),
        r is Err ==> r == Err::<(), ProtocolError>(ProtocolError::BadHandshake),
{
    proof {
        lemma_auto_spec_u16_to_from_le_bytes();
    }
    if bytes.len() != 4 {
        return Err(ProtocolError::BadHandshake);
    }
    let magic = u16_from_le_bytes(slice_subrange(bytes, 0, 2));
    let version = u16_from_le_bytes(slice_subrange(bytes, 2, 4));
    if magic == HANDSHAKE && version == VERSION {
        proof {
            assert(bytes@ =~= bytes@.subrange(0, 2) + bytes@.subrange(2, 4));
        }
        Ok(())
    } else {
        proof {
            if bytes@ == handshake_bytes() {
                assert(bytes@.subrange(0, 2) =~= spec_u16_to_le_bytes(HANDSHAKE));
                assert(bytes@.subrange(2, 4) =~= spec_u16_to_le_bytes(VERSION));
            }
        }
        Err(ProtocolError::BadHandshake)
    }
}

/// A preamble carrying the right magic but any other protocol version is not
/// the handshake of this build: `check_handshake` refuses it, and the bridge
/// fails such a link before any application message is accepted.
pub proof fn lemma_version_gate(bytes: Seq<u8>, version: u16)
    requires
        bytes == spec_u16_to_le_bytes(HANDSHAKE) + spec_u16_to_le_bytes(version),
        version != VERSION,
    ensures
        bytes != handshake_bytes(),
{
    lemma_auto_spec_u16_to_from_le_bytes();
    if bytes == handshake_bytes() {
        assert(bytes.subrange(2, 4) =~= spec_u16_to_le_bytes(version));
        assert(handshake_bytes().subrange(2, 4) =~= spec_u16_to_le_bytes(VERSION));
    }
}

// ===== Byte-level building blocks =====

/// Exec subrange of a slice (a thin front for range indexing).
pub fn slice_subrange<'a>(s: &'a [u8], from: usize, to: usize) -> (r: &'a [u8])
    requires
        from <= to <= s@.len(),
    ensures
        r@ == s@.subrange(from as int, to as int),
{
    &s[from..to]
}

/// Wire tag of a day-time bucket.
pub open spec fn daytime_byte(d: DayTime) -> u8 {
    match d {
        DayTime::Morning => 1u8,
        DayTime::Day => 2u8,
        DayTime::Evening => 3u8,
        DayTime::Night => 4u8,
    }
}

/// Inverse of `daytime_byte`: which day-time bucket a wire tag denotes.
pub open spec fn byte_daytime(b: u8) -> Option<DayTime> {
    if b == 1u8 {
        Some(DayTime::Morning)
    } else if b == 2u8 {
        Some(DayTime::Day)
    } else if b == 3u8 {
        Some(DayTime::Evening)
    } else if b == 4u8 {
        Some(DayTime::Night)
    } else {
        None
    }
}

fn encode_daytime(d: DayTime) -> (r: u8)
    ensures
        r == daytime_byte(d),
{
    match d {
        DayTime::Morning => 1u8,
        DayTime::Day => 2u8,
        DayTime::Evening => 3u8,
        DayTime::Night => 4u8,
    }
}

fn decode_daytime(b: u8) -> (r: Option<DayTime>)
    ensures
        r == byte_daytime(b),
{
    if b == 1u8 {
        Some(DayTime::Morning)
    } else if b == 2u8 {
        Some(DayTime::Day)
    } else if b == 3u8 {
        Some(DayTime::Evening)
    } else if b == 4u8 {
        Some(DayTime::Night)
    } else {
        None
    }
}

/// Longest UTF-8 form a framed string may have. Half the frame length space,
/// so that a message holding two strings still fits its four-byte prefix.
pub const MAX_STR_BYTES: usize = 0x7FFF_FF00;

/// A string can be framed only if its UTF-8 form fits the length budget.
pub open spec fn str_wf(s: Seq<char>) -> bool {
    encode_utf8(s).len() <= MAX_STR_BYTES
}

/// Length-prefixed UTF-8 block carrying one string.
pub open spec fn str_block(s: Seq<char>) -> Seq<u8> {
    spec_u32_to_le_bytes(encode_utf8(s).len() as u32) + encode_utf8(s)
}

/// Parses one length-prefixed UTF-8 block off the front of `b`, returning the
/// string and the remaining bytes.
pub open spec fn parse_str_block(b: Seq<u8>) -> Option<(Seq<char>, Seq<u8>)> {
    if b.len() < 4 {
        None
    } else {
        let n = spec_u32_from_le_bytes(b.take(4)) as int;
        if b.len() < 4 + n {
            None
        } else {
            let payload = b.subrange(4, 4 + n);
            if valid_utf8(payload) {
                Some((decode_utf8(payload), b.skip(4 + n)))
            } else {
                None
            }
        }
    }
}

pub proof fn lemma_str_block_round_trip(s: Seq<char>, rest: Seq<u8>)
    requires
        str_wf(s),
    ensures
        parse_str_block(str_block(s) + rest) == Some((s, rest)),
{
    lemma_auto_spec_u32_to_from_le_bytes();
    encode_utf8_valid_utf8(s);
    encode_utf8_decode_utf8(s);
    let bytes = encode_utf8(s);
    let b = str_block(s) + rest;
    assert(b.take(4) =~= spec_u32_to_le_bytes(bytes.len() as u32));
    assert(b.subrange(4, 4 + bytes.len() as int) =~= bytes);
    assert(b.skip(4 + bytes.len() as int) =~= rest);
}

/// Appends one length-prefixed UTF-8 block for `s` to `out`.
fn push_str_block(out: &mut Vec<u8>, s: &str) -> (r: bool)
    ensures
        r ==> final(out)@ == old(out)@ + str_block(s@) && str_wf(s@),
        !r ==> final(out)@ == old(out)@ && !str_wf(s@),
{
    let bytes = s.as_bytes();
    if bytes.len() > MAX_STR_BYTES {
        return false;
    }
    let mut len_bytes = u32_to_le_bytes(bytes.len() as u32);
    out.append(&mut len_bytes);
    let mut payload = slice_to_vec(bytes);
    out.append(&mut payload);
    true
}

/// Reads one length-prefixed UTF-8 block starting at `at`, returning the
/// string and the offset just past the block.
fn read_str_block(b: &[u8], at: usize) -> (r: Option<(String, usize)>)
    requires
        at <= b@.len(),
    ensures
        r matches Some((s, end)) ==> at <= end <= b@.len() && parse_str_block(
            b@.skip(at as int)) == Some((s@, b@.skip(end as int))),
        r is None ==> parse_str_block(b@.skip(at as int)) is None,
{
    proof {
        lemma_auto_spec_u32_to_from_le_bytes();
    }
    if b.len() - at < 4 {
        return None;
    }
    let n = u32_from_le_bytes(slice_subrange(b, at, at + 4));
    proof {
        assert(b@.skip(at as int).take(4) =~= b@.subrange(at as int, at + 4));
    }
    let n_usize = n as usize;
    if b.len() - at - 4 < n_usize {
        return None;
    }
    let end = at + 4 + n_usize;
    let payload = slice_subrange(b, at + 4, end);
    proof {
        assert(payload@ =~= b@.skip(at as int).subrange(4, 4 + n as int));
    }
    match string_from_utf8(payload) {
        Some(s) => {
            proof {
                assert(b@.skip(at as int).skip(4 + n as int) =~= b@.skip(end as int));
            }
            Some((s, end))
        },
        None => None,
    }
}

/// Relies on `String::from_utf8`: it succeeds on exactly the byte sequences
/// that are valid UTF-8 and returns the string those bytes encode.
#[verifier::external_body]
pub(crate) fn string_from_utf8(b: &[u8]) -> (r: Option<String>)
    ensures
        r matches Some(s) ==> valid_utf8(b@) && s@ == decode_utf8(b@),
        r is None ==> !valid_utf8(b@),
{
    String::from_utf8(b.to_vec()).ok()
}

// ===== Inbound messages (game server to meta server) =====

/// Whether an inbound message fits the wire format's length fields.
pub open spec fn msg_in_wf(m: MsgInModel) -> bool {
    match m {
        MsgInModel::DiscordSendMessage { channel, text } => str_wf(channel) && str_wf(text),
        _ => true,
    }
}

/// Byte encoding of an inbound message body.
pub open spec fn msg_in_bytes(m: MsgInModel) -> Seq<u8> {
    match m {
        MsgInModel::PlayerConnected(id) => seq![1u8] + spec_u32_to_le_bytes(id),
        MsgInModel::PlayerAuth(id) => seq![2u8] + spec_u32_to_le_bytes(id),
        MsgInModel::Status(s) => (
            seq![3u8] + spec_u32_to_le_bytes(s.connections) + seq![daytime_byte(s.day_time)]
        ),
        MsgInModel::DiscordSendMessage { channel, text } => (
            seq![4u8] + str_block(channel) + str_block(text)
        ),
    }
}

/// Which inbound message, if any, a body decodes as. Exactly the encodings of
/// well-formed messages parse; everything else is rejected.
pub open spec fn parse_msg_in(b: Seq<u8>) -> Option<MsgInModel> {
    if b.len() < 1 {
        None
    } else {
        let rest = b.skip(1);
        if b[0] == 1u8 {
            if rest.len() == 4 {
                Some(MsgInModel::PlayerConnected(spec_u32_from_le_bytes(rest)))
            } else {
                None
            }
        } else if b[0] == 2u8 {
            if rest.len() == 4 {
                Some(MsgInModel::PlayerAuth(spec_u32_from_le_bytes(rest)))
            } else {
                None
            }
        } else if b[0] == 3u8 {
            if rest.len() == 5 && byte_daytime(rest[4]) is Some {
                Some(MsgInModel::Status(ServerStatus {
                    connections: spec_u32_from_le_bytes(rest.take(4)),
                    day_time: byte_daytime(rest[4])->Some_0,
                }))
            } else {
                None
            }
        } else if b[0] == 4u8 {
            match parse_str_block(rest) {
                Some((channel, r1)) => match parse_str_block(r1) {
                    Some((text, r2)) => if r2.len() == 0 {
                        Some(MsgInModel::DiscordSendMessage { channel, text })
                    } else {
                        None
                    },
                    None => None,
                },
                None => None,
            }
        } else {
            None
        }
    }
}

/// Every well-formed inbound message decodes back to itself.
pub proof fn lemma_msg_in_round_trip(m: MsgInModel)
    requires
        msg_in_wf(m),
    ensures
        parse_msg_in(msg_in_bytes(m)) == Some(m),
{
    lemma_auto_spec_u32_to_from_le_bytes();
    let b = msg_in_bytes(m);
    match m {
        MsgInModel::PlayerConnected(id) => {
            assert(b.skip(1) =~= spec_u32_to_le_bytes(id));
        },
        MsgInModel::PlayerAuth(id) => {
            assert(b.skip(1) =~= spec_u32_to_le_bytes(id));
        },
        MsgInModel::Status(s) => {
            assert(b.skip(1).take(4) =~= spec_u32_to_le_bytes(s.connections));
            assert(b.skip(1)[4] == daytime_byte(s.day_time));
            assert(b.skip(1).len() == 5);
        },
        MsgInModel::DiscordSendMessage { channel, text } => {
            assert(b.skip(1) =~= str_block(channel) + (str_block(text) + Seq::<u8>::empty()));
            lemma_str_block_round_trip(channel, str_block(text) + Seq::<u8>::empty());
            assert(str_block(text) + Seq::<u8>::empty() =~= str_block(text) + Seq::<u8>::empty());
            lemma_str_block_round_trip(text, Seq::<u8>::empty());
        },
    }
}

/// Encodes an inbound message body; `None` exactly when a string is too long
/// for the four-byte length field.
pub fn encode_msg_in(m: &GameServerToMetaServer) -> (r: Option<Vec<u8>>)
    ensures
        r matches Some(v) ==> v@ == msg_in_bytes(m@) && msg_in_wf(m@),
        r is None ==> !msg_in_wf(m@),
{
    let mut out: Vec<u8> = Vec::new();
    match m {
        GameServerToMetaServer::PlayerConnected(id) => {
            out.push(1u8);
            let mut idb = u32_to_le_bytes(*id);
            out.append(&mut idb);
            proof {
                assert(out@ =~= msg_in_bytes(m@));
            }
            Some(out)
        },
        GameServerToMetaServer::PlayerAuth(id) => {
            out.push(2u8);
            let mut idb = u32_to_le_bytes(*id);
            out.append(&mut idb);
            proof {
                assert(out@ =~= msg_in_bytes(m@));
            }
            Some(out)
        },
        GameServerToMetaServer::Status(s) => {
            out.push(3u8);
            let mut cb = u32_to_le_bytes(s.connections);
            out.append(&mut cb);
            out.push(encode_daytime(s.day_time));
            proof {
                assert(out@ =~= msg_in_bytes(m@));
            }
            Some(out)
        },
        GameServerToMetaServer::DiscordSendMessage { channel, text } => {
            out.push(4u8);
            if !push_str_block(&mut out, channel.as_str()) {
                return None;
            }
            if !push_str_block(&mut out, text.as_str()) {
                return None;
            }
            proof {
                assert(out@ =~= msg_in_bytes(m@));
            }
            Some(out)
        },
    }
}

/// Decodes one inbound message body. The result is exactly what the grammar
/// (`parse_msg_in`) says of the bytes; a body that is not exactly one message
/// is a `MalformedFrame`.
pub fn decode_msg_in(b: &[u8]) -> (r: Result<GameServerToMetaServer, ProtocolError>)
    ensures
        r matches Ok(m) ==> parse_msg_in(b@) == Some(m@),
        r is Err ==> parse_msg_in(b@) is None && r == Err::<GameServerToMetaServer,
            ProtocolError>(ProtocolError::MalformedFrame),
{
    proof {
        lemma_auto_spec_u32_to_from_le_bytes();
    }
    if b.len() < 1 {
        return Err(ProtocolError::MalformedFrame);
    }
    let tag = b[0];
    if tag == 1u8 || tag == 2u8 {
        if b.len() != 5 {
            return Err(ProtocolError::MalformedFrame);
        }
        let id = u32_from_le_bytes(slice_subrange(b, 1, 5));
        proof {
            assert(b@.skip(1) =~= b@.subrange(1, 5));
        }
        if tag == 1u8 {
            Ok(GameServerToMetaServer::PlayerConnected(id))
        } else {
            Ok(GameServerToMetaServer::PlayerAuth(id))
        }
    } else if tag == 3u8 {
        if b.len() != 6 {
            return Err(ProtocolError::MalformedFrame);
        }
        let connections = u32_from_le_bytes(slice_subrange(b, 1, 5));
        proof {
            assert(b@.skip(1).take(4) =~= b@.subrange(1, 5));
            assert(b@.skip(1)[4] == b@[5]);
            assert(b@.skip(1).len() == 5);
        }
        match decode_daytime(b[5]) {
            Some(day_time) => Ok(GameServerToMetaServer::Status(ServerStatus {
                connections,
                day_time,
            })),
            None => Err(ProtocolError::MalformedFrame),
        }
    } else if tag == 4u8 {
        proof {
            assert(b@.skip(1) == b@.skip(1));
        }
        match read_str_block(b, 1) {
            Some((channel, end1)) => match read_str_block(b, end1) {
                Some((text, end2)) => {
                    if end2 == b.len() {
                        proof {
                            assert(b@.skip(end2 as int).len() == 0);
                        }
                        Ok(GameServerToMetaServer::DiscordSendMessage { channel, text })
                    } else {
                        proof {
                            assert(b@.skip(end2 as int).len() > 0);
                        }
                        Err(ProtocolError::MalformedFrame)
                    }
                },
                None => Err(ProtocolError::MalformedFrame),
            },
            None => Err(ProtocolError::MalformedFrame),
        }
    } else {
        Err(ProtocolError::MalformedFrame)
    }
}

// ===== Outbound messages (meta server to game server) =====

/// Whether an outbound message fits the wire format's length fields.
pub open spec fn msg_out_wf(m: MsgOutModel) -> bool {
    match m {
        MsgOutModel::SendConfig { player_id, url } => str_wf(url),
        MsgOutModel::SendKeyToPlayer(id, key) => key.len() == 3,
        _ => true,
    }
}

/// Byte encoding of an outbound message body.
pub open spec fn msg_out_bytes(m: MsgOutModel) -> Seq<u8> {
    match m {
        MsgOutModel::UpdateCharLeaf { id, ver, secret } => (
            seq![1u8] + spec_u32_to_le_bytes(id) + spec_u32_to_le_bytes(ver)
                + spec_u32_to_le_bytes(secret)
        ),
        MsgOutModel::SendKeyToPlayer(id, key) => (
            seq![2u8] + spec_u32_to_le_bytes(id) + spec_u32_to_le_bytes(key[0])
                + spec_u32_to_le_bytes(key[1]) + spec_u32_to_le_bytes(key[2])
        ),
        MsgOutModel::SendConfig { player_id, url } => (
            seq![3u8] + spec_u32_to_le_bytes(player_id) + str_block(url)
        ),
        MsgOutModel::StartGame { player_id } => seq![4u8] + spec_u32_to_le_bytes(player_id),
        MsgOutModel::Nop => seq![5u8],
    }
}

/// Which outbound message, if any, a body decodes as.
pub open spec fn parse_msg_out(b: Seq<u8>) -> Option<MsgOutModel> {
    if b.len() < 1 {
        None
    } else {
        let rest = b.skip(1);
        if b[0] == 1u8 {
            if rest.len() == 12 {
                Some(MsgOutModel::UpdateCharLeaf {
                    id: spec_u32_from_le_bytes(rest.take(4)),
                    ver: spec_u32_from_le_bytes(rest.subrange(4, 8)),
                    secret: spec_u32_from_le_bytes(rest.subrange(8, 12)),
                })
            } else {
                None
            }
        } else if b[0] == 2u8 {
            if rest.len() == 16 {
                Some(MsgOutModel::SendKeyToPlayer(
                    spec_u32_from_le_bytes(rest.take(4)),
                    seq![
                        spec_u32_from_le_bytes(rest.subrange(4, 8)),
                        spec_u32_from_le_bytes(rest.subrange(8, 12)),
                        spec_u32_from_le_bytes(rest.subrange(12, 16)),
                    ],
                ))
            } else {
                None
            }
        } else if b[0] == 3u8 {
            if rest.len() < 4 {
                None
            } else {
                match parse_str_block(rest.skip(4)) {
                    Some((url, r1)) => if r1.len() == 0 {
                        Some(MsgOutModel::SendConfig {
                            player_id: spec_u32_from_le_bytes(rest.take(4)),
                            url,
                        })
                    } else {
                        None
                    },
                    None => None,
                }
            }
        } else if b[0] == 4u8 {
            if rest.len() == 4 {
                Some(MsgOutModel::StartGame { player_id: spec_u32_from_le_bytes(rest) })
            } else {
                None
            }
        } else if b[0] == 5u8 {
            if rest.len() == 0 {
                Some(MsgOutModel::Nop)
            } else {
                None
            }
        } else {
            None
        }
    }
}

/// Every well-formed outbound message decodes back to itself.
pub proof fn lemma_msg_out_round_trip(m: MsgOutModel)
    requires
        msg_out_wf(m),
    ensures
        parse_msg_out(msg_out_bytes(m)) == Some(m),
{
    lemma_auto_spec_u32_to_from_le_bytes();
    let b = msg_out_bytes(m);
    match m {
        MsgOutModel::UpdateCharLeaf { id, ver, secret } => {
            assert(b.skip(1).take(4) =~= spec_u32_to_le_bytes(id));
            assert(b.skip(1).subrange(4, 8) =~= spec_u32_to_le_bytes(ver));
            assert(b.skip(1).subrange(8, 12) =~= spec_u32_to_le_bytes(secret));
            assert(b.skip(1).len() == 12);
        },
        MsgOutModel::SendKeyToPlayer(id, key) => {
            assert(b.skip(1).take(4) =~= spec_u32_to_le_bytes(id));
            assert(b.skip(1).subrange(4, 8) =~= spec_u32_to_le_bytes(key[0]));
            assert(b.skip(1).subrange(8, 12) =~= spec_u32_to_le_bytes(key[1]));
            assert(b.skip(1).subrange(12, 16) =~= spec_u32_to_le_bytes(key[2]));
            assert(b.skip(1).len() == 16);
            assert(parse_msg_out(b)->Some_0->SendKeyToPlayer_1 =~= key);
        },
        MsgOutModel::SendConfig { player_id, url } => {
            assert(b.skip(1).take(4) =~= spec_u32_to_le_bytes(player_id));
            assert(b.skip(1).skip(4) =~= str_block(url) + Seq::<u8>::empty());
            lemma_str_block_round_trip(url, Seq::<u8>::empty());
        },
        MsgOutModel::StartGame { player_id } => {
            assert(b.skip(1) =~= spec_u32_to_le_bytes(player_id));
        },
        MsgOutModel::Nop => {
            assert(b.skip(1).len() == 0);
        },
    }
}

/// Encodes an outbound message body; `None` exactly when the URL is too long
/// for the four-byte length field.
pub fn encode_msg_out(m: &MetaServerToGameServer) -> (r: Option<Vec<u8>>)
    ensures
        r matches Some(v) ==> v@ == msg_out_bytes(m@) && msg_out_wf(m@),
        r is None ==> !msg_out_wf(m@),
{
    let mut out: Vec<u8> = Vec::new();
    match m {
        MetaServerToGameServer::UpdateCharLeaf { id, ver, secret } => {
            out.push(1u8);
            let mut w = u32_to_le_bytes(*id);
            out.append(&mut w);
            let mut w = u32_to_le_bytes(*ver);
            out.append(&mut w);
            let mut w = u32_to_le_bytes(*secret);
            out.append(&mut w);
            proof {
                assert(out@ =~= msg_out_bytes(m@));
            }
            Some(out)
        },
        MetaServerToGameServer::SendKeyToPlayer(id, key) => {
            out.push(2u8);
            let mut w = u32_to_le_bytes(*id);
            out.append(&mut w);
            let mut w = u32_to_le_bytes(key[0]);
            out.append(&mut w);
            let mut w = u32_to_le_bytes(key[1]);
            out.append(&mut w);
            let mut w = u32_to_le_bytes(key[2]);
            out.append(&mut w);
            proof {
                assert(out@ =~= msg_out_bytes(m@));
            }
            Some(out)
        },
        MetaServerToGameServer::SendConfig { player_id, url } => {
            out.push(3u8);
            let mut w = u32_to_le_bytes(*player_id);
            out.append(&mut w);
            if !push_str_block(&mut out, url.as_str()) {
                return None;
            }
            proof {
                assert(out@ =~= msg_out_bytes(m@));
            }
            Some(out)
        },
        MetaServerToGameServer::StartGame { player_id } => {
            out.push(4u8);
            let mut w = u32_to_le_bytes(*player_id);
            out.append(&mut w);
            proof {
                assert(out@ =~= msg_out_bytes(m@));
            }
            Some(out)
        },
        MetaServerToGameServer::Nop => {
            out.push(5u8);
            proof {
                assert(out@ =~= msg_out_bytes(m@));
            }
            Some(out)
        },
    }
}

/// Decodes one outbound message body, exactly as `parse_msg_out` says.
pub fn decode_msg_out(b: &[u8]) -> (r: Result<MetaServerToGameServer, ProtocolError>)
    ensures
        r matches Ok(m) ==> parse_msg_out(b@) == Some(m@),
        r is Err ==> parse_msg_out(b@) is None && r == Err::<MetaServerToGameServer,
            ProtocolError>(ProtocolError::MalformedFrame),
{
    proof {
        lemma_auto_spec_u32_to_from_le_bytes();
    }
    if b.len() < 1 {
        return Err(ProtocolError::MalformedFrame);
    }
    let tag = b[0];
    if tag == 1u8 {
        if b.len() != 13 {
            return Err(ProtocolError::MalformedFrame);
        }
        let id = u32_from_le_bytes(slice_subrange(b, 1, 5));
        let ver = u32_from_le_bytes(slice_subrange(b, 5, 9));
        let secret = u32_from_le_bytes(slice_subrange(b, 9, 13));
        proof {
            assert(b@.skip(1).take(4) =~= b@.subrange(1, 5));
            assert(b@.skip(1).subrange(4, 8) =~= b@.subrange(5, 9));
            assert(b@.skip(1).subrange(8, 12) =~= b@.subrange(9, 13));
            assert(b@.skip(1).len() == 12);
        }
        Ok(MetaServerToGameServer::UpdateCharLeaf { id, ver, secret })
    } else if tag == 2u8 {
        if b.len() != 17 {
            return Err(ProtocolError::MalformedFrame);
        }
        let id = u32_from_le_bytes(slice_subrange(b, 1, 5));
        let k0 = u32_from_le_bytes(slice_subrange(b, 5, 9));
        let k1 = u32_from_le_bytes(slice_subrange(b, 9, 13));
        let k2 = u32_from_le_bytes(slice_subrange(b, 13, 17));
        let key = [k0, k1, k2];
        proof {
            assert(b@.skip(1).take(4) =~= b@.subrange(1, 5));
            assert(b@.skip(1).subrange(4, 8) =~= b@.subrange(5, 9));
            assert(b@.skip(1).subrange(8, 12) =~= b@.subrange(9, 13));
            assert(b@.skip(1).subrange(12, 16) =~= b@.subrange(13, 17));
            assert(b@.skip(1).len() == 16);
            assert(key@ =~= parse_msg_out(b@)->Some_0->SendKeyToPlayer_1);
        }
        Ok(MetaServerToGameServer::SendKeyToPlayer(id, key))
    } else if tag == 3u8 {
        if b.len() < 5 {
            proof {
                assert(b@.skip(1).len() < 4);
            }
            return Err(ProtocolError::MalformedFrame);
        }
        let player_id = u32_from_le_bytes(slice_subrange(b, 1, 5));
        proof {
            assert(b@.skip(1).take(4) =~= b@.subrange(1, 5));
            assert(b@.skip(1).skip(4) =~= b@.skip(5));
        }
        match read_str_block(b, 5) {
            Some((url, end)) => {
                if end == b.len() {
                    proof {
                        assert(b@.skip(end as int).len() == 0);
                    }
                    Ok(MetaServerToGameServer::SendConfig { player_id, url })
                } else {
                    proof {
                        assert(b@.skip(end as int).len() > 0);
                    }
                    Err(ProtocolError::MalformedFrame)
                }
            },
            None => Err(ProtocolError::MalformedFrame),
        }
    } else if tag == 4u8 {
        if b.len() != 5 {
            return Err(ProtocolError::MalformedFrame);
        }
        let player_id = u32_from_le_bytes(slice_subrange(b, 1, 5));
        proof {
            assert(b@.skip(1) =~= b@.subrange(1, 5));
        }
        Ok(MetaServerToGameServer::StartGame { player_id })
    } else if tag == 5u8 {
        if b.len() != 1 {
            return Err(ProtocolError::MalformedFrame);
        }
        Ok(MetaServerToGameServer::Nop)
    } else {
        Err(ProtocolError::MalformedFrame)
    }
}

// ===== Frames =====

/// A message body framed for the wire: four-byte length, then the body.
pub open spec fn frame_bytes(body: Seq<u8>) -> Seq<u8> {
    spec_u32_to_le_bytes(body.len() as u32) + body
}

/// Frames an outbound message for the wire; `None` exactly when the message
/// does not fit the format's length fields.
pub fn encode_msg_out_framed(m: &MetaServerToGameServer) -> (r: Option<Vec<u8>>)
    ensures
        r matches Some(v) ==> v@ == frame_bytes(msg_out_bytes(m@)) && msg_out_wf(m@),
        r is None ==> !msg_out_wf(m@),
{
    match encode_msg_out(m) {
        Some(body) => {
            // The body of any outbound message is a tag plus at most two
            // four-byte words, a twelve-byte key, or one block that itself
            // fits in a `u32`, so its length always fits the prefix.
            if body.len() > u32::MAX as usize {
                proof {
                    lemma_encoded_msg_out_len(m@);
                }
                None
            } else {
                let mut out = u32_to_le_bytes(body.len() as u32);
                let mut body = body;
                out.append(&mut body);
                Some(out)
            }
        },
        None => None,
    }
}

/// Frames an inbound message for the wire (used by a game-server peer).
pub fn encode_msg_in_framed(m: &GameServerToMetaServer) -> (r: Option<Vec<u8>>)
    ensures
        r matches Some(v) ==> v@ == frame_bytes(msg_in_bytes(m@)) && msg_in_wf(m@),
        r is None ==> !msg_in_wf(m@),
{
    match encode_msg_in(m) {
        Some(body) => {
            if body.len() > u32::MAX as usize {
                proof {
                    lemma_encoded_msg_in_len(m@);
                }
                None
            } else {
                let mut out = u32_to_le_bytes(body.len() as u32);
                let mut body = body;
                out.append(&mut body);
                Some(out)
            }
        },
        None => None,
    }
}

/// A well-formed outbound body always fits the frame's length prefix.
proof fn lemma_encoded_msg_out_len(m: MsgOutModel)
    requires
        msg_out_wf(m),
    ensures
        msg_out_bytes(m).len() <= u32::MAX,
{
    lemma_auto_spec_u32_to_from_le_bytes();
}

/// A well-formed inbound body always fits the frame's length prefix.
proof fn lemma_encoded_msg_in_len(m: MsgInModel)
    requires
        msg_in_wf(m),
    ensures
        msg_in_bytes(m).len() <= u32::MAX,
{
    lemma_auto_spec_u32_to_from_le_bytes();
}

/// Reads a frame header: how many body bytes follow it.
pub fn read_frame_len(header: &[u8]) -> (r: usize)
    requires
        header@.len() == 4,
    ensures
        r == spec_u32_from_le_bytes(header@),
{
    proof {
        lemma_auto_spec_u32_to_from_le_bytes();
    }
    u32_from_le_bytes(header) as usize
}

} // verus!
