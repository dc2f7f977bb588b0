//! Connection manager: owns every game-server link, routes player-addressed
//! commands, and surfaces one shared outbound channel to collaborators.
//!
//! This is the decision core of the bridge: a state machine over the
//! connection registry, the player routing index, the shared status snapshot
//! and the authoritative sender. The surrounding I/O loop accepts sockets,
//! reads handshakes and frames, hands each event to these functions, performs
//! the actions they return, and drains each connection's outbound queue.
use vstd::prelude::*;
use crate::codec::{check_handshake, handshake_bytes, ProtocolError};
use crate::protocol::{GameServerToMetaServer, MetaServerToGameServer, MsgInModel, ServerStatus};
use crate::store::Leaf;

verus! {

/// Lifecycle of one game-server link. Only `Established` exchanges
/// application messages.
#[derive(Debug, Clone, Copy, PartialEq, Eq, Structural)]
pub enum Phase {
    Connecting,
    Handshaking,
    Established,
    Closing,
    Failed,
    Closed,
}

/// A routing failure: the addressed player or the shared sender has no live
/// connection. Always retriable, never fatal.
#[derive(Debug, Clone, Copy, PartialEq, Eq, Structural)]
pub enum RoutingError {
    Unavailable,
}

/// Per-link runtime state. `outbound` models the link's send queue: the I/O
/// loop drains it to the socket, best-effort.
pub struct Connection {
    pub phase: Phase,
    pub outbound: Vec<MetaServerToGameServer>,
}

/// A chat message the bridge asks the bot collaborator to forward,
/// best-effort.
#[derive(Debug)]
pub struct ChatForward {
    pub channel: String,
    pub text: String,
}

/// What handling one inbound message asks of the surroundings.
#[derive(Debug)]
pub enum BridgeAction {
    /// Nothing beyond the state change.
    Done,
    /// Hand this to the chat bot's send-message capability.
    Forward(ChatForward),
}

/// The bridge registry: connections by id (their index, so ids are never
/// reused), the player-id routing index, the authoritative sender, and the
/// last status snapshot any established connection reported.
pub struct Bridge {
    pub connections: Vec<Connection>,
    pub players: Vec<(u32, usize)>,
    pub current: Option<usize>,
    pub status: Option<ServerStatus>,
}

/// Where the routing index sends a player, if anywhere: the connection id of
/// the first (and, well-formed, only) entry for that player.
pub open spec fn player_entry(s: Seq<(u32, usize)>, pid: u32) -> Option<usize> {
    if exists|i: int| 0 <= i < s.len() && s[i].0 == pid {
        let i = choose|i: int| 0 <= i < s.len() && s[i].0 == pid;
        Some(s[i].1)
    } else {
        None
    }
}

impl Bridge {
    /// Well-formedness: each player is indexed at most once, every index
    /// entry points at an established connection, and so does the
    /// authoritative sender.
    pub open spec fn wf(self) -> bool {
        &&& forall|i: int, j: int| 0 <= i < j < self.players@.len()
            ==> (#[trigger] self.players@[i]).0 != (#[trigger] self.players@[j]).0
        &&& forall|i: int| 0 <= i < self.players@.len()
            ==> (#[trigger] self.players@[i]).1 < self.connections@.len()
                && self.connections@[self.players@[i].1 as int].phase == Phase::Established
        &&& self.current matches Some(c) ==> c < self.connections@.len()
            && self.connections@[c as int].phase == Phase::Established
    }

    /// A fresh bridge: no links, no routed players, no sender, no snapshot.
    pub fn new() -> (r: Bridge)
        ensures
            r.wf(),
            r.connections@.len() == 0,
            r.players@.len() == 0,
            r.current is None,
            r.status is None,
    {
        Bridge { connections: Vec::new(), players: Vec::new(), current: None, status: None }
    }

    /// Registers a newly accepted link, which must still shake hands. Returns
    /// its connection id.
    pub fn accept(&mut self) -> (id: usize)
        requires
            old(self).wf(),
        ensures
            final(self).wf(),
            id == old(self).connections@.len(),
            final(self).connections@.len() == old(self).connections@.len() + 1,
            final(self).connections@[id as int].phase == Phase::Handshaking,
            final(self).connections@[id as int].outbound@.len() == 0,
            forall|j: int| 0 <= j < old(self).connections@.len()
                ==> final(self).connections@[j] == old(self).connections@[j],
            final(self).players == old(self).players,
            final(self).current == old(self).current,
            final(self).status == old(self).status,
    {
        let id = self.connections.len();
        self.connections.push(Connection { phase: Phase::Handshaking, outbound: Vec::new() });
        id
    }

    /// Judges the first four bytes of a handshaking link. Exactly the
    /// handshake preamble of this build establishes the link and makes it the
    /// authoritative sender; anything else fails the link for good, before
    /// any application message can be accepted.
    pub fn on_handshake(&mut self, id: usize, bytes: &[u8]) -> (r: Result<(), ProtocolError>)
        requires
            old(self).wf(),
            id < old(self).connections@.len(),
            old(self).connections@[id as int].phase == Phase::Handshaking,
        ensures
            final(self).wf(),
            bytes@ == handshake_bytes() ==> r is Ok
                && final(self).connections@[id as int].phase == Phase::Established
                && final(self).current == Some(id),
            bytes@ != handshake_bytes() ==> r == Err::<(), ProtocolError>(
                ProtocolError::BadHandshake)
                && final(self).connections@[id as int].phase == Phase::Failed
                && final(self).current == old(self).current,
            final(self).connections@[id as int].outbound
                == old(self).connections@[id as int].outbound,
            forall|j: int| 0 <= j < final(self).connections@.len() && j != id
                ==> final(self).connections@[j] == old(self).connections@[j],
            final(self).connections@.len() == old(self).connections@.len(),
            final(self).players == old(self).players,
            final(self).status == old(self).status,
    {
        match check_handshake(bytes) {
            Ok(()) => {
                self.connections[id].phase = Phase::Established;
                self.current = Some(id);
                Ok(())
            },
            Err(e) => {
                self.connections[id].phase = Phase::Failed;
                Err(e)
            },
        }
    }

    /// Handles one decoded application message from a link. A link that is
    /// not established has no business sending one: the message is refused
    /// and changes nothing. Player notices refresh the routing index, a
    /// status report overwrites the shared snapshot (last writer wins), and a
    /// chat request is handed back for best-effort forwarding.
    pub fn handle_message(&mut self, id: usize, msg: GameServerToMetaServer)
        -> (r: Result<BridgeAction, ProtocolError>)
        requires
            old(self).wf(),
            id < old(self).connections@.len(),
        ensures
            final(self).wf(),
            old(self).connections@[id as int].phase != Phase::Established ==> r
                == Err::<BridgeAction, ProtocolError>(ProtocolError::NotEstablished)
                && *final(self) == *old(self),
            old(self).connections@[id as int].phase == Phase::Established ==> r is Ok
                && final(self).connections == old(self).connections
                && final(self).current == old(self).current,
            r is Ok ==> match msg@ {
                MsgInModel::PlayerConnected(pid) => (
                    final(self).status == old(self).status
                    && player_entry(final(self).players@, pid) == Some(id)
                    && (forall|q: u32| q != pid ==> #[trigger] player_entry(final(self).players@, q)
                        == player_entry(old(self).players@, q))
                    && (r matches Ok(BridgeAction::Done))
                ),
                MsgInModel::PlayerAuth(pid) => (
                    final(self).status == old(self).status
                    && player_entry(final(self).players@, pid) == Some(id)
                    && (forall|q: u32| q != pid ==> #[trigger] player_entry(final(self).players@, q)
                        == player_entry(old(self).players@, q))
                    && (r matches Ok(BridgeAction::Done))
                ),
                MsgInModel::Status(s) => (
                    final(self).status == Some(s)
                    && final(self).players == old(self).players
                    && (r matches Ok(BridgeAction::Done))
                ),
                MsgInModel::DiscordSendMessage { channel, text } => (
                    final(self).status == old(self).status
                    && final(self).players == old(self).players
                    && (r matches Ok(BridgeAction::Forward(f)) && f.channel@ == channel
                        && f.text@ == text)
                ),
            },
    {
        if !matches!(self.connections[id].phase, Phase::Established) {
            return Err(ProtocolError::NotEstablished);
        }
        match msg {
            GameServerToMetaServer::PlayerConnected(pid) => {
                self.route_player(pid, id);
                Ok(BridgeAction::Done)
            },
            GameServerToMetaServer::PlayerAuth(pid) => {
                self.route_player(pid, id);
                Ok(BridgeAction::Done)
            },
            GameServerToMetaServer::Status(s) => {
                self.status = Some(s);
                Ok(BridgeAction::Done)
            },
            GameServerToMetaServer::DiscordSendMessage { channel, text } => {
                Ok(BridgeAction::Forward(ChatForward { channel, text }))
            },
        }
    }

    /// Inserts or refreshes one player's routing entry.
    #[verifier::loop_isolation(false)]
    fn route_player(&mut self, pid: u32, id: usize)
        requires
            old(self).wf(),
            id < old(self).connections@.len(),
            old(self).connections@[id as int].phase == Phase::Established,
        ensures
            final(self).wf(),
            player_entry(final(self).players@, pid) == Some(id),
            forall|q: u32| q != pid ==> #[trigger] player_entry(final(self).players@, q)
                == player_entry(old(self).players@, q),
            final(self).connections == old(self).connections,
            final(self).current == old(self).current,
            final(self).status == old(self).status,
    {
        let mut i: usize = 0;
        let n = self.players.len();
        while i < n
            invariant
                i <= n,
                self == old(self),
                forall|k: int| 0 <= k < i ==> (#[trigger] self.players@[k]).0 != pid,
            decreases n - i,
        {
            if self.players[i].0 == pid {
                self.players[i] = (pid, id);
                proof {
                    lemma_player_entry_update(old(self).players@, self.players@, pid, id,
                        i as int);
                }
                return;
            }
            i = i + 1;
        }
        proof {
            assert forall|k: int| 0 <= k < self.players@.len()
                implies (#[trigger] self.players@[k]).0 != pid by {}
        }
        self.players.push((pid, id));
        proof {
            lemma_player_entry_push(old(self).players@, pid, id);
        }
    }

    /// The outbound channel of the authoritative connection, or none when no
    /// game server is connected. Callers must treat none as retriable.
    pub fn get_sender(&self) -> (r: Option<usize>)
        ensures
            r == self.current,
    {
        self.current
    }

    /// Queues a message on the authoritative connection. With no game server
    /// connected this reports `Unavailable` and changes nothing — it never
    /// blocks; with one established, the message is observable at the end of
    /// that connection's outbound queue.
    pub fn send_current(&mut self, msg: MetaServerToGameServer)
        -> (r: Result<(), RoutingError>)
        requires
            old(self).wf(),
        ensures
            final(self).wf(),
            old(self).current is None ==> r == Err::<(), RoutingError>(RoutingError::Unavailable)
                && *final(self) == *old(self),
            old(self).current matches Some(c) ==> r is Ok
                && final(self).connections@[c as int].outbound@
                    == old(self).connections@[c as int].outbound@.push(msg)
                && (forall|j: int| 0 <= j < final(self).connections@.len() && j != c
                    ==> final(self).connections@[j] == old(self).connections@[j])
                && final(self).connections@.len() == old(self).connections@.len()
                && final(self).connections@[c as int].phase
                    == old(self).connections@[c as int].phase,
            final(self).players == old(self).players,
            final(self).current == old(self).current,
            final(self).status == old(self).status,
    {
        match self.current {
            Some(c) => {
                self.connections[c].outbound.push(msg);
                Ok(())
            },
            None => Err(RoutingError::Unavailable),
        }
    }

    /// Queues a message for the connection that owns a player, or reports
    /// `Unavailable` when no live connection owns it.
    #[verifier::loop_isolation(false)]
    pub fn send_to_player(&mut self, pid: u32, msg: MetaServerToGameServer)
        -> (r: Result<(), RoutingError>)
        requires
            old(self).wf(),
        ensures
            final(self).wf(),
            player_entry(old(self).players@, pid) is None ==> r
                == Err::<(), RoutingError>(RoutingError::Unavailable) && *final(self) == *old(self),
            player_entry(old(self).players@, pid) matches Some(c) ==> r is Ok
                && final(self).connections@[c as int].outbound@
                    == old(self).connections@[c as int].outbound@.push(msg)
                && (forall|j: int| 0 <= j < final(self).connections@.len() && j != c
                    ==> final(self).connections@[j] == old(self).connections@[j])
                && final(self).connections@.len() == old(self).connections@.len(),
            final(self).players == old(self).players,
            final(self).current == old(self).current,
            final(self).status == old(self).status,
    {
        let n = self.players.len();
        let mut i: usize = 0;
        while i < n
            invariant
                i <= n,
                self == old(self),
                forall|k: int| 0 <= k < i ==> (#[trigger] self.players@[k]).0 != pid,
            decreases n - i,
        {
            let (q, c) = self.players[i];
            if q == pid {
                proof {
                    lemma_player_entry_at(self.players@, pid, i as int);
                    assert(self.connections@[c as int].phase == Phase::Established);
                }
                self.connections[c].outbound.push(msg);
                return Ok(());
            }
            i = i + 1;
        }
        proof {
            assert(player_entry(self.players@, pid) is None);
        }
        Err(RoutingError::Unavailable)
    }

    /// Pushes a store update to the game server, best-effort: with no
    /// authoritative connection, or a leaf carrying no secret, nothing is
    /// sent and nothing fails — a lost push only costs the next reader a
    /// stale-secret failure, repaired by a fresh write.
    pub fn update_char_leaf(&mut self, id: u32, leaf: &Leaf)
        requires
            old(self).wf(),
        ensures
            final(self).wf(),
            old(self).current matches Some(c) ==> (leaf.secret matches Some(s)
                ==> final(self).connections@[c as int].outbound@
                    == old(self).connections@[c as int].outbound@.push(
                    MetaServerToGameServer::UpdateCharLeaf { id, ver: leaf.ver, secret: s })),
            old(self).current is None || leaf.secret is None ==> *final(self) == *old(self),
            final(self).players == old(self).players,
            final(self).current == old(self).current,
            final(self).status == old(self).status,
    {
        match leaf.secret {
            Some(secret) => {
                let _ = self.send_current(MetaServerToGameServer::UpdateCharLeaf {
                    id,
                    ver: leaf.ver,
                    secret,
                });
            },
            None => {},
        }
    }

    /// Tears a link down: its phase becomes `Closed`, every routing entry it
    /// owned disappears at once, and if it was the authoritative sender the
    /// bridge reports none until another link establishes.
    #[verifier::loop_isolation(false)]
    pub fn on_teardown(&mut self, id: usize)
        requires
            old(self).wf(),
            id < old(self).connections@.len(),
        ensures
            final(self).wf(),
            final(self).connections@[id as int].phase == Phase::Closed,
            final(self).connections@.len() == old(self).connections@.len(),
            forall|j: int| 0 <= j < final(self).connections@.len() && j != id
                ==> final(self).connections@[j] == old(self).connections@[j],
            forall|pid: u32| #[trigger] player_entry(final(self).players@, pid) == (
                if player_entry(old(self).players@, pid) == Some(id) {
                    None::<usize>
                } else {
                    player_entry(old(self).players@, pid)
                }),
            old(self).current == Some(id) ==> final(self).current is None,
            old(self).current != Some(id) ==> final(self).current == old(self).current,
            final(self).status == old(self).status,
    {
        self.connections[id].phase = Phase::Closed;
        match self.current {
            Some(c) if c == id => {
                self.current = None;
            },
            _ => {},
        }
        let ghost pre = self.players@;
        let mut kept: Vec<(u32, usize)> = Vec::new();
        let ghost mut src: Seq<int> = Seq::empty();
        let n = self.players.len();
        let mut i: usize = 0;
        while i < n
            invariant
                i <= n,
                self.players@ == pre,
                src.len() == kept@.len(),
                forall|k: int| 0 <= k < kept@.len() ==> 0 <= #[trigger] src[k] < i
                    && pre[src[k]] == kept@[k] && kept@[k].1 != id,
                forall|a: int, b: int| 0 <= a < b < src.len() ==> #[trigger] src[a]
                    < #[trigger] src[b],
                forall|j: int| 0 <= j < i && (#[trigger] pre[j]).1 != id
                    ==> kept@.contains(pre[j]),
            decreases n - i,
        {
            let (q, c) = self.players[i];
            if c != id {
                let ghost kept0 = kept@;
                let ghost src0 = src;
                kept.push((q, c));
                proof {
                    src = src.push(i as int);
                    assert((q, c) == pre[i as int]);
                    assert forall|k: int| 0 <= k < kept@.len() implies 0 <= #[trigger] src[k]
                        < i + 1 && pre[src[k]] == kept@[k] && kept@[k].1 != id by {
                        if k < kept@.len() - 1 {
                            assert(src[k] == src0[k] && kept@[k] == kept0[k]);
                        } else {
                            assert(src[k] == i as int && kept@[k] == pre[i as int]);
                        }
                    }
                    assert forall|j: int| 0 <= j < i + 1 && (#[trigger] pre[j]).1 != id
                        implies kept@.contains(pre[j]) by {
                        if j < i {
                            let w = choose|w: int| 0 <= w < kept0.len() && kept0[w] == pre[j];
                            assert(kept@[w] == pre[j]);
                        } else {
                            assert(kept@[kept@.len() - 1] == pre[j]);
                        }
                    }
                }
            }
            i = i + 1;
        }
        proof {
            lemma_teardown_entries(pre, kept@, src, id);
        }
        let ghost keptv = kept@;
        self.players = kept;
        proof {
            assert(self.players@ == keptv);
            assert forall|k: int| 0 <= k < self.players@.len()
                implies (#[trigger] self.players@[k]).1 < self.connections@.len()
                && self.connections@[self.players@[k].1 as int].phase == Phase::Established by {
                assert(pre[src[k]] == keptv[k]);
                assert(old(self).connections@[pre[src[k]].1 as int].phase
                    == Phase::Established);
            }
        }
    }
}

/// Asks the game server to start the game for a player, through the current
/// authoritative connection: the request either lands on that connection's
/// queue or reports the link unavailable, exactly as `send_current` does.
pub fn start_game(bridge: &mut Bridge, player_id: u32) -> (r: Result<(), RoutingError>)
    requires
        old(bridge).wf(),
    ensures
        final(bridge).wf(),
        old(bridge).current is None ==> r == Err::<(), RoutingError>(RoutingError::Unavailable)
            && *final(bridge) == *old(bridge),
        old(bridge).current matches Some(c) ==> r is Ok
            && final(bridge).connections@[c as int].outbound@
                == old(bridge).connections@[c as int].outbound@.push(
                MetaServerToGameServer::StartGame { player_id }),
{
    bridge.send_current(MetaServerToGameServer::StartGame { player_id })
}

/// Updating the routing entry at `i` (the unique entry of `pid`) to
/// `(pid, id)` routes `pid` to `id` and leaves every other player alone.
proof fn lemma_player_entry_update(pre: Seq<(u32, usize)>, post: Seq<(u32, usize)>, pid: u32,
    id: usize, i: int)
    requires
        0 <= i < pre.len(),
        pre[i].0 == pid,
        forall|a: int, b: int| 0 <= a < b < pre.len() ==> (#[trigger] pre[a]).0
            != (#[trigger] pre[b]).0,
        post == pre.update(i, (pid, id)),
    ensures
        player_entry(post, pid) == Some(id),
        forall|q: u32| q != pid ==> #[trigger] player_entry(post, q) == player_entry(pre, q),
    decreases 0int,
{
    assert(post[i].0 == pid);
    assert forall|k: int| 0 <= k < pre.len() && k != i
        implies (#[trigger] post[k]) == pre[k] && pre[k].0 != pid by {
        if k < i {
            assert(pre[k].0 != pre[i].0);
        } else {
            assert(pre[i].0 != pre[k].0);
        }
    }
    let wi = choose|k: int| 0 <= k < post.len() && post[k].0 == pid;
    assert(wi == i);
    assert forall|q: u32| q != pid implies #[trigger] player_entry(post, q)
        == player_entry(pre, q) by {
        if exists|k: int| 0 <= k < pre.len() && pre[k].0 == q {
            let k = choose|k: int| 0 <= k < pre.len() && pre[k].0 == q;
            assert(k != i && post[k] == pre[k]);
            let k2 = choose|k2: int| 0 <= k2 < post.len() && post[k2].0 == q;
            assert(k2 != i && post[k2] == pre[k2]);
            lemma_unique_index(pre, k, k2);
        } else {
            assert forall|k: int| 0 <= k < post.len() implies (#[trigger] post[k]).0 != q by {
                if k != i {
                    assert(post[k] == pre[k]);
                }
            }
        }
    }
}

/// Appending an entry for a player not yet indexed routes that player and
/// leaves every other player alone.
proof fn lemma_player_entry_push(pre: Seq<(u32, usize)>, pid: u32, id: usize)
    requires
        forall|k: int| 0 <= k < pre.len() ==> (#[trigger] pre[k]).0 != pid,
        forall|a: int, b: int| 0 <= a < b < pre.len() ==> (#[trigger] pre[a]).0
            != (#[trigger] pre[b]).0,
    ensures
        player_entry(pre.push((pid, id)), pid) == Some(id),
        forall|q: u32| q != pid ==> #[trigger] player_entry(pre.push((pid, id)), q)
            == player_entry(pre, q),
{
    let post = pre.push((pid, id));
    assert(post[pre.len() as int].0 == pid);
    assert forall|k: int| 0 <= k < pre.len() implies (#[trigger] post[k]) == pre[k] by {}
    let wi = choose|k: int| 0 <= k < post.len() && post[k].0 == pid;
    assert(wi == pre.len());
    assert forall|q: u32| q != pid implies #[trigger] player_entry(post, q)
        == player_entry(pre, q) by {
        if exists|k: int| 0 <= k < pre.len() && pre[k].0 == q {
            let k = choose|k: int| 0 <= k < pre.len() && pre[k].0 == q;
            assert(post[k] == pre[k]);
            let k2 = choose|k2: int| 0 <= k2 < post.len() && post[k2].0 == q;
            assert(k2 < pre.len() && post[k2] == pre[k2]);
            lemma_unique_index(pre, k, k2);
        } else {
            assert forall|k: int| 0 <= k < post.len() implies (#[trigger] post[k]).0 != q by {
                if k < pre.len() {
                    assert(post[k] == pre[k]);
                }
            }
        }
    }
}

/// In a uniquely-indexed table, two entries for the same player are the same
/// entry.
proof fn lemma_unique_index(s: Seq<(u32, usize)>, k: int, l: int)
    requires
        0 <= k < s.len(),
        0 <= l < s.len(),
        s[k].0 == s[l].0,
        forall|a: int, b: int| 0 <= a < b < s.len() ==> (#[trigger] s[a]).0
            != (#[trigger] s[b]).0,
    ensures
        k == l,
{
    if k < l {
        assert(s[k].0 != s[l].0);
    } else if l < k {
        assert(s[l].0 != s[k].0);
    }
}

/// In a uniquely-indexed routing table, the entry found at `i` is the
/// player's entry.
proof fn lemma_player_entry_at(s: Seq<(u32, usize)>, pid: u32, i: int)
    requires
        0 <= i < s.len(),
        s[i].0 == pid,
        forall|a: int, b: int| 0 <= a < b < s.len() ==> (#[trigger] s[a]).0
            != (#[trigger] s[b]).0,
    ensures
        player_entry(s, pid) == Some(s[i].1),
{
    let wi = choose|k: int| 0 <= k < s.len() && s[k].0 == pid;
    lemma_unique_index(s, wi, i);
}

/// After dropping exactly the entries of one connection (each surviving
/// entry `kept[k]` coming from position `src[k]` of the old table), every
/// player routes as before unless it routed to that connection, in which
/// case nowhere; and the surviving table stays uniquely indexed.
proof fn lemma_teardown_entries(pre: Seq<(u32, usize)>, kept: Seq<(u32, usize)>, src: Seq<int>,
    id: usize)
    requires
        forall|a: int, b: int| 0 <= a < b < pre.len() ==> (#[trigger] pre[a]).0
            != (#[trigger] pre[b]).0,
        src.len() == kept.len(),
        forall|k: int| 0 <= k < kept.len() ==> 0 <= #[trigger] src[k] < pre.len()
            && pre[src[k]] == kept[k] && kept[k].1 != id,
        forall|a: int, b: int| 0 <= a < b < src.len() ==> #[trigger] src[a]
            < #[trigger] src[b],
        forall|j: int| 0 <= j < pre.len() && (#[trigger] pre[j]).1 != id
            ==> kept.contains(pre[j]),
    ensures
        forall|a: int, b: int| 0 <= a < b < kept.len() ==> (#[trigger] kept[a]).0
            != (#[trigger] kept[b]).0,
        forall|pid: u32| #[trigger] player_entry(kept, pid) == (
            if player_entry(pre, pid) == Some(id) {
                None::<usize>
            } else {
                player_entry(pre, pid)
            }),
{
    assert forall|a: int, b: int| 0 <= a < b < kept.len() implies (#[trigger] kept[a]).0
        != (#[trigger] kept[b]).0 by {
        assert(src[a] < src[b]);
        assert(pre[src[a]].0 != pre[src[b]].0);
    }
    assert forall|pid: u32| #[trigger] player_entry(kept, pid) == (
        if player_entry(pre, pid) == Some(id) {
            None::<usize>
        } else {
            player_entry(pre, pid)
        }) by {
        if exists|k: int| 0 <= k < kept.len() && kept[k].0 == pid {
            let k = choose|k: int| 0 <= k < kept.len() && kept[k].0 == pid;
            // The player's surviving entry comes from its unique old entry.
            assert(pre[src[k]] == kept[k] && pre[src[k]].0 == pid);
            let jw = choose|jw: int| 0 <= jw < pre.len() && pre[jw].0 == pid;
            lemma_unique_index(pre, src[k], jw);
            assert(player_entry(pre, pid) == Some(kept[k].1));
            assert(kept[k].1 != id);
            let kw = choose|kw: int| 0 <= kw < kept.len() && kept[kw].0 == pid;
            lemma_unique_index(pre, src[kw], src[k]);
            if kw < k {
                assert(src[kw] < src[k]);
            } else if k < kw {
                assert(src[k] < src[kw]);
            }
            assert(player_entry(kept, pid) == Some(kept[k].1));
        } else {
            assert(player_entry(kept, pid) is None);
            if exists|j: int| 0 <= j < pre.len() && pre[j].0 == pid {
                let jw = choose|jw: int| 0 <= jw < pre.len() && pre[jw].0 == pid;
                if pre[jw].1 != id {
                    assert(kept.contains(pre[jw]));
                    let k = choose|k: int| 0 <= k < kept.len() && kept[k] == pre[jw];
                    assert(kept[k].0 == pid);
                }
                assert(player_entry(pre, pid) == Some(pre[jw].1) && pre[jw].1 == id);
            }
        }
    }
}

} // verus!
