//! Raft messages between nodes.
//!
//! Each node accepts batches of Raft messages from its peers and sends its own
//! to them, one client for each peer. The connection itself is the business of
//! whoever runs the client: it performs each action and tells what came of it.

use raft::prelude::Message;
use vstd::prelude::*;

use crate::ordered::SortedMap;

verus! {

/// A message of the Raft protocol.
#[verifier::external_type_specification]
#[verifier::external_body]
pub struct ExMessage(raft::prelude::Message);

/// The message that the bytes hold, if they hold one.
pub uninterp spec fn raft_message(bytes: Seq<u8>) -> Option<Message>;

/// Calls `protobuf::Message::parse_from_bytes` for a Raft message. The result
/// depends on the bytes alone; it is `None` where the parser reports an error.
#[verifier::external_body]
fn parse_message(data: &[u8]) -> (r: Option<Message>)
    ensures
        r == raft_message(data@),
{
    protobuf::Message::parse_from_bytes(data).ok()
}

/// The message is one that the parser can give: some bytes hold it.
pub open spec fn can_arrive(msg: Message) -> bool {
    exists|bytes: Seq<u8>| #[trigger] raft_message(bytes) == Some(msg)
}

/// Whether the message can be written.
pub uninterp spec fn is_writable(msg: Message) -> bool;

/// How many bytes the message takes when it is written.
pub uninterp spec fn wire_size(msg: Message) -> nat;

/// Calls `protobuf::Message::write_to_bytes` for a Raft message. Whether it
/// succeeds depends on the message alone. It counts the message's size in 32
/// bits before it writes, and a larger message is left out. What it writes is
/// as long as it counted. The parser reads a message that it can give back from
/// the bytes, as far as protobuf compares messages (the sizes that it keeps
/// inside a message do not count). Nothing is said of what the parser makes of
/// other messages: one whose unknown fields bear the numbers of known ones
/// reads back otherwise.
#[verifier::external_body]
fn write_message(msg: &Message) -> (r: Option<Vec<u8>>)
    requires
        wire_size(*msg) <= u32::MAX,
    ensures
        r is Some <==> is_writable(*msg),
        r matches Some(bytes) ==> bytes@.len() == wire_size(*msg),
        r matches Some(bytes) ==> can_arrive(*msg) ==> raft_message(bytes@) == Some(*msg),
{
    protobuf::Message::write_to_bytes(msg).ok()
}

/// Encodes a Raft message for transport; `None` where the message cannot be
/// written. A message that can arrive at a node is decoded as it was.
pub fn encode_raft_message(msg: &Message) -> (r: Option<Vec<u8>>)
    requires
        wire_size(*msg) <= u32::MAX,
    ensures
        r is Some <==> is_writable(*msg),
        r matches Some(bytes) ==> bytes@.len() == wire_size(*msg),
        r matches Some(bytes) ==> can_arrive(*msg) ==> raft_message(bytes@) == Some(*msg),
{
    write_message(msg)
}

/// Why bytes were not taken for a message.
pub const DECODE_ERROR: &'static str = "Failed to decode Raft message";

/// Decodes bytes back to a Raft message.
pub fn decode_raft_message(data: &[u8]) -> (r: Result<Message, String>)
    ensures
        match (r, raft_message(data@)) {
            (Ok(msg), Some(held)) => msg == held,
            (Err(error), None) => error@ == DECODE_ERROR@,
            _ => false,
        },
{
    match parse_message(data) {
        Some(msg) => Ok(msg),
        None => Err(DECODE_ERROR.to_owned()),
    }
}

/// The messages in the first `n` items of a batch. Items that hold none are
/// passed over.
pub open spec fn messages_in(batch: Seq<Vec<u8>>, n: nat) -> Seq<Message>
    decreases n,
{
    if n == 0 {
        Seq::empty()
    } else {
        let before = messages_in(batch, (n - 1) as nat);
        match raft_message(batch[n - 1]@) {
            Some(msg) => before.push(msg),
            None => before,
        }
    }
}

/// The batch of messages that were encoded one by one, in their order; `None`
/// where one of them could not be.
pub fn batch_of(encoded: &Vec<Option<Vec<u8>>>) -> (r: Option<Vec<Vec<u8>>>)
    ensures
        r is Some <==> forall|i: int| 0 <= i < encoded@.len() ==> (#[trigger] encoded@[i]) is Some,
        r matches Some(batch) ==> {
            &&& batch@.len() == encoded@.len()
            &&& forall|i: int|
                0 <= i < batch@.len() ==> (#[trigger] batch@[i])@ == encoded@[i]->Some_0@
        },
{
    let mut batch: Vec<Vec<u8>> = Vec::new();
    let mut i: usize = 0;
    while i < encoded.len()
        invariant
            i <= encoded@.len(),
            batch@.len() == i,
            forall|k: int| 0 <= k < i ==> (#[trigger] encoded@[k]) is Some,
            forall|k: int| 0 <= k < i ==> (#[trigger] batch@[k])@ == encoded@[k]->Some_0@,
        decreases encoded@.len() - i,
    {
        match &encoded[i] {
            Some(bytes) => {
                let copy = bytes.clone();
                assert(copy@ =~= bytes@);
                batch.push(copy);
            },
            None => {
                assert(encoded@[i as int] is None);
                return None;
            },
        }
        i = i + 1;
    }
    Some(batch)
}

/// Encodes messages for one call, in their order; `None` where one of them
/// cannot be written. Where each is a message that can arrive at a node, the
/// peer takes in these messages and no others.
pub fn encode_batch(messages: &Vec<Message>) -> (r: Option<Vec<Vec<u8>>>)
    requires
        forall|i: int|
            0 <= i < messages@.len() ==> wire_size(#[trigger] messages@[i]) <= u32::MAX,
    ensures
        r is Some <==> forall|i: int|
            0 <= i < messages@.len() ==> is_writable(#[trigger] messages@[i]),
        r matches Some(batch) ==> {
            &&& batch@.len() == messages@.len()
            &&& forall|i: int|
                0 <= i < batch@.len() ==> (#[trigger] batch@[i])@.len() == wire_size(messages@[i])
                    && (can_arrive(messages@[i]) ==> raft_message(batch@[i]@) == Some(messages@[i]))
            &&& (forall|i: int| 0 <= i < messages@.len() ==> can_arrive(#[trigger] messages@[i]))
                ==> messages_in(batch@, batch@.len()) == messages@
        },
{
    let mut encoded: Vec<Option<Vec<u8>>> = Vec::new();
    let mut i: usize = 0;
    while i < messages.len()
        invariant
            forall|k: int|
                0 <= k < messages@.len() ==> wire_size(#[trigger] messages@[k]) <= u32::MAX,
            i <= messages@.len(),
            encoded@.len() == i,
            forall|k: int|
                0 <= k < i ==> ((#[trigger] encoded@[k]) is Some <==> is_writable(messages@[k])),
            forall|k: int|
                0 <= k < i && (#[trigger] encoded@[k]) is Some ==> encoded@[k]->Some_0@.len()
                    == wire_size(messages@[k]) && (can_arrive(messages@[k]) ==> raft_message(
                    encoded@[k]->Some_0@,
                ) == Some(messages@[k])),
        decreases messages@.len() - i,
    {
        let item = encode_raft_message(&messages[i]);
        encoded.push(item);
        i = i + 1;
    }
    let r = batch_of(&encoded);
    proof {
        if r is Some {
            let batch = r->Some_0@;
            assert forall|k: int| 0 <= k < batch.len() implies (#[trigger] batch[k])@.len()
                == wire_size(messages@[k]) && (can_arrive(messages@[k]) ==> raft_message(batch[k]@)
                == Some(messages@[k])) by {
                assert(encoded@[k] is Some);
            }
            assert forall|k: int| 0 <= k < messages@.len() implies is_writable(
                #[trigger] messages@[k],
            ) by {
                assert(encoded@[k] is Some);
            }
            if forall|k: int| 0 <= k < messages@.len() ==> can_arrive(#[trigger] messages@[k]) {
                assert forall|k: int| 0 <= k < batch.len() implies raft_message(
                    (#[trigger] batch[k])@,
                ) == Some(messages@[k]) by {
                    assert(can_arrive(messages@[k]));
                }
                lemma_messages_in_whole(batch, messages@, batch.len());
                assert(messages@.take(messages@.len() as int) =~= messages@);
            }
        } else {
            let k = choose|k: int| 0 <= k < encoded@.len() && (#[trigger] encoded@[k]) is None;
            assert(!is_writable(messages@[k]));
        }
    }
    r
}

/// A batch whose items hold one message each holds these messages.
proof fn lemma_messages_in_whole(batch: Seq<Vec<u8>>, messages: Seq<Message>, n: nat)
    requires
        n <= batch.len(),
        batch.len() == messages.len(),
        forall|k: int|
            0 <= k < batch.len() ==> raft_message((#[trigger] batch[k])@) == Some(messages[k]),
    ensures
        messages_in(batch, n) == messages.take(n as int),
    decreases n,
{
    if n == 0 {
        assert(messages.take(0) =~= Seq::empty());
    } else {
        lemma_messages_in_whole(batch, messages, (n - 1) as nat);
        assert(raft_message(batch[n - 1]@) == Some(messages[n - 1]));
        assert(messages.take(n - 1).push(messages[n - 1]) =~= messages.take(n as int));
    }
}

/// Takes batches of messages in from peers.
#[derive(Clone, Copy, Debug, PartialEq, Eq, Structural)]
pub struct RaftTransportServer;

/// Why a batch was refused.
pub const NOT_RUNNING_ERROR: &'static str = "Raft node not running";

impl RaftTransportServer {
    pub fn new() -> (r: Self) {
        RaftTransportServer
    }

    /// The messages to hand to the local node, in order. Items that are no
    /// messages are passed over.
    pub fn accept_batch(&self, batch: &Vec<Vec<u8>>) -> (r: Vec<Message>)
        ensures
            r@ == messages_in(batch@, batch@.len()),
    {
        let mut accepted: Vec<Message> = Vec::new();
        let mut i: usize = 0;
        while i < batch.len()
            invariant
                i <= batch@.len(),
                accepted@ == messages_in(batch@, i as nat),
            decreases batch@.len() - i,
        {
            match decode_raft_message(batch[i].as_slice()) {
                Ok(msg) => {
                    accepted.push(msg);
                },
                Err(_) => {},
            }
            i = i + 1;
        }
        accepted
    }

    /// The answer to the peer, when the node took the first `delivered` of
    /// `accepted` messages.
    pub fn answer(&self, accepted: usize, delivered: usize) -> (r: Result<(), String>)
        ensures
            match r {
                Ok(_) => accepted <= delivered,
                Err(error) => delivered < accepted && error@ == NOT_RUNNING_ERROR@,
            },
    {
        if delivered < accepted {
            Err(NOT_RUNNING_ERROR.to_owned())
        } else {
            Ok(())
        }
    }
}

/// The first wait after a failed connection, in milliseconds.
pub const MIN_BACKOFF_MS: u64 = 1_000;

/// The longest wait after a failed connection, in milliseconds.
pub const MAX_BACKOFF_MS: u64 = 30_000;

/// The wait that follows `backoff`: twice as long, up to the longest.
pub open spec fn next_backoff(backoff: u64) -> u64 {
    if 2 * backoff < MAX_BACKOFF_MS {
        (2 * backoff) as u64
    } else {
        MAX_BACKOFF_MS
    }
}

/// Where a client stands.
#[derive(Clone, Copy, Debug, PartialEq, Eq, Structural)]
pub enum ClientPhase {
    Connecting,
    /// Waiting before the next try to connect.
    Backoff,
    /// Connected, waiting for a message.
    Idle,
    /// A batch is on its way.
    Sending,
    Closed,
}

/// What happens to a client.
#[derive(Clone, Copy, Debug, PartialEq, Eq, Structural)]
pub enum ClientEvent {
    Connected,
    ConnectFailed,
    Slept,
    /// There is at least one message for the peer.
    MessageReady,
    /// There will be no more messages.
    ChannelClosed,
    Sent,
    SendFailed,
}

/// What a client has done next.
#[derive(Clone, Copy, Debug, PartialEq, Eq, Structural)]
pub enum ClientAction {
    Connect,
    Sleep { millis: u64 },
    /// Wait for a message.
    Receive,
    /// Send all messages that are there, in one batch.
    Send,
    Stop,
    /// The event does not belong here: nothing.
    Ignore,
}

/// What a client remembers.
#[derive(Clone, Copy, Debug, PartialEq, Eq, Structural)]
pub struct ClientState {
    pub backoff_ms: u64,
    pub phase: ClientPhase,
}

/// One step of a client. A batch whose sending failed is dropped: the protocol
/// sends again what still matters.
pub open spec fn client_step(state: ClientState, event: ClientEvent) -> (
    ClientState,
    ClientAction,
) {
    match (state.phase, event) {
        (ClientPhase::Connecting, ClientEvent::Connected) => (
            ClientState { backoff_ms: MIN_BACKOFF_MS, phase: ClientPhase::Idle },
            ClientAction::Receive,
        ),
        (ClientPhase::Connecting, ClientEvent::ConnectFailed) => (
            ClientState { backoff_ms: next_backoff(state.backoff_ms), phase: ClientPhase::Backoff },
            ClientAction::Sleep { millis: state.backoff_ms },
        ),
        (ClientPhase::Backoff, ClientEvent::Slept) => (
            ClientState { phase: ClientPhase::Connecting, ..state },
            ClientAction::Connect,
        ),
        (ClientPhase::Idle, ClientEvent::MessageReady) => (
            ClientState { phase: ClientPhase::Sending, ..state },
            ClientAction::Send,
        ),
        (ClientPhase::Idle, ClientEvent::ChannelClosed) => (
            ClientState { phase: ClientPhase::Closed, ..state },
            ClientAction::Stop,
        ),
        (ClientPhase::Sending, ClientEvent::Sent) => (
            ClientState { phase: ClientPhase::Idle, ..state },
            ClientAction::Receive,
        ),
        (ClientPhase::Sending, ClientEvent::SendFailed) => (
            ClientState { backoff_ms: MIN_BACKOFF_MS, phase: ClientPhase::Connecting },
            ClientAction::Connect,
        ),
        _ => (state, ClientAction::Ignore),
    }
}

/// Sends Raft messages to one peer.
#[derive(Debug)]
pub struct RaftTransportClient {
    address: String,
    state: ClientState,
}

impl RaftTransportClient {
    /// The waits stay between the first and the longest.
    pub closed spec fn wf(&self) -> bool {
        MIN_BACKOFF_MS <= self.state.backoff_ms <= MAX_BACKOFF_MS
    }

    /// The next wait is between the first and the longest.
    pub proof fn waits_are_bounded(&self)
        requires
            self.wf(),
        ensures
            MIN_BACKOFF_MS <= self.at().backoff_ms <= MAX_BACKOFF_MS,
    {
    }

    /// The address of the peer.
    pub closed spec fn peer(&self) -> Seq<char> {
        self.address@
    }

    pub closed spec fn at(&self) -> ClientState {
        self.state
    }

    /// A client that is about to connect for the first time.
    pub fn new(address: String) -> (r: Self)
        ensures
            r.wf(),
            r.peer() == address@,
            r.at() == (ClientState {
                backoff_ms: MIN_BACKOFF_MS,
                phase: ClientPhase::Connecting,
            }),
    {
        RaftTransportClient {
            address,
            state: ClientState { backoff_ms: MIN_BACKOFF_MS, phase: ClientPhase::Connecting },
        }
    }

    /// The address of the peer.
    pub fn address(&self) -> (r: &str)
        ensures
            r@ == self.peer(),
    {
        self.address.as_str()
    }

    /// Where the client stands.
    pub fn phase(&self) -> (r: ClientPhase)
        ensures
            r == self.at().phase,
    {
        self.state.phase
    }

    /// One step of the client.
    pub fn step(&mut self, event: ClientEvent) -> (r: ClientAction)
        requires
            old(self).wf(),
        ensures
            final(self).wf(),
            final(self).peer() == old(self).peer(),
            (final(self).at(), r) == client_step(old(self).at(), event),
    {
        match (self.state.phase, event) {
            (ClientPhase::Connecting, ClientEvent::Connected) => {
                self.state = ClientState { backoff_ms: MIN_BACKOFF_MS, phase: ClientPhase::Idle };
                ClientAction::Receive
            },
            (ClientPhase::Connecting, ClientEvent::ConnectFailed) => {
                let millis: u64 = self.state.backoff_ms;
                let doubled: u64 = 2 * millis;
                self.state =
                ClientState {
                    backoff_ms: if doubled < MAX_BACKOFF_MS {
                        doubled
                    } else {
                        MAX_BACKOFF_MS
                    },
                    phase: ClientPhase::Backoff,
                };
                ClientAction::Sleep { millis }
            },
            (ClientPhase::Backoff, ClientEvent::Slept) => {
                self.state.phase = ClientPhase::Connecting;
                ClientAction::Connect
            },
            (ClientPhase::Idle, ClientEvent::MessageReady) => {
                self.state.phase = ClientPhase::Sending;
                ClientAction::Send
            },
            (ClientPhase::Idle, ClientEvent::ChannelClosed) => {
                self.state.phase = ClientPhase::Closed;
                ClientAction::Stop
            },
            (ClientPhase::Sending, ClientEvent::Sent) => {
                self.state.phase = ClientPhase::Idle;
                ClientAction::Receive
            },
            (ClientPhase::Sending, ClientEvent::SendFailed) => {
                self.state =
                ClientState { backoff_ms: MIN_BACKOFF_MS, phase: ClientPhase::Connecting };
                ClientAction::Connect
            },
            _ => ClientAction::Ignore,
        }
    }
}

/// A client never gives its peer up: it stops only when it is connected and
/// there will be no more messages.
pub proof fn client_stops_only_without_messages(state: ClientState, event: ClientEvent)
    ensures
        client_step(state, event).1 is Stop ==> state.phase is Idle && event is ChannelClosed,
        client_step(state, event).0.phase is Closed && !(state.phase is Closed) ==> client_step(
            state,
            event,
        ).1 is Stop,
{
}

/// The state after a number of failed tries to connect, each followed by its
/// wait.
pub open spec fn after_failures(state: ClientState, n: nat) -> ClientState
    decreases n,
{
    if n == 0 {
        state
    } else {
        let before = after_failures(state, (n - 1) as nat);
        client_step(client_step(before, ClientEvent::ConnectFailed).0, ClientEvent::Slept).0
    }
}

/// However often the peer cannot be reached, the client goes on trying, and
/// its waits grow from the first to the longest and no further.
pub proof fn retries_go_on(state: ClientState, n: nat)
    requires
        state.phase is Connecting,
        MIN_BACKOFF_MS <= state.backoff_ms <= MAX_BACKOFF_MS,
    ensures
        after_failures(state, n).phase is Connecting,
        state.backoff_ms <= after_failures(state, n).backoff_ms <= MAX_BACKOFF_MS,
        client_step(after_failures(state, n), ClientEvent::ConnectFailed).1
            == (ClientAction::Sleep { millis: after_failures(state, n).backoff_ms }),
    decreases n,
{
    if n > 0 {
        retries_go_on(state, (n - 1) as nat);
    }
}

/// After a connection, the waits start anew.
pub proof fn connection_resets_the_wait(state: ClientState)
    requires
        state.phase is Connecting,
    ensures
        client_step(state, ClientEvent::Connected).0.backoff_ms == MIN_BACKOFF_MS,
        client_step(state, ClientEvent::Connected).1 is Receive,
{
}

/// The peers among the first `n` nodes: all but the local one.
pub open spec fn peers_of(
    ids: Seq<u64>,
    addresses: Seq<String>,
    local_node_id: u64,
    n: nat,
) -> Seq<(u64, Seq<char>)>
    decreases n,
{
    if n == 0 {
        Seq::empty()
    } else {
        let before = peers_of(ids, addresses, local_node_id, (n - 1) as nat);
        if ids[n - 1] == local_node_id {
            before
        } else {
            before.push((ids[n - 1], addresses[n - 1]@))
        }
    }
}

/// Whom the clients are for: the node of each and its address.
pub open spec fn client_views(clients: Seq<(u64, RaftTransportClient)>) -> Seq<(u64, Seq<char>)> {
    Seq::new(clients.len(), |i: int| (clients[i].0, clients[i].1.peer()))
}

/// Creates a client for each node but the local one.
pub fn create_transport(peer_addresses: &SortedMap<u64, String>, local_node_id: u64) -> (r: Vec<
    (u64, RaftTransportClient),
>)
    requires
        peer_addresses.wf(),
    ensures
        client_views(r@) == peers_of(
            peer_addresses.keys(),
            peer_addresses.values(),
            local_node_id,
            peer_addresses.keys().len(),
        ),
        forall|i: int|
            0 <= i < r@.len() ==> (#[trigger] r@[i]).1.wf() && r@[i].1.at() == (ClientState {
                backoff_ms: MIN_BACKOFF_MS,
                phase: ClientPhase::Connecting,
            }),
{
    let mut clients: Vec<(u64, RaftTransportClient)> = Vec::new();
    let mut i: usize = 0;
    assert(client_views(clients@) =~= Seq::empty());
    while i < peer_addresses.len()
        invariant
            i <= peer_addresses.keys().len(),
            client_views(clients@) == peers_of(
                peer_addresses.keys(),
                peer_addresses.values(),
                local_node_id,
                i as nat,
            ),
            forall|k: int|
                0 <= k < clients@.len() ==> (#[trigger] clients@[k]).1.wf() && clients@[k].1.at()
                    == (ClientState {
                    backoff_ms: MIN_BACKOFF_MS,
                    phase: ClientPhase::Connecting,
                }),
        decreases peer_addresses.keys().len() - i,
    {
        let id: u64 = *peer_addresses.key_at(i);
        if id != local_node_id {
            let ghost before = clients@;
            clients.push((id, RaftTransportClient::new(peer_addresses.value_at(i).clone())));
            proof {
                assert(client_views(clients@) =~= client_views(before).push(
                    (id, peer_addresses.values()[i as int]@),
                ));
            }
        }
        i = i + 1;
    }
    clients
}

/// A node has every other node as a peer, with its address, and never itself.
pub proof fn peers_are_the_other_nodes(
    ids: Seq<u64>,
    addresses: Seq<String>,
    local_node_id: u64,
    n: nat,
)
    requires
        n <= ids.len(),
    ensures
        forall|peer: (u64, Seq<char>)| #[trigger]
            peers_of(ids, addresses, local_node_id, n).contains(peer) <==> exists|i: int|
                0 <= i < n && ids[i] != local_node_id && peer == (#[trigger] ids[i], addresses[i]@),
    decreases n,
{
    let peers = peers_of(ids, addresses, local_node_id, n);
    if n == 0 {
        assert(!exists|peer: (u64, Seq<char>)| peers.contains(peer));
    } else {
        peers_are_the_other_nodes(ids, addresses, local_node_id, (n - 1) as nat);
        let before = peers_of(ids, addresses, local_node_id, (n - 1) as nat);
        assert forall|peer: (u64, Seq<char>)| #[trigger] peers.contains(peer) <==> exists|i: int|
            0 <= i < n && ids[i] != local_node_id && peer == (
                #[trigger] ids[i],
                addresses[i]@,
            ) by {
            if peers.contains(peer) {
                let k = peers.index_of(peer);
                if k < before.len() {
                    assert(before[k] == peer);
                    assert(before.contains(peer));
                } else {
                    assert(ids[n - 1] == peer.0);
                }
            }
            if exists|i: int|
                0 <= i < n && ids[i] != local_node_id && peer == (
                    #[trigger] ids[i],
                    addresses[i]@,
                ) {
                let i = choose|i: int|
                    0 <= i < n && ids[i] != local_node_id && peer == (
                        #[trigger] ids[i],
                        addresses[i]@,
                    );
                if i < n - 1 {
                    assert(before.contains(peer));
                    let k = before.index_of(peer);
                    assert(peers[k] == peer);
                } else {
                    assert(peers[peers.len() - 1] == peer);
                }
            }
        }
    }
}

/// A node takes in the messages of a batch in their order: those items that
/// hold one, each once, and nothing else.
pub proof fn batches_are_taken_in_as_they_are(batch: Seq<Vec<u8>>)
    ensures
        messages_in(batch, batch.len()) == batch.filter(
            |item: Vec<u8>| raft_message(item@) is Some,
        ).map_values(|item: Vec<u8>| raft_message(item@)->Some_0),
    decreases batch.len(),
{
    let holds = |item: Vec<u8>| raft_message(item@) is Some;
    let held = |item: Vec<u8>| raft_message(item@)->Some_0;
    reveal(Seq::filter);
    if batch.len() > 0 {
        let rest = batch.drop_last();
        batches_are_taken_in_as_they_are(rest);
        assert(batch.take(rest.len() as int) =~= rest.take(rest.len() as int));
        lemma_messages_agree(batch, rest, rest.len());
        assert(messages_in(batch, batch.len()) =~= batch.filter(holds).map_values(held));
    } else {
        assert(batch.filter(holds).map_values(held) =~= Seq::<Message>::empty());
    }
}

/// What is behind the first `n` items does not matter for them.
proof fn lemma_messages_agree(a: Seq<Vec<u8>>, b: Seq<Vec<u8>>, n: nat)
    requires
        n <= a.len(),
        n <= b.len(),
        a.take(n as int) == b.take(n as int),
    ensures
        messages_in(a, n) == messages_in(b, n),
    decreases n,
{
    if n > 0 {
        assert(a[n - 1] == a.take(n as int)[n - 1]);
        assert(b[n - 1] == b.take(n as int)[n - 1]);
        assert(a.take(n - 1) =~= a.take(n as int).take(n - 1));
        assert(b.take(n - 1) =~= b.take(n as int).take(n - 1));
        lemma_messages_agree(a, b, (n - 1) as nat);
    }
}

/// A client that cannot connect waits, a second at first and twice as long each
/// time, but never longer than half a minute, and then tries again.
pub proof fn failed_connections_are_waited_out(state: ClientState)
    requires
        state.phase is Connecting,
    ensures
        ({
            let (failed, action) = client_step(state, ClientEvent::ConnectFailed);
            let (slept, again) = client_step(failed, ClientEvent::Slept);
            &&& action matches ClientAction::Sleep { millis } && millis == state.backoff_ms
            &&& again is Connect
            &&& slept.phase is Connecting
            &&& state.backoff_ms <= 15_000 ==> slept.backoff_ms == 2 * state.backoff_ms
            &&& state.backoff_ms >= 15_000 ==> slept.backoff_ms == 30_000
            &&& client_step(state, ClientEvent::Connected).0.backoff_ms == 1_000
        }),
{
}

/// A connected client sends what there is and then waits for more. After a
/// failure it connects anew, at once and without a memory of earlier waits.
pub proof fn connected_clients_send_what_there_is(state: ClientState)
    requires
        state.phase is Connecting,
    ensures
        ({
            let (idle, received) = client_step(state, ClientEvent::Connected);
            let (sending, sent) = client_step(idle, ClientEvent::MessageReady);
            let (lost, retried) = client_step(sending, ClientEvent::SendFailed);
            &&& received is Receive
            &&& sent is Send
            &&& client_step(sending, ClientEvent::Sent).0 == idle
            &&& client_step(sending, ClientEvent::Sent).1 is Receive
            &&& retried is Connect
            &&& lost.phase is Connecting
            &&& lost.backoff_ms == 1_000
            &&& client_step(idle, ClientEvent::ChannelClosed).1 is Stop
        }),
{
}

/// A client that sends goes on with its connection where the batch was sent, and
/// gives it up where it was not, whatever its waits have been.
pub proof fn sending_ends_with_or_without_the_connection(state: ClientState)
    requires
        state.phase is Sending,
    ensures
        ({
            let (kept, action) = client_step(state, ClientEvent::Sent);
            let (lost, retried) = client_step(state, ClientEvent::SendFailed);
            &&& action is Receive
            &&& kept.phase is Idle
            &&& kept.backoff_ms == state.backoff_ms
            &&& retried is Connect
            &&& lost.phase is Connecting
            &&& lost.backoff_ms == 1_000
        }),
{
}

/// What does not belong to where a client stands changes nothing.
pub proof fn stray_events_change_nothing(state: ClientState, event: ClientEvent)
    ensures
        client_step(state, event).1 is Ignore <==> !({
            ||| state.phase is Connecting && (event is Connected || event is ConnectFailed)
            ||| state.phase is Backoff && event is Slept
            ||| state.phase is Idle && (event is MessageReady || event is ChannelClosed)
            ||| state.phase is Sending && (event is Sent || event is SendFailed)
        }),
        client_step(state, event).1 is Ignore ==> client_step(state, event).0 == state,
{
}

/// The peers keep the order of the nodes, and each node is a peer once.
pub proof fn peers_keep_the_order_of_the_nodes(
    ids: Seq<u64>,
    addresses: Seq<String>,
    local_node_id: u64,
    n: nat,
)
    requires
        n <= ids.len(),
        forall|i: int, j: int| 0 <= i < j < ids.len() ==> ids[i] < ids[j],
    ensures
        forall|i: int, j: int|
            0 <= i < j < peers_of(ids, addresses, local_node_id, n).len() ==> peers_of(
                ids,
                addresses,
                local_node_id,
                n,
            )[i].0 < peers_of(ids, addresses, local_node_id, n)[j].0,
        forall|i: int|
            0 <= i < peers_of(ids, addresses, local_node_id, n).len() ==> exists|k: int|
                0 <= k < n && (#[trigger] peers_of(ids, addresses, local_node_id, n)[i]).0
                    == #[trigger] ids[k],
    decreases n,
{
    if n > 0 {
        let before = peers_of(ids, addresses, local_node_id, (n - 1) as nat);
        let peers = peers_of(ids, addresses, local_node_id, n);
        peers_keep_the_order_of_the_nodes(ids, addresses, local_node_id, (n - 1) as nat);
        assert forall|i: int| 0 <= i < before.len() implies before[i].0 < ids[n - 1] by {
            let k = choose|k: int| 0 <= k < n - 1 && before[i].0 == #[trigger] ids[k];
            assert(ids[k] < ids[n - 1]);
        }
        assert forall|i: int| 0 <= i < peers.len() implies exists|k: int|
            0 <= k < n && (#[trigger] peers[i]).0 == #[trigger] ids[k] by {
            if i < before.len() {
                assert(peers[i] == before[i]);
                let k = choose|k: int| 0 <= k < n - 1 && before[i].0 == #[trigger] ids[k];
                assert(peers[i].0 == ids[k]);
            } else {
                assert(peers[i].0 == ids[n - 1]);
            }
        }
    }
}

} // verus!
