//! The reliable-ordered channel: every message is delivered once, in order,
//! over a transport that may lose, duplicate or reorder packets.
use vstd::prelude::*;
use crate::message::{serialized_size_bits, Message, MessageSend, PacketSent};
use crate::sequence_buffer::{store_insert, SequenceBuffer};

verus! {

/// Settings of a reliable-ordered channel. Times are in milliseconds.
pub struct ReliableOrderedChannelConfig {
    pub sent_packet_buffer_size: usize,
    pub message_send_queue_size: usize,
    pub message_receive_queue_size: usize,
    pub max_message_per_packet: u32,
    pub packet_budget_bytes: Option<u32>,
    pub message_resend_time: u64,
}

impl ReliableOrderedChannelConfig {
    /// A configuration whose three stores can be built.
    pub open spec fn valid(&self) -> bool {
        &&& self.sent_packet_buffer_size > 0
        &&& self.message_send_queue_size > 0
        &&& self.message_receive_queue_size > 0
    }

    /// A channel with this configuration, its clock at `current_time`.
    pub fn new_channel(&self, current_time: u64) -> (r: ReliableOrderedChannel)
        requires
            self.valid(),
        ensures
            r.wf(),
            r@ == initial_state(current_time, *self),
    {
        let config = ReliableOrderedChannelConfig {
            sent_packet_buffer_size: self.sent_packet_buffer_size,
            message_send_queue_size: self.message_send_queue_size,
            message_receive_queue_size: self.message_receive_queue_size,
            max_message_per_packet: self.max_message_per_packet,
            packet_budget_bytes: self.packet_budget_bytes,
            message_resend_time: self.message_resend_time,
        };
        ReliableOrderedChannel::new(current_time, config)
    }
}

impl Default for ReliableOrderedChannelConfig {
    fn default() -> (r: Self)
        ensures
            r.sent_packet_buffer_size == 1024,
            r.message_send_queue_size == 1024,
            r.message_receive_queue_size == 1024,
            r.max_message_per_packet == 256,
            r.packet_budget_bytes is None,
            r.message_resend_time == 100,
    {
        ReliableOrderedChannelConfig {
            sent_packet_buffer_size: 1024,
            message_send_queue_size: 1024,
            message_receive_queue_size: 1024,
            max_message_per_packet: 256,
            packet_budget_bytes: None,
            message_resend_time: 100,
        }
    }
}

/// What the channel knows of a message that awaits acknowledgment.
pub struct OutboundModel {
    pub payload: Seq<u8>,
    pub last_send_time: Option<u64>,
    pub size_bits: nat,
}

/// What the channel knows of a packet it built.
pub struct PacketModel {
    pub ids: Seq<u16>,
    pub acked: bool,
}

/// The abstract state of a channel.
pub struct ChannelState {
    pub send_capacity: nat,
    pub receive_capacity: nat,
    pub packet_capacity: nat,
    pub max_per_packet: nat,
    pub budget_bytes: Option<u32>,
    pub resend_time: u64,
    /// Outgoing messages not yet acknowledged, by id.
    pub outbound: Map<u16, OutboundModel>,
    /// Packets built, by packet sequence.
    pub packets: Map<u16, PacketModel>,
    /// Payloads arrived and not yet handed out, by id.
    pub inbound: Map<u16, Seq<u8>>,
    pub send_id: u16,
    pub receive_id: u16,
    pub oldest_unacked: u16,
    pub num_sent: u64,
    pub num_received: u64,
    pub now: u64,
}

pub open spec fn initial_state(now: u64, c: ReliableOrderedChannelConfig) -> ChannelState {
    ChannelState {
        send_capacity: c.message_send_queue_size as nat,
        receive_capacity: c.message_receive_queue_size as nat,
        packet_capacity: c.sent_packet_buffer_size as nat,
        max_per_packet: c.max_message_per_packet as nat,
        budget_bytes: c.packet_budget_bytes,
        resend_time: c.message_resend_time,
        outbound: Map::empty(),
        packets: Map::empty(),
        inbound: Map::empty(),
        send_id: 0,
        receive_id: 0,
        oldest_unacked: 0,
        num_sent: 0,
        num_received: 0,
        now,
    }
}

pub open spec fn has_pending(s: ChannelState) -> bool {
    s.oldest_unacked != s.send_id
}

pub open spec fn send_spec(s: ChannelState, payload: Seq<u8>) -> ChannelState {
    let entry = OutboundModel {
        payload,
        last_send_time: None,
        size_bits: serialized_size_bits(payload.len()),
    };
    ChannelState {
        outbound: store_insert(s.outbound, s.send_capacity, s.send_id, entry),
        send_id: s.send_id.wrapping_add(1),
        num_sent: s.num_sent.wrapping_add(1),
        ..s
    }
}

/// The state after one receive, and the payload handed out.
pub open spec fn receive_spec(s: ChannelState) -> (ChannelState, Option<Seq<u8>>) {
    if s.inbound.contains_key(s.receive_id) {
        (
            ChannelState {
                inbound: s.inbound.remove(s.receive_id),
                receive_id: s.receive_id.wrapping_add(1),
                num_received: s.num_received.wrapping_add(1),
                ..s
            },
            Some(s.inbound[s.receive_id]),
        )
    } else {
        (s, None)
    }
}

pub open spec fn outbound_model(e: MessageSend) -> OutboundModel {
    OutboundModel {
        payload: e.message.payload@,
        last_send_time: e.last_time_sent,
        size_bits: e.serialized_size_bits as nat,
    }
}

pub open spec fn packet_model(p: PacketSent) -> PacketModel {
    PacketModel { ids: p.messages_id@, acked: p.acked }
}

pub open spec fn payload_of(m: Message) -> Seq<u8> {
    m.payload@
}

/// Inbound staging after the arrivals `msgs`, in order: an arrival whose id
/// is already staged is dropped.
pub open spec fn deliver_spec(
    inbound: Map<u16, Seq<u8>>,
    cap: nat,
    msgs: Seq<(u16, Seq<u8>)>,
) -> Map<u16, Seq<u8>>
    decreases msgs.len(),
{
    if msgs.len() == 0 {
        inbound
    } else {
        let prev = deliver_spec(inbound, cap, msgs.drop_last());
        let m = msgs.last();
        if prev.contains_key(m.0) {
            prev
        } else {
            store_insert(prev, cap, m.0, m.1)
        }
    }
}

pub open spec fn process_messages_spec(s: ChannelState, msgs: Seq<(u16, Seq<u8>)>) -> ChannelState {
    ChannelState { inbound: deliver_spec(s.inbound, s.receive_capacity, msgs), ..s }
}

/// Steps from `a` forward to `b`, with wraparound.
pub open spec fn id_distance(a: u16, b: u16) -> nat {
    ((b as int - a as int) % 65536) as nat
}

/// The first id from `from` on, at most `steps` ahead, that is `stop` or
/// still awaits acknowledgment.
pub open spec fn advance_oldest(
    outbound: Map<u16, OutboundModel>,
    from: u16,
    stop: u16,
    steps: nat,
) -> u16
    decreases steps,
{
    if steps == 0 || from == stop || outbound.contains_key(from) {
        from
    } else {
        advance_oldest(outbound, from.wrapping_add(1), stop, (steps - 1) as nat)
    }
}

/// `m` without the entries listed in `ids`.
pub open spec fn remove_ids<T>(m: Map<u16, T>, ids: Seq<u16>) -> Map<u16, T> {
    Map::new(|k: u16| m.contains_key(k) && !ids.contains(k), |k: u16| m[k])
}

pub open spec fn ack_spec(s: ChannelState, ack: u16) -> ChannelState {
    if s.packets.contains_key(ack) && !s.packets[ack].acked {
        let ids = s.packets[ack].ids;
        let outbound = remove_ids(s.outbound, ids);
        ChannelState {
            packets: s.packets.insert(ack, PacketModel { ids, acked: true }),
            outbound,
            oldest_unacked: advance_oldest(
                outbound,
                s.oldest_unacked,
                s.send_id,
                id_distance(s.oldest_unacked, s.send_id),
            ),
            ..s
        }
    } else {
        s
    }
}

pub open spec fn message_views(msgs: Seq<Message>) -> Seq<(u16, Seq<u8>)> {
    msgs.map_values(|m: Message| m@)
}

/// The bit budget of one packet: the configured ceiling, the caller's, the
/// smaller of the two, or none at all.
pub open spec fn effective_budget(s: ChannelState, available_bits: Option<u32>) -> Option<int> {
    match (s.budget_bytes, available_bits) {
        (Some(b), Some(a)) => Some(if b as int * 8 <= a as int { b as int * 8 } else { a as int }),
        (Some(b), None) => Some(b as int * 8),
        (None, Some(a)) => Some(a as int),
        (None, None) => None,
    }
}

/// How many ids, from the oldest unacknowledged one on, a packet is built
/// from: the smaller store capacity, and never more than there are ids, so
/// that no id is looked at twice.
pub open spec fn scan_window(s: ChannelState) -> nat {
    let w = if s.send_capacity <= s.receive_capacity {
        s.send_capacity
    } else {
        s.receive_capacity
    };
    if w <= 65536 {
        w
    } else {
        65536
    }
}

/// Whether a message may go out now: never sent, or its resend time has come.
pub open spec fn is_due(s: ChannelState, e: OutboundModel) -> bool {
    match e.last_send_time {
        None => true,
        Some(t) => t + s.resend_time <= s.now,
    }
}

pub open spec fn fits(budget: Option<int>, size: nat) -> bool {
    match budget {
        None => true,
        Some(b) => size <= b,
    }
}

pub open spec fn spend(budget: Option<int>, size: nat) -> Option<int> {
    match budget {
        None => None,
        Some(b) => Some(b - size),
    }
}

/// The `k`-th id scanned when building a packet.
pub open spec fn scan_id(s: ChannelState, k: int) -> u16 {
    ((s.oldest_unacked as int + k) % 65536) as u16
}

/// The ids picked among the first `n` scanned, and the budget left after them.
pub open spec fn select_spec(s: ChannelState, budget: Option<int>, n: nat) -> (Seq<u16>, Option<int>)
    decreases n,
{
    if n == 0 {
        (Seq::empty(), budget)
    } else {
        let prev = select_spec(s, budget, (n - 1) as nat);
        let id = scan_id(s, n - 1);
        if prev.0.len() < s.max_per_packet && s.outbound.contains_key(id) && is_due(
            s,
            s.outbound[id],
        ) && fits(prev.1, s.outbound[id].size_bits) {
            (prev.0.push(id), spend(prev.1, s.outbound[id].size_bits))
        } else {
            prev
        }
    }
}

/// The ids of the messages that the next packet carries.
pub open spec fn selected_ids(s: ChannelState, available_bits: Option<u32>) -> Seq<u16> {
    select_spec(s, effective_budget(s, available_bits), scan_window(s)).0
}

/// Total serialized size of the messages `ids`.
pub open spec fn sum_sizes(outbound: Map<u16, OutboundModel>, ids: Seq<u16>) -> int
    decreases ids.len(),
{
    if ids.len() == 0 {
        0
    } else {
        sum_sizes(outbound, ids.drop_last()) + outbound[ids.last()].size_bits
    }
}

/// `outbound` with the messages `ids` marked as sent at `now`.
pub open spec fn stamp(outbound: Map<u16, OutboundModel>, ids: Seq<u16>, now: u64) -> Map<
    u16,
    OutboundModel,
> {
    Map::new(
        |k: u16| outbound.contains_key(k),
        |k: u16|
            if ids.contains(k) {
                OutboundModel { last_send_time: Some(now), ..outbound[k] }
            } else {
                outbound[k]
            },
    )
}

/// The state after building packet `sequence`, and the messages it carries.
pub open spec fn get_spec(s: ChannelState, available_bits: Option<u32>, sequence: u16) -> (
    ChannelState,
    Option<Seq<(u16, Seq<u8>)>>,
) {
    let ids = selected_ids(s, available_bits);
    if !has_pending(s) || ids.len() == 0 {
        (s, None)
    } else {
        (
            ChannelState {
                outbound: stamp(s.outbound, ids, s.now),
                packets: store_insert(
                    s.packets,
                    s.packet_capacity,
                    sequence,
                    PacketModel { ids, acked: false },
                ),
                ..s
            },
            Some(ids.map_values(|id: u16| (id, s.outbound[id].payload))),
        )
    }
}

pub open spec fn budget_of(b: Option<u64>) -> Option<int> {
    match b {
        None => None,
        Some(v) => Some(v as int),
    }
}

/// Once a packet is full, scanning further ids picks nothing more.
proof fn lemma_select_full(s: ChannelState, budget: Option<int>, n: nat, m: nat)
    requires
        n <= m,
        select_spec(s, budget, n).0.len() >= s.max_per_packet,
    ensures
        select_spec(s, budget, m) == select_spec(s, budget, n),
    decreases m - n,
{
    if n < m {
        lemma_select_full(s, budget, n, (m - 1) as nat);
    }
}

/// What every packet's selection satisfies: each id is staged and due, the
/// count stays under the cap, and the sizes add up to what was spent.
pub proof fn lemma_select(s: ChannelState, budget: Option<int>, n: nat)
    requires
        budget matches Some(b) ==> b >= 0,
    ensures
        forall|j: int|
            0 <= j < select_spec(s, budget, n).0.len() ==> {
                let id = #[trigger] select_spec(s, budget, n).0[j];
                &&& s.outbound.contains_key(id)
                &&& is_due(s, s.outbound[id])
            },
        select_spec(s, budget, n).0.len() <= s.max_per_packet,
        budget is None ==> select_spec(s, budget, n).1 is None,
        budget matches Some(b) ==> {
            &&& select_spec(s, budget, n).1 matches Some(r)
            &&& r >= 0
            &&& sum_sizes(s.outbound, select_spec(s, budget, n).0) + r == b
        },
    decreases n,
{
    if n > 0 {
        lemma_select(s, budget, (n - 1) as nat);
        let prev = select_spec(s, budget, (n - 1) as nat);
        let cur = select_spec(s, budget, n);
        if cur.0.len() > prev.0.len() {
            assert(cur.0.drop_last() =~= prev.0);
            assert forall|j: int| 0 <= j < cur.0.len() implies {
                let id = #[trigger] cur.0[j];
                &&& s.outbound.contains_key(id)
                &&& is_due(s, s.outbound[id])
            } by {
                if j < prev.0.len() {
                    assert(cur.0[j] == prev.0[j]);
                }
            }
        }
    }
}

pub struct ReliableOrderedChannel {
    config: ReliableOrderedChannelConfig,
    packets_sent: SequenceBuffer<PacketSent>,
    messages_send: SequenceBuffer<MessageSend>,
    messages_received: SequenceBuffer<Message>,
    send_message_id: u16,
    received_message_id: u16,
    num_messages_sent: u64,
    num_messages_received: u64,
    oldest_unacked_message_id: u16,
    current_time: u64,
}

impl View for ReliableOrderedChannel {
    type V = ChannelState;

    closed spec fn view(&self) -> ChannelState {
        ChannelState {
            send_capacity: self.config.message_send_queue_size as nat,
            receive_capacity: self.config.message_receive_queue_size as nat,
            packet_capacity: self.config.sent_packet_buffer_size as nat,
            max_per_packet: self.config.max_message_per_packet as nat,
            budget_bytes: self.config.packet_budget_bytes,
            resend_time: self.config.message_resend_time,
            outbound: self.messages_send@.map_values(|e: MessageSend| outbound_model(e)),
            packets: self.packets_sent@.map_values(|p: PacketSent| packet_model(p)),
            inbound: self.messages_received@.map_values(|m: Message| payload_of(m)),
            send_id: self.send_message_id,
            receive_id: self.received_message_id,
            oldest_unacked: self.oldest_unacked_message_id,
            num_sent: self.num_messages_sent,
            num_received: self.num_messages_received,
            now: self.current_time,
        }
    }
}

impl ReliableOrderedChannel {
    pub closed spec fn wf(&self) -> bool {
        &&& self.config.valid()
        &&& self.packets_sent.wf()
        &&& self.messages_send.wf()
        &&& self.messages_received.wf()
        &&& self.packets_sent.capacity() == self.config.sent_packet_buffer_size
        &&& self.messages_send.capacity() == self.config.message_send_queue_size
        &&& self.messages_received.capacity() == self.config.message_receive_queue_size
        &&& self.messages_send.spec_sequence() == self.send_message_id
        &&& forall|k: u16| #[trigger]
            self.messages_send@.contains_key(k) ==> {
                &&& self.messages_send@[k].message.id == k
                &&& self.messages_send@[k].serialized_size_bits == serialized_size_bits(
                    self.messages_send@[k].message.payload@.len(),
                )
            }
        &&& forall|k: u16| #[trigger]
            self.messages_received@.contains_key(k) ==> self.messages_received@[k].id == k
    }

    pub fn new(current_time: u64, config: ReliableOrderedChannelConfig) -> (r: Self)
        requires
            config.valid(),
        ensures
            r.wf(),
            r@ == initial_state(current_time, config),
    {
        let r = ReliableOrderedChannel {
            current_time,
            packets_sent: SequenceBuffer::with_capacity(config.sent_packet_buffer_size),
            messages_send: SequenceBuffer::with_capacity(config.message_send_queue_size),
            messages_received: SequenceBuffer::with_capacity(config.message_receive_queue_size),
            send_message_id: 0,
            received_message_id: 0,
            num_messages_received: 0,
            num_messages_sent: 0,
            oldest_unacked_message_id: 0,
            config,
        };
        assert(r@.outbound =~= Map::empty());
        assert(r@.packets =~= Map::empty());
        assert(r@.inbound =~= Map::empty());
        r
    }

    /// Whether some sent message still awaits acknowledgment.
    pub fn has_messages_to_send(&self) -> (r: bool)
        ensures
            r == has_pending(self@),
    {
        self.oldest_unacked_message_id != self.send_message_id
    }

    pub fn num_messages_sent(&self) -> (r: u64)
        ensures
            r == self@.num_sent,
    {
        self.num_messages_sent
    }

    pub fn num_messages_received(&self) -> (r: u64)
        ensures
            r == self@.num_received,
    {
        self.num_messages_received
    }

    /// Sets the channel's clock; the channel never reads a clock of its own.
    pub fn update_current_time(&mut self, time: u64)
        requires
            old(self).wf(),
        ensures
            final(self).wf(),
            final(self)@ == (ChannelState { now: time, ..old(self)@ }),
    {
        self.current_time = time;
    }

    /// Stages `payload` under the next send id. If the send store is full of
    /// unacknowledged messages, the one sharing the new id's slot is lost.
    pub fn send_message(&mut self, message_payload: Vec<u8>)
        requires
            old(self).wf(),
        ensures
            final(self).wf(),
            final(self)@ == send_spec(old(self)@, message_payload@),
    {
        let message_id = self.send_message_id;
        self.send_message_id = self.send_message_id.wrapping_add(1);
        let entry = MessageSend::new(Message::new(message_id, message_payload));
        let ghost e = entry;
        self.messages_send.insert(message_id, entry);
        self.num_messages_sent = self.num_messages_sent.wrapping_add(1);
        assert(self@.outbound =~= send_spec(old(self)@, message_payload@).outbound) by {
            assert(outbound_model(e) == (OutboundModel {
                payload: message_payload@,
                last_send_time: None,
                size_bits: serialized_size_bits(message_payload@.len()),
            }));
        }
    }

    /// Hands out the payload with the next expected id, if it has arrived.
    pub fn receive_message(&mut self) -> (r: Option<Vec<u8>>)
        requires
            old(self).wf(),
        ensures
            final(self).wf(),
            final(self)@ == receive_spec(old(self)@).0,
            match r {
                Some(p) => receive_spec(old(self)@).1 == Some(p@),
                None => receive_spec(old(self)@).1 is None,
            },
    {
        let received_message_id = self.received_message_id;
        if !self.messages_received.contains(received_message_id) {
            return None;
        }
        self.received_message_id = self.received_message_id.wrapping_add(1);
        self.num_messages_received = self.num_messages_received.wrapping_add(1);
        let removed = self.messages_received.remove(received_message_id);
        assert(self@.inbound =~= old(self)@.inbound.remove(received_message_id));
        match removed {
            Some(message) => Some(message.payload),
            None => None,
        }
    }
    /// Stages arrived messages; one whose id is already staged is dropped.
    pub fn process_messages(&mut self, messages: Vec<Message>)
        requires
            old(self).wf(),
        ensures
            final(self).wf(),
            final(self)@ == process_messages_spec(old(self)@, message_views(messages@)),
    {
        let ghost msgs = message_views(messages@);
        let mut i: usize = 0;
        while i < messages.len()
            invariant
                self.wf(),
                0 <= i <= messages@.len(),
                msgs == message_views(messages@),
                self@ == process_messages_spec(old(self)@, msgs.subrange(0, i as int)),
            decreases messages@.len() - i,
        {
            let message = &messages[i];
            proof {
                assert(msgs.subrange(0, i + 1).drop_last() =~= msgs.subrange(0, i as int));
                assert(msgs.subrange(0, i + 1).last() == message@);
            }
            if !self.messages_received.contains(message.id) {
                let copy = message.duplicate();
                let ghost before = self.messages_received@;
                self.messages_received.insert(message.id, copy);
                assert(self@.inbound =~= store_insert(
                    before.map_values(|m: Message| payload_of(m)),
                    self@.receive_capacity,
                    copy.id,
                    copy.payload@,
                ));
            }
            i = i + 1;
        }
        assert(msgs.subrange(0, messages@.len() as int) =~= msgs);
    }

    fn update_oldest_message_ack(&mut self)
        requires
            old(self).wf(),
        ensures
            final(self).wf(),
            final(self)@ == (ChannelState {
                oldest_unacked: advance_oldest(
                    old(self)@.outbound,
                    old(self)@.oldest_unacked,
                    old(self)@.send_id,
                    id_distance(old(self)@.oldest_unacked, old(self)@.send_id),
                ),
                ..old(self)@
            }),
    {
        let stop_id = self.messages_send.sequence();
        let ghost target = advance_oldest(
            self@.outbound,
            self@.oldest_unacked,
            stop_id,
            id_distance(self@.oldest_unacked, stop_id),
        );
        while self.oldest_unacked_message_id != stop_id && !self.messages_send.contains(
            self.oldest_unacked_message_id,
        )
            invariant
                self.wf(),
                stop_id == self@.send_id,
                self@ == (ChannelState { oldest_unacked: self@.oldest_unacked, ..old(self)@ }),
                target == advance_oldest(
                    self@.outbound,
                    self@.oldest_unacked,
                    stop_id,
                    id_distance(self@.oldest_unacked, stop_id),
                ),
            decreases id_distance(self@.oldest_unacked, stop_id),
        {
            let ghost o = self.oldest_unacked_message_id;
            assert(id_distance(o, stop_id) > 0);
            assert(id_distance(o.wrapping_add(1), stop_id) == id_distance(o, stop_id) - 1);
            self.oldest_unacked_message_id = self.oldest_unacked_message_id.wrapping_add(1);
        }
    }

    /// Applies the acknowledgment of packet `ack`: the messages it carried
    /// are dropped from the send store and the oldest-unacked cursor moves
    /// past them. A second acknowledgment of the same packet does nothing.
    pub fn process_ack(&mut self, ack: u16)
        requires
            old(self).wf(),
        ensures
            final(self).wf(),
            final(self)@ == ack_spec(old(self)@, ack),
    {
        let ids: Vec<u16> = match self.packets_sent.get(ack) {
            Some(p) => {
                if p.acked {
                    return;
                }
                p.messages_id.clone()
            },
            None => {
                return;
            },
        };
        assert(ids@ =~= old(self)@.packets[ack].ids);
        let kept = ids.clone();
        assert(kept@ =~= ids@);
        self.packets_sent.replace(ack, PacketSent { messages_id: kept, acked: true });
        assert(self@.packets =~= old(self)@.packets.insert(
            ack,
            PacketModel { ids: ids@, acked: true },
        ));
        let ghost out0 = self@.outbound;
        assert(out0 =~= remove_ids(out0, ids@.subrange(0, 0)));
        let mut i: usize = 0;
        while i < ids.len()
            invariant
                self.wf(),
                0 <= i <= ids@.len(),
                old(self)@.packets.contains_key(ack),
                !old(self)@.packets[ack].acked,
                ids@ == old(self)@.packets[ack].ids,
                out0 == old(self)@.outbound,
                self@.outbound == remove_ids(out0, ids@.subrange(0, i as int)),
                self@ == (ChannelState {
                    outbound: self@.outbound,
                    oldest_unacked: old(self)@.oldest_unacked,
                    ..ack_spec(old(self)@, ack)
                }),
            decreases ids@.len() - i,
        {
            let id = ids[i];
            let ghost before = self.messages_send@;
            if self.messages_send.contains(id) {
                self.messages_send.remove(id);
            }
            assert(self.messages_send@ =~= before.remove(id));
            assert(self@.outbound =~= remove_ids(out0, ids@.subrange(0, i + 1))) by {
                assert(self@.outbound =~= before.map_values(|e: MessageSend| outbound_model(e)).remove(id));
                let pre = ids@.subrange(0, i as int);
                let post = ids@.subrange(0, i + 1);
                assert forall|k: u16| post.contains(k) == (pre.contains(k) || k == id) by {
                    if pre.contains(k) {
                        let j = choose|j: int| 0 <= j < pre.len() && pre[j] == k;
                        assert(post[j] == k);
                    }
                    if k == id {
                        assert(post[i as int] == k);
                    }
                    if post.contains(k) {
                        let j = choose|j: int| 0 <= j < post.len() && post[j] == k;
                        if j < i {
                            assert(pre[j] == k);
                        }
                    }
                }
            }
            i = i + 1;
        }
        assert(ids@.subrange(0, ids@.len() as int) =~= ids@);
        self.update_oldest_message_ack();
    }
    /// The ids of the messages the next packet should carry, or `None` when
    /// nothing is pending or nothing can go out.
    fn get_messages_id_to_send(&self, available_bits: Option<u32>) -> (r: Option<Vec<u16>>)
        requires
            self.wf(),
        ensures
            match r {
                Some(v) => has_pending(self@) && v@ == selected_ids(self@, available_bits)
                    && v@.len() > 0,
                None => !has_pending(self@) || selected_ids(self@, available_bits).len() == 0,
            },
    {
        if !self.has_messages_to_send() {
            return None;
        }
        let ghost s = self@;
        let mut remaining: Option<u64> = match (self.config.packet_budget_bytes, available_bits) {
            (Some(b), Some(a)) => {
                let cap = b as u64 * 8;
                if cap <= a as u64 {
                    Some(cap)
                } else {
                    Some(a as u64)
                }
            },
            (Some(b), None) => Some(b as u64 * 8),
            (None, Some(a)) => Some(a as u64),
            (None, None) => None,
        };
        let ghost budget = budget_of(remaining);
        assert(budget == effective_budget(s, available_bits));
        let mut window: usize = if self.config.message_send_queue_size
            <= self.config.message_receive_queue_size {
            self.config.message_send_queue_size
        } else {
            self.config.message_receive_queue_size
        };
        if window > 65536 {
            window = 65536;
        }
        let mut num_messages: u32 = 0;
        let mut messages_id: Vec<u16> = Vec::new();
        let mut i: usize = 0;
        while i < window
            invariant
                self@ == s,
                self.wf(),
                window == scan_window(s),
                0 <= i <= window,
                budget == effective_budget(s, available_bits),
                num_messages as int == messages_id@.len(),
                (messages_id@, budget_of(remaining)) == select_spec(s, budget, i as nat),
            ensures
                messages_id@ == select_spec(s, budget, window as nat).0,
            decreases window - i,
        {
            proof {
                lemma_select(s, budget, i as nat);
            }
            if num_messages == self.config.max_message_per_packet {
                proof {
                    lemma_select_full(s, budget, i as nat, window as nat);
                }
                break;
            }
            let message_id = self.oldest_unacked_message_id.wrapping_add(i as u16);
            assert(message_id == scan_id(s, i as int));
            match self.messages_send.get(message_id) {
                Some(message_send) => {
                    let send = match message_send.last_time_sent {
                        Some(last_time_sent) => self.current_time >= last_time_sent
                            && self.current_time - last_time_sent
                            >= self.config.message_resend_time,
                        None => true,
                    };
                    let size = message_send.serialized_size_bits;
                    let fits_budget = match remaining {
                        Some(left) => size <= left as u128,
                        None => true,
                    };
                    if send && fits_budget {
                        messages_id.push(message_id);
                        num_messages = num_messages + 1;
                        remaining = match remaining {
                            Some(left) => Some(left - size as u64),
                            None => None,
                        };
                        assert(messages_id@ =~= select_spec(s, budget, (i + 1) as nat).0);
                    }
                },
                None => {},
            }
            i = i + 1;
        }
        if messages_id.len() > 0 {
            Some(messages_id)
        } else {
            None
        }
    }

    fn add_messages_packet_entry(&mut self, messages_id: Vec<u16>, sequence: u16)
        requires
            old(self).wf(),
        ensures
            final(self).wf(),
            final(self)@ == (ChannelState {
                packets: store_insert(
                    old(self)@.packets,
                    old(self)@.packet_capacity,
                    sequence,
                    PacketModel { ids: messages_id@, acked: false },
                ),
                ..old(self)@
            }),
    {
        let packet_sent = PacketSent::new(messages_id);
        self.packets_sent.insert(sequence, packet_sent);
        assert(self@.packets =~= store_insert(
            old(self)@.packets,
            old(self)@.packet_capacity,
            sequence,
            PacketModel { ids: messages_id@, acked: false },
        ));
    }

    /// Builds packet `sequence`: picks the due messages, in id order from the
    /// oldest unacknowledged one, that fit the budget, marks them sent now and
    /// records which ids the packet carries. `None` when nothing goes out.
    pub fn get_messages_to_send(&mut self, available_bits: Option<u32>, sequence: u16) -> (r:
        Option<Vec<Message>>)
        requires
            old(self).wf(),
        ensures
            final(self).wf(),
            final(self)@ == get_spec(old(self)@, available_bits, sequence).0,
            match r {
                Some(v) => get_spec(old(self)@, available_bits, sequence).1 == Some(
                    message_views(v@),
                ),
                None => get_spec(old(self)@, available_bits, sequence).1 is None,
            },
    {
        let ghost s = self@;
        let messages_id = match self.get_messages_id_to_send(available_bits) {
            Some(v) => v,
            None => {
                return None;
            },
        };
        let ghost ids = messages_id@;
        proof {
            lemma_select(s, effective_budget(s, available_bits), scan_window(s));
        }
        let mut messages: Vec<Message> = Vec::new();
        let mut j: usize = 0;
        assert(s.outbound =~= stamp(s.outbound, ids.subrange(0, 0), s.now));
        while j < messages_id.len()
            invariant
                self.wf(),
                0 <= j <= ids.len(),
                ids == messages_id@,
                ids == selected_ids(s, available_bits),
                forall|k: int|
                    0 <= k < ids.len() ==> s.outbound.contains_key(#[trigger] ids[k]),
                self@ == (ChannelState { outbound: stamp(s.outbound, ids.subrange(0, j as int), s.now), ..s }),
                message_views(messages@) == ids.subrange(0, j as int).map_values(
                    |id: u16| (id, s.outbound[id].payload),
                ),
            decreases ids.len() - j,
        {
            let id = messages_id[j];
            assert(s.outbound.contains_key(ids[j as int]));
            assert(self@.outbound.contains_key(id));
            assert(self.messages_send@.contains_key(id));
            let entry = match self.messages_send.get(id) {
                Some(e) => e,
                None => {
                    assert(false);
                    return None;
                },
            };
            let sent = entry.message.duplicate();
            let updated = MessageSend {
                message: entry.message.duplicate(),
                last_time_sent: Some(self.current_time),
                serialized_size_bits: entry.serialized_size_bits,
            };
            let ghost before = self.messages_send@;
            proof {
                let pre = ids.subrange(0, j as int);
                assert(*entry == before[id]);
                assert(self@.outbound[id] == outbound_model(before[id]));
                assert(self@.outbound[id] == stamp(s.outbound, pre, s.now)[id]);
                assert(outbound_model(before[id]).payload == s.outbound[id].payload);
                assert(outbound_model(before[id]).size_bits == s.outbound[id].size_bits);
                assert(updated.message@ == entry.message@);
                assert(outbound_model(updated) == (OutboundModel {
                    last_send_time: Some(s.now),
                    ..s.outbound[id]
                }));
            }
            let ghost old_messages = messages@;
            self.messages_send.replace(id, updated);
            messages.push(sent);
            assert(sent@ == (id, s.outbound[id].payload));
            assert(messages@ =~= old_messages.push(sent));
            assert(message_views(messages@) =~= message_views(old_messages).push(sent@));
            assert(self@.outbound =~= stamp(s.outbound, ids.subrange(0, j as int), s.now).insert(
                id,
                outbound_model(updated),
            ));
            proof {
                let pre = ids.subrange(0, j as int);
                let post = ids.subrange(0, j + 1);
                assert forall|k: u16| post.contains(k) == (pre.contains(k) || k == id) by {
                    if pre.contains(k) {
                        let x = choose|x: int| 0 <= x < pre.len() && pre[x] == k;
                        assert(post[x] == k);
                    }
                    if k == id {
                        assert(post[j as int] == k);
                    }
                    if post.contains(k) {
                        let x = choose|x: int| 0 <= x < post.len() && post[x] == k;
                        if x < j {
                            assert(pre[x] == k);
                        }
                    }
                }
                assert(self@.outbound =~= stamp(s.outbound, post, s.now));
                assert(message_views(messages@) =~= post.map_values(
                    |id: u16| (id, s.outbound[id].payload),
                ));
            }
            j = j + 1;
        }
        assert(ids.subrange(0, ids.len() as int) =~= ids);
        self.add_messages_packet_entry(messages_id, sequence);
        Some(messages)
    }
}

} // verus!
