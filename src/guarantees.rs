//! What the channel guarantees across calls, proved over its abstract state.
use vstd::prelude::*;
use crate::reliable::{
    ack_spec, advance_oldest, deliver_spec, effective_budget, fits, get_spec, has_pending,
    id_distance, initial_state, is_due, lemma_select, process_messages_spec, receive_spec,
    remove_ids, scan_id, scan_window, select_spec, selected_ids, send_spec, sum_sizes,
    ChannelState, OutboundModel, ReliableOrderedChannelConfig,
};
use crate::message::serialized_size_bits;
use crate::sequence_buffer::slot_of;
use vstd::arithmetic::div_mod::lemma_small_mod;

verus! {

/// Acknowledging a packet twice leaves the channel as acknowledging it once.
pub proof fn lemma_ack_idempotent(s: ChannelState, ack: u16)
    ensures
        ack_spec(ack_spec(s, ack), ack) == ack_spec(s, ack),
{
}

/// The messages of one packet never exceed its budget: their serialized
/// sizes add up to at most the effective budget of the call.
pub proof fn lemma_budget_respected(s: ChannelState, available_bits: Option<u32>, sequence: u16)
    ensures
        get_spec(s, available_bits, sequence).1 matches Some(ms) ==> {
            &&& ms.len() == selected_ids(s, available_bits).len()
            &&& forall|j: int|
                0 <= j < ms.len() ==> (#[trigger] ms[j]).0 == selected_ids(s, available_bits)[j]
        },
        effective_budget(s, available_bits) matches Some(b) ==> sum_sizes(
            s.outbound,
            selected_ids(s, available_bits),
        ) <= b,
{
    lemma_select(s, effective_budget(s, available_bits), scan_window(s));
}

/// Scanning further never changes what was picked among the first ids.
proof fn lemma_select_prefix(s: ChannelState, budget: Option<int>, n: nat, m: nat)
    requires
        n <= m,
    ensures
        select_spec(s, budget, n).0.len() <= select_spec(s, budget, m).0.len(),
        forall|j: int|
            0 <= j < select_spec(s, budget, n).0.len() ==> select_spec(s, budget, m).0[j]
                == select_spec(s, budget, n).0[j],
    decreases m - n,
{
    if n < m {
        lemma_select_prefix(s, budget, n, (m - 1) as nat);
    }
}

/// A message sent at `t` stays out of every packet built before
/// `t + resend_time`. From then on, the oldest unacknowledged message goes
/// out in the next packet that has room for it, and is stamped with the time.
pub proof fn lemma_resend_gating(
    s: ChannelState,
    available_bits: Option<u32>,
    sequence: u16,
    id: u16,
    t: u64,
)
    requires
        s.send_capacity > 0,
        s.receive_capacity > 0,
        s.outbound.contains_key(id),
        s.outbound[id].last_send_time == Some(t),
    ensures
        s.now < t + s.resend_time ==> !selected_ids(s, available_bits).contains(id),
        ({
            &&& s.now >= t + s.resend_time
            &&& id == s.oldest_unacked
            &&& has_pending(s)
            &&& s.max_per_packet >= 1
            &&& fits(effective_budget(s, available_bits), s.outbound[id].size_bits)
        }) ==> {
            &&& get_spec(s, available_bits, sequence).1 matches Some(ms)
            &&& ms[0] == (id, s.outbound[id].payload)
            &&& get_spec(s, available_bits, sequence).0.outbound[id].last_send_time == Some(s.now)
        },
{
    let budget = effective_budget(s, available_bits);
    let ids = selected_ids(s, available_bits);
    lemma_select(s, budget, scan_window(s));
    if s.now < t + s.resend_time && ids.contains(id) {
        let j = choose|j: int| 0 <= j < ids.len() && ids[j] == id;
        assert(is_due(s, s.outbound[ids[j]]));
    }
    if s.now >= t + s.resend_time && id == s.oldest_unacked && has_pending(s) && s.max_per_packet
        >= 1 && fits(budget, s.outbound[id].size_bits) {
        assert(scan_id(s, 0) == id);
        assert(select_spec(s, budget, 0).0.len() == 0);
        assert(select_spec(s, budget, 1).0 == seq![id]);
        lemma_select_prefix(s, budget, 1, scan_window(s));
        assert(ids[0] == id);
        assert(ids.contains(id));
    }
}

/// The `k`-th id handed out after `first`.
pub open spec fn nth_id(first: u16, k: int) -> u16 {
    ((first as int + k) % 65536) as u16
}

/// `n` receive calls in a row: the state after them and the payloads they
/// handed out.
pub open spec fn drain_spec(s: ChannelState, n: nat) -> (ChannelState, Seq<Seq<u8>>)
    decreases n,
{
    if n == 0 {
        (s, Seq::empty())
    } else {
        let prev = drain_spec(s, (n - 1) as nat);
        match receive_spec(prev.0).1 {
            Some(p) => (receive_spec(prev.0).0, prev.1.push(p)),
            None => prev,
        }
    }
}

/// Receiving hands out staged payloads strictly by consecutive id from the
/// expected one, never skipping a missing id, and each handed-out id leaves
/// the store, so it is not handed out again.
pub proof fn lemma_in_order_delivery(s: ChannelState, n: nat)
    ensures
        ({
            let (t, out) = drain_spec(s, n);
            &&& t.receive_id == nth_id(s.receive_id, out.len() as int)
            &&& forall|j: int|
                0 <= j < out.len() ==> {
                    &&& s.inbound.contains_key(#[trigger] nth_id(s.receive_id, j))
                    &&& out[j] == s.inbound[nth_id(s.receive_id, j)]
                    &&& !t.inbound.contains_key(nth_id(s.receive_id, j))
                }
            &&& forall|k: u16| #[trigger]
                t.inbound.contains_key(k) ==> s.inbound.contains_key(k) && t.inbound[k]
                    == s.inbound[k]
        }),
    decreases n,
{
    if n > 0 {
        lemma_in_order_delivery(s, (n - 1) as nat);
        let (t0, out0) = drain_spec(s, (n - 1) as nat);
        if t0.inbound.contains_key(t0.receive_id) {
            let (t, out) = drain_spec(s, n);
            assert(t.receive_id == nth_id(s.receive_id, out.len() as int)) by {
                assert(t0.receive_id.wrapping_add(1) == ((t0.receive_id as int + 1) % 65536) as u16);
            }
            assert forall|j: int| 0 <= j < out.len() implies {
                &&& s.inbound.contains_key(#[trigger] nth_id(s.receive_id, j))
                &&& out[j] == s.inbound[nth_id(s.receive_id, j)]
                &&& !t.inbound.contains_key(nth_id(s.receive_id, j))
            } by {
                if j < out0.len() {
                    assert(out[j] == out0[j]);
                } else {
                    assert(nth_id(s.receive_id, j) == t0.receive_id);
                }
            }
        }
    }
}

/// Every id of `msgs` is staged once they have all arrived, when no two
/// distinct ids among them share a slot.
proof fn lemma_deliver_holds_all(inbound: Map<u16, Seq<u8>>, cap: nat, msgs: Seq<(u16, Seq<u8>)>)
    requires
        forall|i: int, j: int|
            0 <= i < msgs.len() && 0 <= j < msgs.len() && msgs[i].0 != msgs[j].0 ==> slot_of(
                msgs[i].0,
                cap,
            ) != slot_of(msgs[j].0, cap),
    ensures
        forall|i: int|
            0 <= i < msgs.len() ==> deliver_spec(inbound, cap, msgs).contains_key(
                (#[trigger] msgs[i]).0,
            ),
    decreases msgs.len(),
{
    if msgs.len() > 0 {
        let prev_msgs = msgs.drop_last();
        lemma_deliver_holds_all(inbound, cap, prev_msgs);
        assert forall|i: int| 0 <= i < msgs.len() implies deliver_spec(
            inbound,
            cap,
            msgs,
        ).contains_key((#[trigger] msgs[i]).0) by {
            if i < msgs.len() - 1 {
                assert(prev_msgs[i] == msgs[i]);
            }
        }
    }
}

/// Arrivals whose ids are all staged change nothing.
proof fn lemma_deliver_staged(inbound: Map<u16, Seq<u8>>, cap: nat, msgs: Seq<(u16, Seq<u8>)>)
    requires
        forall|i: int| 0 <= i < msgs.len() ==> inbound.contains_key((#[trigger] msgs[i]).0),
    ensures
        deliver_spec(inbound, cap, msgs) == inbound,
    decreases msgs.len(),
{
    if msgs.len() > 0 {
        let prev_msgs = msgs.drop_last();
        assert forall|i: int| 0 <= i < prev_msgs.len() implies inbound.contains_key(
            (#[trigger] prev_msgs[i]).0,
        ) by {
            assert(prev_msgs[i] == msgs[i]);
        }
        lemma_deliver_staged(inbound, cap, prev_msgs);
        assert(inbound.contains_key(msgs[msgs.len() - 1].0));
    }
}

/// A duplicated batch of arrivals is ignored the second time, when no two
/// distinct ids in it share a slot of the receive store.
pub proof fn lemma_redelivery_ignored(s: ChannelState, msgs: Seq<(u16, Seq<u8>)>)
    requires
        forall|i: int, j: int|
            0 <= i < msgs.len() && 0 <= j < msgs.len() && msgs[i].0 != msgs[j].0 ==> slot_of(
                msgs[i].0,
                s.receive_capacity,
            ) != slot_of(msgs[j].0, s.receive_capacity),
    ensures
        process_messages_spec(process_messages_spec(s, msgs), msgs) == process_messages_spec(
            s,
            msgs,
        ),
{
    lemma_deliver_holds_all(s.inbound, s.receive_capacity, msgs);
    lemma_deliver_staged(
        deliver_spec(s.inbound, s.receive_capacity, msgs),
        s.receive_capacity,
        msgs,
    );
}

/// `payloads` sent one after the other.
pub open spec fn send_all(s: ChannelState, payloads: Seq<Seq<u8>>) -> ChannelState
    decreases payloads.len(),
{
    if payloads.len() == 0 {
        s
    } else {
        send_spec(send_all(s, payloads.drop_last()), payloads.last())
    }
}

/// The send store holding `payloads` under ids 0, 1, ..., none sent yet.
pub open spec fn staged(payloads: Seq<Seq<u8>>) -> Map<u16, OutboundModel> {
    Map::new(
        |k: u16| (k as int) < payloads.len(),
        |k: u16|
            OutboundModel {
                payload: payloads[k as int],
                last_send_time: None,
                size_bits: serialized_size_bits(payloads[k as int].len()),
            },
    )
}

/// The messages that carry `payloads` under ids 0, 1, ...
pub open spec fn packet_of(payloads: Seq<Seq<u8>>) -> Seq<(u16, Seq<u8>)> {
    Seq::new(payloads.len(), |i: int| (i as u16, payloads[i]))
}

pub open spec fn id_range(n: nat) -> Seq<u16> {
    Seq::new(n, |i: int| i as u16)
}

proof fn lemma_send_all(now: u64, c: ReliableOrderedChannelConfig, payloads: Seq<Seq<u8>>)
    requires
        c.valid(),
        payloads.len() <= c.message_send_queue_size,
        payloads.len() < 65536,
    ensures
        send_all(initial_state(now, c), payloads) == (ChannelState {
            outbound: staged(payloads),
            send_id: payloads.len() as u16,
            num_sent: payloads.len() as u64,
            ..initial_state(now, c)
        }),
    decreases payloads.len(),
{
    let s0 = initial_state(now, c);
    if payloads.len() == 0 {
        assert(s0.outbound =~= staged(payloads));
    } else {
        let prev = payloads.drop_last();
        lemma_send_all(now, c, prev);
        let n1 = prev.len();
        let cap = c.message_send_queue_size as nat;
        let st = send_all(s0, payloads);
        lemma_small_mod(n1, cap);
        assert forall|k: u16| #[trigger] st.outbound.contains_key(k) == staged(payloads).contains_key(k)
            by {
            if (k as int) < n1 {
                lemma_small_mod(k as nat, cap);
            }
        }
        assert forall|k: u16| #[trigger] st.outbound.contains_key(k) implies st.outbound[k]
            == staged(payloads)[k] by {
            if (k as int) < n1 {
                assert(prev[k as int] == payloads[k as int]);
            }
        }
        assert(st.outbound =~= staged(payloads));
    }
}

proof fn lemma_select_staged(s: ChannelState, payloads: Seq<Seq<u8>>, n: nat)
    requires
        s.outbound == staged(payloads),
        s.oldest_unacked == 0,
        payloads.len() <= s.max_per_packet,
        n <= 65536,
    ensures
        select_spec(s, None, n) == (id_range(if n <= payloads.len() { n } else { payloads.len() }), None::<int>),
    decreases n,
{
    if n == 0 {
        assert(id_range(0) =~= Seq::<u16>::empty());
    } else {
        lemma_select_staged(s, payloads, (n - 1) as nat);
        assert(scan_id(s, n - 1) == (n - 1) as u16);
        if n <= payloads.len() {
            assert(id_range(n) =~= id_range((n - 1) as nat).push((n - 1) as u16));
        }
    }
}

/// Advancing the cursor through an empty send store reaches the frontier.
proof fn lemma_advance_empty(from: u16, stop: u16)
    ensures
        advance_oldest(Map::empty(), from, stop, id_distance(from, stop)) == stop,
    decreases id_distance(from, stop),
{
    if from != stop {
        assert(id_distance(from, stop) > 0);
        assert(id_distance(from.wrapping_add(1), stop) == id_distance(from, stop) - 1);
        lemma_advance_empty(from.wrapping_add(1), stop);
    }
}

proof fn lemma_deliver_packet(cap: nat, payloads: Seq<Seq<u8>>, n: nat)
    requires
        n <= payloads.len(),
        payloads.len() <= cap,
        payloads.len() < 65536,
    ensures
        deliver_spec(Map::empty(), cap, packet_of(payloads).subrange(0, n as int)) == Map::new(
            |k: u16| (k as int) < n,
            |k: u16| payloads[k as int],
        ),
    decreases n,
{
    let msgs = packet_of(payloads).subrange(0, n as int);
    let target = Map::new(|k: u16| (k as int) < n, |k: u16| payloads[k as int]);
    if n == 0 {
        assert(deliver_spec(Map::empty(), cap, msgs) =~= target);
    } else {
        lemma_deliver_packet(cap, payloads, (n - 1) as nat);
        assert(msgs.drop_last() =~= packet_of(payloads).subrange(0, n - 1));
        lemma_small_mod((n - 1) as nat, cap);
        let got = deliver_spec(Map::empty(), cap, msgs);
        assert forall|k: u16| #[trigger] got.contains_key(k) == target.contains_key(k) by {
            if (k as int) < n - 1 {
                lemma_small_mod(k as nat, cap);
            }
        }
        assert(got =~= target);
    }
}

proof fn lemma_drain_packet(r: ChannelState, payloads: Seq<Seq<u8>>, m: nat)
    requires
        r.inbound == Map::new(|k: u16| (k as int) < payloads.len(), |k: u16| payloads[k as int]),
        r.receive_id == 0,
        m <= payloads.len(),
        payloads.len() < 65536,
    ensures
        drain_spec(r, m).1 == payloads.subrange(0, m as int),
        drain_spec(r, m).0.receive_id == m as u16,
        drain_spec(r, m).0.inbound == Map::new(
            |k: u16| m <= (k as int) < payloads.len(),
            |k: u16| payloads[k as int],
        ),
    decreases m,
{
    if m == 0 {
        assert(payloads.subrange(0, 0) =~= Seq::<Seq<u8>>::empty());
        assert(r.inbound =~= Map::new(
            |k: u16| 0 <= (k as int) < payloads.len(),
            |k: u16| payloads[k as int],
        ));
    } else {
        lemma_drain_packet(r, payloads, (m - 1) as nat);
        let t = drain_spec(r, (m - 1) as nat).0;
        assert(t.inbound.contains_key((m - 1) as u16));
        assert(drain_spec(r, m).1 =~= payloads.subrange(0, m as int));
        assert(drain_spec(r, m).0.inbound =~= Map::new(
            |k: u16| m <= (k as int) < payloads.len(),
            |k: u16| payloads[k as int],
        ));
    }
}

/// A round trip: a fresh sender stages `payloads`; the next packet, with no
/// byte ceiling and room for them all, carries every one of them in send
/// order; once that packet is acknowledged nothing is pending; and a fresh
/// receiver given that packet hands out exactly `payloads`, in order.
pub proof fn lemma_round_trip(
    c: ReliableOrderedChannelConfig,
    now: u64,
    rc: ReliableOrderedChannelConfig,
    rnow: u64,
    payloads: Seq<Seq<u8>>,
    sequence: u16,
)
    requires
        c.valid(),
        rc.valid(),
        c.packet_budget_bytes is None,
        1 <= payloads.len() < 65536,
        payloads.len() <= c.message_send_queue_size,
        payloads.len() <= c.message_receive_queue_size,
        payloads.len() <= c.max_message_per_packet,
        payloads.len() <= rc.message_receive_queue_size,
    ensures
        ({
            let sent = get_spec(send_all(initial_state(now, c), payloads), None, sequence);
            &&& sent.1 == Some(packet_of(payloads))
            &&& !has_pending(ack_spec(sent.0, sequence))
        }),
        ({
            let r = process_messages_spec(initial_state(rnow, rc), packet_of(payloads));
            &&& drain_spec(r, payloads.len()).1 == payloads
            &&& receive_spec(drain_spec(r, payloads.len()).0).1 is None
        }),
{
    let n = payloads.len();
    lemma_send_all(now, c, payloads);
    let s1 = send_all(initial_state(now, c), payloads);
    lemma_select_staged(s1, payloads, scan_window(s1));
    let ids = selected_ids(s1, None);
    assert(ids == id_range(n));
    let sent = get_spec(s1, None, sequence);
    assert(sent.1->0 =~= packet_of(payloads));
    let s2 = sent.0;
    assert(s2.packets.contains_key(sequence));
    let out = remove_ids(s2.outbound, ids);
    assert forall|k: u16| !out.contains_key(k) by {
        if (k as int) < n {
            assert(ids[k as int] == k);
        }
    }
    assert(out =~= Map::empty());
    lemma_advance_empty(0, n as u16);

    let r0 = initial_state(rnow, rc);
    lemma_deliver_packet(rc.message_receive_queue_size as nat, payloads, n);
    assert(packet_of(payloads).subrange(0, n as int) =~= packet_of(payloads));
    let r = process_messages_spec(r0, packet_of(payloads));
    lemma_drain_packet(r, payloads, n);
    assert(payloads.subrange(0, n as int) =~= payloads);
    assert(!drain_spec(r, n).0.inbound.contains_key(n as u16));
}

} // verus!
