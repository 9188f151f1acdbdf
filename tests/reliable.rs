use reliable_channel::message::Message;
use reliable_channel::reliable::{ReliableOrderedChannel, ReliableOrderedChannelConfig};

// Payloads as a bincode-style codec lays out a small enum: a 4-byte
// little-endian variant index, then the variant's field.
fn first() -> Vec<u8> {
    vec![1, 0, 0, 0]
}

fn second(v: u32) -> Vec<u8> {
    let mut b = vec![2, 0, 0, 0];
    b.extend_from_slice(&v.to_le_bytes());
    b
}

fn third(v: u64) -> Vec<u8> {
    let mut b = vec![3, 0, 0, 0];
    b.extend_from_slice(&v.to_le_bytes());
    b
}

fn channel_with(config: ReliableOrderedChannelConfig) -> ReliableOrderedChannel {
    ReliableOrderedChannel::new(0, config)
}

#[test]
fn send_message() {
    let config = ReliableOrderedChannelConfig::default();
    let mut channel = ReliableOrderedChannel::new(0, config);
    let sequence = 0;

    assert!(!channel.has_messages_to_send());
    assert_eq!(channel.num_messages_sent(), 0);

    channel.send_message(second(0));
    assert_eq!(channel.num_messages_sent(), 1);
    assert!(channel.receive_message().is_none());

    let messages = channel.get_messages_to_send(None, sequence).unwrap();

    assert_eq!(messages.len(), 1);
    assert_eq!(messages[0].payload, second(0));

    assert!(channel.has_messages_to_send());

    channel.process_ack(sequence);
    assert!(!channel.has_messages_to_send());
}

#[test]
fn receive_message() {
    let config = ReliableOrderedChannelConfig::default();
    let mut channel = ReliableOrderedChannel::new(0, config);

    let messages = vec![Message::new(0, first()), Message::new(1, second(0))];

    channel.process_messages(messages);

    let message = channel.receive_message().unwrap();
    assert_eq!(message, first());

    let message = channel.receive_message().unwrap();
    assert_eq!(message, second(0));

    assert_eq!(channel.num_messages_received(), 2);
}

#[test]
fn over_budget() {
    let first_message = third(0);
    let second_message = third(1);

    let message = Message::new(0, first_message.clone());

    let mut config = ReliableOrderedChannelConfig::default();
    config.packet_budget_bytes = Some((message.serialized_size_bits() / 8) as u32);
    let mut channel = ReliableOrderedChannel::new(0, config);
    let sequence = 0;

    channel.send_message(first_message.clone());
    channel.send_message(second_message.clone());

    let messages = channel.get_messages_to_send(None, sequence);
    assert!(messages.is_some());
    let messages = messages.unwrap();

    assert_eq!(messages.len(), 1);
    assert_eq!(messages[0].payload, first_message);

    channel.process_ack(0);

    let messages = channel.get_messages_to_send(None, sequence + 1);
    assert!(messages.is_some());
    let messages = messages.unwrap();

    assert_eq!(messages.len(), 1);
    assert_eq!(messages[0].payload, second_message);
}

#[test]
fn resend_message() {
    let mut config = ReliableOrderedChannelConfig::default();
    let resend_time = 200;
    config.message_resend_time = resend_time;
    let now = 1_000;
    let mut channel = ReliableOrderedChannel::new(now, config);
    let mut sequence = 0;

    channel.send_message(first());

    let messages = channel.get_messages_to_send(None, sequence).unwrap();
    sequence += 1;

    assert_eq!(messages.len(), 1);
    assert_eq!(messages[0].payload, first());
    assert_eq!(messages[0].id, 0);

    let messages = channel.get_messages_to_send(None, sequence);
    sequence += 1;

    assert!(messages.is_none());

    channel.update_current_time(now + resend_time);

    let messages = channel.get_messages_to_send(None, sequence).unwrap();

    assert_eq!(messages.len(), 1);
    assert_eq!(messages[0].payload, first());
    assert_eq!(messages[0].id, 0);
}

#[test]
fn default_config_values() {
    let c = ReliableOrderedChannelConfig::default();
    assert_eq!(c.sent_packet_buffer_size, 1024);
    assert_eq!(c.message_send_queue_size, 1024);
    assert_eq!(c.message_receive_queue_size, 1024);
    assert_eq!(c.max_message_per_packet, 256);
    assert_eq!(c.packet_budget_bytes, None);
    assert_eq!(c.message_resend_time, 100);
}

#[test]
fn serialized_size_counts_header_and_payload() {
    assert_eq!(Message::new(0, third(0)).serialized_size_bits(), 176);
    assert_eq!(Message::new(7, vec![]).serialized_size_bits(), 80);
}

#[test]
fn new_channel_from_config() {
    let config = ReliableOrderedChannelConfig::default();
    let mut channel = config.new_channel(5);
    assert!(!channel.has_messages_to_send());
    channel.send_message(first());
    assert!(channel.has_messages_to_send());
}

#[test]
fn ack_twice_is_idempotent() {
    let mut channel = channel_with(ReliableOrderedChannelConfig::default());
    channel.send_message(first());
    channel.send_message(second(1));
    let sent = channel.get_messages_to_send(None, 3).unwrap();
    assert_eq!(sent.len(), 2);
    channel.process_ack(3);
    assert!(!channel.has_messages_to_send());
    channel.process_ack(3);
    assert!(!channel.has_messages_to_send());
    channel.send_message(third(2));
    channel.process_ack(3);
    assert!(channel.has_messages_to_send());
    let sent = channel.get_messages_to_send(None, 4).unwrap();
    assert_eq!(sent.len(), 1);
    assert_eq!(sent[0].id, 2);
}

#[test]
fn ack_of_unknown_packet_does_nothing() {
    let mut channel = channel_with(ReliableOrderedChannelConfig::default());
    channel.send_message(first());
    channel.get_messages_to_send(None, 0).unwrap();
    channel.process_ack(9);
    assert!(channel.has_messages_to_send());
}

#[test]
fn nothing_pending_gives_none() {
    let mut channel = channel_with(ReliableOrderedChannelConfig::default());
    assert!(channel.get_messages_to_send(None, 0).is_none());
    assert!(channel.get_messages_to_send(Some(10_000), 1).is_none());
}

#[test]
fn budget_respected_and_smaller_messages_packed() {
    let mut config = ReliableOrderedChannelConfig::default();
    // Room for 40 bytes: a 22-byte message, then a 14-byte one after a
    // 30-byte one that does not fit.
    config.packet_budget_bytes = Some(40);
    let mut channel = channel_with(config);
    channel.send_message(third(0)); // 22 bytes
    channel.send_message(vec![9; 20]); // 30 bytes
    channel.send_message(first()); // 14 bytes
    let sent = channel.get_messages_to_send(None, 0).unwrap();
    let ids: Vec<u16> = sent.iter().map(|m| m.id).collect();
    assert_eq!(ids, vec![0, 2]);
    let total: u128 = sent.iter().map(|m| m.serialized_size_bits()).sum();
    assert!(total <= 40 * 8);
    let sent = channel.get_messages_to_send(None, 1).unwrap();
    let ids: Vec<u16> = sent.iter().map(|m| m.id).collect();
    assert_eq!(ids, vec![1]);
}

#[test]
fn available_bits_below_configured_budget() {
    let mut config = ReliableOrderedChannelConfig::default();
    config.packet_budget_bytes = Some(1000);
    let mut channel = channel_with(config);
    channel.send_message(first()); // 112 bits
    channel.send_message(first());
    let sent = channel.get_messages_to_send(Some(200), 0).unwrap();
    assert_eq!(sent.len(), 1);
    assert!(channel.get_messages_to_send(Some(100), 1).is_none());
    let sent = channel.get_messages_to_send(Some(112), 2).unwrap();
    assert_eq!(sent.len(), 1);
    assert_eq!(sent[0].id, 1);
}

#[test]
fn message_cap_per_packet() {
    let mut config = ReliableOrderedChannelConfig::default();
    config.max_message_per_packet = 2;
    let mut channel = channel_with(config);
    for i in 0..5u32 {
        channel.send_message(second(i));
    }
    let ids: Vec<u16> = channel.get_messages_to_send(None, 0).unwrap().iter().map(|m| m.id).collect();
    assert_eq!(ids, vec![0, 1]);
    let ids: Vec<u16> = channel.get_messages_to_send(None, 1).unwrap().iter().map(|m| m.id).collect();
    assert_eq!(ids, vec![2, 3]);
    let ids: Vec<u16> = channel.get_messages_to_send(None, 2).unwrap().iter().map(|m| m.id).collect();
    assert_eq!(ids, vec![4]);
}

#[test]
fn resend_gated_until_deadline() {
    let mut config = ReliableOrderedChannelConfig::default();
    config.message_resend_time = 200;
    let mut channel = ReliableOrderedChannel::new(50, config);
    channel.send_message(first());
    assert!(channel.get_messages_to_send(None, 0).is_some());
    channel.update_current_time(249);
    assert!(channel.get_messages_to_send(None, 1).is_none());
    channel.update_current_time(250);
    let again = channel.get_messages_to_send(None, 2).unwrap();
    assert_eq!(again[0].id, 0);
    assert!(channel.get_messages_to_send(None, 3).is_none());
    channel.update_current_time(449);
    assert!(channel.get_messages_to_send(None, 4).is_none());
    channel.update_current_time(450);
    assert!(channel.get_messages_to_send(None, 5).is_some());
}

#[test]
fn receive_waits_for_missing_id() {
    let mut channel = channel_with(ReliableOrderedChannelConfig::default());
    channel.process_messages(vec![Message::new(1, second(1)), Message::new(2, second(2))]);
    assert!(channel.receive_message().is_none());
    channel.process_messages(vec![Message::new(0, second(0))]);
    assert_eq!(channel.receive_message().unwrap(), second(0));
    assert_eq!(channel.receive_message().unwrap(), second(1));
    assert_eq!(channel.receive_message().unwrap(), second(2));
    assert!(channel.receive_message().is_none());
    assert_eq!(channel.num_messages_received(), 3);
}

#[test]
fn duplicate_arrivals_delivered_once() {
    let mut channel = channel_with(ReliableOrderedChannelConfig::default());
    channel.process_messages(vec![Message::new(0, first()), Message::new(0, second(5))]);
    channel.process_messages(vec![Message::new(0, third(5))]);
    assert_eq!(channel.receive_message().unwrap(), first());
    assert!(channel.receive_message().is_none());
    assert_eq!(channel.num_messages_received(), 1);
}

#[test]
fn full_send_capacity_evicts_oldest() {
    let mut config = ReliableOrderedChannelConfig::default();
    config.message_send_queue_size = 2;
    let mut channel = channel_with(config);
    channel.send_message(second(0));
    channel.send_message(second(1));
    channel.send_message(second(2));
    let ids: Vec<u16> = channel.get_messages_to_send(None, 0).unwrap().iter().map(|m| m.id).collect();
    assert_eq!(ids, vec![1]);
}

#[test]
fn full_round_trip() {
    let mut config = ReliableOrderedChannelConfig::default();
    config.packet_budget_bytes = Some(50);
    let mut sender = channel_with(config);
    let mut receiver = channel_with(ReliableOrderedChannelConfig::default());
    let n: u32 = 20;
    for i in 0..n {
        sender.send_message(second(i));
    }
    let mut sequence: u16 = 0;
    while let Some(messages) = sender.get_messages_to_send(None, sequence) {
        // Deliver each packet twice and out of order, as a lossy network may.
        let mut reversed: Vec<Message> = messages.iter().map(|m| Message::new(m.id, m.payload.clone())).collect();
        reversed.reverse();
        receiver.process_messages(reversed);
        receiver.process_messages(messages);
        sender.process_ack(sequence);
        sequence += 1;
    }
    assert!(!sender.has_messages_to_send());
    for i in 0..n {
        assert_eq!(receiver.receive_message().unwrap(), second(i));
    }
    assert!(receiver.receive_message().is_none());
    assert_eq!(receiver.num_messages_received(), n as u64);
    assert_eq!(sender.num_messages_sent(), n as u64);
}
