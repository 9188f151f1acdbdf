//! A reliable, ordered message channel over an unreliable packet transport.
//!
//! Messages carry 16-bit wrapping ids. Outgoing messages are staged until a
//! packet that carried them is acknowledged, and are resent on a timer;
//! incoming messages are staged and handed out strictly in id order.
pub mod sequence_buffer;
pub mod message;
pub mod reliable;
pub mod guarantees;
