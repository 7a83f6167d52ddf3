//! Core of an MQTT publish/subscribe broker.
//!
//! `codec` is the wire format of the MQTT control packets: the primitive
//! encodings, the property table, one assembler per packet type and the
//! frame reader that cuts packets out of a growing byte buffer. `router`
//! is the routing engine: a per-topic commit log, the subscriptions of each
//! connection and the state machine that moves packets between them.
pub mod codec;
pub mod router;
