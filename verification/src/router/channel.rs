//! The channel on which the router sends to a connection.
//!
//! The sender is that of a bounded `tokio` channel. Whether a message can
//! be sent depends on the other end, so nothing is claimed of the outcome.
use vstd::prelude::*;
use std::collections::VecDeque;
use tokio::sync::mpsc::error::TrySendError;
use tokio::sync::mpsc::Sender;
use crate::codec::packet::Packet;
use crate::codec::publish::Publish;

verus! {

/// `tokio::sync::mpsc::Sender`, which is opaque here: only its name
/// is known.
#[verifier::external_type_specification]
#[verifier::external_body]
#[verifier::reject_recursive_types(T)]
pub struct ExSender<T>(Sender<T>);

/// What the router sends to a connection.
#[derive(Debug, PartialEq)]
pub enum Outgoing {
    /// One packet.
    Packet(Packet),
    /// A batch of packets.
    Packets(Vec<Packet>),
    /// The publishes that an earlier connection of the client left
    /// unacknowledged.
    Pending(VecDeque<Publish>),
}

/// How an attempt to send ended.
#[derive(Debug, Clone, Copy, PartialEq, Eq, Structural)]
pub enum SendOutcome {
    /// The channel took the message.
    Sent,
    /// The channel is full: the receiver is slow.
    Full,
    /// The receiver is gone.
    Closed,
}

/// `Sender::try_send`: hands the message to the channel without waiting.
/// The outcome is the channel's: sent, full or closed.
#[verifier::external_body]
pub(crate) fn try_send(tx: &Sender<Outgoing>, message: Outgoing) -> SendOutcome {
    match tx.try_send(message) {
        Ok(()) => SendOutcome::Sent,
        Err(TrySendError::Full(_)) => SendOutcome::Full,
        Err(TrySendError::Closed(_)) => SendOutcome::Closed,
    }
}

} // verus!
