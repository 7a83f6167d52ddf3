//! The message that a broker publishes for a client whose connection dies.
use vstd::prelude::*;
use crate::codec::enums::QoS;

verus! {

/// The will of a client: a message on a topic, published for it where its
/// connection ends without a DISCONNECT.
#[derive(Debug, Clone, PartialEq)]
pub struct LastWill {
    pub topic: String,
    pub message: String,
    pub qos: QoS,
    pub retain: bool,
}

/// A will, as a mathematical value.
pub struct LastWillView {
    pub topic: Seq<char>,
    pub message: Seq<char>,
    pub qos: QoS,
    pub retain: bool,
}

impl View for LastWill {
    type V = LastWillView;

    open spec fn view(&self) -> LastWillView {
        LastWillView {
            topic: self.topic@,
            message: self.message@,
            qos: self.qos,
            retain: self.retain,
        }
    }
}

impl LastWill {
    /// Another will that says the same.
    pub fn duplicate(&self) -> (w: LastWill)
        ensures
            w@ == self@,
    {
        LastWill {
            topic: self.topic.clone(),
            message: self.message.clone(),
            qos: self.qos,
            retain: self.retain,
        }
    }
}

} // verus!
