//! Topic names, topic filters and the rule by which a filter matches a
//! topic.
//!
//! A topic is a string of levels separated by `/`. In a filter the level
//! `+` stands for any one level and the level `#` for all the levels that
//! remain. Whether a filter matches a topic is decided by `rumq_core`.
use vstd::prelude::*;
use vstd::utf8::encode_utf8;
use crate::codec::enums::QoS;

verus! {

pub const PLUS: u8 = 43;

pub const HASH: u8 = 35;

/// A topic filter with the quality of service asked for it.
#[derive(Debug, Clone, PartialEq)]
pub struct SubscribeTopic {
    pub topic_path: String,
    pub qos: QoS,
}

/// Whether the filter matches the topic, as `rumq_core` decides it: level
/// by level, with `+` in the filter for any one level and `#` for all the
/// levels that remain. The rule is that crate's; here it has a name only.
pub uninterp spec fn topic_match(topic: Seq<char>, filter: Seq<char>) -> bool;

/// The topic is one that the matching rule can be asked about: it is empty
/// or begins with a character of one byte.
pub open spec fn admitted(topic: Seq<char>) -> bool {
    encode_utf8(topic).len() == 0 || encode_utf8(topic)[0] < 128
}

/// Whether the string holds one of the wildcard characters.
pub open spec fn has_wildcard_bytes(s: Seq<u8>) -> bool {
    s.contains(PLUS) || s.contains(HASH)
}

/// Whether the string holds `+` or `#`.
pub fn has_wildcards(s: &str) -> (b: bool)
    ensures
        b == has_wildcard_bytes(encode_utf8(s@)),
{
    let bytes = s.as_bytes();
    let mut i: usize = 0;
    while i < bytes.len()
        invariant
            i <= bytes@.len(),
            bytes@ == encode_utf8(s@),
            forall|k: int| 0 <= k < i ==> bytes@[k] != PLUS && bytes@[k] != HASH,
        decreases bytes@.len() - i,
    {
        if bytes[i] == PLUS || bytes[i] == HASH {
            assert(bytes@[i as int] == PLUS || bytes@[i as int] == HASH);
            return true;
        }
        i = i + 1;
    }
    false
}

/// `rumq_core::mqtt4::matches`: whether the filter matches the topic. The
/// result is a function of the two strings and is named by `topic_match`.
/// The call looks at the first byte of the topic as a string of its own,
/// and panics where that byte is only the start of a longer character.
#[verifier::external_body]
fn rumq_matches(topic: &str, filter: &str) -> (b: bool)
    requires
        admitted(topic@),
    ensures
        b == topic_match(topic@, filter@),
{
    rumq_core::mqtt4::matches(topic, filter)
}

/// Whether the filter matches the topic, for a topic that the rule can be
/// asked about, and nothing for any other topic.
pub fn matches(topic: &str, filter: &str) -> (r: Option<bool>)
    ensures
        r == (if admitted(topic@) {
            Some(topic_match(topic@, filter@))
        } else {
            None
        }),
{
    let bytes = topic.as_bytes();
    if bytes.len() == 0 || bytes[0] < 128 {
        Some(rumq_matches(topic, filter))
    } else {
        None
    }
}

} // verus!
