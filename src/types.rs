//! Identifiers and message headers shared by membership and dissemination.

use vstd::prelude::*;

verus! {

/// A 32-byte message identifier.
pub type MessageId = [u8; 32];

/// Compares two 32-byte identifiers byte by byte.
pub fn bytes32_eq(a: &[u8; 32], b: &[u8; 32]) -> (r: bool)
    ensures
        r == (*a == *b),
{
    let mut i: usize = 0;
    while i < 32
        invariant
            0 <= i <= 32,
            forall|j: int| 0 <= j < i ==> a@[j] == b@[j],
        decreases 32 - i,
    {
        if a[i] != b[i] {
            return false;
        }
        i = i + 1;
    }
    assert(*a =~= *b);
    true
}

/// Identifier of a peer: 32 bytes derived from its public signing key.
#[derive(Clone, Copy, Debug, Hash)]
pub struct PeerId {
    pub id: [u8; 32],
}

impl PeerId {
    pub fn new(id: [u8; 32]) -> (r: PeerId)
        ensures
            r.id == id,
    {
        PeerId { id }
    }

    pub fn as_bytes(&self) -> (r: &[u8; 32])
        ensures
            *r == self.id,
    {
        &self.id
    }
}

impl PartialEq for PeerId {
    fn eq(&self, other: &PeerId) -> (r: bool) {
        bytes32_eq(&self.id, &other.id)
    }
}

impl vstd::std_specs::cmp::PartialEqSpecImpl for PeerId {
    open spec fn obeys_eq_spec() -> bool {
        true
    }

    open spec fn eq_spec(&self, other: &PeerId) -> bool {
        self.id == other.id
    }
}

impl Eq for PeerId {
}

/// Identifier of a topic: 32 bytes, a deterministic hash of the topic's name.
#[derive(Clone, Copy, Debug, Hash)]
pub struct TopicId {
    pub id: [u8; 32],
}

impl TopicId {
    pub fn new(id: [u8; 32]) -> (r: TopicId)
        ensures
            r.id == id,
    {
        TopicId { id }
    }

    pub fn as_bytes(&self) -> (r: &[u8; 32])
        ensures
            *r == self.id,
    {
        &self.id
    }
}

impl PartialEq for TopicId {
    fn eq(&self, other: &TopicId) -> (r: bool) {
        bytes32_eq(&self.id, &other.id)
    }
}

impl vstd::std_specs::cmp::PartialEqSpecImpl for TopicId {
    open spec fn obeys_eq_spec() -> bool {
        true
    }

    open spec fn eq_spec(&self, other: &TopicId) -> bool {
        self.id == other.id
    }
}

impl Eq for TopicId {
}

/// Kinds of gossip messages.
#[derive(Clone, Copy, Debug, PartialEq, Eq, Structural)]
pub enum MessageKind {
    Eager,
    IHave,
    IWant,
    Prune,
    Graft,
    Ping,
    Ack,
    Join,
    Shuffle,
    ShuffleReply,
    ForwardJoin,
    Disconnect,
}

/// Header carried by every gossip message.
#[derive(Clone, Copy, Debug)]
pub struct MessageHeader {
    pub version: u8,
    pub topic: TopicId,
    pub msg_id: MessageId,
    pub kind: MessageKind,
    pub hop: u8,
    pub ttl: u8,
}

/// Logical stream a frame travels on.
#[derive(Clone, Copy, Debug, PartialEq, Eq, Structural)]
pub enum StreamType {
    Membership,
    PubSub,
    Bulk,
}

/// The wire byte of each message kind.
pub open spec fn kind_byte(k: MessageKind) -> u8 {
    match k {
        MessageKind::Eager => 0,
        MessageKind::IHave => 1,
        MessageKind::IWant => 2,
        MessageKind::Prune => 3,
        MessageKind::Graft => 4,
        MessageKind::Ping => 5,
        MessageKind::Ack => 6,
        MessageKind::Join => 7,
        MessageKind::Shuffle => 8,
        MessageKind::ShuffleReply => 9,
        MessageKind::Disconnect => 10,
        MessageKind::ForwardJoin => 11,
    }
}

impl MessageKind {
    /// The wire byte of this kind.
    pub fn to_byte(&self) -> (r: u8)
        ensures
            r == kind_byte(*self),
    {
        match self {
            MessageKind::Eager => 0,
            MessageKind::IHave => 1,
            MessageKind::IWant => 2,
            MessageKind::Prune => 3,
            MessageKind::Graft => 4,
            MessageKind::Ping => 5,
            MessageKind::Ack => 6,
            MessageKind::Join => 7,
            MessageKind::Shuffle => 8,
            MessageKind::ShuffleReply => 9,
            MessageKind::Disconnect => 10,
            MessageKind::ForwardJoin => 11,
        }
    }

    /// The kind a wire byte stands for, if any.
    pub fn from_byte(b: u8) -> (r: Option<MessageKind>)
        ensures
            match r {
                Some(k) => kind_byte(k) == b,
                None => b > 11,
            },
    {
        if b == 0 {
            Some(MessageKind::Eager)
        } else if b == 1 {
            Some(MessageKind::IHave)
        } else if b == 2 {
            Some(MessageKind::IWant)
        } else if b == 3 {
            Some(MessageKind::Prune)
        } else if b == 4 {
            Some(MessageKind::Graft)
        } else if b == 5 {
            Some(MessageKind::Ping)
        } else if b == 6 {
            Some(MessageKind::Ack)
        } else if b == 7 {
            Some(MessageKind::Join)
        } else if b == 8 {
            Some(MessageKind::Shuffle)
        } else if b == 9 {
            Some(MessageKind::ShuffleReply)
        } else if b == 10 {
            Some(MessageKind::Disconnect)
        } else if b == 11 {
            Some(MessageKind::ForwardJoin)
        } else {
            None
        }
    }
}

/// Kinds and their wire bytes correspond one to one.
pub proof fn lemma_kind_byte_injective(a: MessageKind, b: MessageKind)
    ensures
        kind_byte(a) == kind_byte(b) ==> a == b,
{
}

/// The stream-kind byte that precedes every frame.
pub open spec fn stream_byte(s: StreamType) -> u8 {
    match s {
        StreamType::Membership => 0,
        StreamType::PubSub => 1,
        StreamType::Bulk => 2,
    }
}

impl StreamType {
    /// The stream-kind byte of this stream.
    pub fn to_byte(&self) -> (r: u8)
        ensures
            r == stream_byte(*self),
    {
        match self {
            StreamType::Membership => 0,
            StreamType::PubSub => 1,
            StreamType::Bulk => 2,
        }
    }

    /// The stream a stream-kind byte stands for, if any.
    pub fn from_byte(b: u8) -> (r: Option<StreamType>)
        ensures
            match r {
                Some(s) => stream_byte(s) == b,
                None => b > 2,
            },
    {
        if b == 0 {
            Some(StreamType::Membership)
        } else if b == 1 {
            Some(StreamType::PubSub)
        } else if b == 2 {
            Some(StreamType::Bulk)
        } else {
            None
        }
    }
}

} // verus!
