use vstd::prelude::*;

use crate::identity::{make_user_id, UserId};
use crate::protocol::{MessageId, Timestamp};

verus! {

// ------------------------- Web packets -----------------------------

/// A packet as it travels on the client stream. `sender` and `timestamp`
/// are only filled in on the way to a client.
#[derive(Debug, PartialEq, Eq)]
pub struct WebPacket {
    pub content: Packet,
    pub destination: WebDest,
    pub sender: Option<String>,
    pub timestamp: Option<Timestamp>,
}

/// Where a web packet is headed, by user name.
#[derive(Debug, PartialEq, Eq)]
pub enum WebDest {
    User(String),
}

// ----------------------------- Common usage ----------------------------

/// What a packet says.
#[derive(Debug, PartialEq, Eq)]
pub enum Packet {
    /// A completed message, with no draft phase.
    NewMessage { uuid: MessageId, content: String, start_time: Timestamp, end_time: Timestamp },
    /// A client asks for a new draft towards the destination.
    StartDraft,
    /// The server names a draft and the time it started.
    NewDraft { uuid: MessageId, start_time: Timestamp },
    /// Finalizes a draft.
    EndDraft { uuid: MessageId, content: String },
    /// Abandons a draft.
    DiscardDraft { uuid: MessageId },
    /// Replaces the content of a draft (`editing_draft`) or of a stored message.
    Edit { uuid: MessageId, content: String, editing_draft: bool },
}

// ----------------------- Server packets -------------------------

/// A packet with its authenticated sender and the time the server took it in.
#[derive(Debug, PartialEq, Eq)]
pub struct SPacket {
    pub sender: UserId,
    pub destination: Destination,
    pub time: Timestamp,
    pub packet: Packet,
}

/// How a server packet is routed.
#[derive(Debug, Hash)]
pub enum Destination {
    User(UserId),
}

impl Destination {
    /// The user a packet with this destination is delivered to.
    pub open spec fn user(self) -> UserId {
        match self {
            Destination::User(u) => u,
        }
    }

    /// The user a packet with this destination is delivered to.
    pub fn to_user(&self) -> (r: UserId)
        ensures
            r == self.user(),
    {
        match self {
            Destination::User(u) => u.clone(),
        }
    }
}

impl Clone for Destination {
    fn clone(&self) -> (r: Destination)
        ensures
            r == *self,
    {
        match self {
            Destination::User(u) => Destination::User(u.clone()),
        }
    }
}

impl PartialEq for Destination {
    fn eq(&self, other: &Destination) -> (r: bool) {
        match (self, other) {
            (Destination::User(a), Destination::User(b)) => a.same_user(b),
        }
    }
}

impl vstd::std_specs::cmp::PartialEqSpecImpl for Destination {
    open spec fn obeys_eq_spec() -> bool {
        true
    }

    open spec fn eq_spec(&self, other: &Destination) -> bool {
        self.user()@ == other.user()@
    }
}

impl Eq for Destination {
}

impl Clone for Packet {
    fn clone(&self) -> (r: Packet)
        ensures
            r == *self,
    {
        match self {
            Packet::NewMessage { uuid, content, start_time, end_time } => Packet::NewMessage {
                uuid: *uuid,
                content: content.clone(),
                start_time: *start_time,
                end_time: *end_time,
            },
            Packet::StartDraft => Packet::StartDraft,
            Packet::NewDraft { uuid, start_time } => Packet::NewDraft {
                uuid: *uuid,
                start_time: *start_time,
            },
            Packet::EndDraft { uuid, content } => Packet::EndDraft {
                uuid: *uuid,
                content: content.clone(),
            },
            Packet::DiscardDraft { uuid } => Packet::DiscardDraft { uuid: *uuid },
            Packet::Edit { uuid, content, editing_draft } => Packet::Edit {
                uuid: *uuid,
                content: content.clone(),
                editing_draft: *editing_draft,
            },
        }
    }
}

impl Clone for SPacket {
    fn clone(&self) -> (r: SPacket)
        ensures
            r == *self,
    {
        SPacket {
            sender: self.sender.clone(),
            destination: self.destination.clone(),
            time: self.time,
            packet: self.packet.clone(),
        }
    }
}

impl SPacket {
    /// The user this packet is delivered to.
    pub open spec fn to(self) -> Seq<char> {
        self.destination.user()@
    }
}

/// Relies on std::time::SystemTime::elapsed, from the Unix epoch: the
/// wall-clock time in microseconds (zero where the clock reads earlier than
/// the epoch). Nothing is known of which value comes back.
#[verifier::external_body]
pub fn get_current_time() -> Timestamp {
    match std::time::UNIX_EPOCH.elapsed() {
        Ok(d) => d.as_micros() as Timestamp,
        Err(_) => 0,
    }
}

/// Relies on uuid::Uuid::new_v4 and uuid::Uuid::as_u128: a random version 4
/// UUID, returned as its 128-bit value. Nothing is known of which one comes back.
#[verifier::external_body]
pub fn make_uuid() -> MessageId {
    uuid::Uuid::new_v4().as_u128()
}

/// `p` is the server packet made from `w` with `sender` and `time` attached.
pub open spec fn is_server_packet_of(w: WebPacket, sender: UserId, time: Timestamp, p: SPacket) -> bool {
    &&& p.sender == sender
    &&& p.time == time
    &&& p.packet == w.content
    &&& p.to() == w.destination->User_0@
}

/// `w` is the web packet that presents `p` to a client.
pub open spec fn is_web_packet_of(p: SPacket, w: WebPacket) -> bool {
    &&& w.content == p.packet
    &&& w.destination->User_0@ == p.to()
    &&& w.sender is Some && w.sender->Some_0@ == p.sender@
    &&& w.timestamp == Some(p.time)
}

/// Attaches the authenticated `sender` and the intake `time` to a web packet;
/// the packet's own sender and timestamp are ignored.
pub fn stamp_web_packet(webpacket: WebPacket, sender: UserId, time: Timestamp) -> (r: SPacket)
    ensures
        is_server_packet_of(webpacket, sender, time, r),
{
    let destination = match &webpacket.destination {
        WebDest::User(uid) => Destination::User(make_user_id(uid.clone())),
    };
    SPacket { sender, time, destination, packet: webpacket.content }
}

/// Attaches the authenticated `sender` and the current time to a web packet.
pub fn make_server_packet(webpacket: WebPacket, sender: UserId) -> (r: SPacket)
    ensures
        exists|time: Timestamp| is_server_packet_of(webpacket, sender, time, r),
{
    let time = get_current_time();
    stamp_web_packet(webpacket, sender, time)
}

/// Presents a server packet to a client, with its sender and timestamp.
pub fn make_webpacket(spacket: SPacket) -> (r: WebPacket)
    ensures
        is_web_packet_of(spacket, r),
{
    let destination = match spacket.destination {
        Destination::User(uid) => WebDest::User(uid.to_string()),
    };
    WebPacket {
        destination,
        sender: Some(spacket.sender.to_string()),
        timestamp: Some(spacket.time),
        content: spacket.packet,
    }
}

/// Turning a web packet into a server packet and back keeps its content and
/// destination and carries the attached sender and time; a web packet that
/// already held that sender and time comes back as it was.
pub proof fn lemma_web_round_trip(w: WebPacket, sender: UserId, time: Timestamp, p: SPacket, w2: WebPacket)
    requires
        is_server_packet_of(w, sender, time, p),
        is_web_packet_of(p, w2),
    ensures
        w2.content == w.content,
        w2.destination->User_0@ == w.destination->User_0@,
        w2.sender is Some && w2.sender->Some_0@ == sender@,
        w2.timestamp == Some(time),
        w.sender is Some && w.sender->Some_0@ == sender@ && w.timestamp == Some(time) ==> {
            &&& w2.sender->Some_0@ == w.sender->Some_0@
            &&& w2.timestamp == w.timestamp
        },
{
}

/// Turning a server packet into a web packet and back, with the packet's own
/// sender and time attached, gives the same packet.
pub proof fn lemma_server_round_trip(p: SPacket, w: WebPacket, p2: SPacket)
    requires
        is_web_packet_of(p, w),
        is_server_packet_of(w, p.sender, p.time, p2),
    ensures
        p2.sender == p.sender,
        p2.time == p.time,
        p2.packet == p.packet,
        p2.to() == p.to(),
{
}

/// Routing information of a packet.
pub trait RoutingInfo {
    /// Where the packet goes and who sent it.
    fn get_to_from(&self) -> (Destination, UserId);
}

impl RoutingInfo for SPacket {
    fn get_to_from(&self) -> (r: (Destination, UserId))
        ensures
            r == (self.destination, self.sender),
    {
        (self.destination.clone(), self.sender.clone())
    }
}

} // verus!
