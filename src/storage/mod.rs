use vstd::prelude::*;

use crate::identity::{GroupChatId, UserId, UserPair};
use crate::packet::Destination;
use crate::protocol::{Message, MessageId};

pub mod memory_storage;

verus! {

/// Chooses which messages of a room a query returns.
pub trait MessageFilter {
    /// Whether `message` is kept.
    spec fn includes(message: Message) -> bool;

    /// Whether `message` is kept.
    fn include_message(message: &Message) -> (r: bool)
        ensures
            r == Self::includes(*message),
    ;
}

/// Keeps every message.
pub struct AllMessages;

impl MessageFilter for AllMessages {
    open spec fn includes(message: Message) -> bool {
        true
    }

    fn include_message(message: &Message) -> (r: bool) {
        true
    }
}

/// Keeps the messages that have some content.
pub struct NonEmptyMessages;

impl MessageFilter for NonEmptyMessages {
    open spec fn includes(message: Message) -> bool {
        message.content@.len() > 0
    }

    fn include_message(message: &Message) -> (r: bool) {
        !message.content.as_str().is_empty()
    }
}

/// Names a room: a direct conversation by its (sender, recipient) pair, or a
/// group conversation.
#[derive(Debug, PartialEq, Eq)]
pub enum RoomId {
    DM(UserPair),
    Group(GroupChatId),
}

/// The key of a room, over plain values.
pub enum RoomKey {
    DM(Seq<char>, Seq<char>),
    Group(u128),
}

impl RoomId {
    /// The key of this room.
    pub open spec fn key(self) -> RoomKey {
        match self {
            RoomId::DM(pair) => RoomKey::DM(pair.0@, pair.1@),
            RoomId::Group(g) => RoomKey::Group(g.id),
        }
    }
}

impl Clone for RoomId {
    fn clone(&self) -> (r: RoomId)
        ensures
            r == *self,
    {
        match self {
            RoomId::DM(pair) => RoomId::DM((pair.0.clone(), pair.1.clone())),
            RoomId::Group(g) => RoomId::Group(*g),
        }
    }
}

/// The room of a direct conversation from `user` to `destination`.
pub open spec fn room_key_of(user: UserId, destination: Destination) -> RoomKey {
    RoomKey::DM(user@, destination.user()@)
}

impl From<(UserId, Destination)> for RoomId {
    fn from(value: (UserId, Destination)) -> (r: RoomId) {
        let (user, dest) = value;
        match dest {
            Destination::User(recipient) => RoomId::DM((user, recipient)),
        }
    }
}

impl vstd::std_specs::convert::FromSpecImpl<(UserId, Destination)> for RoomId {
    open spec fn obeys_from_spec() -> bool {
        true
    }

    open spec fn from_spec(v: (UserId, Destination)) -> RoomId {
        RoomId::DM((v.0, v.1.user()))
    }
}

/// What can go wrong in message storage.
#[derive(Debug, PartialEq, Eq)]
pub enum MessageDAOError {
    MissingMessageId(MessageId),
    MissingRoomId(RoomId),
}

/// The message that `m` becomes when its content is replaced.
pub open spec fn with_content(m: Message, content: String) -> Message {
    Message { content, ..m }
}

/// The messages of room `key` in `rooms`, none where it does not exist.
pub open spec fn room_or_empty(rooms: Map<RoomKey, Map<MessageId, Message>>, key: RoomKey) -> Map<
    MessageId,
    Message,
> {
    if rooms.contains_key(key) {
        rooms[key]
    } else {
        Map::empty()
    }
}

/// Storage of all rooms.
pub trait MessagesDAO: Sized {
    type RoomDAO: MessageRoomDAO;

    /// The messages of each room that exists, by message id.
    spec fn rooms(&self) -> Map<RoomKey, Map<MessageId, Message>>;

    /// The members of each room that exists.
    spec fn room_members(&self) -> Map<RoomKey, Set<Seq<char>>>;

    /// Stores `message` in the direct room from its sender to `destination`,
    /// creating the room, with those two users as its members, if it is
    /// absent; a message with the same id there is replaced.
    fn add_message(&mut self, message: Message, destination: Destination) -> (r: Result<
        (),
        MessageDAOError,
    >)
        ensures
            r is Ok,
            final(self).rooms() == old(self).rooms().insert(
                room_key_of(message.sender, destination),
                room_or_empty(old(self).rooms(), room_key_of(message.sender, destination)).insert(
                    message.id,
                    message,
                ),
            ),
            final(self).room_members() == if old(self).room_members().contains_key(
                room_key_of(message.sender, destination),
            ) {
                old(self).room_members()
            } else {
                old(self).room_members().insert(
                    room_key_of(message.sender, destination),
                    set![message.sender@, destination.user()@],
                )
            },
    ;

    /// The room named `room_id`.
    fn get_room(&self, room_id: &RoomId) -> (r: Result<&Self::RoomDAO, MessageDAOError>)
        ensures
            self.rooms().contains_key(room_id.key()) <==> r is Ok,
            r is Ok ==> r->Ok_0.messages() == self.rooms()[room_id.key()],
            r is Ok ==> r->Ok_0.members() == self.room_members()[room_id.key()],
            r is Err ==> r->Err_0 == MessageDAOError::MissingRoomId(*room_id),
    ;

    /// The room named `room_id`, to change.
    fn get_room_mut(&mut self, room_id: &RoomId) -> (r: Result<&mut Self::RoomDAO, MessageDAOError>)
        ensures
            old(self).rooms().contains_key(room_id.key()) <==> r is Ok,
            r is Ok ==> {
                &&& r->Ok_0.messages() == old(self).rooms()[room_id.key()]
                &&& final(self).rooms() == old(self).rooms().insert(
                    room_id.key(),
                    final(r->Ok_0).messages(),
                )
                &&& r->Ok_0.members() == old(self).room_members()[room_id.key()]
                &&& final(self).room_members() == old(self).room_members().insert(
                    room_id.key(),
                    final(r->Ok_0).members(),
                )
            },
            r is Err ==> {
                &&& r->Err_0 == MessageDAOError::MissingRoomId(*room_id)
                &&& final(self).rooms() == old(self).rooms()
                &&& final(self).room_members() == old(self).room_members()
            },
    ;
}

/// The messages of one room.
pub trait MessageRoomDAO: Sized {
    /// The messages of the room, by id.
    spec fn messages(&self) -> Map<MessageId, Message>;

    /// The members of the room.
    spec fn members(&self) -> Set<Seq<char>>;

    /// Whether the room is a direct conversation.
    spec fn is_direct(&self) -> bool;

    /// An empty room with the given members.
    fn new(members: Vec<UserId>, is_dm: bool) -> (r: Self)
        ensures
            r.messages() == Map::<MessageId, Message>::empty(),
            r.members() == members@.map_values(|u: UserId| u@).to_set(),
            r.is_direct() == is_dm,
    ;

    /// The messages that `filter` keeps, and only those.
    fn get_messages<F: MessageFilter>(&self, filter: &F) -> (r: Vec<&Message>)
        ensures
            forall|j: int|
                0 <= j < r.len() ==> F::includes(*#[trigger] r[j]) && exists|id: MessageId|
                    self.messages().contains_key(id) && self.messages()[id] == *r[j],
            forall|id: MessageId|
                self.messages().contains_key(id) && F::includes(#[trigger] self.messages()[id])
                    ==> exists|j: int| 0 <= j < r.len() && *r[j] == self.messages()[id],
    ;

    /// Stores `message`, replacing a message with the same id.
    fn add_message(&mut self, message: Message) -> (r: Result<(), MessageDAOError>)
        ensures
            r is Ok,
            final(self).messages() == old(self).messages().insert(message.id, message),
            final(self).members() == old(self).members(),
            final(self).is_direct() == old(self).is_direct(),
    ;

    /// The message `m_id`, to change.
    fn get_message_mut(&mut self, m_id: MessageId) -> (r: Option<&mut Message>)
        ensures
            old(self).messages().contains_key(m_id) <==> r is Some,
            r is Some ==> {
                &&& *r->Some_0 == old(self).messages()[m_id]
                &&& final(self).messages() == old(self).messages().insert(m_id, *final(r->Some_0))
            },
            r is None ==> final(self).messages() == old(self).messages(),
            final(self).members() == old(self).members(),
            final(self).is_direct() == old(self).is_direct(),
    ;

    /// The message `m_id`.
    fn get_message(&self, m_id: MessageId) -> (r: Option<&Message>)
        ensures
            self.messages().contains_key(m_id) <==> r is Some,
            r is Some ==> *r->Some_0 == self.messages()[m_id],
    ;

    /// Replaces the content of message `m_id`; fails where the room holds no
    /// such message.
    fn edit_message(&mut self, m_id: MessageId, new_content: String) -> (r: Result<
        (),
        MessageDAOError,
    >)
        ensures
            old(self).messages().contains_key(m_id) <==> r is Ok,
            r is Ok ==> final(self).messages() == old(self).messages().insert(
                m_id,
                with_content(old(self).messages()[m_id], new_content),
            ),
            r is Err ==> {
                &&& r->Err_0 == MessageDAOError::MissingMessageId(m_id)
                &&& final(self).messages() == old(self).messages()
            },
            final(self).members() == old(self).members(),
            final(self).is_direct() == old(self).is_direct(),
    {
        match self.get_message_mut(m_id) {
            Some(m) => {
                m.content = new_content;
                Ok(())
            },
            None => Err(MessageDAOError::MissingMessageId(m_id)),
        }
    }
}

} // verus!
