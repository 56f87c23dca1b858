use vstd::prelude::*;

use crate::assoc::{
    last_wins, lemma_absent, lemma_last_index, lemma_lookup, lemma_push, lemma_update, none_after,
};
use crate::identity::UserId;
use crate::packet::Destination;
use crate::protocol::{Message, MessageId};
use crate::storage::{
    room_key_of, MessageDAOError, MessageFilter, MessageRoomDAO, MessagesDAO, RoomId, RoomKey,
};

verus! {

/// The messages of a room, a direct conversation or a group, kept in memory.
pub struct MemoryMessageRoom {
    members: Vec<UserId>,
    is_dm: bool,
    messages: Vec<(MessageId, Message)>,
}

/// All rooms, kept in memory.
pub struct MemoryMessageDatabase {
    rooms: Vec<(RoomId, MemoryMessageRoom)>,
}

pub open spec fn message_entry_key() -> spec_fn((MessageId, Message)) -> MessageId {
    |e: (MessageId, Message)| e.0
}

pub open spec fn message_entry_val() -> spec_fn((MessageId, Message)) -> Message {
    |e: (MessageId, Message)| e.1
}

pub open spec fn room_entry_key() -> spec_fn((RoomId, MemoryMessageRoom)) -> RoomKey {
    |e: (RoomId, MemoryMessageRoom)| e.0.key()
}

pub open spec fn room_entry_val() -> spec_fn((RoomId, MemoryMessageRoom)) -> Map<MessageId, Message> {
    |e: (RoomId, MemoryMessageRoom)| e.1.messages()
}

pub open spec fn room_entry_members() -> spec_fn((RoomId, MemoryMessageRoom)) -> Set<Seq<char>> {
    |e: (RoomId, MemoryMessageRoom)| e.1.members()
}

/// The position of the entry for `m_id`, the last one if several hold it.
fn find_message(messages: &Vec<(MessageId, Message)>, m_id: MessageId) -> (r: Option<usize>)
    ensures
        r is Some ==> {
            let i = r->Some_0 as int;
            &&& 0 <= i < messages@.len()
            &&& messages@[i].0 == m_id
            &&& none_after(messages@, message_entry_key(), i, m_id)
        },
        r is None ==> none_after(messages@, message_entry_key(), -1, m_id),
{
    let mut i = messages.len();
    while i > 0
        invariant
            i <= messages@.len(),
            none_after(messages@, message_entry_key(), i as int - 1, m_id),
        decreases i,
    {
        i = i - 1;
        if messages[i].0 == m_id {
            return Some(i);
        }
    }
    None
}

/// Whether two room identifiers name the same room.
fn same_room(a: &RoomId, b: &RoomId) -> (r: bool)
    ensures
        r == (a.key() == b.key()),
{
    match (a, b) {
        (RoomId::DM(p), RoomId::DM(q)) => p.0.same_user(&q.0) && p.1.same_user(&q.1),
        (RoomId::Group(g), RoomId::Group(h)) => g.id == h.id,
        _ => false,
    }
}

impl MemoryMessageRoom {
    /// The members the room was made with.
    pub fn member_ids(&self) -> (r: &Vec<UserId>)
        ensures
            r@.map_values(|u: UserId| u@).to_set() == self.members(),
    {
        &self.members
    }

    /// Whether the room is a direct conversation.
    pub fn is_dm(&self) -> (r: bool)
        ensures
            r == self.is_direct(),
    {
        self.is_dm
    }
}

impl MessageRoomDAO for MemoryMessageRoom {
    closed spec fn messages(&self) -> Map<MessageId, Message> {
        last_wins(self.messages@, message_entry_key(), message_entry_val())
    }

    closed spec fn members(&self) -> Set<Seq<char>> {
        self.members@.map_values(|u: UserId| u@).to_set()
    }

    closed spec fn is_direct(&self) -> bool {
        self.is_dm
    }

    fn new(members: Vec<UserId>, is_dm: bool) -> (r: MemoryMessageRoom) {
        let r = MemoryMessageRoom { members, is_dm, messages: Vec::new() };
        assert(r.messages() == Map::<MessageId, Message>::empty());
        r
    }

    fn get_messages<F: MessageFilter>(&self, filter: &F) -> (r: Vec<&Message>) {
        let mut r: Vec<&Message> = Vec::new();
        let mut i: usize = 0;
        let ghost s = self.messages@;
        let ghost key = message_entry_key();
        let ghost val = message_entry_val();
        while i < self.messages.len()
            invariant
                s == self.messages@,
                key == message_entry_key(),
                val == message_entry_val(),
                i <= s.len(),
                forall|j: int|
                    0 <= j < r.len() ==> F::includes(*#[trigger] r[j]) && exists|id: MessageId|
                        self.messages().contains_key(id) && self.messages()[id] == *r[j],
                forall|k: int|
                    0 <= k < i && none_after(s, key, k, s[k].0) && F::includes(#[trigger] s[k].1)
                        ==> exists|j: int| 0 <= j < r.len() && *r[j] == s[k].1,
            decreases s.len() - i,
        {
            let found = find_message(&self.messages, self.messages[i].0);
            let is_last = match found {
                Some(j) => j == i,
                None => false,
            };
            proof {
                match found {
                    Some(j) => {
                        if j < i {
                            assert(s[i as int].0 != s[j as int].0);
                        } else if j > i {
                            assert(!none_after(s, key, i as int, s[i as int].0));
                        }
                    },
                    None => {
                        assert(s[i as int].0 != s[i as int].0);
                    },
                }
            }
            let m = &self.messages[i].1;
            if is_last && F::include_message(m) {
                proof {
                    lemma_lookup(s, key, val, i as int);
                }
                let ghost r_old = r@;
                r.push(m);
                assert(*r[r.len() - 1] == s[i as int].1);
                assert forall|k: int|
                    0 <= k <= i && none_after(s, key, k, s[k].0) && F::includes(#[trigger] s[k].1)
                        implies exists|j: int| 0 <= j < r.len() && *r[j] == s[k].1 by {
                    if k < i {
                        let j = choose|j: int| 0 <= j < r_old.len() && *r_old[j] == s[k].1;
                        assert(r[j] == r_old[j]);
                    } else {
                        assert(*r[r.len() - 1] == s[k].1);
                    }
                }
                assert(self.messages().contains_key(s[i as int].0) && self.messages()[s[i as int].0]
                    == *r[r.len() - 1]);
            }
            i = i + 1;
        }
        proof {
            assert forall|id: MessageId|
                self.messages().contains_key(id) && F::includes(#[trigger] self.messages()[id])
                    implies exists|j: int| 0 <= j < r.len() && *r[j] == self.messages()[id] by {
                lemma_last_index(s, key, val, id);
                let k = choose|k: int| 0 <= k < s.len() && s[k].0 == id && none_after(s, key, k, id);
                lemma_lookup(s, key, val, k);
            }
        }
        r
    }

    fn add_message(&mut self, message: Message) -> (r: Result<(), MessageDAOError>) {
        let ghost s = self.messages@;
        let ghost id = message.id;
        match find_message(&self.messages, message.id) {
            Some(i) => {
                proof {
                    lemma_update(s, message_entry_key(), message_entry_val(), i as int, (id, message));
                }
                self.messages.set(i, (message.id, message));
            },
            None => {
                proof {
                    lemma_push(s, message_entry_key(), message_entry_val(), (id, message));
                }
                self.messages.push((message.id, message));
            },
        }
        Ok(())
    }

    fn get_message_mut(&mut self, m_id: MessageId) -> (r: Option<&mut Message>) {
        let ghost s = self.messages@;
        match find_message(&self.messages, m_id) {
            Some(i) => {
                proof {
                    lemma_lookup(s, message_entry_key(), message_entry_val(), i as int);
                    assert forall|m: Message| #[trigger]
                        last_wins(s.update(i as int, (m_id, m)), message_entry_key(), message_entry_val())
                            == last_wins(s, message_entry_key(), message_entry_val()).insert(m_id, m) by {
                        lemma_update(s, message_entry_key(), message_entry_val(), i as int, (m_id, m));
                    }
                }
                Some(&mut self.messages[i].1)
            },
            None => {
                proof {
                    lemma_absent(s, message_entry_key(), message_entry_val(), m_id);
                }
                None
            },
        }
    }

    fn get_message(&self, m_id: MessageId) -> (r: Option<&Message>) {
        let ghost s = self.messages@;
        match find_message(&self.messages, m_id) {
            Some(i) => {
                proof {
                    lemma_lookup(s, message_entry_key(), message_entry_val(), i as int);
                }
                Some(&self.messages[i].1)
            },
            None => {
                proof {
                    lemma_absent(s, message_entry_key(), message_entry_val(), m_id);
                }
                None
            },
        }
    }
}

/// The position of the entry for the room `room_id`, the last one if
/// several hold it.
fn find_room(rooms: &Vec<(RoomId, MemoryMessageRoom)>, room_id: &RoomId) -> (r: Option<usize>)
    ensures
        r is Some ==> {
            let i = r->Some_0 as int;
            &&& 0 <= i < rooms@.len()
            &&& rooms@[i].0.key() == room_id.key()
            &&& none_after(rooms@, room_entry_key(), i, room_id.key())
        },
        r is None ==> none_after(rooms@, room_entry_key(), -1, room_id.key()),
{
    let mut i = rooms.len();
    while i > 0
        invariant
            i <= rooms@.len(),
            none_after(rooms@, room_entry_key(), i as int - 1, room_id.key()),
        decreases i,
    {
        i = i - 1;
        if same_room(&rooms[i].0, room_id) {
            return Some(i);
        }
    }
    None
}

impl MemoryMessageDatabase {
    /// A database with no rooms.
    pub fn new() -> (r: MemoryMessageDatabase)
        ensures
            r.rooms() == Map::<RoomKey, Map<MessageId, Message>>::empty(),
            r.room_members() == Map::<RoomKey, Set<Seq<char>>>::empty(),
    {
        let r = MemoryMessageDatabase { rooms: Vec::new() };
        assert(r.rooms() == Map::<RoomKey, Map<MessageId, Message>>::empty());
        assert(r.room_members() == Map::<RoomKey, Set<Seq<char>>>::empty());
        r
    }
}

impl MessagesDAO for MemoryMessageDatabase {
    type RoomDAO = MemoryMessageRoom;

    closed spec fn rooms(&self) -> Map<RoomKey, Map<MessageId, Message>> {
        last_wins(self.rooms@, room_entry_key(), room_entry_val())
    }

    closed spec fn room_members(&self) -> Map<RoomKey, Set<Seq<char>>> {
        last_wins(self.rooms@, room_entry_key(), room_entry_members())
    }

    fn add_message(&mut self, message: Message, destination: Destination) -> (r: Result<
        (),
        MessageDAOError,
    >) {
        let ghost s = self.rooms@;
        let ghost key = room_entry_key();
        let ghost val = room_entry_val();
        let ghost m = message;
        let ghost mem = room_entry_members();
        let recipient = destination.to_user();
        let room_id = RoomId::DM((message.sender.clone(), recipient.clone()));
        assert(room_id.key() == room_key_of(message.sender, destination));
        match find_room(&self.rooms, &room_id) {
            Some(i) => {
                proof {
                    lemma_lookup(s, key, val, i as int);
                    lemma_lookup(s, key, mem, i as int);
                }
                let room = &mut self.rooms[i].1;
                let _ = room.add_message(message);
                proof {
                    lemma_update(s, key, val, i as int, self.rooms@[i as int]);
                    lemma_update(s, key, mem, i as int, self.rooms@[i as int]);
                    assert(last_wins(s, key, mem).insert(room_id.key(), s[i as int].1.members()) =~= last_wins(s, key, mem));
                }
            },
            None => {
                proof {
                    lemma_absent(s, key, val, room_id.key());
                    lemma_absent(s, key, mem, room_id.key());
                }
                let members = vec![message.sender.clone(), recipient];
                let ghost gmembers = members@;
                let mut room = MemoryMessageRoom::new(members, true);
                let _ = room.add_message(message);
                let ghost entry = (room_id, room);
                self.rooms.push((room_id, room));
                proof {
                    lemma_push(s, key, val, entry);
                    lemma_push(s, key, mem, entry);
                    let f = |u: UserId| u@;
                    assert(gmembers.map_values(f) =~= seq![m.sender@, destination.user()@]);
                    assert(gmembers.map_values(f).to_set() =~= set![m.sender@, destination.user()@]) by {
                        let t = gmembers.map_values(f);
                        assert forall|x: Seq<char>| t.to_set().contains(x) <==> set![m.sender@, destination.user()@].contains(x) by {
                            if x == m.sender@ {
                                assert(t[0] == x);
                            }
                            if x == destination.user()@ {
                                assert(t[1] == x);
                            }
                        }
                    }
                }
            },
        }
        Ok(())
    }

    fn get_room(&self, room_id: &RoomId) -> (r: Result<&MemoryMessageRoom, MessageDAOError>) {
        let ghost s = self.rooms@;
        match find_room(&self.rooms, room_id) {
            Some(i) => {
                proof {
                    lemma_lookup(s, room_entry_key(), room_entry_val(), i as int);
                    lemma_lookup(s, room_entry_key(), room_entry_members(), i as int);
                }
                Ok(&self.rooms[i].1)
            },
            None => {
                proof {
                    lemma_absent(s, room_entry_key(), room_entry_val(), room_id.key());
                }
                Err(MessageDAOError::MissingRoomId(room_id.clone()))
            },
        }
    }

    fn get_room_mut(&mut self, room_id: &RoomId) -> (r: Result<&mut MemoryMessageRoom, MessageDAOError>) {
        let ghost s = self.rooms@;
        let ghost key = room_entry_key();
        let ghost val = room_entry_val();
        match find_room(&self.rooms, room_id) {
            Some(i) => {
                proof {
                    lemma_lookup(s, key, val, i as int);
                    lemma_lookup(s, key, room_entry_members(), i as int);
                    assert forall|room: MemoryMessageRoom| #[trigger]
                        last_wins(s.update(i as int, (s[i as int].0, room)), key, val)
                            == last_wins(s, key, val).insert(room_id.key(), room.messages()) by {
                        lemma_update(s, key, val, i as int, (s[i as int].0, room));
                    }
                    assert forall|room: MemoryMessageRoom| #[trigger]
                        last_wins(s.update(i as int, (s[i as int].0, room)), key, room_entry_members())
                            == last_wins(s, key, room_entry_members()).insert(room_id.key(), room.members()) by {
                        lemma_update(s, key, room_entry_members(), i as int, (s[i as int].0, room));
                    }
                }
                Ok(&mut self.rooms[i].1)
            },
            None => {
                proof {
                    lemma_absent(s, key, val, room_id.key());
                }
                Err(MessageDAOError::MissingRoomId(room_id.clone()))
            },
        }
    }
}

} // verus!
