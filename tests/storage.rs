use message_server::identity::{make_group_chat_id, make_user_id, UserId};
use message_server::message_server::ServerError;
use message_server::packet::Destination;
use message_server::protocol::Message;
use message_server::storage::memory_storage::{MemoryMessageDatabase, MemoryMessageRoom};
use message_server::storage::{
    AllMessages, MessageDAOError, MessageRoomDAO, MessagesDAO, NonEmptyMessages, RoomId,
};

fn user(name: &str) -> UserId {
    make_user_id(name.to_string())
}

fn msg(from: &str, id: u128, content: &str) -> Message {
    Message { sender: user(from), content: content.to_string(), id, start_time: 1, end_time: 2 }
}

#[test]
fn add_creates_room_and_upserts() {
    let mut db = MemoryMessageDatabase::new();
    let dm = RoomId::DM((user("a"), user("b")));
    assert_eq!(db.get_room(&dm).err(), Some(MessageDAOError::MissingRoomId(RoomId::DM((user("a"), user("b"))))));
    db.add_message(msg("a", 1, "one"), Destination::User(user("b"))).unwrap();
    db.add_message(msg("a", 2, "two"), Destination::User(user("b"))).unwrap();
    db.add_message(msg("a", 1, "uno"), Destination::User(user("b"))).unwrap();
    let room = db.get_room(&dm).unwrap();
    assert_eq!(room.get_message(1).unwrap().content, "uno");
    assert_eq!(room.get_message(2).unwrap().content, "two");
    assert!(room.get_message(3).is_none());
    // rooms are keyed by (sender, recipient)
    assert!(db.get_room(&RoomId::DM((user("b"), user("a")))).is_err());
}

#[test]
fn edit_message_in_room() {
    let mut room = MemoryMessageRoom::new(vec![user("a"), user("b")], true);
    room.add_message(msg("a", 9, "before")).unwrap();
    room.edit_message(9, "after".to_string()).unwrap();
    assert_eq!(room.get_message(9).unwrap().content, "after");
    assert_eq!(room.edit_message(8, "x".to_string()), Err(MessageDAOError::MissingMessageId(8)));
}

#[test]
fn edit_through_room_mut() {
    let mut db = MemoryMessageDatabase::new();
    db.add_message(msg("a", 4, "four"), Destination::User(user("b"))).unwrap();
    let dm = RoomId::DM((user("a"), user("b")));
    db.get_room_mut(&dm).unwrap().edit_message(4, "FOUR".to_string()).unwrap();
    assert_eq!(db.get_room(&dm).unwrap().get_message(4).unwrap().content, "FOUR");
    let group = RoomId::Group(make_group_chat_id());
    assert!(db.get_room_mut(&group).is_err());
}

#[test]
fn filtered_messages() {
    let mut room = MemoryMessageRoom::new(vec![user("a")], false);
    room.add_message(msg("a", 1, "")).unwrap();
    room.add_message(msg("a", 2, "hello")).unwrap();
    room.add_message(msg("a", 3, "greetings")).unwrap();
    room.add_message(msg("a", 2, "")).unwrap();
    let got = room.get_messages(&NonEmptyMessages);
    let ids: Vec<u128> = got.iter().map(|m| m.id).collect();
    assert_eq!(ids, vec![3]);
    let mut all: Vec<u128> = room.get_messages(&AllMessages).iter().map(|m| m.id).collect();
    all.sort();
    assert_eq!(all, vec![1, 2, 3]);
}

#[test]
fn room_id_from_pair() {
    let r = RoomId::from((user("a"), Destination::User(user("b"))));
    assert_eq!(r, RoomId::DM((user("a"), user("b"))));
}

#[test]
fn server_error_from_storage_error() {
    let e = ServerError::from(MessageDAOError::MissingMessageId(5));
    assert_eq!(e, ServerError::DAOError(MessageDAOError::MissingMessageId(5)));
}

#[test]
fn new_dm_room_has_both_members() {
    let mut db = MemoryMessageDatabase::new();
    db.add_message(msg("a", 1, "one"), Destination::User(user("b"))).unwrap();
    db.add_message(msg("a", 2, "two"), Destination::User(user("b"))).unwrap();
    let room = db.get_room(&RoomId::DM((user("a"), user("b")))).unwrap();
    assert!(room.is_dm());
    let names: Vec<String> = room.member_ids().iter().map(|u| u.to_string()).collect();
    assert_eq!(names, vec!["a".to_string(), "b".to_string()]);
}
