use message_server::identity::{make_user_id, UserId};
use message_server::message_server::{MessageServer, ServerError};
use message_server::packet::{Destination, Packet, SPacket};
use message_server::storage::memory_storage::MemoryMessageDatabase;
use message_server::storage::{MessageRoomDAO, MessagesDAO, RoomId};

type Server = MessageServer<MemoryMessageDatabase>;

fn server() -> Server {
    MessageServer::new(MemoryMessageDatabase::new())
}

fn user(name: &str) -> UserId {
    make_user_id(name.to_string())
}

fn to(name: &str) -> Destination {
    Destination::User(user(name))
}

fn packet(from: &str, dest: &str, time: u64, packet: Packet) -> SPacket {
    SPacket { sender: user(from), destination: to(dest), time, packet }
}

#[test]
fn channel() {
    // A session whose receiving end was dropped: the next packet for it is
    // kept in the backlog and the session is torn down.
    let mut s = server();
    let rx_b = s.register_at(user("B"), 1).unwrap();
    drop(rx_b);
    let r = s.process_message_at(
        packet("A", "B", 2, Packet::NewMessage { uuid: 3, content: "x".to_string(), start_time: 0, end_time: 0 }),
        2,
        0,
    );
    assert_eq!(r.unwrap(), false);
    assert_eq!(s.backlog_len(&user("B")), 1);
    assert!(!s.is_registered(&user("B")));
}

#[test]
fn relay_through_backlog() {
    let mut s = server();
    let msg = packet("A", "B", 5, Packet::NewMessage { uuid: 1, content: "hi".to_string(), start_time: 0, end_time: 0 });
    assert_eq!(s.process_message_at(msg, 5, 0).unwrap(), false);
    assert_eq!(s.backlog_len(&user("B")), 1);
    let mut rx = s.register_at(user("B"), 6).unwrap();
    let first = rx.try_recv().unwrap();
    assert_eq!(first.sender, user("A"));
    match first.packet {
        Packet::NewMessage { content, .. } => assert_eq!(content, "hi"),
        other => panic!("unexpected {:?}", other),
    }
    assert_eq!(s.backlog_len(&user("B")), 0);
    assert!(rx.try_recv().is_err());
}

#[test]
fn draft_lifecycle() {
    let mut s = server();
    let mut rx_a = s.register_at(user("A"), 1).unwrap();
    let mut rx_b = s.register_at(user("B"), 1).unwrap();

    assert_eq!(s.process_message_at(packet("A", "B", 10, Packet::StartDraft), 10, 42).unwrap(), true);
    let to_b = rx_b.try_recv().unwrap();
    assert_eq!(to_b, packet("A", "B", 10, Packet::NewDraft { uuid: 42, start_time: 10 }));
    let to_a = rx_a.try_recv().unwrap();
    assert_eq!(to_a, packet("A", "A", 10, Packet::NewDraft { uuid: 42, start_time: 10 }));

    let edit = Packet::Edit { uuid: 42, content: "he".to_string(), editing_draft: true };
    s.process_message_at(packet("A", "B", 11, edit.clone()), 12, 0).unwrap();
    assert_eq!(rx_b.try_recv().unwrap(), packet("A", "B", 11, edit));
    assert!(rx_a.try_recv().is_err());
    assert_eq!(s.current_draft(&user("A"), &to("B")).unwrap().content, "he");

    let end = Packet::EndDraft { uuid: 42, content: "hello".to_string() };
    s.process_message_at(packet("A", "B", 13, end.clone()), 14, 0).unwrap();
    assert_eq!(rx_b.try_recv().unwrap(), packet("A", "B", 14, end.clone()));
    assert_eq!(rx_a.try_recv().unwrap(), packet("A", "A", 14, end));
    assert!(s.current_draft(&user("A"), &to("B")).is_none());

    // The stored message is the finalized draft.
    let room = s.storage().get_room(&RoomId::DM((user("A"), user("B")))).unwrap();
    let m = room.get_message(42).unwrap();
    assert_eq!(m.id, 42);
    assert_eq!(m.sender, user("A"));
    assert_eq!(m.content, "he");
    assert_eq!(m.start_time, 10);
    assert_eq!(m.end_time, 14);
}

#[test]
fn catch_up_on_late_join() {
    let mut s = server();
    let _rx_a = s.register_at(user("A"), 0).unwrap();
    s.process_message_at(packet("A", "B", 1, Packet::StartDraft), 1, 7).unwrap();
    let edit = Packet::Edit { uuid: 7, content: "typing…".to_string(), editing_draft: true };
    s.process_message_at(packet("A", "B", 2, edit.clone()), 2, 0).unwrap();
    assert_eq!(s.current_draft(&user("A"), &to("B")).unwrap().content, "typing…");
    assert_eq!(s.backlog_len(&user("B")), 2);

    let mut rx_b = s.register_at(user("B"), 3).unwrap();
    assert_eq!(rx_b.try_recv().unwrap(), packet("A", "B", 1, Packet::NewDraft { uuid: 7, start_time: 1 }));
    assert_eq!(rx_b.try_recv().unwrap(), packet("A", "B", 2, edit.clone()));
    assert_eq!(rx_b.try_recv().unwrap(), packet("A", "B", 3, Packet::NewDraft { uuid: 7, start_time: 1 }));
    assert_eq!(rx_b.try_recv().unwrap(), packet("A", "B", 3, edit));
    assert!(rx_b.try_recv().is_err());
}

#[test]
fn disconnect_mid_draft() {
    let mut s = server();
    let _rx_a = s.register_at(user("A"), 0).unwrap();
    let mut rx_b = s.register_at(user("B"), 0).unwrap();
    s.process_message_at(packet("A", "B", 1, Packet::StartDraft), 1, 9).unwrap();
    assert_eq!(rx_b.try_recv().unwrap().packet, Packet::NewDraft { uuid: 9, start_time: 1 });

    s.deregister_at(&user("A"), 5);
    assert!(!s.is_registered(&user("A")));
    assert_eq!(rx_b.try_recv().unwrap(), packet("A", "B", 5, Packet::DiscardDraft { uuid: 9 }));
    assert!(s.current_draft(&user("A"), &to("B")).is_none());

    // A later edit of that id is a finalized-message edit: nothing is stored,
    // and the packet is still forwarded.
    let edit = Packet::Edit { uuid: 9, content: "late".to_string(), editing_draft: false };
    s.process_message_at(packet("A", "B", 6, edit.clone()), 6, 0).unwrap();
    assert_eq!(rx_b.try_recv().unwrap(), packet("A", "B", 6, edit));
    assert!(s.storage().get_room(&RoomId::DM((user("A"), user("B")))).is_err());
}

#[test]
fn duplicate_registration() {
    let mut s = server();
    let mut rx_a = s.register_at(user("A"), 0).unwrap();
    match s.register_at(user("A"), 1) {
        Err(e) => assert_eq!(e, ServerError::AlreadyInUse(user("A"))),
        Ok(_) => panic!("second session accepted"),
    }
    assert!(s.is_registered(&user("A")));
    let msg = packet("B", "A", 2, Packet::NewMessage { uuid: 5, content: "yo".to_string(), start_time: 1, end_time: 2 });
    assert_eq!(s.process_message_at(msg.clone(), 2, 0).unwrap(), true);
    assert_eq!(rx_a.try_recv().unwrap(), msg);
}

#[test]
fn send_failure_triggers_cleanup() {
    let mut s = server();
    let rx_b = s.register_at(user("B"), 0).unwrap();
    let mut rx_c = s.register_at(user("C"), 0).unwrap();
    s.process_message_at(packet("B", "C", 1, Packet::StartDraft), 1, 77).unwrap();
    assert_eq!(rx_c.try_recv().unwrap().packet, Packet::NewDraft { uuid: 77, start_time: 1 });
    drop(rx_b);

    let msg = packet("A", "B", 2, Packet::NewMessage { uuid: 8, content: "hey".to_string(), start_time: 0, end_time: 0 });
    assert_eq!(s.process_message_at(msg, 3, 0).unwrap(), false);
    assert_eq!(s.backlog_len(&user("B")), 1);
    assert!(!s.is_registered(&user("B")));
    assert!(s.current_draft(&user("B"), &to("C")).is_none());
    assert_eq!(rx_c.try_recv().unwrap(), packet("B", "C", 3, Packet::DiscardDraft { uuid: 77 }));
}

#[test]
fn one_draft_per_key() {
    let mut s = server();
    s.process_message_at(packet("A", "B", 1, Packet::StartDraft), 1, 100).unwrap();
    s.process_message_at(packet("A", "B", 2, Packet::StartDraft), 2, 200).unwrap();
    let d = s.current_draft(&user("A"), &to("B")).unwrap();
    assert_eq!(d.id, 200);
    assert_eq!(d.start_time, 2);
    assert_eq!(d.content, "");
    // an edit naming the replaced draft does not touch the current one
    let edit = Packet::Edit { uuid: 100, content: "old".to_string(), editing_draft: true };
    s.process_message_at(packet("A", "B", 3, edit), 3, 0).unwrap();
    assert_eq!(s.current_draft(&user("A"), &to("B")).unwrap().content, "");
}

#[test]
fn backlog_keeps_order() {
    let mut s = server();
    for i in 0..5u128 {
        let msg = packet("A", "B", i as u64, Packet::NewMessage { uuid: i, content: format!("m{}", i), start_time: 0, end_time: 0 });
        s.process_message_at(msg, i as u64, 0).unwrap();
    }
    assert_eq!(s.backlog_len(&user("B")), 5);
    let mut rx = s.register_at(user("B"), 9).unwrap();
    for i in 0..5u128 {
        assert_eq!(rx.try_recv().unwrap().packet, Packet::NewMessage { uuid: i, content: format!("m{}", i), start_time: 0, end_time: 0 });
    }
    let later = packet("A", "B", 10, Packet::DiscardDraft { uuid: 1 });
    s.process_message_at(later.clone(), 10, 0).unwrap();
    assert_eq!(rx.try_recv().unwrap(), later);
    assert!(rx.try_recv().is_err());
}

#[test]
fn end_without_draft_still_echoes() {
    let mut s = server();
    let mut rx_a = s.register_at(user("A"), 0).unwrap();
    let end = Packet::EndDraft { uuid: 3, content: "c".to_string() };
    assert_eq!(s.process_message_at(packet("A", "B", 1, end.clone()), 2, 0).unwrap(), false);
    assert_eq!(rx_a.try_recv().unwrap(), packet("A", "A", 2, end));
    assert_eq!(s.backlog_len(&user("B")), 1);
    assert!(s.storage().get_room(&RoomId::DM((user("A"), user("B")))).is_err());
}

#[test]
fn edit_of_stored_message() {
    let mut s = server();
    s.process_message_at(packet("A", "B", 1, Packet::StartDraft), 1, 5).unwrap();
    s.process_message_at(packet("A", "B", 2, Packet::Edit { uuid: 5, content: "draft".to_string(), editing_draft: true }), 2, 0).unwrap();
    s.process_message_at(packet("A", "B", 3, Packet::EndDraft { uuid: 5, content: "draft".to_string() }), 3, 0).unwrap();
    s.process_message_at(packet("A", "B", 4, Packet::Edit { uuid: 5, content: "fixed".to_string(), editing_draft: false }), 4, 0).unwrap();
    let room = s.storage().get_room(&RoomId::DM((user("A"), user("B")))).unwrap();
    assert_eq!(room.get_message(5).unwrap().content, "fixed");
    // a draft-marked edit of a stored message changes nothing
    s.process_message_at(packet("A", "B", 5, Packet::Edit { uuid: 5, content: "nope".to_string(), editing_draft: true }), 5, 0).unwrap();
    let room = s.storage().get_room(&RoomId::DM((user("A"), user("B")))).unwrap();
    assert_eq!(room.get_message(5).unwrap().content, "fixed");
}

#[test]
fn deregister_is_idempotent() {
    let mut s = server();
    let _rx = s.register_at(user("A"), 0).unwrap();
    s.deregister_at(&user("A"), 1);
    s.deregister_at(&user("A"), 2);
    assert!(!s.is_registered(&user("A")));
    s.deregister(&user("Z"));
    assert!(!s.is_registered(&user("Z")));
}

#[test]
fn live_clock_entry_points() {
    let mut s = server();
    let mut rx_b = s.register(user("B")).unwrap();
    assert!(s.register(user("B")).is_err());
    s.process_message(packet("A", "B", 0, Packet::StartDraft)).unwrap();
    let p = rx_b.try_recv().unwrap();
    let id = match p.packet {
        Packet::NewDraft { uuid, start_time } => {
            assert_eq!(start_time, p.time);
            assert!(p.time > 1_500_000_000_000_000);
            uuid
        }
        other => panic!("unexpected {:?}", other),
    };
    s.deregister(&user("A"));
    assert_eq!(rx_b.try_recv().unwrap().packet, Packet::DiscardDraft { uuid: id });
}

#[test]
fn discard_notice_is_best_effort() {
    let mut s = server();
    let _rx_a = s.register_at(user("A"), 0).unwrap();
    let rx_b = s.register_at(user("B"), 0).unwrap();
    let mut rx_c = s.register_at(user("C"), 0).unwrap();
    s.process_message_at(packet("A", "B", 1, Packet::StartDraft), 1, 11).unwrap();
    s.process_message_at(packet("A", "C", 2, Packet::StartDraft), 2, 12).unwrap();
    s.process_message_at(packet("B", "C", 3, Packet::StartDraft), 3, 22).unwrap();
    drop(rx_b);
    assert_eq!(rx_c.try_recv().unwrap().packet, Packet::NewDraft { uuid: 12, start_time: 2 });
    assert_eq!(rx_c.try_recv().unwrap().packet, Packet::NewDraft { uuid: 22, start_time: 3 });

    s.deregister_at(&user("A"), 5);
    // The notice to B is lost with B's dropped receiver: nothing is kept and
    // only A's session and drafts go.
    assert!(!s.is_registered(&user("A")));
    assert!(s.is_registered(&user("B")));
    assert_eq!(s.backlog_len(&user("B")), 0);
    assert!(s.current_draft(&user("A"), &to("B")).is_none());
    assert!(s.current_draft(&user("A"), &to("C")).is_none());
    assert_eq!(s.current_draft(&user("B"), &to("C")).unwrap().id, 22);
    assert_eq!(rx_c.try_recv().unwrap(), packet("A", "C", 5, Packet::DiscardDraft { uuid: 12 }));
    assert!(rx_c.try_recv().is_err());
}

#[test]
fn register_after_new_always_succeeds() {
    let mut s = server();
    let mut rx = s.register_at(user("Q"), 1).unwrap();
    assert!(s.is_registered(&user("Q")));
    assert!(rx.try_recv().is_err());
}
