use message_server::identity::{make_group_chat_id, make_user_id};
use message_server::packet::{
    get_current_time, make_server_packet, make_uuid, make_webpacket, stamp_web_packet, Destination,
    Packet, RoutingInfo, SPacket, WebDest, WebPacket,
};
use message_server::protocol::Draft;

fn web(content: Packet, dest: &str, sender: Option<&str>, timestamp: Option<u64>) -> WebPacket {
    WebPacket {
        content,
        destination: WebDest::User(dest.to_string()),
        sender: sender.map(|s| s.to_string()),
        timestamp,
    }
}

#[test]
fn web_round_trip_keeps_content_and_destination() {
    let content = Packet::Edit { uuid: 12, content: "abc".to_string(), editing_draft: false };
    let w = web(content.clone(), "bob", None, None);
    let s = stamp_web_packet(w, make_user_id("amy".to_string()), 99);
    assert_eq!(s.sender.to_string(), "amy");
    assert_eq!(s.time, 99);
    assert_eq!(s.destination, Destination::User(make_user_id("bob".to_string())));
    let back = make_webpacket(s);
    assert_eq!(back, web(content, "bob", Some("amy"), Some(99)));
}

#[test]
fn web_round_trip_with_sender_and_time_set() {
    let w = web(Packet::StartDraft, "bob", Some("amy"), Some(7));
    let s = stamp_web_packet(w, make_user_id("amy".to_string()), 7);
    assert_eq!(make_webpacket(s), web(Packet::StartDraft, "bob", Some("amy"), Some(7)));
}

#[test]
fn server_round_trip() {
    let p = SPacket {
        sender: make_user_id("amy".to_string()),
        destination: Destination::User(make_user_id("bob".to_string())),
        time: 31,
        packet: Packet::DiscardDraft { uuid: 4 },
    };
    let w = make_webpacket(p.clone());
    let q = stamp_web_packet(w, p.sender.clone(), p.time);
    assert_eq!(q, p);
}

#[test]
fn server_packet_ignores_client_sender() {
    let w = web(Packet::StartDraft, "bob", Some("mallory"), Some(1));
    let s = make_server_packet(w, make_user_id("amy".to_string()));
    assert_eq!(s.sender, make_user_id("amy".to_string()));
    assert!(s.time > 1);
}

#[test]
fn routing_info() {
    let p = SPacket {
        sender: make_user_id("amy".to_string()),
        destination: Destination::User(make_user_id("bob".to_string())),
        time: 0,
        packet: Packet::StartDraft,
    };
    let (dest, from) = p.get_to_from();
    assert_eq!(dest, Destination::User(make_user_id("bob".to_string())));
    assert_eq!(from, make_user_id("amy".to_string()));
}

#[test]
fn user_id_names() {
    let u = make_user_id("carol".to_string());
    assert_eq!(u.to_string(), "carol");
    assert!(u.same_user(&make_user_id("carol".to_string())));
    assert!(!u.same_user(&make_user_id("Carol".to_string())));
    assert_eq!(u.clone(), u);
}

#[test]
fn fresh_ids_and_clock() {
    let a = make_uuid();
    let b = make_uuid();
    assert_ne!(a, b);
    assert_eq!((a >> 76) & 0xf, 4);
    assert_ne!(make_group_chat_id(), make_group_chat_id());
    let t0 = get_current_time();
    let t1 = get_current_time();
    assert!(t0 > 1_500_000_000_000_000);
    assert!(t1 >= t0);
}

#[test]
fn draft_into_message() {
    let d = Draft { id: 3, content: "x".to_string(), start_time: 4 };
    let m = d.into_message(make_user_id("amy".to_string()), 9);
    assert_eq!(m.id, 3);
    assert_eq!(m.content, "x");
    assert_eq!(m.start_time, 4);
    assert_eq!(m.end_time, 9);
    assert_eq!(m.sender, make_user_id("amy".to_string()));
}
