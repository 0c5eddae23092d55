use room_relay::client::{is_leave_command, parse_menu_choice, should_display, MenuChoice};
use room_relay::frame::{
    create_frame, join_frame, leave_frame, parse_frame, room_msg_frame, Command,
};
use room_relay::registry::{Delivery, RoomRegistry};
use room_relay::router::Session;

fn s(x: &str) -> String {
    x.to_string()
}

fn sorted(d: &Delivery) -> Vec<u64> {
    let mut v = d.recipients.clone();
    v.sort();
    v
}

#[test]
fn scenario_create_message_join_leave() {
    let mut reg = RoomRegistry::new();
    let mut a = Session::new(1);
    let mut b = Session::new(2);

    assert!(a.handle_frame(&mut reg, "CREATE_ROOM:lobby").is_none());
    let d = a.handle_frame(&mut reg, "ROOM_MSG:lobby:alice:hello").unwrap();
    assert_eq!(d.payload, "alice : hello");
    assert_eq!(sorted(&d), vec![1]);

    assert!(b.handle_frame(&mut reg, "JOIN_ROOM:lobby").is_none());
    let d = a.handle_frame(&mut reg, "ROOM_MSG:lobby:alice:hi bob").unwrap();
    assert_eq!(d.payload, "alice : hi bob");
    assert_eq!(sorted(&d), vec![1, 2]);

    assert!(b.handle_frame(&mut reg, "LEAVE_ROOM:lobby").is_none());
    let d = a.handle_frame(&mut reg, "ROOM_MSG:lobby:alice:anyone?").unwrap();
    assert_eq!(d.payload, "alice : anyone?");
    assert_eq!(sorted(&d), vec![1]);
}

#[test]
fn garbage_frame_changes_nothing() {
    let mut reg = RoomRegistry::new();
    let mut a = Session::new(7);
    a.handle_frame(&mut reg, "CREATE_ROOM:lobby");
    assert!(a.handle_frame(&mut reg, "GARBAGE").is_none());
    assert_eq!(a.current_room(), Some(s("lobby")));
    assert_eq!(reg.member_count(&s("lobby")), 1);
    assert!(!reg.has_room(&s("GARBAGE")));
}

#[test]
fn room_message_missing_fields_changes_nothing() {
    let mut reg = RoomRegistry::new();
    let mut a = Session::new(7);
    assert!(a.handle_frame(&mut reg, "ROOM_MSG:onlyroom").is_none());
    assert!(a.handle_frame(&mut reg, "ROOM_MSG:room:user").is_none());
    assert_eq!(a.current_room(), None);
    assert!(!reg.has_room(&s("onlyroom")));
    assert!(parse_frame("ROOM_MSG:onlyroom").is_none());
    assert!(parse_frame("GARBAGE").is_none());
    assert!(parse_frame("").is_none());
}

#[test]
fn leave_removes_exactly_one_member_once() {
    let mut reg = RoomRegistry::new();
    let mut a = Session::new(1);
    let mut b = Session::new(2);
    a.handle_frame(&mut reg, "CREATE_ROOM:r");
    b.handle_frame(&mut reg, "JOIN_ROOM:r");
    assert_eq!(reg.member_count(&s("r")), 2);
    b.handle_frame(&mut reg, "LEAVE_ROOM: r");
    assert_eq!(reg.member_count(&s("r")), 1);
    assert!(!reg.is_member(&s("r"), 2));
    assert_eq!(b.current_room(), None);
    b.handle_frame(&mut reg, "LEAVE_ROOM:r");
    assert_eq!(reg.member_count(&s("r")), 1);
    let d = a.handle_frame(&mut reg, "ROOM_MSG:r:alice:still here").unwrap();
    assert_eq!(sorted(&d), vec![1]);
}

#[test]
fn broadcast_reaches_only_its_room() {
    let mut reg = RoomRegistry::new();
    let mut a = Session::new(1);
    let mut b = Session::new(2);
    let mut c = Session::new(3);
    a.handle_frame(&mut reg, "JOIN_ROOM:red");
    b.handle_frame(&mut reg, "JOIN_ROOM:red");
    c.handle_frame(&mut reg, "JOIN_ROOM:blue");
    let d = c.handle_frame(&mut reg, "ROOM_MSG:red:carol:psst").unwrap();
    assert_eq!(sorted(&d), vec![1, 2]);
    assert_eq!(d.payload, "carol : psst");
    let d = a.handle_frame(&mut reg, "ROOM_MSG:nowhere:alice:echo").unwrap();
    assert!(d.recipients.is_empty());
    assert!(!reg.has_room(&s("nowhere")));
}

#[test]
fn message_text_keeps_its_colons() {
    let mut reg = RoomRegistry::new();
    let mut a = Session::new(1);
    a.handle_frame(&mut reg, "CREATE_ROOM:lobby");
    let d = a.handle_frame(&mut reg, "ROOM_MSG:lobby:alice:time is 10:30").unwrap();
    assert_eq!(d.payload, "alice : time is 10:30");
    let d = a.handle_frame(&mut reg, "ROOM_MSG:lobby::").unwrap();
    assert_eq!(d.payload, " : ");
}

#[test]
fn close_removes_session_from_its_room() {
    let mut reg = RoomRegistry::new();
    let mut a = Session::new(1);
    let mut b = Session::new(2);
    a.handle_frame(&mut reg, "CREATE_ROOM:lobby");
    b.handle_frame(&mut reg, "JOIN_ROOM:lobby");
    b.close(&mut reg);
    assert_eq!(b.current_room(), None);
    assert!(!reg.is_member(&s("lobby"), 2));
    assert_eq!(reg.member_count(&s("lobby")), 1);
    assert!(reg.has_room(&s("lobby")));
}

#[test]
fn two_sessions_create_the_same_room() {
    let mut reg = RoomRegistry::new();
    let mut a = Session::new(10);
    let mut b = Session::new(20);
    a.handle_frame(&mut reg, "CREATE_ROOM:dup");
    b.handle_frame(&mut reg, "CREATE_ROOM:dup");
    assert_eq!(reg.member_count(&s("dup")), 2);
    let mut m = reg.members(&s("dup"));
    m.sort();
    assert_eq!(m, vec![10, 20]);
}

#[test]
fn joining_another_room_leaves_the_first() {
    let mut reg = RoomRegistry::new();
    let mut a = Session::new(5);
    a.handle_frame(&mut reg, "CREATE_ROOM:one");
    a.handle_frame(&mut reg, "JOIN_ROOM:two");
    assert!(!reg.is_member(&s("one"), 5));
    assert!(reg.is_member(&s("two"), 5));
    assert_eq!(a.current_room(), Some(s("two")));
    a.handle_frame(&mut reg, "JOIN_ROOM:two");
    assert_eq!(reg.member_count(&s("two")), 1);
    a.handle_frame(&mut reg, "LEAVE_ROOM:one");
    assert_eq!(a.current_room(), Some(s("two")));
    assert!(reg.is_member(&s("two"), 5));
}

#[test]
fn registry_operations_are_idempotent() {
    let mut reg = RoomRegistry::new();
    let r = s("room");
    reg.ensure_room(&r);
    reg.ensure_room(&r);
    assert!(reg.has_room(&r));
    assert_eq!(reg.member_count(&r), 0);
    reg.add_member(&r, 3);
    reg.add_member(&r, 3);
    assert_eq!(reg.member_count(&r), 1);
    reg.remove_member(&r, 4);
    reg.remove_member(&s("other"), 3);
    assert_eq!(reg.member_count(&r), 1);
    assert!(!reg.has_room(&s("other")));
    reg.remove_member(&r, 3);
    assert_eq!(reg.member_count(&r), 0);
    reg.add_member(&s("auto"), 9);
    assert!(reg.is_member(&s("auto"), 9));
    reg.remove_everywhere(9);
    assert!(!reg.is_member(&s("auto"), 9));
    assert!(reg.has_room(&s("auto")));
}

#[test]
fn parse_each_command() {
    match parse_frame("CREATE_ROOM:lobby") {
        Some(Command::CreateRoom { room }) => assert_eq!(room, "lobby"),
        _ => panic!("expected a create command"),
    }
    match parse_frame("JOIN_ROOM: lobby \t") {
        Some(Command::JoinRoom { room }) => assert_eq!(room, "lobby"),
        _ => panic!("expected a join command"),
    }
    match parse_frame("LEAVE_ROOM: lobby") {
        Some(Command::LeaveRoom { room }) => assert_eq!(room, "lobby"),
        _ => panic!("expected a leave command"),
    }
    match parse_frame("ROOM_MSG: lobby :bob:a:b") {
        Some(Command::RoomMsg { room, username, text }) => {
            assert_eq!(room, "lobby");
            assert_eq!(username, "bob");
            assert_eq!(text, "a:b");
        }
        _ => panic!("expected a room message"),
    }
    match parse_frame("CREATE_ROOM:") {
        Some(Command::CreateRoom { room }) => assert_eq!(room, ""),
        _ => panic!("expected a create command"),
    }
    assert!(parse_frame("create_room:lobby").is_none());
    assert!(parse_frame("CREATE_ROOM").is_none());
}

#[test]
fn parse_unicode_fields() {
    match parse_frame("ROOM_MSG:café:zoë:héllo ✓") {
        Some(Command::RoomMsg { room, username, text }) => {
            assert_eq!(room, "café");
            assert_eq!(username, "zoë");
            assert_eq!(text, "héllo ✓");
        }
        _ => panic!("expected a room message"),
    }
}

#[test]
fn encoded_frames() {
    assert_eq!(create_frame("lobby"), "CREATE_ROOM:lobby");
    assert_eq!(join_frame("lobby"), "JOIN_ROOM:lobby");
    assert_eq!(leave_frame("lobby"), "LEAVE_ROOM:lobby");
    assert_eq!(room_msg_frame("lobby", "alice", "hi: there"), "ROOM_MSG:lobby:alice:hi: there");
    match parse_frame(&room_msg_frame("lobby", "alice", "hi: there")) {
        Some(Command::RoomMsg { room, username, text }) => {
            assert_eq!(room, "lobby");
            assert_eq!(username, "alice");
            assert_eq!(text, "hi: there");
        }
        _ => panic!("expected a room message"),
    }
}

#[test]
fn client_menu_and_commands() {
    match parse_menu_choice("  CREATE lobby \n") {
        Some(MenuChoice::Create(r)) => assert_eq!(r, "lobby"),
        _ => panic!("expected create"),
    }
    match parse_menu_choice("JOIN games") {
        Some(MenuChoice::Join(r)) => assert_eq!(r, "games"),
        _ => panic!("expected join"),
    }
    assert!(parse_menu_choice("JOINgames").is_none());
    assert!(parse_menu_choice("hello").is_none());
    assert!(is_leave_command(" /leave\n"));
    assert!(!is_leave_command("/leave now"));
    assert!(!is_leave_command("/leav"));
    assert!(should_display("alice : hello"));
    assert!(!should_display("ROOM_MSG:lobby:alice:hello"));
}

#[test]
fn session_identity() {
    let a = Session::new(42);
    assert_eq!(a.id(), 42);
    assert_eq!(a.current_room(), None);
}

#[test]
fn registry_broadcast_lists_members_once() {
    let mut reg = RoomRegistry::new();
    reg.add_member(&s("r"), 1);
    reg.add_member(&s("r"), 2);
    reg.add_member(&s("r"), 1);
    reg.add_member(&s("q"), 3);
    let d = reg.broadcast(&s("r"), s("x : y"));
    assert_eq!(sorted(&d), vec![1, 2]);
    assert_eq!(d.payload, "x : y");
    assert!(reg.broadcast(&s("none"), s("z")).recipients.is_empty());
}
