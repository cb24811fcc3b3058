use actix_web::body::to_bytes;
use actix_web::test::TestRequest;
use actix_web::{web, FromRequest, HttpResponse};
use actix_ws::Session;
use actix_wsb::broadcaster::Broadcaster;
use actix_wsb::connection::Connection;
use actix_wsb::room::Room;

/// A websocket session on a test request, with the response whose body
/// carries what the session sends.
fn open_session() -> (HttpResponse, Session) {
    let (req, mut pl) = TestRequest::get()
        .insert_header(("upgrade", "websocket"))
        .insert_header(("connection", "upgrade"))
        .insert_header(("sec-websocket-version", "13"))
        .insert_header(("sec-websocket-key", "dGhlIHNhbXBsZSBub25jZQ=="))
        .to_http_parts();
    let body = actix_web::rt::System::new()
        .block_on(web::Payload::from_request(&req, &mut pl))
        .unwrap();
    let (resp, session, _stream) = actix_ws::handle(&req, body).unwrap();
    (resp, session)
}

/// Everything a response's body carried, once all its sessions are gone.
async fn sent(resp: HttpResponse) -> Vec<u8> {
    let body = resp.into_body();
    match to_bytes(body).await {
        Ok(b) => b.to_vec(),
        Err(_) => Vec::new(),
    }
}

fn has_text_frame(bytes: &[u8], text: &str) -> bool {
    let mut frame = vec![0x81u8, text.len() as u8];
    frame.extend_from_slice(text.as_bytes());
    bytes.windows(frame.len()).any(|w| w == frame.as_slice())
}

fn ids(room: &Room) -> Vec<String> {
    room.connectors.iter().map(|c| c.id.clone()).collect()
}

fn s(x: &str) -> String {
    x.to_string()
}

#[test]
fn handle_room_twice_gives_the_same_room() {
    let mut b = Broadcaster::default();
    let (_ra, a) = open_session();
    b.handle_room(&s("r")).add_connection(&s("a"), a);
    let again = b.handle_room(&s("r"));
    assert_eq!(again.id, "r");
    assert_eq!(ids(again), vec![s("a")]);
    assert_eq!(b.rooms.len(), 1);
}

#[test]
fn handle_room_creates_an_empty_room_last() {
    let mut b = Broadcaster::default();
    b.handle_room(&s("one"));
    let r = b.handle_room(&s("two"));
    assert_eq!(r.id, "two");
    assert!(r.connectors.is_empty());
    let names: Vec<String> = b.rooms.iter().map(|r| r.id.clone()).collect();
    assert_eq!(names, vec![s("one"), s("two")]);
}

#[test]
fn add_connection_twice_keeps_the_first_session() {
    let (ra, a) = open_session();
    let (rb, b) = open_session();
    let mut room = Room::new(s("room"));
    room.add_connection(&s("c"), a);
    room.add_connection(&s("c"), b);
    assert_eq!(ids(&room), vec![s("c")]);
    actix_web::rt::System::new().block_on(async move {
        let mut session = room.connectors[0].session.clone();
        assert!(session.text("first").await.is_ok());
        drop(session);
        drop(room);
        assert!(has_text_frame(&sent(ra).await, "first"));
        assert!(!has_text_frame(&sent(rb).await, "first"));
    });
}

#[test]
fn remove_connection_takes_it_from_the_first_room_only() {
    let mut b = Broadcaster::default();
    let (_r1, x1) = open_session();
    let (_r2, x2) = open_session();
    let (_r3, y) = open_session();
    b.join(&s("room1"), &s("x"), x1);
    b.join(&s("room1"), &s("y"), y);
    b.join(&s("room2"), &s("x"), x2);
    assert!(b.remove_connection(s("x")).is_some());
    assert_eq!(ids(&b.rooms[0]), vec![s("y")]);
    assert_eq!(ids(&b.rooms[1]), vec![s("x")]);
    assert!(b.remove_connection(s("x")).is_some());
    assert!(b.rooms[1].connectors.is_empty());
    assert!(b.remove_connection(s("x")).is_none());
    assert_eq!(b.rooms.len(), 2);
}

#[test]
fn remove_connection_hands_back_the_session() {
    let mut b = Broadcaster::default();
    let (ra, a) = open_session();
    b.join(&s("room"), &s("a"), a);
    let session = b.remove_connection(s("a")).unwrap();
    actix_web::rt::System::new().block_on(async move {
        let mut session = session;
        assert!(session.text("bye").await.is_ok());
        drop(session);
        drop(b);
        assert!(has_text_frame(&sent(ra).await, "bye"));
    });
}

#[test]
fn broadcast_reaches_the_others_when_one_send_fails() {
    let (r1, c1) = open_session();
    let (r2, c2) = open_session();
    let (r3, c3) = open_session();
    drop(r2);
    let mut room = Room::new(s("room"));
    room.add_connection(&s("one"), c1);
    room.add_connection(&s("two"), c2);
    room.add_connection(&s("three"), c3);
    let targets = room.recipients();
    assert_eq!(targets, vec![0, 1, 2]);
    actix_web::rt::System::new().block_on(async move {
        let mut results = Vec::new();
        for i in targets {
            results.push(room.connectors[i].session.text("msg").await.is_ok());
        }
        assert_eq!(results, vec![true, false, true]);
        drop(room);
        assert!(has_text_frame(&sent(r1).await, "msg"));
        assert!(has_text_frame(&sent(r3).await, "msg"));
    });
}

#[test]
fn recipients_of_an_empty_room() {
    let room = Room::new(s("empty"));
    assert!(room.recipients().is_empty());
    assert!(room.recipients_if(|_c: &Connection| true).is_empty());
}

#[test]
fn recipients_if_and_if_not_split_the_room() {
    let mut room = Room::new(s("room"));
    for name in ["a", "b", "c", "d"] {
        let (_r, x) = open_session();
        room.add_connection(&s(name), x);
    }
    let odd = |c: &Connection| c.id == "a" || c.id == "c";
    assert_eq!(room.recipients_if(odd), vec![0, 2]);
    assert_eq!(room.recipients_if_not(odd), vec![1, 3]);
}

#[test]
fn remove_empty_rooms_keeps_occupied_rooms_unchanged() {
    let mut b = Broadcaster::default();
    let (_ra, a) = open_session();
    let (_rb, bb) = open_session();
    b.handle_room(&s("empty1"));
    b.join(&s("full1"), &s("a"), a);
    b.handle_room(&s("empty2"));
    b.join(&s("full2"), &s("b"), bb);
    b.remove_empty_rooms();
    let names: Vec<String> = b.rooms.iter().map(|r| r.id.clone()).collect();
    assert_eq!(names, vec![s("full1"), s("full2")]);
    assert_eq!(ids(&b.rooms[0]), vec![s("a")]);
    assert_eq!(ids(&b.rooms[1]), vec![s("b")]);
    b.remove_empty_rooms();
    assert_eq!(b.rooms.len(), 2);
}

#[test]
fn remove_empty_rooms_on_an_empty_registry() {
    let mut b = Broadcaster::default();
    b.remove_empty_rooms();
    assert!(b.rooms.is_empty());
}

#[test]
fn two_members_both_receive_a_broadcast() {
    let mut b = Broadcaster::default();
    let (ra, a) = open_session();
    let (rb, bb) = open_session();
    b.join(&s("room1"), &s("alice"), a);
    b.join(&s("room1"), &s("bob"), bb);
    assert!(b.check(&s("room1")));
    assert!(!b.check(&s("room2")));
    actix_web::rt::System::new().block_on(async move {
        let room = b.room(&s("room1"));
        for i in room.recipients() {
            let _ = room.connectors[i].session.text("hi").await;
        }
        drop(b);
        assert!(has_text_frame(&sent(ra).await, "hi"));
        assert!(has_text_frame(&sent(rb).await, "hi"));
    });
}

#[test]
fn closing_one_member_keeps_the_room() {
    let mut b = Broadcaster::default();
    let (_ra, a) = open_session();
    let (_rb, bb) = open_session();
    b.join(&s("room1"), &s("alice"), a);
    b.join(&s("room1"), &s("bob"), bb);
    let taken = b.room(&s("room1")).take_conn(&s("alice"));
    assert_eq!(taken.len(), 1);
    assert_eq!(taken[0].id, "alice");
    assert_eq!(ids(b.room(&s("room1"))), vec![s("bob")]);
    assert!(b.check(&s("room1")));
}

#[test]
fn take_conn_of_an_absent_id_changes_nothing() {
    let mut room = Room::new(s("room"));
    let (_ra, a) = open_session();
    room.add_connection(&s("a"), a);
    assert!(room.take_conn(&s("zzz")).is_empty());
    assert_eq!(ids(&room), vec![s("a")]);
}

#[test]
fn take_all_empties_the_room_in_order() {
    let mut room = Room::new(s("room"));
    for name in ["a", "b", "c"] {
        let (_r, x) = open_session();
        room.add_connection(&s(name), x);
    }
    let taken: Vec<String> = room.take_all().iter().map(|c| c.id.clone()).collect();
    assert_eq!(taken, vec![s("a"), s("b"), s("c")]);
    assert!(room.connectors.is_empty());
    assert_eq!(room.id, "room");
}

#[test]
fn take_if_and_take_if_not() {
    let mut room = Room::new(s("room"));
    for name in ["a", "b", "c", "d"] {
        let (_r, x) = open_session();
        room.add_connection(&s(name), x);
    }
    let taken: Vec<String> = room
        .take_if(|c: &Connection| c.id == "b" || c.id == "d")
        .iter()
        .map(|c| c.id.clone())
        .collect();
    assert_eq!(taken, vec![s("b"), s("d")]);
    assert_eq!(ids(&room), vec![s("a"), s("c")]);
    let taken: Vec<String> = room
        .take_if_not(|c: &Connection| c.id == "a")
        .iter()
        .map(|c| c.id.clone())
        .collect();
    assert_eq!(taken, vec![s("c")]);
    assert_eq!(ids(&room), vec![s("a")]);
}

#[test]
fn room_remove_connection_and_check_connection() {
    let mut room = Room::new(s("room"));
    let (_ra, a) = open_session();
    let (_rb, bb) = open_session();
    room.add_connection(&s("a"), a);
    room.add_connection(&s("b"), bb);
    assert_eq!(room.check_connection(&s("b")).unwrap().id, "b");
    assert!(room.check_connection(&s("c")).is_none());
    room.remove_connection(s("a"));
    assert_eq!(ids(&room), vec![s("b")]);
    room.remove_connection(s("a"));
    assert_eq!(ids(&room), vec![s("b")]);
    assert!(room.check_connection(&s("a")).is_none());
}

#[test]
fn connection_create_keeps_id() {
    let (_r, x) = open_session();
    let c = Connection::create(s("me"), x);
    assert_eq!(c.id, "me");
}

#[test]
fn check_room_and_remove_room() {
    let mut b = Broadcaster::default();
    let (_ra, a) = open_session();
    b.join(&s("one"), &s("a"), a);
    b.handle_room(&s("two"));
    assert!(b.check_room(&s("three")).is_none());
    assert_eq!(b.check_room(&s("one")).unwrap().id, "one");
    let removed = b.remove_room(s("one")).unwrap();
    assert_eq!(removed.id, "one");
    assert_eq!(ids(&removed), vec![s("a")]);
    assert!(!b.check(&s("one")));
    assert!(b.check(&s("two")));
    assert!(b.remove_room(s("one")).is_none());
    assert_eq!(b.rooms.len(), 1);
}

#[test]
fn join_twice_with_one_id_registers_once() {
    let mut b = Broadcaster::default();
    let (_ra, a) = open_session();
    let (_rb, bb) = open_session();
    b.join(&s("room"), &s("a"), a);
    b.join(&s("room"), &s("a"), bb);
    assert_eq!(b.rooms.len(), 1);
    assert_eq!(ids(&b.rooms[0]), vec![s("a")]);
}

#[test]
fn each_room_visits_rooms_in_order() {
    let mut b = Broadcaster::default();
    let (_ra, a) = open_session();
    b.join(&s("one"), &s("a"), a);
    b.handle_room(&s("two"));
    let mut seen = Vec::new();
    b.each_room(|r: &Room| seen.push((r.id.clone(), r.connectors.len())));
    assert_eq!(seen, vec![(s("one"), 1), (s("two"), 0)]);
    let counter = std::cell::Cell::new(0);
    b.each_room_immut(|_r: &Room| counter.set(counter.get() + 1));
    assert_eq!(counter.get(), 2);
}

#[test]
fn each_room_mut_can_empty_every_room() {
    let mut b = Broadcaster::default();
    let (_ra, a) = open_session();
    let (_rb, bb) = open_session();
    b.join(&s("one"), &s("a"), a);
    b.join(&s("two"), &s("b"), bb);
    b.each_room_mut(|mut r: Room| {
        let _ = r.take_all();
        r
    });
    assert_eq!(b.rooms.len(), 2);
    assert!(b.rooms.iter().all(|r| r.connectors.is_empty()));
    b.remove_empty_rooms();
    assert!(b.rooms.is_empty());
}

#[test]
fn each_room_mut_keeps_order_and_ids() {
    let mut b = Broadcaster::default();
    let (_ra, a) = open_session();
    b.join(&s("one"), &s("a"), a);
    b.handle_room(&s("two"));
    b.each_room_mut(|mut r: Room| {
        r.id.push('!');
        r
    });
    let names: Vec<String> = b.rooms.iter().map(|r| r.id.clone()).collect();
    assert_eq!(names, vec![s("one!"), s("two!")]);
    assert_eq!(ids(&b.rooms[0]), vec![s("a")]);
}

#[test]
fn meets_asks_the_condition() {
    let (_r, x) = open_session();
    let c = Connection::create(s("me"), x);
    assert!(c.meets(|c: &Connection| c.id == "me"));
    assert!(!c.meets(|c: &Connection| c.id == "you"));
}
