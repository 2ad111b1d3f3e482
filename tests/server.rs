use avalon_rs::server::{ChatServer, Connect, Create, Disconnect, Join, ListRooms, Outbound};

fn lines(out: &[Outbound]) -> Vec<(usize, String)> {
    out.iter().map(|o| (o.to, o.text.clone())).collect()
}

fn server_with(ids: &[usize]) -> ChatServer {
    let mut s = ChatServer::new();
    for id in ids {
        assert_eq!(s.register(*id), Some(*id));
    }
    s
}

fn create(s: &mut ChatServer, id: usize, who: &str, size: u8, room: &str) -> Vec<(usize, String)> {
    lines(&s.create_named(
        Create { id, session_name: who.to_owned(), size },
        room.to_owned(),
    ))
}

fn join(s: &mut ChatServer, id: usize, who: &str, room: &str) -> Vec<(usize, String)> {
    lines(&s.join(Join { id, session_name: who.to_owned(), name: room.to_owned() }))
}

#[test]
fn register_refuses_a_live_id() {
    let mut s = server_with(&[3]);
    assert_eq!(s.register(3), None);
    assert_eq!(s.register(4), Some(4));
}

#[test]
fn connect_hands_out_an_id() {
    let mut s = ChatServer::new();
    let id = s.connect(Connect);
    assert_eq!(s.register(id), None);
    let other = s.connect(Connect);
    assert_ne!(id, other);
}

#[test]
fn connect_never_reuses_a_live_id() {
    let mut s = ChatServer::new();
    let mut seen = Vec::new();
    for _ in 0..50 {
        let id = s.connect(Connect);
        assert!(!seen.contains(&id));
        seen.push(id);
    }
}

#[test]
fn join_missing_room_changes_nothing() {
    let mut s = server_with(&[1, 2]);
    create(&mut s, 1, "amy", 5, "10");
    let out = join(&mut s, 2, "bob", "11");
    assert_eq!(out, vec![(2, "!!! room not exist".to_owned())]);
    assert_eq!(s.list_rooms(ListRooms), vec!["10".to_owned()]);
}

#[test]
fn create_confirms_to_creator() {
    let mut s = server_with(&[1]);
    let out = create(&mut s, 1, "amy", 5, "42");
    assert_eq!(
        out,
        vec![
            (1, "room 42 created.".to_owned()),
            (1, "请把房间号告诉你的小伙伴们".to_owned())
        ]
    );
    assert_eq!(s.list_rooms(ListRooms), vec!["42".to_owned()]);
}

#[test]
fn create_rejects_bad_size_and_taken_name() {
    let mut s = server_with(&[1, 2]);
    assert_eq!(create(&mut s, 1, "amy", 2, "5"), vec![(1, "!!! invalid room size".to_owned())]);
    assert_eq!(create(&mut s, 1, "amy", 11, "5"), vec![(1, "!!! invalid room size".to_owned())]);
    assert!(s.list_rooms(ListRooms).is_empty());
    create(&mut s, 1, "amy", 5, "5");
    assert_eq!(create(&mut s, 2, "bob", 5, "5"), vec![(2, "!!! create room failed".to_owned())]);
    assert_eq!(s.list_rooms(ListRooms), vec!["5".to_owned()]);
}

#[test]
fn create_draws_a_number_under_a_thousand() {
    let mut s = server_with(&[1]);
    let out = lines(&s.create(Create { id: 1, session_name: "amy".to_owned(), size: 6 }));
    let rooms = s.list_rooms(ListRooms);
    assert_eq!(rooms.len(), 1);
    let n: u32 = rooms[0].parse().unwrap();
    assert!(n < 1000);
    assert_eq!(out[0], (1, format!("room {} created.", n)));
}

#[test]
fn join_greets_the_room() {
    let mut s = server_with(&[1, 2, 3]);
    create(&mut s, 1, "amy", 5, "8");
    assert_eq!(join(&mut s, 2, "bob", "8"), vec![(1, "bob connected".to_owned()), (2, "joined".to_owned())]);
    assert_eq!(
        join(&mut s, 3, "cat", "8"),
        vec![
            (1, "cat connected".to_owned()),
            (2, "cat connected".to_owned()),
            (3, "joined".to_owned())
        ]
    );
}

#[test]
fn join_leaves_the_old_room() {
    let mut s = server_with(&[1, 2]);
    create(&mut s, 1, "amy", 5, "1");
    create(&mut s, 2, "bob", 5, "2");
    let out = join(&mut s, 2, "bob", "1");
    assert_eq!(out, vec![(1, "bob connected".to_owned()), (2, "joined".to_owned())]);
    assert_eq!(s.list_rooms(ListRooms), vec!["1".to_owned()]);
}

#[test]
fn join_own_room_alone_closes_it() {
    let mut s = server_with(&[1]);
    create(&mut s, 1, "amy", 5, "7");
    let out = join(&mut s, 1, "amy", "7");
    assert_eq!(out, vec![(1, "!!! room not exist, may be deleted just now".to_owned())]);
    assert!(s.list_rooms(ListRooms).is_empty());
}

#[test]
fn full_room_is_dealt_and_closed() {
    let ids = [11usize, 12, 13, 14, 15];
    let names = ["amy", "bob", "cat", "dan", "eve"];
    let mut s = server_with(&ids);
    create(&mut s, 11, "amy", 5, "99");
    let mut out = Vec::new();
    for i in 1..5 {
        out = join(&mut s, ids[i], names[i], "99");
    }
    assert!(s.list_rooms(ListRooms).is_empty());
    for id in ids.iter() {
        let mine: Vec<&String> = out.iter().filter(|l| l.0 == *id).map(|l| &l.1).collect();
        assert!(mine.contains(&&"人已经凑齐".to_owned()));
        let role_lines = mine.iter().filter(|t| t.starts_with("你的身份是【")).count();
        assert_eq!(role_lines, 1);
        assert_eq!(mine.len(), 4);
    }
    let roles: Vec<String> = out
        .iter()
        .filter(|l| l.1.starts_with("你的身份是【"))
        .map(|l| l.1.clone())
        .collect();
    assert_eq!(roles.len(), 5);
    assert!(roles.contains(&"你的身份是【梅林】，".to_owned()));
    assert!(roles.contains(&"你的身份是【刺客】，".to_owned()));
    assert!(roles.contains(&"你的身份是【忠臣】，".to_owned()));
    assert!(out.contains(&(15, "joined".to_owned())));
}

#[test]
fn disconnect_mid_room_tells_the_rest() {
    let mut s = server_with(&[1, 2, 3]);
    create(&mut s, 1, "amy", 5, "3");
    join(&mut s, 2, "bob", "3");
    join(&mut s, 3, "cat", "3");
    let out = lines(&s.disconnect(Disconnect { id: 2 }));
    assert_eq!(
        out,
        vec![(1, "Someone disconnected".to_owned()), (3, "Someone disconnected".to_owned())]
    );
    assert_eq!(s.list_rooms(ListRooms), vec!["3".to_owned()]);
}

#[test]
fn last_member_leaving_closes_room() {
    let mut s = server_with(&[1]);
    create(&mut s, 1, "amy", 5, "4");
    let out = lines(&s.disconnect(Disconnect { id: 1 }));
    assert!(out.is_empty());
    assert!(s.list_rooms(ListRooms).is_empty());
}

#[test]
fn disconnect_twice_is_a_no_op() {
    let mut s = server_with(&[1, 2]);
    create(&mut s, 1, "amy", 5, "6");
    join(&mut s, 2, "bob", "6");
    let first = lines(&s.disconnect(Disconnect { id: 2 }));
    assert_eq!(first, vec![(1, "Someone disconnected".to_owned())]);
    let second = lines(&s.disconnect(Disconnect { id: 2 }));
    assert!(second.is_empty());
    assert_eq!(s.list_rooms(ListRooms), vec!["6".to_owned()]);
}

#[test]
fn default_server_is_empty() {
    let mut s = ChatServer::default();
    assert!(s.list_rooms(ListRooms).is_empty());
    assert_eq!(s.register(9), Some(9));
}
