use tanks_arena::clients::{ClientRegistry, IDAlreadyTaken};
use tanks_arena::environment::Environment;
use tanks_arena::geometry::Vector2;
use tanks_arena::protocol::{convert_gamestate_to_broadcast, ClientEvent, ServerEvent};
use tanks_arena::server::{generate_session_id, ServerState};

fn server_with(ids: &[&str]) -> ServerState {
    let mut s = ServerState::new(Environment::new());
    for id in ids {
        assert_eq!(s.connect_client(id), Ok(()));
    }
    s
}

#[test]
fn duplicate_connection_is_refused() {
    let mut s = server_with(&["p1"]);
    assert_eq!(s.connect_client("p1"), Err(IDAlreadyTaken));
    assert_eq!(s.clients.clients.len(), 1);
}

#[test]
fn client_registry_tracks_sessions() {
    let mut c = ClientRegistry::new();
    assert_eq!(c.connect("a"), Ok(()));
    assert!(c.contains_client("a"));
    assert_eq!(c.session_of("a"), None);
    c.set_session("a", Some("ROOM".to_string()));
    assert_eq!(c.session_of("a"), Some("ROOM".to_string()));
    assert_eq!(c.disconnect("a"), Some("ROOM".to_string()));
    assert!(!c.contains_client("a"));
    assert_eq!(c.disconnect("a"), None);
}

#[test]
fn generated_ids_are_five_capitals() {
    for _ in 0..20 {
        let id = generate_session_id();
        assert_eq!(id.len(), 5);
        assert!(id.chars().all(|c| c.is_ascii_uppercase()));
    }
}

#[test]
fn create_session_makes_owner() {
    let mut s = server_with(&["p1"]);
    let b = s.handle_event("p1", ClientEvent::CreateSession).unwrap();
    let sid = match &b.event {
        ServerEvent::ClientJoined { session_id, client_id, session_client_ids } => {
            assert_eq!(client_id, "p1");
            assert_eq!(session_client_ids, &vec!["p1".to_string()]);
            session_id.clone()
        }
        other => panic!("unexpected {:?}", other),
    };
    assert_eq!(sid.len(), 5);
    assert_eq!(b.recipients, vec!["p1".to_string()]);
    assert_eq!(s.clients.session_of("p1"), Some(sid.clone()));
    assert_eq!(s.sessions.get(&sid).unwrap().owner, Some("p1".to_string()));
}

#[test]
fn owner_leaves_second_member_takes_over() {
    let mut s = server_with(&["p1", "p2"]);
    s.create_session("p1", Some("ROOM".to_string()));
    let joined = s.handle_event("p2", ClientEvent::JoinSession("ROOM".to_string())).unwrap();
    assert_eq!(joined.recipients, vec!["p1".to_string(), "p2".to_string()]);
    let left = s.handle_event("p1", ClientEvent::LeaveSession).unwrap();
    assert_eq!(left.recipients, vec!["p2".to_string()]);
    match left.event {
        ServerEvent::PlayerDisconnect { player } => assert_eq!(player, "p1"),
        other => panic!("unexpected {:?}", other),
    }
    let room = s.sessions.get("ROOM").unwrap();
    assert_eq!(room.owner, Some("p2".to_string()));
    assert_eq!(s.clients.session_of("p1"), None);
}

#[test]
fn last_member_leaving_removes_session() {
    let mut s = server_with(&["p1"]);
    s.handle_event("p1", ClientEvent::JoinSession("ROOM".to_string()));
    assert!(s.sessions.contains_session("ROOM"));
    let r = s.handle_event("p1", ClientEvent::LeaveSession);
    assert!(r.is_none());
    assert!(!s.sessions.contains_session("ROOM"));
}

#[test]
fn rejoining_same_session_changes_nothing() {
    let mut s = server_with(&["p1"]);
    assert!(s.join_session("p1", "ROOM").is_some());
    let before = format!("{:?}", s);
    assert!(s.join_session("p1", "ROOM").is_none());
    assert_eq!(format!("{:?}", s), before);
}

#[test]
fn joining_another_session_leaves_the_first() {
    let mut s = server_with(&["p1"]);
    s.join_session("p1", "ONE");
    s.join_session("p1", "TWO");
    assert!(!s.sessions.contains_session("ONE"));
    assert!(s.sessions.has_member("TWO", "p1"));
}

#[test]
fn disconnect_marks_inactive_and_cleans_up() {
    let mut s = server_with(&["p1", "p2"]);
    s.join_session("p1", "ROOM");
    s.join_session("p2", "ROOM");
    let notice = s.disconnect_client("p1").unwrap();
    assert_eq!(notice.recipients, vec!["p2".to_string()]);
    let room = s.sessions.get("ROOM").unwrap();
    assert_eq!(room.get_clients_with_active_status(false), vec!["p1".to_string()]);
    assert!(s.disconnect_client("p2").is_none());
    assert!(!s.sessions.contains_session("ROOM"));
    assert!(s.clients.clients.is_empty());
}

#[test]
fn game_events_reach_the_tank() {
    let mut s = server_with(&["p1"]);
    s.join_session("p1", "ROOM");
    s.handle_event("p1", ClientEvent::MovementUpdate { direction: Vector2::new(0, 5) });
    s.handle_event("p1", ClientEvent::AimUpdate { direction: Vector2::new(-2, 0) });
    s.handle_event("p1", ClientEvent::Shoot);
    let room = s.sessions.get("ROOM").unwrap();
    assert_eq!(room.data.players[0].movement, Vector2::new(0, 1000));
    assert_eq!(room.data.players[0].angle, Vector2::new(-1000, 0));
    assert_eq!(room.data.bullets.len(), 1);
    assert_eq!(room.data.bullets[0].velocity, Vector2::new(-120, 0));
}

#[test]
fn game_events_outside_a_session_are_ignored() {
    let mut s = server_with(&["p1"]);
    assert!(s.handle_event("p1", ClientEvent::Shoot).is_none());
    assert!(s.handle_event("p1", ClientEvent::LeaveSession).is_none());
    assert_eq!(s.sessions.len(), 0);
}

#[test]
fn tick_broadcasts_snapshots_to_active_members() {
    let mut s = server_with(&["p1", "p2"]);
    s.join_session("p1", "ROOM");
    s.join_session("p2", "ROOM");
    s.disconnect_client("p2");
    s.handle_event("p1", ClientEvent::Shoot);
    let out = s.tick();
    assert_eq!(out.len(), 1);
    assert_eq!(out[0].recipients, vec!["p1".to_string()]);
    match &out[0].event {
        ServerEvent::GameState { bullets, tanks } => {
            assert_eq!(bullets.len(), 1);
            assert_eq!(tanks.len(), 2);
            assert_eq!(tanks[0].id, "p1");
            assert_eq!(tanks[0].position, Vector2::new(400, 400));
        }
        other => panic!("unexpected {:?}", other),
    }
}

#[test]
fn ticking_one_of_two_sessions_keeps_the_other() {
    let mut s = server_with(&["a", "f"]);
    s.join_session("a", "ABCDE");
    s.join_session("f", "FGHIJ");
    s.handle_event("a", ClientEvent::MovementUpdate { direction: Vector2::new(1, 1) });
    s.handle_event("a", ClientEvent::Shoot);
    let before = format!("{:?}", s.sessions.get("FGHIJ").unwrap());
    for _ in 0..1000 {
        s.sessions.tick_session("ABCDE");
    }
    assert_eq!(format!("{:?}", s.sessions.get("FGHIJ").unwrap()), before);
}

#[test]
fn snapshot_lists_bullets_and_tanks() {
    let mut s = server_with(&["p1"]);
    s.join_session("p1", "ROOM");
    s.handle_event("p1", ClientEvent::Shoot);
    let ev = convert_gamestate_to_broadcast(&s.sessions.get("ROOM").unwrap().data);
    match ev {
        ServerEvent::GameState { bullets, tanks } => {
            assert_eq!(bullets.len(), 1);
            assert_eq!(bullets[0].position, Vector2::new(0, 0));
            assert_eq!(tanks[0].id, "p1");
        }
        other => panic!("unexpected {:?}", other),
    }
}

#[test]
fn reconnecting_client_returns_to_its_session() {
    let mut s = server_with(&["p1", "p2"]);
    s.join_session("p1", "ROOM");
    s.join_session("p2", "ROOM");
    s.disconnect_client("p2");
    assert_eq!(s.sessions.session_with_member("p2"), Some("ROOM".to_string()));
    assert_eq!(s.connect_client("p2"), Ok(()));
    assert_eq!(s.clients.session_of("p2"), Some("ROOM".to_string()));
    let room = s.sessions.get("ROOM").unwrap();
    assert_eq!(room.active_client_set(), vec!["p1".to_string(), "p2".to_string()]);
    assert_eq!(room.data.players.len(), 2);
}
