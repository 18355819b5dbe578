use pkmndraft::draft_database::{DraftDb, DraftItem, DraftSet};
use pkmndraft::draft_engine::{DraftLobby, UpdateListener};
use pkmndraft::errors::DraftError;
use pkmndraft::lobby_manager::{LobbyManager, LobbyManagerRequest, LobbyManagerResponse};

fn ids(range: std::ops::Range<u64>) -> Vec<u64> {
    range.collect()
}

fn demo_set(num_items: u64) -> DraftSet {
    let mut set = DraftSet::new();
    for i in 0..num_items {
        let name = format!("mon{}", i);
        let item = DraftItem::new(
            format!("<div>{}</div>", name),
            format!("{} @ held", name),
            format!("<div>stats {}</div>", name),
        );
        set.add_item(name, item);
    }
    set
}

fn demo_db(num_items: u64) -> DraftDb {
    let mut db = DraftDb::new();
    assert!(db.add_set("demo".to_string(), demo_set(num_items)));
    db
}

#[test]
fn fingerprint_packs_fields_without_collisions() {
    let mut lobby = DraftLobby::new("demo".to_string(), 6);
    // Not started, nobody joined: player count field only.
    assert_eq!(lobby.compute_state(&7), 0);
    let a = lobby.add_player("A".to_string()).unwrap();
    assert_eq!(lobby.compute_state(&a), 1 << 20);
    let b = lobby.add_player("B".to_string()).unwrap();
    assert_eq!(lobby.compute_state(&a), 2 << 20);
    lobby.start(&ids(0..200), 0).unwrap();
    // Started: allocated count 0, one pending pack, two players.
    assert_eq!(lobby.compute_state(&a), 1024 + (2 << 20));
    // An id the draft does not know reads zero.
    assert_eq!(lobby.compute_state(&12345), 0);
    // One pick bumps the low field.
    let x = lobby.get_current_pack_contents_for_player(&a).unwrap()[0];
    lobby.make_pick(a, x, 10).unwrap();
    assert_eq!(lobby.compute_state(&a), 1 + (2 << 20));
    assert_eq!(lobby.compute_state(&b), 1024 + 1024 + (2 << 20) - 1024);
}

#[test]
fn joining_after_start_and_when_full_is_refused() {
    let mut lobby = DraftLobby::new("demo".to_string(), 6);
    for name in ["A", "B", "C", "D", "E", "F"] {
        lobby.add_player(name.to_string()).unwrap();
    }
    assert_eq!(
        lobby.add_player("G".to_string()).unwrap_err(),
        DraftError::LobbyFull
    );
    assert_eq!(
        lobby.add_player("A".to_string()).unwrap_err(),
        DraftError::NameConflict
    );
    lobby.start(&ids(0..200), 0).unwrap();
    assert_eq!(
        lobby.add_player("G".to_string()).unwrap_err(),
        DraftError::AlreadyStarted
    );
}

#[test]
fn start_needs_players_and_enough_items() {
    let mut lobby = DraftLobby::new("demo".to_string(), 6);
    assert_eq!(lobby.start(&ids(0..200), 0).unwrap_err(), DraftError::EmptyLobby);
    lobby.add_player("A".to_string()).unwrap();
    // One player wants 1 round of one 6-item pack; five items are not enough.
    assert_eq!(
        lobby.start(&ids(0..5), 0).unwrap_err(),
        DraftError::PackGenInsufficientItems
    );
    // Exactly enough succeeds.
    let deadline = lobby.start(&ids(0..6), 0).unwrap();
    assert_eq!(deadline.round_number, 0);
    assert_eq!(deadline.pick_number, 0);
    // Pick zero of a 6-item pack: slush plus six item slots.
    assert_eq!(deadline.deadline, 2000 + 8000 * 6);
    assert_eq!(
        lobby.start(&ids(0..6), 0).unwrap_err(),
        DraftError::AlreadyStarted
    );
}

#[test]
fn three_player_start_deals_three_rounds_of_six() {
    let mut lobby = DraftLobby::new("demo".to_string(), 6);
    let a = lobby.add_player("A".to_string()).unwrap();
    let b = lobby.add_player("B".to_string()).unwrap();
    let c = lobby.add_player("C".to_string()).unwrap();
    lobby.start(&ids(0..54), 0).unwrap();
    for pid in [a, b, c] {
        let (round, total_rounds, pick, pack_size) =
            lobby.get_draft_progress_for_player(&pid).unwrap();
        assert_eq!((round, total_rounds, pick, pack_size), (0, 3, 0, 6));
        let state = lobby.get_player_draft_state(&pid).unwrap();
        assert_eq!(state.pending_packs.len(), 1);
        assert_eq!(
            lobby.get_current_pack_contents_for_player(&pid).unwrap().len(),
            6
        );
    }
    let order = lobby.get_draft_order();
    assert_eq!(order, vec!["A", "B", "C"]);
}

#[test]
fn pick_of_absent_item_changes_nothing() {
    let mut lobby = DraftLobby::new("demo".to_string(), 6);
    let a = lobby.add_player("A".to_string()).unwrap();
    lobby.add_player("B".to_string()).unwrap();
    lobby.start(&ids(0..200), 0).unwrap();
    let before = lobby.compute_state(&a);
    let pack_before = lobby.get_current_pack_contents_for_player(&a).unwrap().clone();
    assert_eq!(
        lobby.make_pick(a, 99999, 5).unwrap_err(),
        DraftError::ItemNotInPack
    );
    assert_eq!(lobby.compute_state(&a), before);
    assert_eq!(
        lobby.get_current_pack_contents_for_player(&a).unwrap(),
        &pack_before
    );
    assert_eq!(
        lobby.make_pick(777, 0, 5).unwrap_err(),
        DraftError::PlayerNotFound
    );
}

#[test]
fn deadlines_auto_pick_for_everyone_until_round_turns() {
    // Two players, pack size 4. Fire all four deadlines of round zero with no
    // voluntary picks; every firing auto-picks for both players, and the
    // fourth begins round one with the direction flipped.
    let mut lobby = DraftLobby::new("demo".to_string(), 6);
    let a = lobby.add_player("A".to_string()).unwrap();
    let b = lobby.add_player("B".to_string()).unwrap();
    let first = lobby.start(&ids(0..24), 0).unwrap();
    // Schedule: 34s, 60s, 78s, 88s in milliseconds.
    assert_eq!(first.deadline, 34000);
    assert_eq!(lobby.get_draft_order(), vec!["A", "B"]);

    let expected_schedule = [34000, 60000, 78000, 88000];
    let mut fired = 0;
    let mut next = Some(first);
    while let Some(dl) = next {
        assert_eq!(dl.round_number, 0);
        assert_eq!(dl.pick_number, fired);
        assert_eq!(dl.deadline, expected_schedule[fired]);
        next = lobby
            .enforce_deadline(dl.round_number, dl.pick_number, dl.deadline + 1)
            .unwrap();
        fired += 1;
        if fired == 4 {
            break;
        }
    }
    assert_eq!(fired, 4);
    // Each player was auto-picked once per firing.
    for pid in [a, b] {
        assert_eq!(
            lobby.get_player_draft_state(&pid).unwrap().allocated_items.len(),
            4
        );
    }
    // Round one began, direction flipped, and its first deadline was returned.
    let new_deadline = next.unwrap();
    assert_eq!(new_deadline.round_number, 1);
    assert_eq!(new_deadline.pick_number, 0);
    assert_eq!(lobby.get_draft_order(), vec!["B", "A"]);
    assert!(!lobby.draft_is_finished());
}

#[test]
fn repeating_a_deadline_with_no_picks_changes_nothing() {
    let mut lobby = DraftLobby::new("demo".to_string(), 6);
    let a = lobby.add_player("A".to_string()).unwrap();
    let b = lobby.add_player("B".to_string()).unwrap();
    lobby.start(&ids(0..24), 0).unwrap();
    lobby.enforce_deadline(0, 0, 34001).unwrap();
    let state_a = lobby.compute_state(&a);
    let state_b = lobby.compute_state(&b);
    let allocated_a = lobby.get_player_draft_state(&a).unwrap().allocated_items.clone();
    // The same firing again: thresholds already met, nothing moves.
    lobby.enforce_deadline(0, 0, 34002).unwrap();
    assert_eq!(lobby.compute_state(&a), state_a);
    assert_eq!(lobby.compute_state(&b), state_b);
    assert_eq!(
        lobby.get_player_draft_state(&a).unwrap().allocated_items,
        allocated_a
    );
}

#[test]
fn six_player_draft_makes_ninety_six_picks() {
    let mut lobby = DraftLobby::new("demo".to_string(), 6);
    let mut players = Vec::new();
    for name in ["A", "B", "C", "D", "E", "F"] {
        players.push(lobby.add_player(name.to_string()).unwrap());
    }
    lobby.start(&ids(0..96), 0).unwrap();
    let order_before = lobby.get_draft_order();
    assert_eq!(order_before.len(), 6);

    let mut total_picks = 0;
    let mut boundary_deadline = None;
    // Two rounds of eight picks each: everybody picks their head item in turn.
    for _round in 0..2 {
        for _pick in 0..8 {
            for &pid in &players {
                let head = lobby.get_current_pack_contents_for_player(&pid).unwrap()[0];
                let maybe_deadline = lobby.make_pick(pid, head, 1000).unwrap();
                total_picks += 1;
                if let Some(dl) = maybe_deadline {
                    boundary_deadline = Some(dl);
                }
            }
        }
    }
    assert_eq!(total_picks, 96);
    assert!(lobby.draft_is_finished());
    // The round boundary produced a fresh deadline strictly later than the
    // clock handed in, for pick zero of round one.
    let dl = boundary_deadline.unwrap();
    assert_eq!(dl.round_number, 1);
    assert_eq!(dl.pick_number, 0);
    assert!(dl.deadline > 1000);
    // Once finished the draft order reads empty.
    assert_eq!(lobby.get_draft_order().len(), 0);
}

#[test]
fn listener_flushes_when_another_player_joins() {
    let mut manager = LobbyManager::new(demo_db(200));
    let lobby_id = manager.create_lobby("demo".to_string()).unwrap();
    let a = match manager.join_lobby(lobby_id, "A".to_string()) {
        LobbyManagerResponse::LobbyJoined { player_id, .. } => player_id,
        _ => panic!("join failed"),
    };
    let fingerprint = match manager.get_lobby_state(lobby_id, a, 0) {
        Ok(state) => state.game_state,
        Err(_) => panic!("state failed"),
    };
    // A long-polls with the current fingerprint: the listener parks.
    let (tx, mut rx) = tokio::sync::oneshot::channel();
    manager.add_listener_for(lobby_id, a, fingerprint, tx);
    assert!(rx.try_recv().is_err());
    // B joins: the player count moved, so A's listener flushes.
    match manager.join_lobby(lobby_id, "B".to_string()) {
        LobbyManagerResponse::LobbyJoined { .. } => {},
        _ => panic!("join failed"),
    }
    assert!(matches!(rx.try_recv(), Ok(LobbyManagerResponse::UpdateReady)));
    // Re-polling shows B among the joining players.
    let state = manager.get_lobby_state(lobby_id, a, 0).unwrap();
    let names: Vec<String> = state.joining_players;
    assert!(names.contains(&"B".to_string()));
    assert_ne!(state.game_state, fingerprint);
}

#[test]
fn stale_fingerprint_is_answered_at_once() {
    let mut manager = LobbyManager::new(demo_db(200));
    let lobby_id = manager.create_lobby("demo".to_string()).unwrap();
    let a = match manager.join_lobby(lobby_id, "A".to_string()) {
        LobbyManagerResponse::LobbyJoined { player_id, .. } => player_id,
        _ => panic!("join failed"),
    };
    let (tx, mut rx) = tokio::sync::oneshot::channel();
    // A fingerprint that already differs is answered without parking.
    manager.add_listener_for(lobby_id, a, 0xdead_beef, tx);
    assert!(matches!(rx.try_recv(), Ok(LobbyManagerResponse::UpdateReady)));
}

#[test]
fn dropped_listener_is_discarded_without_error() {
    let mut manager = LobbyManager::new(demo_db(200));
    let lobby_id = manager.create_lobby("demo".to_string()).unwrap();
    let a = match manager.join_lobby(lobby_id, "A".to_string()) {
        LobbyManagerResponse::LobbyJoined { player_id, .. } => player_id,
        _ => panic!("join failed"),
    };
    let fingerprint = manager.get_lobby_state(lobby_id, a, 0).unwrap().game_state;
    let (tx, rx) = tokio::sync::oneshot::channel();
    manager.add_listener_for(lobby_id, a, fingerprint, tx);
    // The client goes away while parked.
    drop(rx);
    // A later mutation flushes the listener; the failed send is swallowed.
    let (response, _sched) = manager.start_lobby(lobby_id, 0);
    assert!(matches!(response, LobbyManagerResponse::LobbyStarted));
    // The lobby keeps answering other requests.
    let state = manager.get_lobby_state(lobby_id, a, 0).unwrap();
    assert!(!state.draft_is_finished);
}

#[test]
fn manager_routes_requests_and_schedules_deadlines() {
    let mut manager = LobbyManager::new(demo_db(200));
    assert!(manager.create_lobby("missing".to_string()).is_none());
    let lobby_id = manager.create_lobby("demo".to_string()).unwrap();
    assert!(matches!(
        manager.join_lobby(9999, "A".to_string()),
        LobbyManagerResponse::LobbyErrorMsg(_)
    ));
    let a = match manager.join_lobby(lobby_id, "A".to_string()) {
        LobbyManagerResponse::LobbyJoined { player_id, .. } => player_id,
        _ => panic!("join failed"),
    };
    // Before the start the projection shows the admission view.
    let waiting = manager.get_lobby_state(lobby_id, a, 0).unwrap();
    assert_eq!(waiting.joining_players, vec!["A"]);
    assert_eq!(waiting.open_slots.len(), 5);
    assert!(waiting.open_slots.iter().all(|slot| slot == "Open Slot"));
    assert!(waiting.time_to_pick_s.is_none());
    assert_eq!(waiting.draft_order.len(), 0);

    let (response, sched) = manager.start_lobby(lobby_id, 0);
    assert!(matches!(response, LobbyManagerResponse::LobbyStarted));
    let sched = sched.unwrap();
    assert_eq!(sched.lobby_id, lobby_id);
    assert_eq!(sched.deadline.round_number, 0);
    assert_eq!(sched.deadline.pick_number, 0);

    let state = manager.get_lobby_state(lobby_id, a, 0).unwrap();
    assert_eq!(state.pending_picks.len(), 6);
    assert_eq!(state.rounds_and_picks, (0, 1, 0, 6));
    assert_eq!(state.time_to_pick_s, Some(50));
    assert_eq!(state.draft_order, vec!["A"]);
    assert_eq!(state.open_slots.len(), 0);
    // Pick through the request interface.
    let head = state.pending_picks[0].0;
    let (response, _sched) = manager.process_request(
        LobbyManagerRequest::MakePick { lobby_id, player_id: a, pick: head },
        100,
    );
    assert!(matches!(response, LobbyManagerResponse::PickMade));
    let after = manager.get_lobby_state(lobby_id, a, 100).unwrap();
    assert_eq!(after.allocated_picks.len(), 1);
    assert_eq!(after.raw_picks.len(), 1);
    // One pick made this round; the advisory countdown points at pick one.
    assert_eq!(after.rounds_and_picks, (0, 1, 1, 6));
    assert_eq!(after.time_to_pick_s, Some((50000 + 2000 + 8000 * 5 - 100) / 1000));
}

#[test]
fn handle_task_answers_on_the_channel() {
    let mut manager = LobbyManager::new(demo_db(200));
    let (tx, mut rx) = tokio::sync::oneshot::channel();
    let sched = manager.handle_task(
        LobbyManagerRequest::CreateLobby { set_name: "demo".to_string() },
        tx,
        0,
    );
    assert!(sched.is_none());
    assert!(matches!(
        rx.try_recv(),
        Ok(LobbyManagerResponse::LobbyCreated(_))
    ));
}

#[test]
fn database_resolves_items_and_groups_duplicates() {
    let mut set = DraftSet::new();
    let first = set.add_item(
        "pika".to_string(),
        DraftItem::new("t0".to_string(), "pika @ a".to_string(), "s0".to_string()),
    );
    let second = set.add_item(
        "pika".to_string(),
        DraftItem::new("t1".to_string(), "pika @ b".to_string(), "s1".to_string()),
    );
    let third = set.add_item(
        "bulba".to_string(),
        DraftItem::new("t2".to_string(), "bulba @ c".to_string(), "s2".to_string()),
    );
    assert_eq!((first, second, third), (0, 1, 2));
    assert_eq!(set.get_item_by_id(&1).unwrap().get_template().as_str(), "t1");
    assert_eq!(set.get_item_by_id(&2).unwrap().get_raw().as_str(), "bulba @ c");
    assert_eq!(set.get_item_by_id(&2).unwrap().get_stats().as_str(), "s2");
    assert!(set.get_item_by_id(&3).is_none());
    // One id per deduplicated name: pika picks one of its two variants.
    let list = set.get_item_list();
    assert_eq!(list.len(), 2);
    assert!(list[0] == 0 || list[0] == 1);
    assert_eq!(list[1], 2);

    let mut db = DraftDb::new();
    assert!(db.add_set("alpha".to_string(), set));
    assert!(!db.add_set("alpha".to_string(), DraftSet::new()));
    assert!(db.get_set(&"alpha".to_string()).is_some());
    assert!(db.get_set(&"beta".to_string()).is_none());
}

#[test]
fn listener_flush_reports_closed_receiver() {
    let (tx, rx) = tokio::sync::oneshot::channel();
    let mut listener = UpdateListener::new(tx, 5);
    drop(rx);
    assert_eq!(listener.flush().unwrap_err(), DraftError::ListenerClosed);
    // A second flush is a no-op.
    assert!(listener.flush().is_ok());
}

#[test]
fn error_messages_read_as_expected() {
    assert_eq!(DraftError::LobbyNotFound.message(), "Lobby not found");
    assert_eq!(DraftError::AlreadyStarted.message(), "Game has already started");
    assert_eq!(DraftError::NotStarted.message(), "Draft hasn't started yet");
    assert_eq!(DraftError::NoPacks.message(), "Player had no packs");
}

#[test]
fn pick_before_start_is_refused() {
    let mut lobby = DraftLobby::new("demo".to_string(), 6);
    let a = lobby.add_player("A".to_string()).unwrap();
    assert_eq!(lobby.make_pick(a, 0, 0).unwrap_err(), DraftError::NotStarted);
}

#[test]
fn handle_task_parks_long_polls() {
    let mut manager = LobbyManager::new(demo_db(200));
    let lobby_id = manager.create_lobby("demo".to_string()).unwrap();
    let a = match manager.join_lobby(lobby_id, "A".to_string()) {
        LobbyManagerResponse::LobbyJoined { player_id, .. } => player_id,
        _ => panic!("join failed"),
    };
    let fingerprint = manager.get_lobby_state(lobby_id, a, 0).unwrap().game_state;
    // A matching poll parks: no reply yet.
    let (tx, mut rx) = tokio::sync::oneshot::channel();
    let sched = manager.handle_task(
        LobbyManagerRequest::BlockForUpdate { lobby_id, player_id: a, game_state: fingerprint },
        tx,
        0,
    );
    assert!(sched.is_none());
    assert!(rx.try_recv().is_err());
    // The next mutation through the task interface wakes it.
    let (tx2, mut rx2) = tokio::sync::oneshot::channel();
    manager.handle_task(
        LobbyManagerRequest::JoinLobby { lobby_id, player_name: "B".to_string() },
        tx2,
        0,
    );
    assert!(matches!(rx2.try_recv(), Ok(LobbyManagerResponse::LobbyJoined { .. })));
    assert!(matches!(rx.try_recv(), Ok(LobbyManagerResponse::UpdateReady)));
}

#[test]
fn manager_chains_deadlines_through_tasks() {
    let mut manager = LobbyManager::new(demo_db(200));
    let lobby_id = manager.create_lobby("demo".to_string()).unwrap();
    let a = match manager.join_lobby(lobby_id, "A".to_string()) {
        LobbyManagerResponse::LobbyJoined { player_id, .. } => player_id,
        _ => panic!("join failed"),
    };
    let (response, sched) = manager.start_lobby(lobby_id, 0);
    assert!(matches!(response, LobbyManagerResponse::LobbyStarted));
    let mut sched = sched;
    // Fire the whole chain: one player, one round of six picks; each firing
    // auto-picks once and hands back the next deadline until the draft ends.
    let mut fired = 0;
    while let Some(sd) = sched {
        assert_eq!(sd.lobby_id, lobby_id);
        let (tx, _rx) = tokio::sync::oneshot::channel();
        sched = manager.handle_task(
            LobbyManagerRequest::EnforceDeadline {
                lobby_id,
                round_number: sd.deadline.round_number,
                pick_number: sd.deadline.pick_number,
            },
            tx,
            sd.deadline.deadline + 1,
        );
        fired += 1;
        assert!(fired <= 6);
    }
    assert_eq!(fired, 6);
    let state = manager.get_lobby_state(lobby_id, a, 0).unwrap();
    assert!(state.draft_is_finished);
    assert_eq!(state.allocated_picks.len(), 6);
    // Firing a deadline for an unknown lobby is ignored.
    let (tx, _rx) = tokio::sync::oneshot::channel();
    assert!(manager
        .handle_task(
            LobbyManagerRequest::EnforceDeadline {
                lobby_id: 424242,
                round_number: 0,
                pick_number: 0,
            },
            tx,
            0,
        )
        .is_none());
}
