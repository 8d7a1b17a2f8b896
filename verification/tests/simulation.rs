//! The simulation core, driven through real channels: connection events in,
//! broadcast texts out.

use std::sync::mpsc::{channel, Receiver};

use tatsoryk_server::events::{Client, WebSocketEvent};
use tatsoryk_server::gamestate::{
    GameState, BULLET_RADIUS, FIRE_OFFSET_PX, MAP_WIDTH, PLAYER_RADIUS, PLAYER_SPEED,
};
use tatsoryk_server::message::Message;

fn drain(rx: &Receiver<Option<String>>) -> Vec<Message> {
    let mut out = Vec::new();
    while let Ok(item) = rx.try_recv() {
        if let Some(text) = item {
            out.push(Message::from_text(&text).unwrap());
        }
    }
    out
}

fn connect(gs: &mut GameState, id: u32) -> Receiver<Option<String>> {
    let (tx, rx) = channel();
    gs.process_websocket_event(WebSocketEvent::ClientCreated { client: Client::new(id, tx) });
    rx
}

fn place(gs: &mut GameState, id: u32, x: i64, y: i64) {
    for p in gs.players.iter_mut() {
        if p.id == id {
            p.x = x;
            p.y = y;
        }
    }
}

fn pos_of(gs: &GameState, id: u32) -> (i64, i64) {
    let p = gs.players.iter().find(|p| p.id == id).unwrap();
    (p.x, p.y)
}

/// Whether the player's spot is free with respect to everyone else.
fn spot_free_for(gs: &GameState, id: u32) -> bool {
    let (x, y) = pos_of(gs, id);
    gs.players.iter().filter(|p| p.id != id).all(|p| {
        tatsoryk_server::math::dist_sq_between(x, y, p.x, p.y) >= (2 * PLAYER_RADIUS / 1000) * (2 * PLAYER_RADIUS / 1000) * 1_000_000
    }) && gs.bullets.iter().all(|b| {
        tatsoryk_server::math::dist_sq_between(x, y, b.x, b.y)
            >= (PLAYER_RADIUS + BULLET_RADIUS) * (PLAYER_RADIUS + BULLET_RADIUS)
    })
}

#[test]
fn connect_assigns_player_and_sends_welcome() {
    let mut gs = GameState::new();
    let rx = connect(&mut gs, 0);
    assert_eq!(gs.players.len(), 1);
    assert_eq!(gs.clients.len(), 1);
    let got = drain(&rx);
    assert!(matches!(
        got[0],
        Message::Welcome { id: 0, speed: 2000, size: 10000, bullet_speed: 3000, bullet_size: 5000 }
    ));
    assert!(matches!(got[1], Message::WorldState { player_count: 1, .. }));
}

#[test]
fn second_connect_notifies_the_first() {
    let mut gs = GameState::new();
    let rx_a = connect(&mut gs, 0);
    drain(&rx_a);
    let _rx_b = connect(&mut gs, 1);
    let got = drain(&rx_a);
    assert!(matches!(got[0], Message::PlayerJoined { id: 1 }));
    assert!(matches!(got[1], Message::PlayerSpawned { id: 1, .. }));
}

#[test]
fn movement_clamps_to_bounds() {
    let mut gs = GameState::new();
    let rx = connect(&mut gs, 0);
    place(&mut gs, 0, MAP_WIDTH - PLAYER_RADIUS - 500, 100_000);
    gs.process_websocket_event(WebSocketEvent::ClientMessage {
        client_id: 0,
        message: Message::StartMoving { move_x: 1000, move_y: 0 },
    });
    gs.process_game_update();
    let (x, y) = pos_of(&gs, 0);
    assert_eq!(x, MAP_WIDTH - PLAYER_RADIUS);
    assert_eq!(y, 100_000);
    // The wall forced a stop: the movement vector is cleared and announced.
    let got = drain(&rx);
    assert!(got
        .iter()
        .any(|m| matches!(m, Message::PlayerStopped { id: 0, x, .. } if *x == MAP_WIDTH - PLAYER_RADIUS)));
    let p = gs.players.iter().find(|p| p.id == 0).unwrap();
    assert!(p.move_x.is_none() && p.move_y.is_none());
}

#[test]
fn blocked_movement_is_rejected_and_stops() {
    let mut gs = GameState::new();
    let _rx_a = connect(&mut gs, 0);
    let _rx_b = connect(&mut gs, 1);
    place(&mut gs, 0, 100_000, 100_000);
    place(&mut gs, 1, 121_000, 100_000);
    gs.process_websocket_event(WebSocketEvent::ClientMessage {
        client_id: 0,
        message: Message::StartMoving { move_x: 1000, move_y: 0 },
    });
    gs.process_game_update();
    // The candidate step to 102000 would come within two radii of the other
    // player, so the move is rejected outright.
    assert_eq!(pos_of(&gs, 0), (100_000, 100_000));
    assert_eq!(pos_of(&gs, 1), (121_000, 100_000));
    let p = gs.players.iter().find(|p| p.id == 0).unwrap();
    assert!(p.move_x.is_none());
}

#[test]
fn bullet_leaving_the_map_is_removed() {
    let mut gs = GameState::new();
    let _rx = connect(&mut gs, 0);
    place(&mut gs, 0, 480_000, 100_000);
    gs.process_websocket_event(WebSocketEvent::ClientMessage {
        client_id: 0,
        message: Message::Fire { move_x: 1000, move_y: 0 },
    });
    assert_eq!(gs.bullets.len(), 1);
    assert_eq!(gs.bullets[0].x, 496_000);
    gs.process_game_update();
    assert_eq!(gs.bullets.len(), 1);
    assert_eq!(gs.bullets[0].x, 499_000);
    gs.process_game_update();
    // 502000 is past the right edge: the bullet is gone after this tick.
    assert_eq!(gs.bullets.len(), 0);
}

#[test]
fn bullet_hit_destroys_both_and_respawns_the_player() {
    let mut gs = GameState::new();
    let rx_a = connect(&mut gs, 0);
    let _rx_b = connect(&mut gs, 1);
    place(&mut gs, 0, 100_000, 100_000);
    place(&mut gs, 1, 190_000, 100_000);
    gs.process_websocket_event(WebSocketEvent::ClientMessage {
        client_id: 0,
        message: Message::Fire { move_x: 1000, move_y: 0 },
    });
    // Walk the bullet up next to the target, then watch the hit.
    place_bullet(&mut gs, 180_000, 100_000);
    drain(&rx_a);
    gs.process_game_update();
    assert_eq!(gs.bullets.len(), 0);
    let (x, y) = pos_of(&gs, 1);
    assert!((x, y) != (190_000, 100_000));
    assert!(spot_free_for(&gs, 1));
    let got = drain(&rx_a);
    assert!(got.iter().any(|m| matches!(
        m,
        Message::PlayerDestroyed { id: 1, killer_id: None, bullet_id: None }
    )));
    assert!(got.iter().any(|m| matches!(m, Message::PlayerSpawned { id: 1, .. })));
}

fn place_bullet(gs: &mut GameState, x: i64, y: i64) {
    for b in gs.bullets.iter_mut() {
        b.x = x;
        b.y = y;
    }
}

#[test]
fn fire_offsets_the_bullet_from_the_player() {
    let mut gs = GameState::new();
    let rx = connect(&mut gs, 0);
    place(&mut gs, 0, 250_000, 250_000);
    drain(&rx);
    let (ax, ay) = (700, -700);
    gs.process_websocket_event(WebSocketEvent::ClientMessage {
        client_id: 0,
        message: Message::Fire { move_x: ax, move_y: ay },
    });
    assert_eq!(gs.bullets.len(), 1);
    let b = &gs.bullets[0];
    // The offset factor is bullet radius plus player radius plus one pixel.
    assert_eq!(FIRE_OFFSET_PX, (BULLET_RADIUS + PLAYER_RADIUS) / 1000 + 1);
    assert_eq!(b.x, 250_000 + ax * FIRE_OFFSET_PX);
    assert_eq!(b.y, 250_000 + ay * FIRE_OFFSET_PX);
    assert_eq!(b.id, 0);
    assert_eq!(gs.next_bullet_id, 1);
    let got = drain(&rx);
    assert!(got.iter().any(|m| matches!(
        m,
        Message::ShotsFired { id: 0, bullet_id: 0, x, y, aim_x, aim_y }
            if *x == 250_000 + ax * FIRE_OFFSET_PX && *y == 250_000 + ay * FIRE_OFFSET_PX
                && *aim_x == ax && *aim_y == ay
    )));
}

#[test]
fn double_disconnect_is_a_no_op() {
    let mut gs = GameState::new();
    let _rx_a = connect(&mut gs, 0);
    let _rx_b = connect(&mut gs, 1);
    gs.process_websocket_event(WebSocketEvent::ClientClosed { client_id: 0 });
    let players_after_one: Vec<_> = gs.players.clone();
    let client_ids_after_one: Vec<u32> = gs.clients.iter().map(|c| c.id).collect();
    gs.process_websocket_event(WebSocketEvent::ClientClosed { client_id: 0 });
    assert_eq!(gs.players, players_after_one);
    let client_ids_after_two: Vec<u32> = gs.clients.iter().map(|c| c.id).collect();
    assert_eq!(client_ids_after_two, client_ids_after_one);
    assert_eq!(gs.players.len(), 1);
    assert_eq!(gs.players[0].id, 1);
}

#[test]
fn queued_events_are_drained_without_blocking() {
    let mut gs = GameState::new();
    let (tx, rx) = channel();
    let (ctx, _crx) = channel();
    tx.send(WebSocketEvent::ClientCreated { client: Client::new(7, ctx) }).unwrap();
    tx.send(WebSocketEvent::ClientMessage {
        client_id: 7,
        message: Message::StartMoving { move_x: 1000, move_y: 0 },
    })
    .unwrap();
    gs.process_websocket_events(&rx);
    assert_eq!(gs.players.len(), 1);
    let p = &gs.players[0];
    assert_eq!(p.move_x, Some(1000));
    // An empty queue returns immediately and changes nothing.
    gs.process_websocket_events(&rx);
    assert_eq!(gs.players.len(), 1);
}

#[test]
fn unknown_client_message_is_dropped() {
    let mut gs = GameState::new();
    let _rx = connect(&mut gs, 0);
    let before = pos_of(&gs, 0);
    gs.process_websocket_event(WebSocketEvent::ClientMessage {
        client_id: 42,
        message: Message::StartMoving { move_x: 1000, move_y: 0 },
    });
    assert_eq!(gs.players.len(), 1);
    assert_eq!(pos_of(&gs, 0), before);
}

#[test]
fn server_only_message_disconnects_the_sender() {
    let mut gs = GameState::new();
    let rx = connect(&mut gs, 0);
    gs.process_websocket_event(WebSocketEvent::ClientMessage {
        client_id: 0,
        message: Message::PlayerJoined { id: 9 },
    });
    assert_eq!(gs.players.len(), 0);
    assert_eq!(gs.clients.len(), 0);
    let got = drain(&rx);
    assert!(got.iter().any(|m| matches!(m, Message::GoAway { .. })));
}

#[test]
fn periodic_full_update_counts_ticks() {
    let mut gs = GameState::new();
    let rx = connect(&mut gs, 0);
    drain(&rx);
    for _ in 0..600 {
        gs.send_state_updates();
    }
    assert!(drain(&rx).is_empty());
    gs.send_state_updates();
    let got = drain(&rx);
    assert!(matches!(got[0], Message::WorldState { player_count: 1, .. }));
}

#[test]
fn end_to_end_scenario() {
    let mut gs = GameState::new();
    let rx_a = connect(&mut gs, 0);
    let got_a = drain(&rx_a);
    assert!(matches!(got_a[0], Message::Welcome { id: 0, .. }));
    let rx_b = connect(&mut gs, 1);
    let got_b = drain(&rx_b);
    assert!(matches!(got_b[0], Message::Welcome { id: 1, .. }));
    let got_a = drain(&rx_a);
    assert!(got_a.iter().any(|m| matches!(m, Message::PlayerJoined { id: 1 })));
    assert!(got_a.iter().any(|m| matches!(m, Message::PlayerSpawned { id: 1, .. })));

    place(&mut gs, 0, 100_000, 100_000);
    place(&mut gs, 1, 200_000, 100_000);

    gs.process_websocket_event(WebSocketEvent::ClientMessage {
        client_id: 0,
        message: Message::StartMoving { move_x: 1000, move_y: 0 },
    });
    let got_b = drain(&rx_b);
    assert!(got_b.iter().any(|m| matches!(
        m,
        Message::PlayerMoving { id: 0, x: 100_000, y: 100_000, move_x: 1000, move_y: 0 }
    )));

    let ticks = 5;
    for _ in 0..ticks {
        gs.process_game_update();
    }
    // Each tick advances by the movement vector times the player speed.
    assert_eq!(pos_of(&gs, 0), (100_000 + ticks * 1000 * PLAYER_SPEED, 100_000));

    gs.process_websocket_event(WebSocketEvent::ClientMessage {
        client_id: 0,
        message: Message::StopMoving,
    });
    gs.process_websocket_event(WebSocketEvent::ClientMessage {
        client_id: 0,
        message: Message::Fire { move_x: 1000, move_y: 0 },
    });
    let got_b = drain(&rx_b);
    assert!(got_b.iter().any(|m| matches!(m, Message::ShotsFired { id: 0, bullet_id: 0, .. })));

    // The bullet closes in on the second player and destroys it.
    let mut destroyed = false;
    for _ in 0..64 {
        gs.process_game_update();
        let got_b = drain(&rx_b);
        if got_b.iter().any(|m| matches!(m, Message::PlayerDestroyed { id: 1, .. })) {
            assert!(got_b.iter().any(|m| matches!(m, Message::PlayerSpawned { id: 1, .. })));
            destroyed = true;
            break;
        }
    }
    assert!(destroyed);
    assert_eq!(gs.bullets.len(), 0);
    assert!(spot_free_for(&gs, 1));
}

#[test]
fn codec_round_trips_through_text() {
    let samples = vec![
        Message::Welcome { id: 0, speed: 2000, size: 10000, bullet_speed: 3000, bullet_size: 5000 },
        Message::GoAway { reason: String::new() },
        Message::GoAway { reason: "with \"quotes\" and \\ slashes \u{1} inside".to_string() },
        Message::PlayerSpawned { id: u32::MAX, x: -499_500, y: 5000 },
        Message::StartMoving { move_x: -707, move_y: 707 },
        Message::StopMoving,
        Message::WorldState {
            player_count: 0,
            alive_players: vec![],
            alive_bullets: vec![],
        },
    ];
    for m in samples {
        assert_eq!(Message::from_text(&m.to_text()).unwrap(), m);
    }
}

#[test]
fn squared_distance_is_exact() {
    assert_eq!(tatsoryk_server::math::dist_sq_between(0, 0, 1000, 1000), 2_000_000);
    assert_eq!(tatsoryk_server::math::dist_sq_between(-3, 4, 0, 0), 25);
}
