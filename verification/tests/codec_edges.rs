//! Edges of the wire codec: whitespace, key order and deep fractions are
//! tolerated on decode, structural faults are rejected, and arbitrary
//! messages survive a round trip.

use rand::{rng, RngExt};

use tatsoryk_server::message::{Message, MessageError, Player};

#[test]
fn whitespace_is_tolerated() {
    assert!(matches!(
        Message::from_text("{ \"type\" : \"stop_moving\" }"),
        Ok(Message::StopMoving)
    ));
    assert!(matches!(Message::from_text("{\"type\":\"stop_moving\"}"), Ok(Message::StopMoving)));
    assert!(matches!(
        Message::from_text("  {\n\t\"data\": { \"id\": 7 },\r\n\"type\": \"player_joined\" }  "),
        Ok(Message::PlayerJoined { id: 7 })
    ));
}

#[test]
fn key_order_does_not_matter() {
    let r = Message::from_text("{\"type\":\"fire\",\"data\":{\"move_y\":0,\"move_x\":1}}");
    assert_eq!(r.unwrap(), Message::Fire { move_x: 1000, move_y: 0 });
}

#[test]
fn duplicate_keys_keep_the_later_value() {
    let r = Message::from_text("{\"data\":{\"id\":1,\"id\":2},\"type\":\"player_joined\"}");
    assert_eq!(r.unwrap(), Message::PlayerJoined { id: 2 });
}

#[test]
fn unknown_type_is_rejected() {
    let r = Message::from_text("{\"data\":{},\"type\":\"warp\"}");
    assert!(matches!(r, Err(MessageError::BadType(_))));
}

#[test]
fn trailing_zeros_and_deep_fractions_are_read() {
    let r = Message::from_text("{\"data\":{\"move_x\":1.50,\"move_y\":0},\"type\":\"fire\"}");
    assert_eq!(r.unwrap(), Message::Fire { move_x: 1500, move_y: 0 });
    // Digits below the milli resolution are read and truncated.
    let r = Message::from_text("{\"data\":{\"move_x\":1.23456,\"move_y\":-0},\"type\":\"fire\"}");
    assert_eq!(r.unwrap(), Message::Fire { move_x: 1234, move_y: 0 });
}

#[test]
fn escape_shorthands_are_read() {
    let r = Message::from_text(
        "{\"data\":{\"reason\":\"a\\tb\\nc\\/d\\\"e\"},\"type\":\"go_away\"}",
    );
    assert_eq!(r.unwrap(), Message::GoAway { reason: "a\tb\nc/d\"e".to_string() });
}

#[test]
fn leading_zeros_are_invalid_json() {
    let r = Message::from_text("{\"data\":{\"move_x\":01,\"move_y\":0},\"type\":\"fire\"}");
    assert!(matches!(r, Err(MessageError::JsonError(_))));
}

#[test]
fn large_vectors_decode_and_the_wire_bound_holds() {
    // Two thousand pixels is far beyond the simulation's working range,
    // but the codec reads it faithfully; the event gate drops it later.
    let r = Message::from_text("{\"data\":{\"move_x\":2000000,\"move_y\":0},\"type\":\"fire\"}");
    assert_eq!(r.unwrap(), Message::Fire { move_x: 2_000_000_000, move_y: 0 });
    // Beyond the fixed-point carrier itself the number cannot be read.
    let r = Message::from_text(
        "{\"data\":{\"move_x\":99999999999999,\"move_y\":0},\"type\":\"fire\"}",
    );
    assert!(matches!(r, Err(MessageError::JsonError(_))));
}

#[test]
fn fractional_ids_are_rejected() {
    let r = Message::from_text("{\"data\":{\"id\":1.5},\"type\":\"player_joined\"}");
    assert!(matches!(r, Err(MessageError::BadType(_))));
}

#[test]
fn negative_ids_are_rejected() {
    let r = Message::from_text("{\"data\":{\"id\":-1},\"type\":\"player_joined\"}");
    assert!(matches!(r, Err(MessageError::BadType(_))));
}

#[test]
fn whole_positions_travel_as_integers() {
    let m = Message::PlayerSpawned { id: 3, x: 5000, y: -42_000 };
    let text = m.to_text();
    assert_eq!(text, "{\"data\":{\"id\":3,\"x\":5,\"y\":-42},\"type\":\"player_spawned\"}");
    assert_eq!(Message::from_text(&text).unwrap(), m);
}

#[test]
fn fractional_positions_travel_as_decimals() {
    let m = Message::PlayerSpawned { id: 3, x: 5250, y: -500 };
    let text = m.to_text();
    assert_eq!(text, "{\"data\":{\"id\":3,\"x\":5.25,\"y\":-0.5},\"type\":\"player_spawned\"}");
    assert_eq!(Message::from_text(&text).unwrap(), m);
}

fn gen_fx(rng: &mut impl RngExt) -> i64 {
    rng.random_range(-20_000_000i64..=20_000_000)
}

fn random_message(rng: &mut impl RngExt) -> Message {
    match rng.random_range(0u32..10) {
        0 => Message::Welcome {
            id: rng.random(),
            speed: gen_fx(rng),
            size: gen_fx(rng),
            bullet_speed: gen_fx(rng),
            bullet_size: gen_fx(rng),
        },
        1 => Message::GoAway { reason: "bye \"now\"\\\u{7}".to_string() },
        2 => Message::PlayerJoined { id: rng.random() },
        3 => Message::PlayerLeft { id: rng.random() },
        4 => Message::ShotsFired {
            id: rng.random(),
            bullet_id: rng.random(),
            x: gen_fx(rng),
            y: gen_fx(rng),
            aim_x: gen_fx(rng),
            aim_y: gen_fx(rng),
        },
        5 => Message::PlayerSpawned { id: rng.random(), x: gen_fx(rng), y: gen_fx(rng) },
        6 => Message::PlayerDestroyed {
            id: rng.random(),
            killer_id: Some(rng.random()),
            bullet_id: Some(rng.random()),
        },
        7 => Message::PlayerMoving {
            id: rng.random(),
            x: gen_fx(rng),
            y: gen_fx(rng),
            move_x: gen_fx(rng),
            move_y: gen_fx(rng),
        },
        8 => Message::WorldState {
            player_count: 2,
            alive_players: vec![
                Player::not_moving(rng.random(), gen_fx(rng), gen_fx(rng)),
                Player::moving(rng.random(), gen_fx(rng), gen_fx(rng), gen_fx(rng), gen_fx(rng)),
            ],
            alive_bullets: vec![],
        },
        _ => Message::StartMoving { move_x: gen_fx(rng), move_y: gen_fx(rng) },
    }
}

#[test]
fn random_messages_round_trip() {
    let mut rng = rng();
    for _ in 0..200 {
        let m = random_message(&mut rng);
        assert_eq!(Message::from_text(&m.to_text()).unwrap(), m);
    }
}
