//! The wire codec, held against an independent JSON implementation: every
//! message encodes to the JSON tree the protocol prescribes, and decodes
//! back from it.

use rand::{rng, RngExt};
use serde_json::Value;

use tatsoryk_server::message::{Bullet, Message, MessageError, Player};

/// A random world-space value in milli-pixels that is exact in `f64`: a
/// whole number of pixels plus one half.
fn gen_fx(rng: &mut impl RngExt) -> i64 {
    rng.random_range(0i64..99) * 1000 + 500
}

/// The same value as the JSON number it must appear as.
fn fx_json(v: i64) -> Value {
    Value::from(v as f64 / 1000.0)
}

fn id_json(id: u32) -> Value {
    Value::from(id as u64)
}

fn obj(entries: Vec<(&str, Value)>) -> Value {
    let mut m = serde_json::Map::new();
    for (k, v) in entries {
        m.insert(k.to_string(), v);
    }
    Value::Object(m)
}

fn welcome_expected_json(id: u32, speed: i64, size: i64, bullet_speed: i64, bullet_size: i64) -> Value {
    obj(vec![
        ("type", Value::from("welcome")),
        (
            "data",
            obj(vec![
                ("id", id_json(id)),
                ("speed", fx_json(speed)),
                ("size", fx_json(size)),
                ("bullet_speed", fx_json(bullet_speed)),
                ("bullet_size", fx_json(bullet_size)),
            ]),
        ),
    ])
}

fn go_away_expected_json(reason: String) -> Value {
    obj(vec![
        ("type", Value::from("go_away")),
        ("data", obj(vec![("reason", Value::String(reason))])),
    ])
}

fn id_only_expected_json(id: u32, msg_type: &str) -> Value {
    obj(vec![
        ("type", Value::from(msg_type)),
        ("data", obj(vec![("id", id_json(id))])),
    ])
}

fn player_joined_expected_json(id: u32) -> Value {
    id_only_expected_json(id, "player_joined")
}

fn player_left_expected_json(id: u32) -> Value {
    id_only_expected_json(id, "player_left")
}

fn shots_fired_expected_json(id: u32, bullet_id: u32, x: i64, y: i64, aim_x: i64, aim_y: i64) -> Value {
    obj(vec![
        ("type", Value::from("shots_fired")),
        (
            "data",
            obj(vec![
                ("id", id_json(id)),
                ("bullet_id", id_json(bullet_id)),
                ("x", fx_json(x)),
                ("y", fx_json(y)),
                ("aim_x", fx_json(aim_x)),
                ("aim_y", fx_json(aim_y)),
            ]),
        ),
    ])
}

fn id_pos_expected_json(id: u32, x: i64, y: i64, msg_type: &str) -> Value {
    obj(vec![
        ("type", Value::from(msg_type)),
        (
            "data",
            obj(vec![("id", id_json(id)), ("x", fx_json(x)), ("y", fx_json(y))]),
        ),
    ])
}

fn player_spawned_expected_json(id: u32, x: i64, y: i64) -> Value {
    id_pos_expected_json(id, x, y, "player_spawned")
}

fn player_stopped_expected_json(id: u32, x: i64, y: i64) -> Value {
    id_pos_expected_json(id, x, y, "player_stopped")
}

fn player_destroyed_no_killer_expected_json(id: u32) -> Value {
    id_only_expected_json(id, "player_destroyed")
}

fn player_destroyed_with_killer_expected_json(id: u32, killer_id: u32, bullet_id: u32) -> Value {
    obj(vec![
        ("type", Value::from("player_destroyed")),
        (
            "data",
            obj(vec![
                ("id", id_json(id)),
                ("killer_id", id_json(killer_id)),
                ("bullet_id", id_json(bullet_id)),
            ]),
        ),
    ])
}

fn player_moving_expected_json(id: u32, x: i64, y: i64, move_x: i64, move_y: i64) -> Value {
    obj(vec![
        ("type", Value::from("player_moving")),
        (
            "data",
            obj(vec![
                ("id", id_json(id)),
                ("x", fx_json(x)),
                ("y", fx_json(y)),
                ("move_x", fx_json(move_x)),
                ("move_y", fx_json(move_y)),
            ]),
        ),
    ])
}

fn world_state_expected_json(player_count: u32, players: Vec<Value>, bullets: Vec<Value>) -> Value {
    obj(vec![
        ("type", Value::from("world_state")),
        (
            "data",
            obj(vec![
                ("player_count", id_json(player_count)),
                ("alive_players", Value::Array(players)),
                ("alive_bullets", Value::Array(bullets)),
            ]),
        ),
    ])
}

fn movement_expected_json(move_x: i64, move_y: i64, msg_type: &str) -> Value {
    obj(vec![
        ("type", Value::from(msg_type)),
        (
            "data",
            obj(vec![("move_x", fx_json(move_x)), ("move_y", fx_json(move_y))]),
        ),
    ])
}

fn start_moving_expected_json(move_x: i64, move_y: i64) -> Value {
    movement_expected_json(move_x, move_y, "start_moving")
}

fn stop_moving_expected_json() -> Value {
    obj(vec![("type", Value::from("stop_moving"))])
}

fn fire_expected_json(move_x: i64, move_y: i64) -> Value {
    movement_expected_json(move_x, move_y, "fire")
}

fn gen_reason(rng: &mut impl RngExt) -> String {
    let len = rng.random_range(1usize..100);
    (0..len).map(|_| rng.sample(rand::distr::Alphanumeric) as char).collect()
}

fn check_welcome_ser() {
    let mut rng = rng();
    let id: u32 = rng.random();
    let speed = gen_fx(&mut rng);
    let size = gen_fx(&mut rng);
    let bullet_speed = gen_fx(&mut rng);
    let bullet_size = gen_fx(&mut rng);
    let json_txt = Message::Welcome { id, speed, size, bullet_speed, bullet_size }.to_text();
    assert_eq!(
        serde_json::from_str::<Value>(&json_txt).unwrap(),
        welcome_expected_json(id, speed, size, bullet_speed, bullet_size)
    );
}

fn check_go_away_ser() {
    let mut rng = rng();
    let reason = gen_reason(&mut rng);
    let json_txt = Message::GoAway { reason: reason.clone() }.to_text();
    assert_eq!(serde_json::from_str::<Value>(&json_txt).unwrap(), go_away_expected_json(reason));
}

fn check_player_joined_ser() {
    let mut rng = rng();
    let id: u32 = rng.random();
    let json_txt = Message::PlayerJoined { id }.to_text();
    assert_eq!(serde_json::from_str::<Value>(&json_txt).unwrap(), player_joined_expected_json(id));
}

fn check_player_left_ser() {
    let mut rng = rng();
    let id: u32 = rng.random();
    let json_txt = Message::PlayerLeft { id }.to_text();
    assert_eq!(serde_json::from_str::<Value>(&json_txt).unwrap(), player_left_expected_json(id));
}

fn check_shots_fired_ser() {
    let mut rng = rng();
    let id: u32 = rng.random();
    let bullet_id: u32 = rng.random();
    let x = gen_fx(&mut rng);
    let y = gen_fx(&mut rng);
    let aim_x = gen_fx(&mut rng);
    let aim_y = gen_fx(&mut rng);
    let json_txt = Message::ShotsFired { id, bullet_id, x, y, aim_x, aim_y }.to_text();
    assert_eq!(
        serde_json::from_str::<Value>(&json_txt).unwrap(),
        shots_fired_expected_json(id, bullet_id, x, y, aim_x, aim_y)
    );
}

fn check_player_spawned_ser() {
    let mut rng = rng();
    let id: u32 = rng.random();
    let x = gen_fx(&mut rng);
    let y = gen_fx(&mut rng);
    let json_txt = Message::PlayerSpawned { id, x, y }.to_text();
    assert_eq!(
        serde_json::from_str::<Value>(&json_txt).unwrap(),
        player_spawned_expected_json(id, x, y)
    );
}

fn check_player_destroyed_no_killer_ser() {
    let mut rng = rng();
    let id: u32 = rng.random();
    let json_txt = Message::PlayerDestroyed { id, killer_id: None, bullet_id: None }.to_text();
    assert_eq!(
        serde_json::from_str::<Value>(&json_txt).unwrap(),
        player_destroyed_no_killer_expected_json(id)
    );
}

fn check_player_destroyed_with_killer_ser() {
    let mut rng = rng();
    let id: u32 = rng.random();
    let killer_id: u32 = rng.random();
    let bullet_id: u32 = rng.random();
    let json_txt = Message::PlayerDestroyed {
        id,
        killer_id: Some(killer_id),
        bullet_id: Some(bullet_id),
    }
    .to_text();
    assert_eq!(
        serde_json::from_str::<Value>(&json_txt).unwrap(),
        player_destroyed_with_killer_expected_json(id, killer_id, bullet_id)
    );
}

fn check_player_moving_ser() {
    let mut rng = rng();
    let id: u32 = rng.random();
    let x = gen_fx(&mut rng);
    let y = gen_fx(&mut rng);
    let move_x = gen_fx(&mut rng);
    let move_y = gen_fx(&mut rng);
    let json_txt = Message::PlayerMoving { id, x, y, move_x, move_y }.to_text();
    assert_eq!(
        serde_json::from_str::<Value>(&json_txt).unwrap(),
        player_moving_expected_json(id, x, y, move_x, move_y)
    );
}

fn check_player_stopped_ser() {
    let mut rng = rng();
    let id: u32 = rng.random();
    let x = gen_fx(&mut rng);
    let y = gen_fx(&mut rng);
    let json_txt = Message::PlayerStopped { id, x, y }.to_text();
    assert_eq!(
        serde_json::from_str::<Value>(&json_txt).unwrap(),
        player_stopped_expected_json(id, x, y)
    );
}

fn check_world_state_ser() {
    let mut rng = rng();
    let x = gen_fx(&mut rng);
    let y = gen_fx(&mut rng);
    let mx = gen_fx(&mut rng);
    let my = gen_fx(&mut rng);
    let m = Message::WorldState {
        player_count: 2,
        alive_players: vec![Player::not_moving(1, x, y), Player::moving(2, x, y, mx, my)],
        alive_bullets: vec![Bullet::moving(0, x, y, mx, my)],
    };
    let expected = world_state_expected_json(
        2,
        vec![
            obj(vec![("id", id_json(1)), ("x", fx_json(x)), ("y", fx_json(y))]),
            obj(vec![
                ("id", id_json(2)),
                ("x", fx_json(x)),
                ("y", fx_json(y)),
                ("move_x", fx_json(mx)),
                ("move_y", fx_json(my)),
            ]),
        ],
        vec![obj(vec![
            ("id", id_json(0)),
            ("x", fx_json(x)),
            ("y", fx_json(y)),
            ("move_x", fx_json(mx)),
            ("move_y", fx_json(my)),
        ])],
    );
    assert_eq!(serde_json::from_str::<Value>(&m.to_text()).unwrap(), expected);
}

fn check_start_moving_ser() {
    let mut rng = rng();
    let move_x = gen_fx(&mut rng);
    let move_y = gen_fx(&mut rng);
    let json_txt = Message::StartMoving { move_x, move_y }.to_text();
    assert_eq!(
        serde_json::from_str::<Value>(&json_txt).unwrap(),
        start_moving_expected_json(move_x, move_y)
    );
}

fn check_stop_moving_ser() {
    let json_txt = Message::StopMoving.to_text();
    assert_eq!(serde_json::from_str::<Value>(&json_txt).unwrap(), stop_moving_expected_json());
}

fn check_fire_ser() {
    let mut rng = rng();
    let move_x = gen_fx(&mut rng);
    let move_y = gen_fx(&mut rng);
    let json_txt = Message::Fire { move_x, move_y }.to_text();
    assert_eq!(
        serde_json::from_str::<Value>(&json_txt).unwrap(),
        fire_expected_json(move_x, move_y)
    );
}

fn decode(v: &Value) -> Message {
    Message::from_text(&serde_json::to_string(v).unwrap()).unwrap()
}

fn check_welcome_de() {
    let mut rng = rng();
    let id: u32 = rng.random();
    let speed = gen_fx(&mut rng);
    let size = gen_fx(&mut rng);
    let bullet_speed = gen_fx(&mut rng);
    let bullet_size = gen_fx(&mut rng);
    let expected = Message::Welcome { id, speed, size, bullet_speed, bullet_size };
    assert_eq!(
        decode(&welcome_expected_json(id, speed, size, bullet_speed, bullet_size)),
        expected
    );
}

fn check_go_away_de() {
    let mut rng = rng();
    let reason = gen_reason(&mut rng);
    let expected = Message::GoAway { reason: reason.clone() };
    assert_eq!(decode(&go_away_expected_json(reason)), expected);
}

fn check_player_joined_de() {
    let mut rng = rng();
    let id: u32 = rng.random();
    assert_eq!(decode(&player_joined_expected_json(id)), Message::PlayerJoined { id });
}

fn check_player_left_de() {
    let mut rng = rng();
    let id: u32 = rng.random();
    assert_eq!(decode(&player_left_expected_json(id)), Message::PlayerLeft { id });
}

fn check_shots_fired_de() {
    let mut rng = rng();
    let id: u32 = rng.random();
    let bullet_id: u32 = rng.random();
    let x = gen_fx(&mut rng);
    let y = gen_fx(&mut rng);
    let aim_x = gen_fx(&mut rng);
    let aim_y = gen_fx(&mut rng);
    assert_eq!(
        decode(&shots_fired_expected_json(id, bullet_id, x, y, aim_x, aim_y)),
        Message::ShotsFired { id, bullet_id, x, y, aim_x, aim_y }
    );
}

fn check_player_spawned_de() {
    let mut rng = rng();
    let id: u32 = rng.random();
    let x = gen_fx(&mut rng);
    let y = gen_fx(&mut rng);
    assert_eq!(decode(&player_spawned_expected_json(id, x, y)), Message::PlayerSpawned { id, x, y });
}

fn check_player_destroyed_no_killer_de() {
    let mut rng = rng();
    let id: u32 = rng.random();
    assert_eq!(
        decode(&player_destroyed_no_killer_expected_json(id)),
        Message::PlayerDestroyed { id, killer_id: None, bullet_id: None }
    );
}

fn check_player_destroyed_with_killer_de() {
    let mut rng = rng();
    let id: u32 = rng.random();
    let killer_id: u32 = rng.random();
    let bullet_id: u32 = rng.random();
    assert_eq!(
        decode(&player_destroyed_with_killer_expected_json(id, killer_id, bullet_id)),
        Message::PlayerDestroyed { id, killer_id: Some(killer_id), bullet_id: Some(bullet_id) }
    );
}

fn check_player_moving_de() {
    let mut rng = rng();
    let id: u32 = rng.random();
    let x = gen_fx(&mut rng);
    let y = gen_fx(&mut rng);
    let move_x = gen_fx(&mut rng);
    let move_y = gen_fx(&mut rng);
    assert_eq!(
        decode(&player_moving_expected_json(id, x, y, move_x, move_y)),
        Message::PlayerMoving { id, x, y, move_x, move_y }
    );
}

fn check_player_stopped_de() {
    let mut rng = rng();
    let id: u32 = rng.random();
    let x = gen_fx(&mut rng);
    let y = gen_fx(&mut rng);
    assert_eq!(decode(&player_stopped_expected_json(id, x, y)), Message::PlayerStopped { id, x, y });
}

fn check_world_state_de() {
    let expected = Message::WorldState {
        player_count: 1,
        alive_players: vec![Player::not_moving(4, 1500, 2500)],
        alive_bullets: vec![],
    };
    let v = world_state_expected_json(
        1,
        vec![obj(vec![("id", id_json(4)), ("x", fx_json(1500)), ("y", fx_json(2500))])],
        vec![],
    );
    assert_eq!(decode(&v), expected);
}

fn check_start_moving_de() {
    let mut rng = rng();
    let move_x = gen_fx(&mut rng);
    let move_y = gen_fx(&mut rng);
    assert_eq!(
        decode(&start_moving_expected_json(move_x, move_y)),
        Message::StartMoving { move_x, move_y }
    );
}

fn check_stop_moving_de() {
    assert_eq!(decode(&stop_moving_expected_json()), Message::StopMoving);
}

fn check_fire_de() {
    let mut rng = rng();
    let move_x = gen_fx(&mut rng);
    let move_y = gen_fx(&mut rng);
    assert_eq!(decode(&fire_expected_json(move_x, move_y)), Message::Fire { move_x, move_y });
}

fn decode_err(v: &Value) -> MessageError {
    Message::from_text(&serde_json::to_string(v).unwrap()).unwrap_err()
}

fn check_destroyed_killer_no_bullet_fails() {
    let mut rng = rng();
    let id: u32 = rng.random();
    let killer_id: u32 = rng.random();
    let mut unexpected = player_destroyed_with_killer_expected_json(id, killer_id, 0);
    unexpected
        .as_object_mut()
        .unwrap()
        .get_mut("data")
        .unwrap()
        .as_object_mut()
        .unwrap()
        .remove("bullet_id")
        .unwrap();
    match decode_err(&unexpected) {
        MessageError::PropertyMissing(_) => {}
        _ => panic!("Incorrect error kind"),
    }
}

fn check_destroyed_bullet_no_killer_fails() {
    let mut rng = rng();
    let id: u32 = rng.random();
    let bullet_id: u32 = rng.random();
    let mut unexpected = player_destroyed_with_killer_expected_json(id, bullet_id, 0);
    unexpected
        .as_object_mut()
        .unwrap()
        .get_mut("data")
        .unwrap()
        .as_object_mut()
        .unwrap()
        .remove("killer_id")
        .unwrap();
    match decode_err(&unexpected) {
        MessageError::PropertyMissing(_) => {}
        me => panic!("Incorrect error kind: {:?}, should be PropertyMissing", me),
    }
}

fn check_missing_type_fails() {
    let mut unexpected = player_joined_expected_json(0);
    unexpected.as_object_mut().unwrap().remove("type").unwrap();
    match decode_err(&unexpected) {
        MessageError::PropertyMissing(_) => {}
        me => panic!("Incorrect error kind: {:?}, should be PropertyMissing", me),
    }
}

fn check_missing_data_fails() {
    let mut unexpected = player_joined_expected_json(0);
    unexpected.as_object_mut().unwrap().remove("data").unwrap();
    match decode_err(&unexpected) {
        MessageError::PropertyMissing(_) => {}
        me => panic!("Incorrect error kind: {:?}, should be PropertyMissing", me),
    }
}

fn check_missing_data_subkey_fails() {
    let mut unexpected = player_joined_expected_json(0);
    unexpected
        .as_object_mut()
        .unwrap()
        .get_mut("data")
        .unwrap()
        .as_object_mut()
        .unwrap()
        .clear();
    match decode_err(&unexpected) {
        MessageError::PropertyMissing(_) => {}
        me => panic!("Incorrect error kind: {:?}, should be PropertyMissing", me),
    }
}

fn check_empty_toplevel_object_fails() {
    let unexpected = Value::Object(serde_json::Map::new());
    match decode_err(&unexpected) {
        MessageError::PropertyMissing(_) => {}
        me => panic!("Incorrect error kind: {:?}, should be PropertyMissing", me),
    }
}

fn check_incorrect_toplevel_type_fails() {
    let unexpected = Value::Null;
    match decode_err(&unexpected) {
        MessageError::BadType(_) => {}
        me => panic!("Incorrect error kind: {:?}, should be BadType", me),
    }
}

#[test]
fn message_welcome_serializes_properly() {
    check_welcome_ser()
}

#[test]
fn tests_welcome_serializes_properly() {
    check_welcome_ser()
}

#[test]
fn message_go_away_serializes_properly() {
    check_go_away_ser()
}

#[test]
fn tests_go_away_serializes_properly() {
    check_go_away_ser()
}

#[test]
fn message_player_joined_serializes_properly() {
    check_player_joined_ser()
}

#[test]
fn tests_player_joined_serializes_properly() {
    check_player_joined_ser()
}

#[test]
fn message_player_left_serializes_properly() {
    check_player_left_ser()
}

#[test]
fn tests_player_left_serializes_properly() {
    check_player_left_ser()
}

#[test]
fn message_shots_fired_serializes_properly() {
    check_shots_fired_ser()
}

#[test]
fn tests_shots_fired_serializes_properly() {
    check_shots_fired_ser()
}

#[test]
fn message_player_spawned_serializes_properly() {
    check_player_spawned_ser()
}

#[test]
fn tests_player_spawned_serializes_properly() {
    check_player_spawned_ser()
}

#[test]
fn message_player_destroyed_no_killer_serializes_properly() {
    check_player_destroyed_no_killer_ser()
}

#[test]
fn tests_player_destroyed_no_killer_serializes_properly() {
    check_player_destroyed_no_killer_ser()
}

#[test]
fn message_player_destroyed_with_killer_serializes_properly() {
    check_player_destroyed_with_killer_ser()
}

#[test]
fn tests_player_destroyed_with_killer_serializes_properly() {
    check_player_destroyed_with_killer_ser()
}

#[test]
fn message_player_moving_serializes_properly() {
    check_player_moving_ser()
}

#[test]
fn tests_player_moving_serializes_properly() {
    check_player_moving_ser()
}

#[test]
fn message_player_stopped_serializes_properly() {
    check_player_stopped_ser()
}

#[test]
fn tests_player_stopped_serializes_properly() {
    check_player_stopped_ser()
}

#[test]
fn message_world_state_serializes_properly() {
    check_world_state_ser()
}

#[test]
fn tests_world_state_serializes_properly() {
    check_world_state_ser()
}

#[test]
fn message_start_moving_serializes_properly() {
    check_start_moving_ser()
}

#[test]
fn tests_start_moving_serializes_properly() {
    check_start_moving_ser()
}

#[test]
fn message_stop_moving_serializes_properly() {
    check_stop_moving_ser()
}

#[test]
fn tests_stop_moving_serializes_properly() {
    check_stop_moving_ser()
}

#[test]
fn message_fire_serializes_properly() {
    check_fire_ser()
}

#[test]
fn tests_fire_serializes_properly() {
    check_fire_ser()
}

#[test]
fn message_welcome_deserializes_properly() {
    check_welcome_de()
}

#[test]
fn tests_welcome_deserializes_properly() {
    check_welcome_de()
}

#[test]
fn message_go_away_deserializes_properly() {
    check_go_away_de()
}

#[test]
fn tests_go_away_deserializes_properly() {
    check_go_away_de()
}

#[test]
fn message_player_joined_deserializes_properly() {
    check_player_joined_de()
}

#[test]
fn tests_player_joined_deserializes_properly() {
    check_player_joined_de()
}

#[test]
fn message_player_left_deserializes_properly() {
    check_player_left_de()
}

#[test]
fn tests_player_left_deserializes_properly() {
    check_player_left_de()
}

#[test]
fn message_shots_fired_deserializes_properly() {
    check_shots_fired_de()
}

#[test]
fn tests_shots_fired_deserializes_properly() {
    check_shots_fired_de()
}

#[test]
fn message_player_spawned_deserializes_properly() {
    check_player_spawned_de()
}

#[test]
fn tests_player_spawned_deserializes_properly() {
    check_player_spawned_de()
}

#[test]
fn message_player_destroyed_no_killer_deserializes_properly() {
    check_player_destroyed_no_killer_de()
}

#[test]
fn tests_player_destroyed_no_killer_deserializes_properly() {
    check_player_destroyed_no_killer_de()
}

#[test]
fn message_player_destroyed_with_killer_deserializes_properly() {
    check_player_destroyed_with_killer_de()
}

#[test]
fn tests_player_destroyed_with_killer_deserializes_properly() {
    check_player_destroyed_with_killer_de()
}

#[test]
fn message_player_moving_deserializes_properly() {
    check_player_moving_de()
}

#[test]
fn tests_player_moving_deserializes_properly() {
    check_player_moving_de()
}

#[test]
fn message_player_stopped_deserializes_properly() {
    check_player_stopped_de()
}

#[test]
fn tests_player_stopped_deserializes_properly() {
    check_player_stopped_de()
}

#[test]
fn message_world_state_deserializes_properly() {
    check_world_state_de()
}

#[test]
fn tests_world_state_deserializes_properly() {
    check_world_state_de()
}

#[test]
fn message_start_moving_deserializes_properly() {
    check_start_moving_de()
}

#[test]
fn tests_start_moving_deserializes_properly() {
    check_start_moving_de()
}

#[test]
fn message_stop_moving_deserializes_properly() {
    check_stop_moving_de()
}

#[test]
fn tests_stop_moving_deserializes_properly() {
    check_stop_moving_de()
}

#[test]
fn message_fire_deserializes_properly() {
    check_fire_de()
}

#[test]
fn tests_fire_deserializes_properly() {
    check_fire_de()
}

#[test]
fn message_player_destroyed_with_killer_no_bullet_fails() {
    check_destroyed_killer_no_bullet_fails()
}

#[test]
fn tests_player_destroyed_with_killer_no_bullet_fails() {
    check_destroyed_killer_no_bullet_fails()
}

#[test]
fn message_player_destroyed_with_bullet_no_killer_fails() {
    check_destroyed_bullet_no_killer_fails()
}

#[test]
fn tests_player_destroyed_with_bullet_no_killer_fails() {
    check_destroyed_bullet_no_killer_fails()
}

#[test]
fn message_missing_type_fails() {
    check_missing_type_fails()
}

#[test]
fn tests_missing_type_fails() {
    check_missing_type_fails()
}

#[test]
fn message_missing_data_fails() {
    check_missing_data_fails()
}

#[test]
fn tests_missing_data_fails() {
    check_missing_data_fails()
}

#[test]
fn message_missing_data_subkey_fails() {
    check_missing_data_subkey_fails()
}

#[test]
fn tests_missing_data_subkey_fails() {
    check_missing_data_subkey_fails()
}

#[test]
fn message_empty_toplevel_object_fails() {
    check_empty_toplevel_object_fails()
}

#[test]
fn tests_empty_toplevel_object_fails() {
    check_empty_toplevel_object_fails()
}

#[test]
fn message_incorrect_toplevel_type_fails() {
    check_incorrect_toplevel_type_fails()
}

#[test]
fn tests_incorrect_toplevel_type_fails() {
    check_incorrect_toplevel_type_fails()
}
