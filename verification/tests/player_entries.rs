//! The world-state entries: players and bullets as JSON objects.

use rand::{rng, RngExt};

use tatsoryk_server::json::Json;
use tatsoryk_server::message::{MessageError, Player};

fn gen_fx(rng: &mut impl RngExt) -> i64 {
    rng.random_range(0i64..99) * 1000 + 500
}

fn num(v: i64) -> Json {
    Json::Num(v)
}

fn id_num(id: u32) -> Json {
    Json::Num(id as i64 * 1000)
}

fn static_player_expected_json(id: u32, x: i64, y: i64) -> Json {
    Json::Obj(vec![
        ("id".to_string(), id_num(id)),
        ("x".to_string(), num(x)),
        ("y".to_string(), num(y)),
    ])
}

fn moving_player_expected_json(id: u32, x: i64, y: i64, move_x: i64, move_y: i64) -> Json {
    Json::Obj(vec![
        ("id".to_string(), id_num(id)),
        ("move_x".to_string(), num(move_x)),
        ("move_y".to_string(), num(move_y)),
        ("x".to_string(), num(x)),
        ("y".to_string(), num(y)),
    ])
}

#[test]
fn static_player_serializes_properly() {
    let mut rng = rng();
    let id: u32 = rng.random();
    let x = gen_fx(&mut rng);
    let y = gen_fx(&mut rng);
    assert_eq!(Player::not_moving(id, x, y).to_json(), static_player_expected_json(id, x, y));
}

#[test]
fn moving_player_serializes_properly() {
    let mut rng = rng();
    let id: u32 = rng.random();
    let x = gen_fx(&mut rng);
    let y = gen_fx(&mut rng);
    let move_x = gen_fx(&mut rng);
    let move_y = gen_fx(&mut rng);
    assert_eq!(
        Player::moving(id, x, y, move_x, move_y).to_json(),
        moving_player_expected_json(id, x, y, move_x, move_y)
    );
}

#[test]
fn static_player_deserializes_properly() {
    let mut rng = rng();
    let id: u32 = rng.random();
    let x = gen_fx(&mut rng);
    let y = gen_fx(&mut rng);
    assert_eq!(
        Player::from_json(&static_player_expected_json(id, x, y)).unwrap(),
        Player::not_moving(id, x, y)
    );
}

#[test]
fn moving_player_deserializes_properly() {
    let mut rng = rng();
    let id: u32 = rng.random();
    let x = gen_fx(&mut rng);
    let y = gen_fx(&mut rng);
    let move_x = gen_fx(&mut rng);
    let move_y = gen_fx(&mut rng);
    assert_eq!(
        Player::from_json(&moving_player_expected_json(id, x, y, move_x, move_y)).unwrap(),
        Player::moving(id, x, y, move_x, move_y)
    );
}

#[test]
fn player_with_move_x_no_move_y_deserialize_fails() {
    let mut rng = rng();
    let id: u32 = rng.random();
    let x = gen_fx(&mut rng);
    let y = gen_fx(&mut rng);
    let move_x = gen_fx(&mut rng);
    let unexpected_json = Json::Obj(vec![
        ("id".to_string(), id_num(id)),
        ("move_x".to_string(), num(move_x)),
        ("x".to_string(), num(x)),
        ("y".to_string(), num(y)),
    ]);
    match Player::from_json(&unexpected_json).unwrap_err() {
        MessageError::PropertyMissing(_) => {}
        me => panic!("Incorrect error type: {:?}, should be PropertyMissing", me),
    }
}

#[test]
fn player_with_move_y_no_move_x_deserialize_fails() {
    let mut rng = rng();
    let id: u32 = rng.random();
    let x = gen_fx(&mut rng);
    let y = gen_fx(&mut rng);
    let move_y = gen_fx(&mut rng);
    let unexpected_json = Json::Obj(vec![
        ("id".to_string(), id_num(id)),
        ("move_y".to_string(), num(move_y)),
        ("x".to_string(), num(x)),
        ("y".to_string(), num(y)),
    ]);
    match Player::from_json(&unexpected_json).unwrap_err() {
        MessageError::PropertyMissing(_) => {}
        me => panic!("Incorrect error type: {:?}, should be PropertyMissing", me),
    }
}
