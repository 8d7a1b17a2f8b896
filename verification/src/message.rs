//! The discrete messages exchanged with clients, and their wire codec.
//!
//! Every message is a JSON object `{"type": <name>[, "data": {..}]}`; the
//! `data` key is omitted when a message carries no properties. A message is
//! malformed if its type is unknown, if any key is missing or extra, or if a
//! value has the wrong type. World-space values are fixed-point milli-pixels
//! and travel as JSON decimals; ids are plain integers.

use vstd::prelude::*;

use crate::json::{
    jv, jv_list, jv_members, lemma_jv_list, lemma_jv_members, lemma_parse_print, str_eq,
    lemma_seq_lt_from_diff, members_ascending, parse_text, pv, seq_lt, spec_parse_text, wf_jv,
    Json, JsonV, NUM_ABS_MAX,
};
use vstd::arithmetic::div_mod::{lemma_div_multiples_vanish, lemma_mod_multiples_basic};
use crate::json::json_to_text;

verus! {

/// One player or bullet entry of a **world_state** message: a center
/// position and, when the entity is moving, a movement vector. The two
/// vector components are both present or both absent.
#[derive(Copy, Clone, Debug, PartialEq)]
pub struct Player {
    pub id: u32,
    pub x: i64,
    pub y: i64,
    pub move_x: Option<i64>,
    pub move_y: Option<i64>,
}

/// A bullet in flight; same shape as [`Player`].
#[derive(Copy, Clone, Debug, PartialEq)]
pub struct Bullet {
    pub id: u32,
    pub x: i64,
    pub y: i64,
    pub move_x: Option<i64>,
    pub move_y: Option<i64>,
}

/// The mathematical shape shared by players and bullets.
pub struct EntityV {
    pub id: u32,
    pub x: int,
    pub y: int,
    pub move_x: Option<int>,
    pub move_y: Option<int>,
}

pub open spec fn player_view(p: Player) -> EntityV {
    EntityV {
        id: p.id,
        x: p.x as int,
        y: p.y as int,
        move_x: match p.move_x {
            Some(v) => Some(v as int),
            None => None,
        },
        move_y: match p.move_y {
            Some(v) => Some(v as int),
            None => None,
        },
    }
}

pub open spec fn bullet_view(b: Bullet) -> EntityV {
    EntityV {
        id: b.id,
        x: b.x as int,
        y: b.y as int,
        move_x: match b.move_x {
            Some(v) => Some(v as int),
            None => None,
        },
        move_y: match b.move_y {
            Some(v) => Some(v as int),
            None => None,
        },
    }
}

/// The movement vector components are both present or both absent.
pub open spec fn entity_shape_wf(e: EntityV) -> bool {
    e.move_x is Some <==> e.move_y is Some
}

/// An entity whose values fit the wire's fixed-point range.
pub open spec fn entity_wire_wf(e: EntityV) -> bool {
    &&& entity_shape_wf(e)
    &&& -NUM_ABS_MAX <= e.x <= NUM_ABS_MAX
    &&& -NUM_ABS_MAX <= e.y <= NUM_ABS_MAX
    &&& (e.move_x is Some ==> -NUM_ABS_MAX <= e.move_x->0 <= NUM_ABS_MAX)
    &&& (e.move_y is Some ==> -NUM_ABS_MAX <= e.move_y->0 <= NUM_ABS_MAX)
}

/// A message of the protocol. Fixed-point values are `i64` milli-pixels.
#[derive(Clone, Debug, PartialEq)]
pub enum Message {
    Welcome { id: u32, speed: i64, size: i64, bullet_speed: i64, bullet_size: i64 },
    GoAway { reason: String },
    PlayerJoined { id: u32 },
    PlayerLeft { id: u32 },
    ShotsFired { id: u32, bullet_id: u32, x: i64, y: i64, aim_x: i64, aim_y: i64 },
    PlayerSpawned { id: u32, x: i64, y: i64 },
    PlayerDestroyed { id: u32, killer_id: Option<u32>, bullet_id: Option<u32> },
    PlayerMoving { id: u32, x: i64, y: i64, move_x: i64, move_y: i64 },
    PlayerStopped { id: u32, x: i64, y: i64 },
    WorldState { player_count: u32, alive_players: Vec<Player>, alive_bullets: Vec<Bullet> },
    StartMoving { move_x: i64, move_y: i64 },
    StopMoving,
    Fire { move_x: i64, move_y: i64 },
}

/// The mathematical shape of a message.
pub enum MsgV {
    Welcome { id: u32, speed: int, size: int, bullet_speed: int, bullet_size: int },
    GoAway { reason: Seq<char> },
    PlayerJoined { id: u32 },
    PlayerLeft { id: u32 },
    ShotsFired { id: u32, bullet_id: u32, x: int, y: int, aim_x: int, aim_y: int },
    PlayerSpawned { id: u32, x: int, y: int },
    PlayerDestroyed { id: u32, killer_id: Option<u32>, bullet_id: Option<u32> },
    PlayerMoving { id: u32, x: int, y: int, move_x: int, move_y: int },
    PlayerStopped { id: u32, x: int, y: int },
    WorldState { player_count: u32, alive_players: Seq<EntityV>, alive_bullets: Seq<EntityV> },
    StartMoving { move_x: int, move_y: int },
    StopMoving,
    Fire { move_x: int, move_y: int },
}

/// The abstraction of a message value.
pub open spec fn mv(m: Message) -> MsgV {
    match m {
        Message::Welcome { id, speed, size, bullet_speed, bullet_size } => MsgV::Welcome {
            id,
            speed: speed as int,
            size: size as int,
            bullet_speed: bullet_speed as int,
            bullet_size: bullet_size as int,
        },
        Message::GoAway { reason } => MsgV::GoAway { reason: reason@ },
        Message::PlayerJoined { id } => MsgV::PlayerJoined { id },
        Message::PlayerLeft { id } => MsgV::PlayerLeft { id },
        Message::ShotsFired { id, bullet_id, x, y, aim_x, aim_y } => MsgV::ShotsFired {
            id,
            bullet_id,
            x: x as int,
            y: y as int,
            aim_x: aim_x as int,
            aim_y: aim_y as int,
        },
        Message::PlayerSpawned { id, x, y } => MsgV::PlayerSpawned {
            id,
            x: x as int,
            y: y as int,
        },
        Message::PlayerDestroyed { id, killer_id, bullet_id } => MsgV::PlayerDestroyed {
            id,
            killer_id,
            bullet_id,
        },
        Message::PlayerMoving { id, x, y, move_x, move_y } => MsgV::PlayerMoving {
            id,
            x: x as int,
            y: y as int,
            move_x: move_x as int,
            move_y: move_y as int,
        },
        Message::PlayerStopped { id, x, y } => MsgV::PlayerStopped {
            id,
            x: x as int,
            y: y as int,
        },
        Message::WorldState { player_count, alive_players, alive_bullets } => MsgV::WorldState {
            player_count,
            alive_players: Seq::new(
                alive_players@.len(),
                |i: int| player_view(alive_players@[i]),
            ),
            alive_bullets: Seq::new(alive_bullets@.len(), |i: int| bullet_view(alive_bullets@[i])),
        },
        Message::StartMoving { move_x, move_y } => MsgV::StartMoving {
            move_x: move_x as int,
            move_y: move_y as int,
        },
        Message::StopMoving => MsgV::StopMoving,
        Message::Fire { move_x, move_y } => MsgV::Fire {
            move_x: move_x as int,
            move_y: move_y as int,
        },
    }
}

/// What the encoder needs of a message: optional pairs are consistent, so
/// that no entry is half-present on the wire.
pub open spec fn msg_shape_wf(m: MsgV) -> bool {
    match m {
        MsgV::PlayerDestroyed { killer_id, bullet_id, .. } => (killer_id is Some <==> bullet_id
            is Some),
        MsgV::WorldState { alive_players, alive_bullets, .. } => {
            &&& forall|i: int|
                0 <= i < alive_players.len() ==> entity_shape_wf(#[trigger] alive_players[i])
            &&& forall|i: int|
                0 <= i < alive_bullets.len() ==> entity_shape_wf(#[trigger] alive_bullets[i])
        },
        _ => true,
    }
}

/// A message every value of which fits the wire's fixed-point range, so that
/// decoding its encoding returns it unchanged.
pub open spec fn msg_wire_wf(m: MsgV) -> bool {
    msg_shape_wf(m) && match m {
        MsgV::Welcome { speed, size, bullet_speed, bullet_size, .. } => {
            &&& -NUM_ABS_MAX <= speed <= NUM_ABS_MAX
            &&& -NUM_ABS_MAX <= size <= NUM_ABS_MAX
            &&& -NUM_ABS_MAX <= bullet_speed <= NUM_ABS_MAX
            &&& -NUM_ABS_MAX <= bullet_size <= NUM_ABS_MAX
        },
        MsgV::ShotsFired { x, y, aim_x, aim_y, .. } => {
            &&& -NUM_ABS_MAX <= x <= NUM_ABS_MAX
            &&& -NUM_ABS_MAX <= y <= NUM_ABS_MAX
            &&& -NUM_ABS_MAX <= aim_x <= NUM_ABS_MAX
            &&& -NUM_ABS_MAX <= aim_y <= NUM_ABS_MAX
        },
        MsgV::PlayerSpawned { x, y, .. } => -NUM_ABS_MAX <= x <= NUM_ABS_MAX && -NUM_ABS_MAX <= y
            <= NUM_ABS_MAX,
        MsgV::PlayerMoving { x, y, move_x, move_y, .. } => {
            &&& -NUM_ABS_MAX <= x <= NUM_ABS_MAX
            &&& -NUM_ABS_MAX <= y <= NUM_ABS_MAX
            &&& -NUM_ABS_MAX <= move_x <= NUM_ABS_MAX
            &&& -NUM_ABS_MAX <= move_y <= NUM_ABS_MAX
        },
        MsgV::PlayerStopped { x, y, .. } => -NUM_ABS_MAX <= x <= NUM_ABS_MAX && -NUM_ABS_MAX <= y
            <= NUM_ABS_MAX,
        MsgV::WorldState { alive_players, alive_bullets, .. } => {
            &&& forall|i: int|
                0 <= i < alive_players.len() ==> entity_wire_wf(#[trigger] alive_players[i])
            &&& forall|i: int|
                0 <= i < alive_bullets.len() ==> entity_wire_wf(#[trigger] alive_bullets[i])
        },
        MsgV::StartMoving { move_x, move_y } => -NUM_ABS_MAX <= move_x <= NUM_ABS_MAX && -NUM_ABS_MAX
            <= move_y <= NUM_ABS_MAX,
        MsgV::Fire { move_x, move_y } => -NUM_ABS_MAX <= move_x <= NUM_ABS_MAX && -NUM_ABS_MAX
            <= move_y <= NUM_ABS_MAX,
        _ => true,
    }
}

/// An id as a JSON number: a whole number of units.
pub open spec fn id_num(id: u32) -> JsonV {
    JsonV::Num(id * 1000)
}

/// The JSON object for one world-state entity, keys ascending.
pub open spec fn entity_jv(e: EntityV) -> JsonV {
    if e.move_x is Some && e.move_y is Some {
        JsonV::Obj(
            seq![
                ("id"@, id_num(e.id)),
                ("move_x"@, JsonV::Num(e.move_x->0)),
                ("move_y"@, JsonV::Num(e.move_y->0)),
                ("x"@, JsonV::Num(e.x)),
                ("y"@, JsonV::Num(e.y)),
            ],
        )
    } else {
        JsonV::Obj(seq![("id"@, id_num(e.id)), ("x"@, JsonV::Num(e.x)), ("y"@, JsonV::Num(e.y))])
    }
}

/// A message as a JSON document, `data` first (keys ascending), omitted when
/// the message carries no properties.
pub open spec fn msg_jv(m: MsgV) -> JsonV {
    match m {
        MsgV::Welcome { id, speed, size, bullet_speed, bullet_size } => wrap(
            "welcome"@,
            seq![
                ("bullet_size"@, JsonV::Num(bullet_size)),
                ("bullet_speed"@, JsonV::Num(bullet_speed)),
                ("id"@, id_num(id)),
                ("size"@, JsonV::Num(size)),
                ("speed"@, JsonV::Num(speed)),
            ],
        ),
        MsgV::GoAway { reason } => wrap("go_away"@, seq![("reason"@, JsonV::Str(reason))]),
        MsgV::PlayerJoined { id } => wrap("player_joined"@, seq![("id"@, id_num(id))]),
        MsgV::PlayerLeft { id } => wrap("player_left"@, seq![("id"@, id_num(id))]),
        MsgV::ShotsFired { id, bullet_id, x, y, aim_x, aim_y } => wrap(
            "shots_fired"@,
            seq![
                ("aim_x"@, JsonV::Num(aim_x)),
                ("aim_y"@, JsonV::Num(aim_y)),
                ("bullet_id"@, id_num(bullet_id)),
                ("id"@, id_num(id)),
                ("x"@, JsonV::Num(x)),
                ("y"@, JsonV::Num(y)),
            ],
        ),
        MsgV::PlayerSpawned { id, x, y } => wrap(
            "player_spawned"@,
            seq![("id"@, id_num(id)), ("x"@, JsonV::Num(x)), ("y"@, JsonV::Num(y))],
        ),
        MsgV::PlayerDestroyed { id, killer_id, bullet_id } => if killer_id is Some && bullet_id
            is Some {
            wrap(
                "player_destroyed"@,
                seq![
                    ("bullet_id"@, id_num(bullet_id->0)),
                    ("id"@, id_num(id)),
                    ("killer_id"@, id_num(killer_id->0)),
                ],
            )
        } else {
            wrap("player_destroyed"@, seq![("id"@, id_num(id))])
        },
        MsgV::PlayerMoving { id, x, y, move_x, move_y } => wrap(
            "player_moving"@,
            seq![
                ("id"@, id_num(id)),
                ("move_x"@, JsonV::Num(move_x)),
                ("move_y"@, JsonV::Num(move_y)),
                ("x"@, JsonV::Num(x)),
                ("y"@, JsonV::Num(y)),
            ],
        ),
        MsgV::PlayerStopped { id, x, y } => wrap(
            "player_stopped"@,
            seq![("id"@, id_num(id)), ("x"@, JsonV::Num(x)), ("y"@, JsonV::Num(y))],
        ),
        MsgV::WorldState { player_count, alive_players, alive_bullets } => wrap(
            "world_state"@,
            seq![
                ("alive_bullets"@, JsonV::Arr(Seq::new(alive_bullets.len(), |i: int| entity_jv(alive_bullets[i])))),
                ("alive_players"@, JsonV::Arr(Seq::new(alive_players.len(), |i: int| entity_jv(alive_players[i])))),
                ("player_count"@, id_num(player_count)),
            ],
        ),
        MsgV::StartMoving { move_x, move_y } => wrap(
            "start_moving"@,
            seq![("move_x"@, JsonV::Num(move_x)), ("move_y"@, JsonV::Num(move_y))],
        ),
        MsgV::StopMoving => JsonV::Obj(seq![("type"@, JsonV::Str("stop_moving"@))]),
        MsgV::Fire { move_x, move_y } => wrap(
            "fire"@,
            seq![("move_x"@, JsonV::Num(move_x)), ("move_y"@, JsonV::Num(move_y))],
        ),
    }
}

/// `{"data": <members>, "type": <name>}`.
pub open spec fn wrap(name: Seq<char>, data: Seq<(Seq<char>, JsonV)>) -> JsonV {
    JsonV::Obj(seq![("data"@, JsonV::Obj(data)), ("type"@, JsonV::Str(name))])
}

/// Why a message was rejected.
pub enum ErrK {
    KJson,
    KMissing,
    KExtra,
    KBadType,
}

/// Why a wire text was rejected.
#[derive(Debug)]
pub enum MessageError {
    JsonError(String),
    PropertyMissing(String),
    ExtraneousProperty(String),
    BadType(String),
}

/// The kind of an error value.
pub open spec fn mek(e: MessageError) -> ErrK {
    match e {
        MessageError::JsonError(_) => ErrK::KJson,
        MessageError::PropertyMissing(_) => ErrK::KMissing,
        MessageError::ExtraneousProperty(_) => ErrK::KExtra,
        MessageError::BadType(_) => ErrK::KBadType,
    }
}

/// An id: a whole, non-negative number of units that fits `u32`.
pub open spec fn sd_u32(v: JsonV) -> Result<u32, ErrK> {
    match v {
        JsonV::Num(n) => if 0 <= n && n % 1000 == 0 && n / 1000 <= u32::MAX {
            Ok((n / 1000) as u32)
        } else {
            Err(ErrK::KBadType)
        },
        _ => Err(ErrK::KBadType),
    }
}

/// A fixed-point value: any number is taken as it stands.
pub open spec fn sd_fx(v: JsonV) -> Result<int, ErrK> {
    match v {
        JsonV::Num(n) => Ok(n),
        _ => Err(ErrK::KBadType),
    }
}

/// The index of the `type` key, or `-1`.
pub open spec fn find_type(ms: Seq<(Seq<char>, JsonV)>, i: int) -> int
    decreases ms.len() - i,
{
    if i < 0 || i >= ms.len() {
        -1
    } else if ms[i].0 == "type"@ {
        i
    } else {
        find_type(ms, i + 1)
    }
}

/// One world-state entity: `{id, x, y}` or `{id, move_x, move_y, x, y}`.
pub open spec fn sd_entity(j: JsonV) -> Result<EntityV, ErrK> {
    match j {
        JsonV::Obj(ms) => if ms.len() == 3 && ms[0].0 == "id"@ && ms[1].0 == "x"@ && ms[2].0
            == "y"@ {
            match sd_u32(ms[0].1) {
                Err(k) => Err(k),
                Ok(id) => match sd_fx(ms[1].1) {
                    Err(k) => Err(k),
                    Ok(x) => match sd_fx(ms[2].1) {
                        Err(k) => Err(k),
                        Ok(y) => Ok(EntityV { id, x, y, move_x: None, move_y: None }),
                    },
                },
            }
        } else if ms.len() == 5 && ms[0].0 == "id"@ && ms[1].0 == "move_x"@ && ms[2].0
            == "move_y"@ && ms[3].0 == "x"@ && ms[4].0 == "y"@ {
            match sd_u32(ms[0].1) {
                Err(k) => Err(k),
                Ok(id) => match sd_fx(ms[1].1) {
                    Err(k) => Err(k),
                    Ok(mx) => match sd_fx(ms[2].1) {
                        Err(k) => Err(k),
                        Ok(my) => match sd_fx(ms[3].1) {
                            Err(k) => Err(k),
                            Ok(x) => match sd_fx(ms[4].1) {
                                Err(k) => Err(k),
                                Ok(y) => Ok(
                                    EntityV { id, x, y, move_x: Some(mx), move_y: Some(my) },
                                ),
                            },
                        },
                    },
                },
            }
        } else {
            Err(ErrK::KMissing)
        },
        _ => Err(ErrK::KBadType),
    }
}

/// A run of world-state entities; the first faulty one decides the error.
pub open spec fn sd_entity_list(es: Seq<JsonV>) -> Result<Seq<EntityV>, ErrK>
    decreases es.len(),
{
    if es.len() == 0 {
        Ok(seq![])
    } else {
        match sd_entity(es[0]) {
            Err(k) => Err(k),
            Ok(e) => match sd_entity_list(es.subrange(1, es.len() as int)) {
                Err(k) => Err(k),
                Ok(rest) => Ok(seq![e] + rest),
            },
        }
    }
}

/// The message denoted by a `data` object of the given type name.
pub open spec fn sd_data(t: Seq<char>, d: Seq<(Seq<char>, JsonV)>) -> Result<MsgV, ErrK> {
    if t == "welcome"@ {
        if d.len() > 5 {
            Err(ErrK::KExtra)
        } else if d.len() < 5 {
            Err(ErrK::KMissing)
        } else if !(d[0].0 == "bullet_size"@ && d[1].0 == "bullet_speed"@ && d[2].0 == "id"@
            && d[3].0 == "size"@ && d[4].0 == "speed"@) {
            Err(ErrK::KExtra)
        } else {
            match sd_u32(d[2].1) {
                Err(k) => Err(k),
                Ok(id) => match sd_fx(d[4].1) {
                    Err(k) => Err(k),
                    Ok(speed) => match sd_fx(d[3].1) {
                        Err(k) => Err(k),
                        Ok(size) => match sd_fx(d[1].1) {
                            Err(k) => Err(k),
                            Ok(bullet_speed) => match sd_fx(d[0].1) {
                                Err(k) => Err(k),
                                Ok(bullet_size) => Ok(
                                    MsgV::Welcome { id, speed, size, bullet_speed, bullet_size },
                                ),
                            },
                        },
                    },
                },
            }
        }
    } else if t == "go_away"@ {
        if d.len() > 1 {
            Err(ErrK::KExtra)
        } else if d.len() < 1 {
            Err(ErrK::KMissing)
        } else if d[0].0 != "reason"@ {
            Err(ErrK::KExtra)
        } else {
            match d[0].1 {
                JsonV::Str(reason) => Ok(MsgV::GoAway { reason }),
                _ => Err(ErrK::KBadType),
            }
        }
    } else if t == "player_joined"@ || t == "player_left"@ {
        if d.len() > 1 {
            Err(ErrK::KExtra)
        } else if d.len() < 1 {
            Err(ErrK::KMissing)
        } else if d[0].0 != "id"@ {
            Err(ErrK::KExtra)
        } else {
            match sd_u32(d[0].1) {
                Err(k) => Err(k),
                Ok(id) => if t == "player_joined"@ {
                    Ok(MsgV::PlayerJoined { id })
                } else {
                    Ok(MsgV::PlayerLeft { id })
                },
            }
        }
    } else if t == "shots_fired"@ {
        if d.len() > 6 {
            Err(ErrK::KExtra)
        } else if d.len() < 6 {
            Err(ErrK::KMissing)
        } else if !(d[0].0 == "aim_x"@ && d[1].0 == "aim_y"@ && d[2].0 == "bullet_id"@ && d[3].0
            == "id"@ && d[4].0 == "x"@ && d[5].0 == "y"@) {
            Err(ErrK::KExtra)
        } else {
            match sd_u32(d[3].1) {
                Err(k) => Err(k),
                Ok(id) => match sd_u32(d[2].1) {
                    Err(k) => Err(k),
                    Ok(bullet_id) => match sd_fx(d[4].1) {
                        Err(k) => Err(k),
                        Ok(x) => match sd_fx(d[5].1) {
                            Err(k) => Err(k),
                            Ok(y) => match sd_fx(d[0].1) {
                                Err(k) => Err(k),
                                Ok(aim_x) => match sd_fx(d[1].1) {
                                    Err(k) => Err(k),
                                    Ok(aim_y) => Ok(
                                        MsgV::ShotsFired { id, bullet_id, x, y, aim_x, aim_y },
                                    ),
                                },
                            },
                        },
                    },
                },
            }
        }
    } else if t == "player_spawned"@ || t == "player_stopped"@ {
        if d.len() > 3 {
            Err(ErrK::KExtra)
        } else if d.len() < 3 {
            Err(ErrK::KMissing)
        } else if !(d[0].0 == "id"@ && d[1].0 == "x"@ && d[2].0 == "y"@) {
            Err(ErrK::KExtra)
        } else {
            match sd_u32(d[0].1) {
                Err(k) => Err(k),
                Ok(id) => match sd_fx(d[1].1) {
                    Err(k) => Err(k),
                    Ok(x) => match sd_fx(d[2].1) {
                        Err(k) => Err(k),
                        Ok(y) => if t == "player_spawned"@ {
                            Ok(MsgV::PlayerSpawned { id, x, y })
                        } else {
                            Ok(MsgV::PlayerStopped { id, x, y })
                        },
                    },
                },
            }
        }
    } else if t == "player_destroyed"@ {
        if d.len() == 1 {
            if d[0].0 != "id"@ {
                Err(ErrK::KExtra)
            } else {
                match sd_u32(d[0].1) {
                    Err(k) => Err(k),
                    Ok(id) => Ok(MsgV::PlayerDestroyed { id, killer_id: None, bullet_id: None }),
                }
            }
        } else if d.len() == 3 {
            if !(d[0].0 == "bullet_id"@ && d[1].0 == "id"@ && d[2].0 == "killer_id"@) {
                Err(ErrK::KExtra)
            } else {
                match sd_u32(d[1].1) {
                    Err(k) => Err(k),
                    Ok(id) => match sd_u32(d[2].1) {
                        Err(k) => Err(k),
                        Ok(killer) => match sd_u32(d[0].1) {
                            Err(k) => Err(k),
                            Ok(bullet) => Ok(
                                MsgV::PlayerDestroyed {
                                    id,
                                    killer_id: Some(killer),
                                    bullet_id: Some(bullet),
                                },
                            ),
                        },
                    },
                }
            }
        } else if d.len() > 3 {
            Err(ErrK::KExtra)
        } else {
            Err(ErrK::KMissing)
        }
    } else if t == "player_moving"@ {
        if d.len() > 5 {
            Err(ErrK::KExtra)
        } else if d.len() < 5 {
            Err(ErrK::KMissing)
        } else if !(d[0].0 == "id"@ && d[1].0 == "move_x"@ && d[2].0 == "move_y"@ && d[3].0 == "x"@
            && d[4].0 == "y"@) {
            Err(ErrK::KExtra)
        } else {
            match sd_u32(d[0].1) {
                Err(k) => Err(k),
                Ok(id) => match sd_fx(d[3].1) {
                    Err(k) => Err(k),
                    Ok(x) => match sd_fx(d[4].1) {
                        Err(k) => Err(k),
                        Ok(y) => match sd_fx(d[1].1) {
                            Err(k) => Err(k),
                            Ok(move_x) => match sd_fx(d[2].1) {
                                Err(k) => Err(k),
                                Ok(move_y) => Ok(MsgV::PlayerMoving { id, x, y, move_x, move_y }),
                            },
                        },
                    },
                },
            }
        }
    } else if t == "world_state"@ {
        if d.len() > 3 {
            Err(ErrK::KExtra)
        } else if d.len() < 3 {
            Err(ErrK::KMissing)
        } else if !(d[0].0 == "alive_bullets"@ && d[1].0 == "alive_players"@ && d[2].0
            == "player_count"@) {
            Err(ErrK::KExtra)
        } else {
            match d[1].1 {
                JsonV::Arr(ps) => match sd_entity_list(ps) {
                    Err(k) => Err(k),
                    Ok(alive_players) => match d[0].1 {
                        JsonV::Arr(bs) => match sd_entity_list(bs) {
                            Err(k) => Err(k),
                            Ok(alive_bullets) => match sd_u32(d[2].1) {
                                Err(k) => Err(k),
                                Ok(player_count) => Ok(
                                    MsgV::WorldState {
                                        player_count,
                                        alive_players,
                                        alive_bullets,
                                    },
                                ),
                            },
                        },
                        _ => Err(ErrK::KBadType),
                    },
                },
                _ => Err(ErrK::KBadType),
            }
        }
    } else if t == "start_moving"@ || t == "fire"@ {
        if d.len() > 2 {
            Err(ErrK::KExtra)
        } else if d.len() < 2 {
            Err(ErrK::KMissing)
        } else if !(d[0].0 == "move_x"@ && d[1].0 == "move_y"@) {
            Err(ErrK::KExtra)
        } else {
            match sd_fx(d[0].1) {
                Err(k) => Err(k),
                Ok(move_x) => match sd_fx(d[1].1) {
                    Err(k) => Err(k),
                    Ok(move_y) => if t == "start_moving"@ {
                        Ok(MsgV::StartMoving { move_x, move_y })
                    } else {
                        Ok(MsgV::Fire { move_x, move_y })
                    },
                },
            }
        }
    } else {
        Err(ErrK::KBadType)
    }
}

/// The message denoted by a document: `{"type": <name>[, "data": {..}]}`.
pub open spec fn sd_msg(j: JsonV) -> Result<MsgV, ErrK> {
    match j {
        JsonV::Obj(ms) => {
            let ti = find_type(ms, 0);
            if ti < 0 {
                Err(ErrK::KMissing)
            } else {
                match ms[ti].1 {
                    JsonV::Str(t) => if t == "stop_moving"@ {
                        if ms.len() == 1 && ms[0].0 == "type"@ {
                            Ok(MsgV::StopMoving)
                        } else if ms.len() == 2 && ms[0].0 == "data"@ && ms[1].0 == "type"@ {
                            match ms[0].1 {
                                JsonV::Obj(d) => if d.len() == 0 {
                                    Ok(MsgV::StopMoving)
                                } else {
                                    Err(ErrK::KExtra)
                                },
                                _ => Err(ErrK::KBadType),
                            }
                        } else {
                            Err(ErrK::KMissing)
                        }
                    } else {
                        if ms.len() == 2 && ms[0].0 == "data"@ && ms[1].0 == "type"@ {
                            match ms[0].1 {
                                JsonV::Obj(d) => sd_data(t, d),
                                _ => Err(ErrK::KBadType),
                            }
                        } else {
                            Err(ErrK::KMissing)
                        }
                    },
                    _ => Err(ErrK::KBadType),
                }
            }
        },
        _ => Err(ErrK::KBadType),
    }
}

/// The message denoted by a wire text.
pub open spec fn sd_text(t: Seq<char>) -> Result<MsgV, ErrK> {
    match spec_parse_text(t) {
        None => Err(ErrK::KJson),
        Some(j) => sd_msg(j),
    }
}

impl Player {
    /// A player standing still at `(x, y)`.
    pub fn not_moving(id: u32, x: i64, y: i64) -> (r: Player)
        ensures
            r == (Player { id, x, y, move_x: None, move_y: None }),
    {
        Player { id, x, y, move_x: None, move_y: None }
    }

    /// A player at `(x, y)` moving along `(move_x, move_y)`.
    pub fn moving(id: u32, x: i64, y: i64, move_x: i64, move_y: i64) -> (r: Player)
        ensures
            r == (Player { id, x, y, move_x: Some(move_x), move_y: Some(move_y) }),
    {
        Player { id, x, y, move_x: Some(move_x), move_y: Some(move_y) }
    }
}

impl Bullet {
    /// A bullet standing still at `(x, y)`.
    pub fn not_moving(id: u32, x: i64, y: i64) -> (r: Bullet)
        ensures
            r == (Bullet { id, x, y, move_x: None, move_y: None }),
    {
        Bullet { id, x, y, move_x: None, move_y: None }
    }

    /// A bullet at `(x, y)` moving along `(move_x, move_y)`.
    pub fn moving(id: u32, x: i64, y: i64, move_x: i64, move_y: i64) -> (r: Bullet)
        ensures
            r == (Bullet { id, x, y, move_x: Some(move_x), move_y: Some(move_y) }),
    {
        Bullet { id, x, y, move_x: Some(move_x), move_y: Some(move_y) }
    }
}

/// An id as a JSON number.
fn id_to_json(id: u32) -> (r: Json)
    ensures
        jv(r) == id_num(id),
{
    Json::Num((id as i64) * 1000)
}

/// Build the entity object `{id, x, y[, move_x, move_y]}`.
fn entity_to_json(
    id: u32,
    x: i64,
    y: i64,
    move_x: Option<i64>,
    move_y: Option<i64>,
    Ghost(e): Ghost<EntityV>,
) -> (r: Json)
    requires
        entity_shape_wf(e),
        e.id == id && e.x == x as int && e.y == y as int,
        (match move_x {
            Some(v) => e.move_x == Some(v as int),
            None => e.move_x is None,
        }),
        (match move_y {
            Some(v) => e.move_y == Some(v as int),
            None => e.move_y is None,
        }),
    ensures
        jv(r) == entity_jv(e),
{
    let mut ms: Vec<(String, Json)> = Vec::new();
    ms.push((String::from_str("id"), id_to_json(id)));
    match (move_x, move_y) {
        (Some(mx), Some(my)) => {
            ms.push((String::from_str("move_x"), Json::Num(mx)));
            ms.push((String::from_str("move_y"), Json::Num(my)));
            ms.push((String::from_str("x"), Json::Num(x)));
            ms.push((String::from_str("y"), Json::Num(y)));
            proof {
                lemma_jv_members(ms@);
                assert(jv_members(ms@) =~= entity_jv(e)->Obj_0);
            }
            Json::Obj(ms)
        },
        _ => {
            ms.push((String::from_str("x"), Json::Num(x)));
            ms.push((String::from_str("y"), Json::Num(y)));
            proof {
                lemma_jv_members(ms@);
                assert(jv_members(ms@) =~= entity_jv(e)->Obj_0);
            }
            Json::Obj(ms)
        },
    }
}

/// Appending one document extends the abstracted list by its abstraction.
proof fn lemma_jv_list_push(v: Seq<Json>, j: Json)
    ensures
        jv_list(v.push(j)) == jv_list(v) + seq![jv(j)],
    decreases v.len(),
{
    if v.len() == 0 {
        assert(v.push(j)[0] == j);
        assert(v.push(j).subrange(1, v.push(j).len() as int) =~= Seq::<Json>::empty());
        assert(jv_list(v.push(j)) =~= seq![jv(j)] + jv_list(Seq::<Json>::empty()));
        assert(jv_list(v.push(j)) =~= jv_list(v) + seq![jv(j)]);
    } else {
        assert(v.push(j)[0] == v[0]);
        assert(v.push(j).subrange(1, v.push(j).len() as int) =~= v.subrange(
            1,
            v.len() as int,
        ).push(j));
        lemma_jv_list_push(v.subrange(1, v.len() as int), j);
        assert(jv_list(v.push(j)) =~= jv_list(v) + seq![jv(j)]);
    }
}

impl Player {
    /// This entry as a world-state JSON object.
    pub fn to_json(&self) -> (r: Json)
        requires
            entity_shape_wf(player_view(*self)),
        ensures
            jv(r) == entity_jv(player_view(*self)),
    {
        entity_to_json(
            self.id,
            self.x,
            self.y,
            self.move_x,
            self.move_y,
            Ghost(player_view(*self)),
        )
    }
}

impl Bullet {
    /// This entry as a world-state JSON object.
    pub fn to_json(&self) -> (r: Json)
        requires
            entity_shape_wf(bullet_view(*self)),
        ensures
            jv(r) == entity_jv(bullet_view(*self)),
    {
        entity_to_json(
            self.id,
            self.x,
            self.y,
            self.move_x,
            self.move_y,
            Ghost(bullet_view(*self)),
        )
    }
}

/// `{"data": <data>, "type": <name>}` as a document.
fn wrap_json(name: &str, data: Vec<(String, Json)>) -> (r: Json)
    ensures
        jv(r) == wrap(name@, jv_members(data@)),
{
    let ghost dview = data@;
    let mut top: Vec<(String, Json)> = Vec::new();
    top.push((String::from_str("data"), Json::Obj(data)));
    top.push((String::from_str("type"), Json::Str(String::from_str(name))));
    proof {
        lemma_jv_members(top@);
        assert(jv_members(top@) =~= seq![
            ("data"@, JsonV::Obj(jv_members(dview))),
            ("type"@, JsonV::Str(name@)),
        ]);
    }
    Json::Obj(top)
}

/// The message as a JSON document.
pub fn message_to_json(m: &Message) -> (r: Json)
    requires
        msg_shape_wf(mv(*m)),
    ensures
        jv(r) == msg_jv(mv(*m)),
{
    match m {
        Message::Welcome { id, speed, size, bullet_speed, bullet_size } => {
            let mut d: Vec<(String, Json)> = Vec::new();
            d.push((String::from_str("bullet_size"), Json::Num(*bullet_size)));
            d.push((String::from_str("bullet_speed"), Json::Num(*bullet_speed)));
            d.push((String::from_str("id"), id_to_json(*id)));
            d.push((String::from_str("size"), Json::Num(*size)));
            d.push((String::from_str("speed"), Json::Num(*speed)));
            proof {
                lemma_jv_members(d@);
                assert(jv_members(d@) =~= msg_jv(mv(*m))->Obj_0[0].1->Obj_0);
            }
            wrap_json("welcome", d)
        },
        Message::GoAway { reason } => {
            let mut d: Vec<(String, Json)> = Vec::new();
            d.push((String::from_str("reason"), Json::Str(reason.clone())));
            proof {
                lemma_jv_members(d@);
                assert(jv_members(d@) =~= msg_jv(mv(*m))->Obj_0[0].1->Obj_0);
            }
            wrap_json("go_away", d)
        },
        Message::PlayerJoined { id } => {
            let mut d: Vec<(String, Json)> = Vec::new();
            d.push((String::from_str("id"), id_to_json(*id)));
            proof {
                lemma_jv_members(d@);
                assert(jv_members(d@) =~= msg_jv(mv(*m))->Obj_0[0].1->Obj_0);
            }
            wrap_json("player_joined", d)
        },
        Message::PlayerLeft { id } => {
            let mut d: Vec<(String, Json)> = Vec::new();
            d.push((String::from_str("id"), id_to_json(*id)));
            proof {
                lemma_jv_members(d@);
                assert(jv_members(d@) =~= msg_jv(mv(*m))->Obj_0[0].1->Obj_0);
            }
            wrap_json("player_left", d)
        },
        Message::ShotsFired { id, bullet_id, x, y, aim_x, aim_y } => {
            let mut d: Vec<(String, Json)> = Vec::new();
            d.push((String::from_str("aim_x"), Json::Num(*aim_x)));
            d.push((String::from_str("aim_y"), Json::Num(*aim_y)));
            d.push((String::from_str("bullet_id"), id_to_json(*bullet_id)));
            d.push((String::from_str("id"), id_to_json(*id)));
            d.push((String::from_str("x"), Json::Num(*x)));
            d.push((String::from_str("y"), Json::Num(*y)));
            proof {
                lemma_jv_members(d@);
                assert(jv_members(d@) =~= msg_jv(mv(*m))->Obj_0[0].1->Obj_0);
            }
            wrap_json("shots_fired", d)
        },
        Message::PlayerSpawned { id, x, y } => {
            let mut d: Vec<(String, Json)> = Vec::new();
            d.push((String::from_str("id"), id_to_json(*id)));
            d.push((String::from_str("x"), Json::Num(*x)));
            d.push((String::from_str("y"), Json::Num(*y)));
            proof {
                lemma_jv_members(d@);
                assert(jv_members(d@) =~= msg_jv(mv(*m))->Obj_0[0].1->Obj_0);
            }
            wrap_json("player_spawned", d)
        },
        Message::PlayerDestroyed { id, killer_id, bullet_id } => {
            let mut d: Vec<(String, Json)> = Vec::new();
            match (killer_id, bullet_id) {
                (Some(k), Some(b)) => {
                    d.push((String::from_str("bullet_id"), id_to_json(*b)));
                    d.push((String::from_str("id"), id_to_json(*id)));
                    d.push((String::from_str("killer_id"), id_to_json(*k)));
                },
                _ => {
                    d.push((String::from_str("id"), id_to_json(*id)));
                },
            }
            proof {
                lemma_jv_members(d@);
                assert(jv_members(d@) =~= msg_jv(mv(*m))->Obj_0[0].1->Obj_0);
            }
            wrap_json("player_destroyed", d)
        },
        Message::PlayerMoving { id, x, y, move_x, move_y } => {
            let mut d: Vec<(String, Json)> = Vec::new();
            d.push((String::from_str("id"), id_to_json(*id)));
            d.push((String::from_str("move_x"), Json::Num(*move_x)));
            d.push((String::from_str("move_y"), Json::Num(*move_y)));
            d.push((String::from_str("x"), Json::Num(*x)));
            d.push((String::from_str("y"), Json::Num(*y)));
            proof {
                lemma_jv_members(d@);
                assert(jv_members(d@) =~= msg_jv(mv(*m))->Obj_0[0].1->Obj_0);
            }
            wrap_json("player_moving", d)
        },
        Message::PlayerStopped { id, x, y } => {
            let mut d: Vec<(String, Json)> = Vec::new();
            d.push((String::from_str("id"), id_to_json(*id)));
            d.push((String::from_str("x"), Json::Num(*x)));
            d.push((String::from_str("y"), Json::Num(*y)));
            proof {
                lemma_jv_members(d@);
                assert(jv_members(d@) =~= msg_jv(mv(*m))->Obj_0[0].1->Obj_0);
            }
            wrap_json("player_stopped", d)
        },
        Message::WorldState { player_count, alive_players, alive_bullets } => {
            let ghost mview = mv(*m);
            let ghost aps = mview->WorldState_alive_players;
            let ghost abs = mview->WorldState_alive_bullets;
            let pn = alive_players.len();
            let mut ps: Vec<Json> = Vec::new();
            let mut i: usize = 0;
            while i < pn
                invariant
                    pn == alive_players@.len(),
                    0 <= i <= pn,
                    aps == Seq::new(
                        alive_players@.len(),
                        |k: int| player_view(alive_players@[k]),
                    ),
                    forall|k: int|
                        0 <= k < alive_players@.len() ==> entity_shape_wf(#[trigger] aps[k]),
                    jv_list(ps@) =~= Seq::new(i as nat, |k: int| entity_jv(aps[k])),
                decreases pn - i,
            {
                proof {
                    assert(aps[i as int] == player_view(alive_players@[i as int]));
                }
                let pj = alive_players[i].to_json();
                proof {
                    lemma_jv_list_push(ps@, pj);
                }
                ps.push(pj);
                proof {
                    assert(jv_list(ps@) =~= Seq::new((i + 1) as nat, |k: int| entity_jv(aps[k])));
                }
                i = i + 1;
            }
            let bn = alive_bullets.len();
            let mut bs: Vec<Json> = Vec::new();
            let mut t: usize = 0;
            while t < bn
                invariant
                    bn == alive_bullets@.len(),
                    0 <= t <= bn,
                    abs == Seq::new(
                        alive_bullets@.len(),
                        |k: int| bullet_view(alive_bullets@[k]),
                    ),
                    forall|k: int|
                        0 <= k < alive_bullets@.len() ==> entity_shape_wf(#[trigger] abs[k]),
                    jv_list(bs@) =~= Seq::new(t as nat, |k: int| entity_jv(abs[k])),
                decreases bn - t,
            {
                proof {
                    assert(abs[t as int] == bullet_view(alive_bullets@[t as int]));
                }
                let bj = alive_bullets[t].to_json();
                proof {
                    lemma_jv_list_push(bs@, bj);
                }
                bs.push(bj);
                proof {
                    assert(jv_list(bs@) =~= Seq::new((t + 1) as nat, |k: int| entity_jv(abs[k])));
                }
                t = t + 1;
            }
            let mut d: Vec<(String, Json)> = Vec::new();
            d.push((String::from_str("alive_bullets"), Json::Arr(bs)));
            d.push((String::from_str("alive_players"), Json::Arr(ps)));
            d.push((String::from_str("player_count"), id_to_json(*player_count)));
            proof {
                lemma_jv_members(d@);
                assert(jv_members(d@) =~= msg_jv(mv(*m))->Obj_0[0].1->Obj_0);
            }
            wrap_json("world_state", d)
        },
        Message::StartMoving { move_x, move_y } => {
            let mut d: Vec<(String, Json)> = Vec::new();
            d.push((String::from_str("move_x"), Json::Num(*move_x)));
            d.push((String::from_str("move_y"), Json::Num(*move_y)));
            proof {
                lemma_jv_members(d@);
                assert(jv_members(d@) =~= msg_jv(mv(*m))->Obj_0[0].1->Obj_0);
            }
            wrap_json("start_moving", d)
        },
        Message::StopMoving => {
            let mut top: Vec<(String, Json)> = Vec::new();
            top.push((String::from_str("type"), Json::Str(String::from_str("stop_moving"))));
            proof {
                lemma_jv_members(top@);
                assert(jv_members(top@) =~= msg_jv(mv(*m))->Obj_0);
            }
            Json::Obj(top)
        },
        Message::Fire { move_x, move_y } => {
            let mut d: Vec<(String, Json)> = Vec::new();
            d.push((String::from_str("move_x"), Json::Num(*move_x)));
            d.push((String::from_str("move_y"), Json::Num(*move_y)));
            proof {
                lemma_jv_members(d@);
                assert(jv_members(d@) =~= msg_jv(mv(*m))->Obj_0[0].1->Obj_0);
            }
            wrap_json("fire", d)
        },
    }
}

impl Message {
    /// The wire text of this message.
    pub fn to_text(&self) -> (r: String)
        requires
            msg_shape_wf(mv(*self)),
        ensures
            r@ == pv(msg_jv(mv(*self))),
    {
        let j = message_to_json(self);
        json_to_text(&j)
    }
}

/// Keys of an object, pointwise equal to an expected list.
pub open spec fn keys_match(ms: Seq<(Seq<char>, JsonV)>, ks: Seq<Seq<char>>) -> bool {
    ms.len() == ks.len() && forall|i: int| 0 <= i < ms.len() ==> #[trigger] ms[i].0 == ks[i]
}

/// Check that a data object has exactly as many properties as expected:
/// more is an extraneous property, fewer a missing one.
pub fn decompose_assert_size(len: usize, expected: usize) -> (r: Result<(), MessageError>)
    ensures
        match r {
            Ok(_) => len == expected,
            Err(e) => len != expected && mek(e) == (if len > expected {
                ErrK::KExtra
            } else {
                ErrK::KMissing
            }),
        },
{
    if len > expected {
        Err(MessageError::ExtraneousProperty(String::from_str("more properties than expected")))
    } else if len < expected {
        Err(MessageError::PropertyMissing(String::from_str("fewer properties than expected")))
    } else {
        Ok(())
    }
}

/// Check that a data object carries exactly the expected keys, in order.
pub fn decompose_assert_keys(data: &Vec<(String, Json)>, expected: &Vec<String>) -> (r: Result<
    (),
    MessageError,
>)
    ensures
        match r {
            Ok(_) => keys_match(
                jv_members(data@),
                Seq::new(expected@.len(), |i: int| expected@[i]@),
            ),
            Err(e) => !keys_match(
                jv_members(data@),
                Seq::new(expected@.len(), |i: int| expected@[i]@),
            ) && mek(e) == ErrK::KExtra,
        },
{
    proof {
        lemma_jv_members(data@);
    }
    let ghost names = Seq::new(expected@.len(), |i: int| expected@[i]@);
    if data.len() != expected.len() {
        return Err(
            MessageError::ExtraneousProperty(String::from_str("data keys differ from expected")),
        );
    }
    let n = data.len();
    let mut i: usize = 0;
    while i < n
        invariant
            n == data@.len(),
            n == expected@.len(),
            0 <= i <= n,
            names == Seq::new(expected@.len(), |k: int| expected@[k]@),
            jv_members(data@).len() == data@.len(),
            forall|k: int|
                0 <= k < data@.len() ==> #[trigger] jv_members(data@)[k] == (
                    data@[k].0@,
                    jv(data@[k].1),
                ),
            forall|k: int| 0 <= k < i ==> #[trigger] jv_members(data@)[k].0 == names[k],
        decreases n - i,
    {
        if !str_eq(data[i].0.as_str(), expected[i].as_str()) {
            proof {
                assert(jv_members(data@)[i as int].0 != names[i as int]);
            }
            return Err(
                MessageError::ExtraneousProperty(
                    String::from_str("data keys differ from expected"),
                ),
            );
        }
        i = i + 1;
    }
    Ok(())
}

/// An id property: a whole, non-negative number of units that fits `u32`.
fn unpack_u32(v: &Json) -> (r: Result<u32, MessageError>)
    ensures
        match r {
            Ok(u) => sd_u32(jv(*v)) == Ok::<u32, ErrK>(u),
            Err(e) => sd_u32(jv(*v)) == Err::<u32, ErrK>(mek(e)),
        },
{
    match v {
        Json::Num(n) => {
            if *n < 0 {
                return Err(MessageError::BadType(String::from_str("expected a u32 number")));
            }
            let u = *n as u64;
            if u % 1000 == 0 && u / 1000 <= 0xffff_ffff {
                Ok((u / 1000) as u32)
            } else {
                Err(MessageError::BadType(String::from_str("expected a u32 number")))
            }
        },
        _ => Err(MessageError::BadType(String::from_str("expected a u32 number"))),
    }
}

/// A fixed-point property: any number is taken as it stands.
fn unpack_fx(v: &Json) -> (r: Result<i64, MessageError>)
    ensures
        match r {
            Ok(u) => sd_fx(jv(*v)) == Ok::<int, ErrK>(u as int),
            Err(e) => sd_fx(jv(*v)) == Err::<int, ErrK>(mek(e)),
        },
{
    match v {
        Json::Num(n) => Ok(*n),
        _ => Err(MessageError::BadType(String::from_str("expected a position or vector"))),
    }
}

impl Player {
    /// Read one world-state entry.
    pub fn from_json(j: &Json) -> (r: Result<Player, MessageError>)
        ensures
            match r {
                Ok(p) => sd_entity(jv(*j)) == Ok::<EntityV, ErrK>(player_view(p))
                    && entity_shape_wf(player_view(p)),
                Err(e) => sd_entity(jv(*j)) == Err::<EntityV, ErrK>(mek(e)),
            },
    {
        match j {
            Json::Obj(ms) => {
                proof {
                    lemma_jv_members(ms@);
                }
                if ms.len() == 3 && str_eq(ms[0].0.as_str(), "id") && str_eq(
                    ms[1].0.as_str(),
                    "x",
                ) && str_eq(ms[2].0.as_str(), "y") {
                    let id = match unpack_u32(&ms[0].1) {
                        Ok(u) => u,
                        Err(e) => {
                            return Err(e);
                        },
                    };
                    let x = match unpack_fx(&ms[1].1) {
                        Ok(u) => u,
                        Err(e) => {
                            return Err(e);
                        },
                    };
                    let y = match unpack_fx(&ms[2].1) {
                        Ok(u) => u,
                        Err(e) => {
                            return Err(e);
                        },
                    };
                    Ok(Player { id, x, y, move_x: None, move_y: None })
                } else if ms.len() == 5 && str_eq(ms[0].0.as_str(), "id") && str_eq(
                    ms[1].0.as_str(),
                    "move_x",
                ) && str_eq(ms[2].0.as_str(), "move_y") && str_eq(ms[3].0.as_str(), "x") && str_eq(
                    ms[4].0.as_str(),
                    "y",
                ) {
                    let id = match unpack_u32(&ms[0].1) {
                        Ok(u) => u,
                        Err(e) => {
                            return Err(e);
                        },
                    };
                    let mx = match unpack_fx(&ms[1].1) {
                        Ok(u) => u,
                        Err(e) => {
                            return Err(e);
                        },
                    };
                    let my = match unpack_fx(&ms[2].1) {
                        Ok(u) => u,
                        Err(e) => {
                            return Err(e);
                        },
                    };
                    let x = match unpack_fx(&ms[3].1) {
                        Ok(u) => u,
                        Err(e) => {
                            return Err(e);
                        },
                    };
                    let y = match unpack_fx(&ms[4].1) {
                        Ok(u) => u,
                        Err(e) => {
                            return Err(e);
                        },
                    };
                    Ok(Player { id, x, y, move_x: Some(mx), move_y: Some(my) })
                } else {
                    Err(
                        MessageError::PropertyMissing(
                            String::from_str("entity keys differ from expected"),
                        ),
                    )
                }
            },
            _ => Err(MessageError::BadType(String::from_str("entity not an object"))),
        }
    }
}

impl Bullet {
    /// Read one world-state entry.
    pub fn from_json(j: &Json) -> (r: Result<Bullet, MessageError>)
        ensures
            match r {
                Ok(b) => sd_entity(jv(*j)) == Ok::<EntityV, ErrK>(bullet_view(b))
                    && entity_shape_wf(bullet_view(b)),
                Err(e) => sd_entity(jv(*j)) == Err::<EntityV, ErrK>(mek(e)),
            },
    {
        match Player::from_json(j) {
            Ok(p) => Ok(Bullet { id: p.id, x: p.x, y: p.y, move_x: p.move_x, move_y: p.move_y }),
            Err(e) => Err(e),
        }
    }
}

/// Read the world-state entries from `i` on as players.
fn players_from_json(es: &Vec<Json>, i: usize) -> (r: Result<Vec<Player>, MessageError>)
    requires
        i <= es@.len(),
    ensures
        match r {
            Ok(ps) => sd_entity_list(
                jv_list(es@).subrange(i as int, jv_list(es@).len() as int),
            ) == Ok::<Seq<EntityV>, ErrK>(Seq::new(ps@.len(), |k: int| player_view(ps@[k])))
                && forall|k: int|
                0 <= k < ps@.len() ==> entity_shape_wf(player_view(#[trigger] ps@[k])),
            Err(e) => sd_entity_list(
                jv_list(es@).subrange(i as int, jv_list(es@).len() as int),
            ) == Err::<Seq<EntityV>, ErrK>(mek(e)),
        },
    decreases es@.len() - i,
{
    proof {
        lemma_jv_list(es@);
    }
    if i == es.len() {
        let ps: Vec<Player> = Vec::new();
        proof {
            assert(jv_list(es@).subrange(i as int, jv_list(es@).len() as int) =~= Seq::<
                JsonV,
            >::empty());
            assert(Seq::new(ps@.len(), |k: int| player_view(ps@[k])) =~= Seq::<EntityV>::empty());
        }
        return Ok(ps);
    }
    let p = match Player::from_json(&es[i]) {
        Ok(p) => p,
        Err(e) => {
            return Err(e);
        },
    };
    match players_from_json(es, i + 1) {
        Ok(mut ps) => {
            let ghost oldp = ps@;
            ps.insert(0, p);
            proof {
                let tail = jv_list(es@).subrange(i as int, jv_list(es@).len() as int);
                assert(tail.subrange(1, tail.len() as int) =~= jv_list(es@).subrange(
                    i + 1 as int,
                    jv_list(es@).len() as int,
                ));
                assert(ps@ =~= seq![p] + oldp);
                assert(Seq::new(ps@.len(), |k: int| player_view(ps@[k])) =~= seq![player_view(p)]
                    + Seq::new(oldp.len(), |k: int| player_view(oldp[k])));
                assert forall|k: int|
                    0 <= k < ps@.len() implies entity_shape_wf(
                    player_view(#[trigger] ps@[k]),
                ) by {
                    if k > 0 {
                        assert(ps@[k] == oldp[k - 1]);
                    }
                }
            }
            Ok(ps)
        },
        Err(e) => {
            proof {
                let tail = jv_list(es@).subrange(i as int, jv_list(es@).len() as int);
                assert(tail.subrange(1, tail.len() as int) =~= jv_list(es@).subrange(
                    i + 1 as int,
                    jv_list(es@).len() as int,
                ));
            }
            Err(e)
        },
    }
}

/// Read the world-state entries from `i` on as bullets.
fn bullets_from_json(es: &Vec<Json>, i: usize) -> (r: Result<Vec<Bullet>, MessageError>)
    requires
        i <= es@.len(),
    ensures
        match r {
            Ok(bs) => sd_entity_list(
                jv_list(es@).subrange(i as int, jv_list(es@).len() as int),
            ) == Ok::<Seq<EntityV>, ErrK>(Seq::new(bs@.len(), |k: int| bullet_view(bs@[k])))
                && forall|k: int|
                0 <= k < bs@.len() ==> entity_shape_wf(bullet_view(#[trigger] bs@[k])),
            Err(e) => sd_entity_list(
                jv_list(es@).subrange(i as int, jv_list(es@).len() as int),
            ) == Err::<Seq<EntityV>, ErrK>(mek(e)),
        },
    decreases es@.len() - i,
{
    proof {
        lemma_jv_list(es@);
    }
    if i == es.len() {
        let bs: Vec<Bullet> = Vec::new();
        proof {
            assert(jv_list(es@).subrange(i as int, jv_list(es@).len() as int) =~= Seq::<
                JsonV,
            >::empty());
            assert(Seq::new(bs@.len(), |k: int| bullet_view(bs@[k])) =~= Seq::<EntityV>::empty());
        }
        return Ok(bs);
    }
    let b = match Bullet::from_json(&es[i]) {
        Ok(b) => b,
        Err(e) => {
            return Err(e);
        },
    };
    match bullets_from_json(es, i + 1) {
        Ok(mut bs) => {
            let ghost oldb = bs@;
            bs.insert(0, b);
            proof {
                let tail = jv_list(es@).subrange(i as int, jv_list(es@).len() as int);
                assert(tail.subrange(1, tail.len() as int) =~= jv_list(es@).subrange(
                    i + 1 as int,
                    jv_list(es@).len() as int,
                ));
                assert(bs@ =~= seq![b] + oldb);
                assert(Seq::new(bs@.len(), |k: int| bullet_view(bs@[k])) =~= seq![bullet_view(b)]
                    + Seq::new(oldb.len(), |k: int| bullet_view(oldb[k])));
                assert forall|k: int|
                    0 <= k < bs@.len() implies entity_shape_wf(
                    bullet_view(#[trigger] bs@[k]),
                ) by {
                    if k > 0 {
                        assert(bs@[k] == oldb[k - 1]);
                    }
                }
            }
            Ok(bs)
        },
        Err(e) => {
            proof {
                let tail = jv_list(es@).subrange(i as int, jv_list(es@).len() as int);
                assert(tail.subrange(1, tail.len() as int) =~= jv_list(es@).subrange(
                    i + 1 as int,
                    jv_list(es@).len() as int,
                ));
            }
            Err(e)
        },
    }
}

/// The index of the `type` key, or the length when absent.
fn find_type_idx(ms: &Vec<(String, Json)>) -> (r: usize)
    ensures
        r <= ms@.len(),
        r < ms@.len() ==> find_type(jv_members(ms@), 0) == r as int && jv_members(ms@)[r as int].0
            == "type"@,
        r == ms@.len() ==> find_type(jv_members(ms@), 0) == -1,
{
    proof {
        lemma_jv_members(ms@);
    }
    let n = ms.len();
    let mut i: usize = 0;
    while i < n
        invariant
            n == ms@.len(),
            0 <= i <= n,
            jv_members(ms@).len() == ms@.len(),
            forall|k: int|
                0 <= k < ms@.len() ==> #[trigger] jv_members(ms@)[k] == (
                    ms@[k].0@,
                    jv(ms@[k].1),
                ),
            find_type(jv_members(ms@), 0) == find_type(jv_members(ms@), i as int),
        decreases n - i,
    {
        if str_eq(ms[i].0.as_str(), "type") {
            return i;
        }
        i = i + 1;
    }
    n
}

/// The message denoted by a `data` object of type `t`.
#[verifier::rlimit(100)]
#[verifier::spinoff_prover]
fn decompose_data(t: &str, dv: &Vec<(String, Json)>) -> (r: Result<Message, MessageError>)
    ensures
        match r {
            Ok(m) => sd_data(t@, jv_members(dv@)) == Ok::<MsgV, ErrK>(mv(m)) && msg_shape_wf(
                mv(m),
            ),
            Err(e) => sd_data(t@, jv_members(dv@)) == Err::<MsgV, ErrK>(mek(e)),
        },
{
    proof {
        lemma_jv_members(dv@);
    }
    let ghost d = jv_members(dv@);
    if str_eq(t, "welcome") {
        match decompose_assert_size(dv.len(), 5) {
            Err(e) => {
                return Err(e);
            },
            Ok(_) => {},
        }
        let ks = vec![
            String::from_str("bullet_size"),
            String::from_str("bullet_speed"),
            String::from_str("id"),
            String::from_str("size"),
            String::from_str("speed"),
        ];
        let ghost names = Seq::new(ks@.len(), |i: int| ks@[i]@);
        proof {
            assert(keys_match(d, names) <==> (d[0].0 == "bullet_size"@ && d[1].0
                == "bullet_speed"@ && d[2].0 == "id"@ && d[3].0 == "size"@ && d[4].0
                == "speed"@)) by {
                if d[0].0 == "bullet_size"@ && d[1].0 == "bullet_speed"@ && d[2].0 == "id"@
                    && d[3].0 == "size"@ && d[4].0 == "speed"@ {
                    assert forall|i: int| 0 <= i < d.len() implies #[trigger] d[i].0
                        == names[i] by {}
                }
            }
        }
        match decompose_assert_keys(dv, &ks) {
            Err(e) => {
                return Err(e);
            },
            Ok(_) => {},
        }
        let id = match unpack_u32(&dv[2].1) {
            Ok(u) => u,
            Err(e) => {
                return Err(e);
            },
        };
        let speed = match unpack_fx(&dv[4].1) {
            Ok(u) => u,
            Err(e) => {
                return Err(e);
            },
        };
        let size = match unpack_fx(&dv[3].1) {
            Ok(u) => u,
            Err(e) => {
                return Err(e);
            },
        };
        let bullet_speed = match unpack_fx(&dv[1].1) {
            Ok(u) => u,
            Err(e) => {
                return Err(e);
            },
        };
        let bullet_size = match unpack_fx(&dv[0].1) {
            Ok(u) => u,
            Err(e) => {
                return Err(e);
            },
        };
        Ok(Message::Welcome { id, speed, size, bullet_speed, bullet_size })
    } else if str_eq(t, "go_away") {
        match decompose_assert_size(dv.len(), 1) {
            Err(e) => {
                return Err(e);
            },
            Ok(_) => {},
        }
        if !str_eq(dv[0].0.as_str(), "reason") {
            return Err(MessageError::ExtraneousProperty(String::from_str("expected reason")));
        }
        match &dv[0].1 {
            Json::Str(reason) => Ok(Message::GoAway { reason: reason.clone() }),
            _ => Err(MessageError::BadType(String::from_str("expected a string reason"))),
        }
    } else if str_eq(t, "player_joined") || str_eq(t, "player_left") {
        match decompose_assert_size(dv.len(), 1) {
            Err(e) => {
                return Err(e);
            },
            Ok(_) => {},
        }
        if !str_eq(dv[0].0.as_str(), "id") {
            return Err(MessageError::ExtraneousProperty(String::from_str("expected id")));
        }
        let id = match unpack_u32(&dv[0].1) {
            Ok(u) => u,
            Err(e) => {
                return Err(e);
            },
        };
        if str_eq(t, "player_joined") {
            Ok(Message::PlayerJoined { id })
        } else {
            Ok(Message::PlayerLeft { id })
        }
    } else if str_eq(t, "shots_fired") {
        match decompose_assert_size(dv.len(), 6) {
            Err(e) => {
                return Err(e);
            },
            Ok(_) => {},
        }
        let ks = vec![
            String::from_str("aim_x"),
            String::from_str("aim_y"),
            String::from_str("bullet_id"),
            String::from_str("id"),
            String::from_str("x"),
            String::from_str("y"),
        ];
        let ghost names = Seq::new(ks@.len(), |i: int| ks@[i]@);
        proof {
            assert(keys_match(d, names) <==> (d[0].0 == "aim_x"@ && d[1].0 == "aim_y"@ && d[2].0
                == "bullet_id"@ && d[3].0 == "id"@ && d[4].0 == "x"@ && d[5].0 == "y"@)) by {
                if d[0].0 == "aim_x"@ && d[1].0 == "aim_y"@ && d[2].0 == "bullet_id"@ && d[3].0
                    == "id"@ && d[4].0 == "x"@ && d[5].0 == "y"@ {
                    assert forall|i: int| 0 <= i < d.len() implies #[trigger] d[i].0
                        == names[i] by {}
                }
            }
        }
        match decompose_assert_keys(dv, &ks) {
            Err(e) => {
                return Err(e);
            },
            Ok(_) => {},
        }
        let id = match unpack_u32(&dv[3].1) {
            Ok(u) => u,
            Err(e) => {
                return Err(e);
            },
        };
        let bullet_id = match unpack_u32(&dv[2].1) {
            Ok(u) => u,
            Err(e) => {
                return Err(e);
            },
        };
        let x = match unpack_fx(&dv[4].1) {
            Ok(u) => u,
            Err(e) => {
                return Err(e);
            },
        };
        let y = match unpack_fx(&dv[5].1) {
            Ok(u) => u,
            Err(e) => {
                return Err(e);
            },
        };
        let aim_x = match unpack_fx(&dv[0].1) {
            Ok(u) => u,
            Err(e) => {
                return Err(e);
            },
        };
        let aim_y = match unpack_fx(&dv[1].1) {
            Ok(u) => u,
            Err(e) => {
                return Err(e);
            },
        };
        Ok(Message::ShotsFired { id, bullet_id, x, y, aim_x, aim_y })
    } else if str_eq(t, "player_spawned") || str_eq(t, "player_stopped") {
        match decompose_assert_size(dv.len(), 3) {
            Err(e) => {
                return Err(e);
            },
            Ok(_) => {},
        }
        let ks = vec![String::from_str("id"), String::from_str("x"), String::from_str("y")];
        let ghost names = Seq::new(ks@.len(), |i: int| ks@[i]@);
        proof {
            assert(keys_match(d, names) <==> (d[0].0 == "id"@ && d[1].0 == "x"@ && d[2].0
                == "y"@)) by {
                if d[0].0 == "id"@ && d[1].0 == "x"@ && d[2].0 == "y"@ {
                    assert forall|i: int| 0 <= i < d.len() implies #[trigger] d[i].0
                        == names[i] by {}
                }
            }
        }
        match decompose_assert_keys(dv, &ks) {
            Err(e) => {
                return Err(e);
            },
            Ok(_) => {},
        }
        let id = match unpack_u32(&dv[0].1) {
            Ok(u) => u,
            Err(e) => {
                return Err(e);
            },
        };
        let x = match unpack_fx(&dv[1].1) {
            Ok(u) => u,
            Err(e) => {
                return Err(e);
            },
        };
        let y = match unpack_fx(&dv[2].1) {
            Ok(u) => u,
            Err(e) => {
                return Err(e);
            },
        };
        if str_eq(t, "player_spawned") {
            Ok(Message::PlayerSpawned { id, x, y })
        } else {
            Ok(Message::PlayerStopped { id, x, y })
        }
    } else if str_eq(t, "player_destroyed") {
        if dv.len() == 1 {
            if !str_eq(dv[0].0.as_str(), "id") {
                return Err(MessageError::ExtraneousProperty(String::from_str("expected id")));
            }
            let id = match unpack_u32(&dv[0].1) {
                Ok(u) => u,
                Err(e) => {
                    return Err(e);
                },
            };
            Ok(Message::PlayerDestroyed { id, killer_id: None, bullet_id: None })
        } else if dv.len() == 3 {
            if !(str_eq(dv[0].0.as_str(), "bullet_id") && str_eq(dv[1].0.as_str(), "id")
                && str_eq(dv[2].0.as_str(), "killer_id")) {
                return Err(
                    MessageError::ExtraneousProperty(
                        String::from_str("expected bullet_id, id, killer_id"),
                    ),
                );
            }
            let id = match unpack_u32(&dv[1].1) {
                Ok(u) => u,
                Err(e) => {
                    return Err(e);
                },
            };
            let killer = match unpack_u32(&dv[2].1) {
                Ok(u) => u,
                Err(e) => {
                    return Err(e);
                },
            };
            let bullet = match unpack_u32(&dv[0].1) {
                Ok(u) => u,
                Err(e) => {
                    return Err(e);
                },
            };
            Ok(
                Message::PlayerDestroyed {
                    id,
                    killer_id: Some(killer),
                    bullet_id: Some(bullet),
                },
            )
        } else if dv.len() > 3 {
            Err(MessageError::ExtraneousProperty(String::from_str("expected one or three keys")))
        } else {
            Err(MessageError::PropertyMissing(String::from_str("expected one or three keys")))
        }
    } else if str_eq(t, "player_moving") {
        match decompose_assert_size(dv.len(), 5) {
            Err(e) => {
                return Err(e);
            },
            Ok(_) => {},
        }
        let ks = vec![
            String::from_str("id"),
            String::from_str("move_x"),
            String::from_str("move_y"),
            String::from_str("x"),
            String::from_str("y"),
        ];
        let ghost names = Seq::new(ks@.len(), |i: int| ks@[i]@);
        proof {
            assert(keys_match(d, names) <==> (d[0].0 == "id"@ && d[1].0 == "move_x"@ && d[2].0
                == "move_y"@ && d[3].0 == "x"@ && d[4].0 == "y"@)) by {
                if d[0].0 == "id"@ && d[1].0 == "move_x"@ && d[2].0 == "move_y"@ && d[3].0 == "x"@
                    && d[4].0 == "y"@ {
                    assert forall|i: int| 0 <= i < d.len() implies #[trigger] d[i].0
                        == names[i] by {}
                }
            }
        }
        match decompose_assert_keys(dv, &ks) {
            Err(e) => {
                return Err(e);
            },
            Ok(_) => {},
        }
        let id = match unpack_u32(&dv[0].1) {
            Ok(u) => u,
            Err(e) => {
                return Err(e);
            },
        };
        let x = match unpack_fx(&dv[3].1) {
            Ok(u) => u,
            Err(e) => {
                return Err(e);
            },
        };
        let y = match unpack_fx(&dv[4].1) {
            Ok(u) => u,
            Err(e) => {
                return Err(e);
            },
        };
        let move_x = match unpack_fx(&dv[1].1) {
            Ok(u) => u,
            Err(e) => {
                return Err(e);
            },
        };
        let move_y = match unpack_fx(&dv[2].1) {
            Ok(u) => u,
            Err(e) => {
                return Err(e);
            },
        };
        Ok(Message::PlayerMoving { id, x, y, move_x, move_y })
    } else if str_eq(t, "world_state") {
        match decompose_assert_size(dv.len(), 3) {
            Err(e) => {
                return Err(e);
            },
            Ok(_) => {},
        }
        let ks = vec![
            String::from_str("alive_bullets"),
            String::from_str("alive_players"),
            String::from_str("player_count"),
        ];
        let ghost names = Seq::new(ks@.len(), |i: int| ks@[i]@);
        proof {
            assert(keys_match(d, names) <==> (d[0].0 == "alive_bullets"@ && d[1].0
                == "alive_players"@ && d[2].0 == "player_count"@)) by {
                if d[0].0 == "alive_bullets"@ && d[1].0 == "alive_players"@ && d[2].0
                    == "player_count"@ {
                    assert forall|i: int| 0 <= i < d.len() implies #[trigger] d[i].0
                        == names[i] by {}
                }
            }
        }
        match decompose_assert_keys(dv, &ks) {
            Err(e) => {
                return Err(e);
            },
            Ok(_) => {},
        }
        let alive_players = match &dv[1].1 {
            Json::Arr(a) => {
                match players_from_json(a, 0) {
                    Ok(ps) => {
                        proof {
                            assert(jv_list(a@).subrange(0, jv_list(a@).len() as int) =~= jv_list(
                                a@,
                            ));
                        }
                        ps
                    },
                    Err(e) => {
                        proof {
                            assert(jv_list(a@).subrange(0, jv_list(a@).len() as int) =~= jv_list(
                                a@,
                            ));
                        }
                        return Err(e);
                    },
                }
            },
            _ => {
                return Err(MessageError::BadType(String::from_str("expected an array")));
            },
        };
        let alive_bullets = match &dv[0].1 {
            Json::Arr(a) => {
                match bullets_from_json(a, 0) {
                    Ok(bs) => {
                        proof {
                            assert(jv_list(a@).subrange(0, jv_list(a@).len() as int) =~= jv_list(
                                a@,
                            ));
                        }
                        bs
                    },
                    Err(e) => {
                        proof {
                            assert(jv_list(a@).subrange(0, jv_list(a@).len() as int) =~= jv_list(
                                a@,
                            ));
                        }
                        return Err(e);
                    },
                }
            },
            _ => {
                return Err(MessageError::BadType(String::from_str("expected an array")));
            },
        };
        let player_count = match unpack_u32(&dv[2].1) {
            Ok(u) => u,
            Err(e) => {
                return Err(e);
            },
        };
        Ok(Message::WorldState { player_count, alive_players, alive_bullets })
    } else if str_eq(t, "start_moving") || str_eq(t, "fire") {
        match decompose_assert_size(dv.len(), 2) {
            Err(e) => {
                return Err(e);
            },
            Ok(_) => {},
        }
        let ks = vec![String::from_str("move_x"), String::from_str("move_y")];
        let ghost names = Seq::new(ks@.len(), |i: int| ks@[i]@);
        proof {
            assert(keys_match(d, names) <==> (d[0].0 == "move_x"@ && d[1].0 == "move_y"@)) by {
                if d[0].0 == "move_x"@ && d[1].0 == "move_y"@ {
                    assert forall|i: int| 0 <= i < d.len() implies #[trigger] d[i].0
                        == names[i] by {}
                }
            }
        }
        match decompose_assert_keys(dv, &ks) {
            Err(e) => {
                return Err(e);
            },
            Ok(_) => {},
        }
        let move_x = match unpack_fx(&dv[0].1) {
            Ok(u) => u,
            Err(e) => {
                return Err(e);
            },
        };
        let move_y = match unpack_fx(&dv[1].1) {
            Ok(u) => u,
            Err(e) => {
                return Err(e);
            },
        };
        if str_eq(t, "start_moving") {
            Ok(Message::StartMoving { move_x, move_y })
        } else {
            Ok(Message::Fire { move_x, move_y })
        }
    } else {
        Err(MessageError::BadType(String::from_str("unknown message type")))
    }
}

/// The message denoted by a document.
pub fn json_to_message(j: &Json) -> (r: Result<Message, MessageError>)
    ensures
        match r {
            Ok(m) => sd_msg(jv(*j)) == Ok::<MsgV, ErrK>(mv(m)) && msg_shape_wf(mv(m)),
            Err(e) => sd_msg(jv(*j)) == Err::<MsgV, ErrK>(mek(e)),
        },
{
    let ms = match j {
        Json::Obj(ms) => ms,
        _ => {
            return Err(MessageError::BadType(String::from_str("top level not an object")));
        },
    };
    proof {
        lemma_jv_members(ms@);
    }
    let n = ms.len();
    let ti = find_type_idx(ms);
    if ti == n {
        return Err(MessageError::PropertyMissing(String::from_str("no type key")));
    }
    let t = match &ms[ti].1 {
        Json::Str(t) => t,
        _ => {
            return Err(MessageError::BadType(String::from_str("type not a string")));
        },
    };
    if str_eq(t.as_str(), "stop_moving") {
        if n == 1 && str_eq(ms[0].0.as_str(), "type") {
            return Ok(Message::StopMoving);
        }
        if n == 2 && str_eq(ms[0].0.as_str(), "data") && str_eq(ms[1].0.as_str(), "type") {
            match &ms[0].1 {
                Json::Obj(d) => {
                    proof {
                        lemma_jv_members(d@);
                    }
                    if d.len() == 0 {
                        Ok(Message::StopMoving)
                    } else {
                        Err(
                            MessageError::ExtraneousProperty(
                                String::from_str("data for a dataless message"),
                            ),
                        )
                    }
                },
                _ => Err(MessageError::BadType(String::from_str("data not an object"))),
            }
        } else {
            Err(MessageError::PropertyMissing(String::from_str("expected type and data keys")))
        }
    } else {
        if n == 2 && str_eq(ms[0].0.as_str(), "data") && str_eq(ms[1].0.as_str(), "type") {
            match &ms[0].1 {
                Json::Obj(d) => decompose_data(t.as_str(), d),
                _ => Err(MessageError::BadType(String::from_str("data not an object"))),
            }
        } else {
            Err(MessageError::PropertyMissing(String::from_str("expected type and data keys")))
        }
    }
}

impl Message {
    /// The message denoted by a wire text, or why it was rejected.
    pub fn from_text(s: &str) -> (r: Result<Message, MessageError>)
        ensures
            match r {
                Ok(m) => sd_text(s@) == Ok::<MsgV, ErrK>(mv(m)) && msg_shape_wf(mv(m)),
                Err(e) => sd_text(s@) == Err::<MsgV, ErrK>(mek(e)),
            },
    {
        match parse_text(s) {
            None => Err(MessageError::JsonError(String::from_str("not canonical JSON"))),
            Some(j) => json_to_message(&j),
        }
    }
}

/// An id's JSON number reads back as the id.
proof fn lemma_id_num(id: u32)
    ensures
        sd_u32(id_num(id)) == Ok::<u32, ErrK>(id),
        -NUM_ABS_MAX <= id * 1000 <= NUM_ABS_MAX,
{
    lemma_mod_multiples_basic(id as int, 1000);
    lemma_div_multiples_vanish(id as int, 1000);
    assert(id * 1000 == 1000 * id);
}

/// Every ordering and inequality fact about the wire's key and type names.
#[verifier::rlimit(100)]
#[verifier::spinoff_prover]
proof fn lemma_key_facts()
    ensures
        seq_lt("data"@, "type"@),
        "data"@ != "type"@,
        seq_lt("bullet_size"@, "bullet_speed"@),
        seq_lt("bullet_speed"@, "id"@),
        seq_lt("id"@, "size"@),
        seq_lt("size"@, "speed"@),
        seq_lt("aim_x"@, "aim_y"@),
        seq_lt("aim_y"@, "bullet_id"@),
        seq_lt("bullet_id"@, "id"@),
        seq_lt("id"@, "x"@),
        seq_lt("x"@, "y"@),
        seq_lt("bullet_id"@, "killer_id"@),
        seq_lt("id"@, "killer_id"@),
        seq_lt("id"@, "move_x"@),
        seq_lt("move_x"@, "move_y"@),
        seq_lt("move_y"@, "x"@),
        seq_lt("alive_bullets"@, "alive_players"@),
        seq_lt("alive_players"@, "player_count"@),
        "welcome"@ != "stop_moving"@,
        "go_away"@ != "stop_moving"@,
        "go_away"@ != "welcome"@,
        "player_joined"@ != "stop_moving"@,
        "player_joined"@ != "welcome"@,
        "player_joined"@ != "go_away"@,
        "player_left"@ != "stop_moving"@,
        "player_left"@ != "welcome"@,
        "player_left"@ != "go_away"@,
        "player_left"@ != "player_joined"@,
        "shots_fired"@ != "stop_moving"@,
        "shots_fired"@ != "welcome"@,
        "shots_fired"@ != "go_away"@,
        "shots_fired"@ != "player_joined"@,
        "shots_fired"@ != "player_left"@,
        "player_spawned"@ != "stop_moving"@,
        "player_spawned"@ != "welcome"@,
        "player_spawned"@ != "go_away"@,
        "player_spawned"@ != "player_joined"@,
        "player_spawned"@ != "player_left"@,
        "player_spawned"@ != "shots_fired"@,
        "player_destroyed"@ != "stop_moving"@,
        "player_destroyed"@ != "welcome"@,
        "player_destroyed"@ != "go_away"@,
        "player_destroyed"@ != "player_joined"@,
        "player_destroyed"@ != "player_left"@,
        "player_destroyed"@ != "shots_fired"@,
        "player_destroyed"@ != "player_spawned"@,
        "player_moving"@ != "stop_moving"@,
        "player_moving"@ != "welcome"@,
        "player_moving"@ != "go_away"@,
        "player_moving"@ != "player_joined"@,
        "player_moving"@ != "player_left"@,
        "player_moving"@ != "shots_fired"@,
        "player_moving"@ != "player_spawned"@,
        "player_moving"@ != "player_destroyed"@,
        "player_stopped"@ != "stop_moving"@,
        "player_stopped"@ != "welcome"@,
        "player_stopped"@ != "go_away"@,
        "player_stopped"@ != "player_joined"@,
        "player_stopped"@ != "player_left"@,
        "player_stopped"@ != "shots_fired"@,
        "player_stopped"@ != "player_spawned"@,
        "player_stopped"@ != "player_destroyed"@,
        "player_stopped"@ != "player_moving"@,
        "world_state"@ != "stop_moving"@,
        "world_state"@ != "welcome"@,
        "world_state"@ != "go_away"@,
        "world_state"@ != "player_joined"@,
        "world_state"@ != "player_left"@,
        "world_state"@ != "shots_fired"@,
        "world_state"@ != "player_spawned"@,
        "world_state"@ != "player_destroyed"@,
        "world_state"@ != "player_moving"@,
        "world_state"@ != "player_stopped"@,
        "start_moving"@ != "stop_moving"@,
        "start_moving"@ != "welcome"@,
        "start_moving"@ != "go_away"@,
        "start_moving"@ != "player_joined"@,
        "start_moving"@ != "player_left"@,
        "start_moving"@ != "shots_fired"@,
        "start_moving"@ != "player_spawned"@,
        "start_moving"@ != "player_destroyed"@,
        "start_moving"@ != "player_moving"@,
        "start_moving"@ != "player_stopped"@,
        "start_moving"@ != "world_state"@,
        "fire"@ != "stop_moving"@,
        "fire"@ != "welcome"@,
        "fire"@ != "go_away"@,
        "fire"@ != "player_joined"@,
        "fire"@ != "player_left"@,
        "fire"@ != "shots_fired"@,
        "fire"@ != "player_spawned"@,
        "fire"@ != "player_destroyed"@,
        "fire"@ != "player_moving"@,
        "fire"@ != "player_stopped"@,
        "fire"@ != "world_state"@,
        "fire"@ != "start_moving"@,
{
    reveal_strlit("data");
    reveal_strlit("type");
    reveal_strlit("bullet_size");
    reveal_strlit("bullet_speed");
    reveal_strlit("id");
    reveal_strlit("size");
    reveal_strlit("speed");
    reveal_strlit("aim_x");
    reveal_strlit("aim_y");
    reveal_strlit("bullet_id");
    reveal_strlit("x");
    reveal_strlit("y");
    reveal_strlit("killer_id");
    reveal_strlit("move_x");
    reveal_strlit("move_y");
    reveal_strlit("alive_bullets");
    reveal_strlit("alive_players");
    reveal_strlit("player_count");
    reveal_strlit("reason");
    reveal_strlit("welcome");
    reveal_strlit("go_away");
    reveal_strlit("player_joined");
    reveal_strlit("player_left");
    reveal_strlit("shots_fired");
    reveal_strlit("player_spawned");
    reveal_strlit("player_destroyed");
    reveal_strlit("player_moving");
    reveal_strlit("player_stopped");
    reveal_strlit("world_state");
    reveal_strlit("start_moving");
    reveal_strlit("stop_moving");
    reveal_strlit("fire");
    lemma_seq_lt_from_diff("data"@, "type"@, 0);
    lemma_seq_lt_from_diff("bullet_size"@, "bullet_speed"@, 8);
    lemma_seq_lt_from_diff("bullet_speed"@, "id"@, 0);
    lemma_seq_lt_from_diff("id"@, "size"@, 0);
    lemma_seq_lt_from_diff("size"@, "speed"@, 1);
    lemma_seq_lt_from_diff("aim_x"@, "aim_y"@, 4);
    lemma_seq_lt_from_diff("aim_y"@, "bullet_id"@, 0);
    lemma_seq_lt_from_diff("bullet_id"@, "id"@, 0);
    lemma_seq_lt_from_diff("id"@, "x"@, 0);
    lemma_seq_lt_from_diff("x"@, "y"@, 0);
    lemma_seq_lt_from_diff("bullet_id"@, "killer_id"@, 0);
    lemma_seq_lt_from_diff("id"@, "killer_id"@, 0);
    lemma_seq_lt_from_diff("id"@, "move_x"@, 0);
    lemma_seq_lt_from_diff("move_x"@, "move_y"@, 5);
    lemma_seq_lt_from_diff("move_y"@, "x"@, 0);
    lemma_seq_lt_from_diff("alive_bullets"@, "alive_players"@, 6);
    lemma_seq_lt_from_diff("alive_players"@, "player_count"@, 0);
    assert(("welcome"@)[0] != ("go_away"@)[0]);
    assert(("player_joined"@)[7] != ("player_moving"@)[7]);
    assert(("player_left"@)[0] != ("shots_fired"@)[0]);
    assert(("player_left"@)[0] != ("world_state"@)[0]);
    assert(("player_left"@)[0] != ("stop_moving"@)[0]);
    assert(("shots_fired"@)[0] != ("world_state"@)[0]);
    assert(("shots_fired"@)[1] != ("stop_moving"@)[1]);
    assert(("world_state"@)[1] != ("stop_moving"@)[1]);
    assert(("player_spawned"@)[8] != ("player_stopped"@)[8]);
    assert(("player_destroyed"@).len() == 16);
    assert(("player_left"@).len() == 11);
    assert(("start_moving"@).len() == 12);
    assert(("stop_moving"@).len() == 11);
    assert(("fire"@)[0] == 'f');
    assert(("welcome"@)[0] == 'w');
    assert(("go_away"@)[0] == 'g');
    assert(("player_joined"@)[0] == 'p');
    assert(("player_left"@)[0] == 'p');
    assert(("shots_fired"@)[0] == 's');
    assert(("player_spawned"@)[0] == 'p');
    assert(("player_destroyed"@)[0] == 'p');
    assert(("player_moving"@)[0] == 'p');
    assert(("player_stopped"@)[0] == 'p');
    assert(("world_state"@)[0] == 'w');
    assert(("start_moving"@)[0] == 's');
    assert(("stop_moving"@)[0] == 's');
    assert(("fire"@).len() == 4);
    assert(("welcome"@).len() == 7);
    assert(("go_away"@).len() == 7);
    assert(("player_joined"@).len() == 13);
    assert(("shots_fired"@).len() == 11);
    assert(("player_spawned"@).len() == 14);
    assert(("player_moving"@).len() == 13);
    assert(("player_stopped"@).len() == 14);
    assert(("world_state"@).len() == 11);
}

/// A wire-well-formed entity's JSON object is canonical and reads back to
/// the entity.
proof fn lemma_entity_roundtrip(e: EntityV)
    requires
        entity_wire_wf(e),
    ensures
        wf_jv(entity_jv(e)),
        sd_entity(entity_jv(e)) == Ok::<EntityV, ErrK>(e),
{
    lemma_key_facts();
    lemma_id_num(e.id);
    let j = entity_jv(e);
    let ms = j->Obj_0;
    if e.move_x is Some && e.move_y is Some {
        assert(ms.len() == 5);
        assert(members_ascending(ms)) by {
            assert(ms[0].0 == "id"@ && ms[1].0 == "move_x"@ && ms[2].0 == "move_y"@ && ms[3].0
                == "x"@ && ms[4].0 == "y"@);
        }
        assert forall|i: int| 0 <= i < ms.len() implies wf_jv((#[trigger] ms[i]).1) by {}
    } else {
        assert(ms.len() == 3);
        assert(members_ascending(ms)) by {
            assert(ms[0].0 == "id"@ && ms[1].0 == "x"@ && ms[2].0 == "y"@);
        }
        assert forall|i: int| 0 <= i < ms.len() implies wf_jv((#[trigger] ms[i]).1) by {}
        assert(e.move_x is None && e.move_y is None);
    }
}

/// A run of wire-well-formed entity objects reads back to the entities.
proof fn lemma_entity_list_roundtrip(es: Seq<EntityV>)
    requires
        forall|i: int| 0 <= i < es.len() ==> entity_wire_wf(#[trigger] es[i]),
    ensures
        sd_entity_list(Seq::new(es.len(), |i: int| entity_jv(es[i]))) == Ok::<
            Seq<EntityV>,
            ErrK,
        >(es),
        forall|i: int| 0 <= i < es.len() ==> wf_jv(entity_jv(#[trigger] es[i])),
    decreases es.len(),
{
    let js = Seq::new(es.len(), |i: int| entity_jv(es[i]));
    if es.len() == 0 {
        assert(es =~= Seq::<EntityV>::empty());
    } else {
        lemma_entity_roundtrip(es[0]);
        let rest = es.subrange(1, es.len() as int);
        assert forall|i: int| 0 <= i < rest.len() implies entity_wire_wf(#[trigger] rest[i]) by {
            assert(rest[i] == es[i + 1]);
        }
        lemma_entity_list_roundtrip(rest);
        let rjs = Seq::new(rest.len(), |i: int| entity_jv(rest[i]));
        assert(js.subrange(1, js.len() as int) =~= rjs);
        assert(js[0] == entity_jv(es[0]));
        assert(seq![es[0]] + rest =~= es);
        assert forall|i: int| 0 <= i < es.len() implies wf_jv(entity_jv(#[trigger] es[i])) by {
            if i > 0 {
                assert(es[i] == rest[i - 1]);
            }
        }
    }
}

/// The composed document of a wire-well-formed message is canonical.
#[verifier::rlimit(100)]
#[verifier::spinoff_prover]
proof fn lemma_msg_jv_wf(m: MsgV)
    requires
        msg_wire_wf(m),
    ensures
        wf_jv(msg_jv(m)),
{
    lemma_key_facts();
    let j = msg_jv(m);
    let tops = j->Obj_0;
    match m {
        MsgV::StopMoving => {
            assert(members_ascending(tops));
            assert(wf_jv(tops[0].1));
            assert forall|i: int| 0 <= i < tops.len() implies wf_jv((#[trigger] tops[i]).1) by {}
        },
        MsgV::WorldState { player_count, alive_players, alive_bullets } => {
            lemma_id_num(player_count);
            lemma_entity_list_roundtrip(alive_players);
            lemma_entity_list_roundtrip(alive_bullets);
            let d = tops[0].1->Obj_0;
            assert(members_ascending(tops)) by {
                assert(tops[0].0 == "data"@ && tops[1].0 == "type"@);
            }
            assert(members_ascending(d)) by {
                assert(d[0].0 == "alive_bullets"@ && d[1].0 == "alive_players"@ && d[2].0
                    == "player_count"@);
            }
            let bjs = d[0].1->Arr_0;
            let pjs = d[1].1->Arr_0;
            assert(wf_jv(d[0].1)) by {
                assert forall|k: int| 0 <= k < bjs.len() implies wf_jv(#[trigger] bjs[k]) by {
                    assert(bjs[k] == entity_jv(alive_bullets[k]));
                }
            }
            assert(wf_jv(d[1].1)) by {
                assert forall|k: int| 0 <= k < pjs.len() implies wf_jv(#[trigger] pjs[k]) by {
                    assert(pjs[k] == entity_jv(alive_players[k]));
                }
            }
            assert forall|i: int| 0 <= i < d.len() implies wf_jv((#[trigger] d[i]).1) by {}
            assert(wf_jv(tops[0].1));
            assert(wf_jv(tops[1].1));
            assert forall|i: int| 0 <= i < tops.len() implies wf_jv((#[trigger] tops[i]).1) by {}
        },
        MsgV::Welcome { id, .. } => {
            lemma_id_num(id);
            let d = tops[0].1->Obj_0;
            assert(members_ascending(tops)) by {
                assert(tops[0].0 == "data"@ && tops[1].0 == "type"@);
            }
            assert(members_ascending(d)) by {
                assert(d[0].0 == "bullet_size"@ && d[1].0 == "bullet_speed"@ && d[2].0 == "id"@
                    && d[3].0 == "size"@ && d[4].0 == "speed"@);
            }
            assert forall|i: int| 0 <= i < d.len() implies wf_jv((#[trigger] d[i]).1) by {}
            assert(wf_jv(tops[0].1));
            assert(wf_jv(tops[1].1));
            assert forall|i: int| 0 <= i < tops.len() implies wf_jv((#[trigger] tops[i]).1) by {}
        },
        MsgV::GoAway { .. } => {
            let d = tops[0].1->Obj_0;
            assert(members_ascending(tops)) by {
                assert(tops[0].0 == "data"@ && tops[1].0 == "type"@);
            }
            assert(members_ascending(d));
            assert forall|i: int| 0 <= i < d.len() implies wf_jv((#[trigger] d[i]).1) by {}
            assert(wf_jv(tops[0].1));
            assert(wf_jv(tops[1].1));
            assert forall|i: int| 0 <= i < tops.len() implies wf_jv((#[trigger] tops[i]).1) by {}
        },
        MsgV::PlayerJoined { id } => {
            lemma_id_num(id);
            let d = tops[0].1->Obj_0;
            assert(members_ascending(tops)) by {
                assert(tops[0].0 == "data"@ && tops[1].0 == "type"@);
            }
            assert(members_ascending(d));
            assert forall|i: int| 0 <= i < d.len() implies wf_jv((#[trigger] d[i]).1) by {}
            assert(wf_jv(tops[0].1));
            assert(wf_jv(tops[1].1));
            assert forall|i: int| 0 <= i < tops.len() implies wf_jv((#[trigger] tops[i]).1) by {}
        },
        MsgV::PlayerLeft { id } => {
            lemma_id_num(id);
            let d = tops[0].1->Obj_0;
            assert(members_ascending(tops)) by {
                assert(tops[0].0 == "data"@ && tops[1].0 == "type"@);
            }
            assert(members_ascending(d));
            assert forall|i: int| 0 <= i < d.len() implies wf_jv((#[trigger] d[i]).1) by {}
            assert(wf_jv(tops[0].1));
            assert(wf_jv(tops[1].1));
            assert forall|i: int| 0 <= i < tops.len() implies wf_jv((#[trigger] tops[i]).1) by {}
        },
        MsgV::ShotsFired { id, bullet_id, .. } => {
            lemma_id_num(id);
            lemma_id_num(bullet_id);
            let d = tops[0].1->Obj_0;
            assert(members_ascending(tops)) by {
                assert(tops[0].0 == "data"@ && tops[1].0 == "type"@);
            }
            assert(members_ascending(d)) by {
                assert(d[0].0 == "aim_x"@ && d[1].0 == "aim_y"@ && d[2].0 == "bullet_id"@
                    && d[3].0 == "id"@ && d[4].0 == "x"@ && d[5].0 == "y"@);
            }
            assert forall|i: int| 0 <= i < d.len() implies wf_jv((#[trigger] d[i]).1) by {}
            assert(wf_jv(tops[0].1));
            assert(wf_jv(tops[1].1));
            assert forall|i: int| 0 <= i < tops.len() implies wf_jv((#[trigger] tops[i]).1) by {}
        },
        MsgV::PlayerSpawned { id, .. } => {
            lemma_id_num(id);
            let d = tops[0].1->Obj_0;
            assert(members_ascending(tops)) by {
                assert(tops[0].0 == "data"@ && tops[1].0 == "type"@);
            }
            assert(members_ascending(d)) by {
                assert(d[0].0 == "id"@ && d[1].0 == "x"@ && d[2].0 == "y"@);
            }
            assert forall|i: int| 0 <= i < d.len() implies wf_jv((#[trigger] d[i]).1) by {}
            assert(wf_jv(tops[0].1));
            assert(wf_jv(tops[1].1));
            assert forall|i: int| 0 <= i < tops.len() implies wf_jv((#[trigger] tops[i]).1) by {}
        },
        MsgV::PlayerStopped { id, .. } => {
            lemma_id_num(id);
            let d = tops[0].1->Obj_0;
            assert(members_ascending(tops)) by {
                assert(tops[0].0 == "data"@ && tops[1].0 == "type"@);
            }
            assert(members_ascending(d)) by {
                assert(d[0].0 == "id"@ && d[1].0 == "x"@ && d[2].0 == "y"@);
            }
            assert forall|i: int| 0 <= i < d.len() implies wf_jv((#[trigger] d[i]).1) by {}
            assert(wf_jv(tops[0].1));
            assert(wf_jv(tops[1].1));
            assert forall|i: int| 0 <= i < tops.len() implies wf_jv((#[trigger] tops[i]).1) by {}
        },
        MsgV::PlayerDestroyed { id, killer_id, bullet_id } => {
            lemma_id_num(id);
            let d = tops[0].1->Obj_0;
            assert(members_ascending(tops)) by {
                assert(tops[0].0 == "data"@ && tops[1].0 == "type"@);
            }
            if killer_id is Some && bullet_id is Some {
                lemma_id_num(killer_id->0);
                lemma_id_num(bullet_id->0);
                assert(members_ascending(d)) by {
                    assert(d[0].0 == "bullet_id"@ && d[1].0 == "id"@ && d[2].0 == "killer_id"@);
                }
            } else {
                assert(members_ascending(d));
            }
            assert forall|i: int| 0 <= i < d.len() implies wf_jv((#[trigger] d[i]).1) by {}
            assert(wf_jv(tops[0].1));
            assert(wf_jv(tops[1].1));
            assert forall|i: int| 0 <= i < tops.len() implies wf_jv((#[trigger] tops[i]).1) by {}
        },
        MsgV::PlayerMoving { id, .. } => {
            lemma_id_num(id);
            let d = tops[0].1->Obj_0;
            assert(members_ascending(tops)) by {
                assert(tops[0].0 == "data"@ && tops[1].0 == "type"@);
            }
            assert(members_ascending(d)) by {
                assert(d[0].0 == "id"@ && d[1].0 == "move_x"@ && d[2].0 == "move_y"@ && d[3].0
                    == "x"@ && d[4].0 == "y"@);
            }
            assert forall|i: int| 0 <= i < d.len() implies wf_jv((#[trigger] d[i]).1) by {}
            assert(wf_jv(tops[0].1));
            assert(wf_jv(tops[1].1));
            assert forall|i: int| 0 <= i < tops.len() implies wf_jv((#[trigger] tops[i]).1) by {}
        },
        MsgV::StartMoving { .. } => {
            let d = tops[0].1->Obj_0;
            assert(members_ascending(tops)) by {
                assert(tops[0].0 == "data"@ && tops[1].0 == "type"@);
            }
            assert(members_ascending(d)) by {
                assert(d[0].0 == "move_x"@ && d[1].0 == "move_y"@);
            }
            assert forall|i: int| 0 <= i < d.len() implies wf_jv((#[trigger] d[i]).1) by {}
            assert(wf_jv(tops[0].1));
            assert(wf_jv(tops[1].1));
            assert forall|i: int| 0 <= i < tops.len() implies wf_jv((#[trigger] tops[i]).1) by {}
        },
        MsgV::Fire { .. } => {
            let d = tops[0].1->Obj_0;
            assert(members_ascending(tops)) by {
                assert(tops[0].0 == "data"@ && tops[1].0 == "type"@);
            }
            assert(members_ascending(d)) by {
                assert(d[0].0 == "move_x"@ && d[1].0 == "move_y"@);
            }
            assert forall|i: int| 0 <= i < d.len() implies wf_jv((#[trigger] d[i]).1) by {}
            assert(wf_jv(tops[0].1));
            assert(wf_jv(tops[1].1));
            assert forall|i: int| 0 <= i < tops.len() implies wf_jv((#[trigger] tops[i]).1) by {}
        },
    }
}

/// Reading back the composed document of a wire-well-formed message yields
/// the message.
#[verifier::rlimit(100)]
#[verifier::spinoff_prover]
proof fn lemma_decompose_compose(m: MsgV)
    requires
        msg_wire_wf(m),
    ensures
        sd_msg(msg_jv(m)) == Ok::<MsgV, ErrK>(m),
{
    lemma_key_facts();
    let j = msg_jv(m);
    let tops = j->Obj_0;
    match m {
        MsgV::StopMoving => {
            assert(find_type(tops, 0) == 0);
        },
        _ => {
            assert(tops.len() == 2);
            assert(tops[0].0 == "data"@);
            assert(tops[1].0 == "type"@);
            assert(find_type(tops, 0) == 1) by {
                assert(find_type(tops, 1) == 1);
            }
            match m {
                MsgV::Welcome { id, .. } => {
                    lemma_id_num(id);
                },
                MsgV::PlayerJoined { id } => {
                    lemma_id_num(id);
                },
                MsgV::PlayerLeft { id } => {
                    lemma_id_num(id);
                },
                MsgV::ShotsFired { id, bullet_id, .. } => {
                    lemma_id_num(id);
                    lemma_id_num(bullet_id);
                },
                MsgV::PlayerSpawned { id, .. } => {
                    lemma_id_num(id);
                },
                MsgV::PlayerStopped { id, .. } => {
                    lemma_id_num(id);
                },
                MsgV::PlayerMoving { id, .. } => {
                    lemma_id_num(id);
                },
                MsgV::PlayerDestroyed { id, killer_id, bullet_id } => {
                    lemma_id_num(id);
                    if killer_id is Some && bullet_id is Some {
                        lemma_id_num(killer_id->0);
                        lemma_id_num(bullet_id->0);
                    }
                },
                MsgV::WorldState { player_count, alive_players, alive_bullets } => {
                    lemma_id_num(player_count);
                    lemma_entity_list_roundtrip(alive_players);
                    lemma_entity_list_roundtrip(alive_bullets);
                },
                _ => {},
            }
        },
    }
}

/// The round-trip law of the codec: decoding the encoding of any message
/// whose values fit the wire ranges yields exactly that message.
pub proof fn lemma_codec_round_trip(m: MsgV)
    requires
        msg_wire_wf(m),
        pv(msg_jv(m)).len() < usize::MAX / 2 - 1,
    ensures
        sd_text(pv(msg_jv(m))) == Ok::<MsgV, ErrK>(m),
{
    lemma_msg_jv_wf(m);
    lemma_parse_print(msg_jv(m));
    lemma_decompose_compose(m);
}

} // verus!
