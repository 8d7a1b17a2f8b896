//! The authoritative state of the game, and the fixed-tick simulation that
//! advances it.
//!
//! All positions are fixed-point milli-pixels. Every distance rule compares
//! squared distances, so collision checks are exact. The state is owned by
//! one simulation thread: events arrive over a channel, broadcasts leave
//! through each client's outbound handle.

use vstd::prelude::*;

use std::sync::mpsc::Receiver;

use crate::events::{try_recv_event, Client, WebSocketEvent};
use crate::math::{clamp, dist_sq_between, spec_clamp, spec_dist_sq, SCALE};
use crate::math::FX_ABS_MAX;
use crate::message::{msg_shape_wf, mv, Bullet, Message, Player};

verus! {

/// Radius of a bullet, milli-pixels.
pub const BULLET_RADIUS: i64 = 5_000;

/// Radius of a player, milli-pixels.
pub const PLAYER_RADIUS: i64 = 10_000;

/// Distance a bullet travels per tick, in pixels per unit of its vector.
pub const BULLET_SPEED: i64 = 3;

/// Distance a player travels per tick, in pixels per unit of its vector.
pub const PLAYER_SPEED: i64 = 2;

/// Map height, milli-pixels.
pub const MAP_HEIGHT: i64 = 500_000;

/// Map width, milli-pixels.
pub const MAP_WIDTH: i64 = 500_000;

/// Ticks between two full world-state broadcasts (ten seconds at sixty
/// ticks per second).
pub const TICKS_BETWEEN_FULL_UPDATES: u32 = 600;

/// A fired bullet starts offset from the firer's center along the aim
/// vector by bullet radius plus player radius plus one pixel: this is that
/// offset in whole pixels, `(BULLET_RADIUS + PLAYER_RADIUS + SCALE) / SCALE`.
pub const FIRE_OFFSET_PX: i64 = 16;

/// The squared distance below which two players collide: `(2 * PLAYER_RADIUS)^2`.
pub const PLAYER_DIAM_SQ: i64 = 20_000 * 20_000;

/// The squared distance below which a bullet hits a player, and below which
/// a spawn spot is too close to a bullet: `(BULLET_RADIUS + PLAYER_RADIUS)^2`.
pub const HIT_SQ: i64 = 15_000 * 15_000;

/// Largest magnitude a stored bullet coordinate can carry: the map plus the
/// largest fire offset.
pub const BULLET_ABS_MAX: i64 = 330_000_000;

/// A player's center stays a radius away from every map edge.
pub open spec fn player_in_bounds(p: Player) -> bool {
    &&& PLAYER_RADIUS <= p.x <= MAP_WIDTH - PLAYER_RADIUS
    &&& PLAYER_RADIUS <= p.y <= MAP_HEIGHT - PLAYER_RADIUS
}

/// A well-formed player: in bounds, with a consistent, bounded movement
/// vector.
pub open spec fn player_wf(p: Player) -> bool {
    &&& player_in_bounds(p)
    &&& (p.move_x is Some <==> p.move_y is Some)
    &&& (p.move_x is Some ==> -FX_ABS_MAX <= p.move_x->0 <= FX_ABS_MAX)
    &&& (p.move_y is Some ==> -FX_ABS_MAX <= p.move_y->0 <= FX_ABS_MAX)
}

/// A well-formed bullet: always moving, with bounded position and vector.
pub open spec fn bullet_wf(b: Bullet) -> bool {
    &&& -BULLET_ABS_MAX <= b.x <= BULLET_ABS_MAX
    &&& -BULLET_ABS_MAX <= b.y <= BULLET_ABS_MAX
    &&& b.move_x is Some
    &&& b.move_y is Some
    &&& -FX_ABS_MAX <= b.move_x->0 <= FX_ABS_MAX
    &&& -FX_ABS_MAX <= b.move_y->0 <= FX_ABS_MAX
}

/// A bullet inside the map: bullets, unlike players, may touch the edges.
pub open spec fn bullet_in_map(b: Bullet) -> bool {
    0 <= b.x <= MAP_WIDTH && 0 <= b.y <= MAP_HEIGHT
}

/// Every player well-formed, ids unique.
pub open spec fn players_wf(s: Seq<Player>) -> bool {
    &&& forall|i: int| 0 <= i < s.len() ==> player_wf(#[trigger] s[i])
    &&& forall|i: int, j: int|
        0 <= i < j < s.len() ==> (#[trigger] s[i]).id != (#[trigger] s[j]).id
}

/// No two distinct players closer than two radii.
pub open spec fn players_separated(s: Seq<Player>) -> bool {
    forall|i: int, j: int|
        0 <= i < s.len() && 0 <= j < s.len() && i != j ==> spec_dist_sq(
            (#[trigger] s[i]).x as int,
            s[i].y as int,
            (#[trigger] s[j]).x as int,
            s[j].y as int,
        ) >= PLAYER_DIAM_SQ
}

/// Some player carries this id.
pub open spec fn has_player(s: Seq<Player>, id: u32) -> bool {
    exists|i: int| 0 <= i < s.len() && (#[trigger] s[i]).id == id
}

/// The players with this id taken out.
pub open spec fn remove_player(s: Seq<Player>, id: u32) -> Seq<Player> {
    s.filter(|p: Player| p.id != id)
}

/// The clients with this id taken out.
pub open spec fn remove_client(s: Seq<Client>, id: u32) -> Seq<Client> {
    s.filter(|c: Client| c.id != id)
}

/// Every player's movement vector set to `(mx, my)` where the id matches,
/// everything else unchanged.
pub open spec fn set_moves(s: Seq<Player>, id: u32, mx: i64, my: i64) -> Seq<Player> {
    Seq::new(
        s.len(),
        |i: int|
            if s[i].id == id {
                Player { move_x: Some(mx), move_y: Some(my), ..s[i] }
            } else {
                s[i]
            },
    )
}

/// Every player's movement vector cleared where the id matches.
pub open spec fn clear_moves(s: Seq<Player>, id: u32) -> Seq<Player> {
    Seq::new(
        s.len(),
        |i: int|
            if s[i].id == id {
                Player { move_x: None, move_y: None, ..s[i] }
            } else {
                s[i]
            },
    )
}

/// The bullet fired by player `p` with aim `(mx, my)`: its center starts
/// offset from the firer's by the aim vector times `FIRE_OFFSET_PX`.
pub open spec fn fire_bullet(p: Player, bid: u32, mx: i64, my: i64) -> Bullet {
    Bullet {
        id: bid,
        x: (p.x + mx * FIRE_OFFSET_PX) as i64,
        y: (p.y + my * FIRE_OFFSET_PX) as i64,
        move_x: Some(mx),
        move_y: Some(my),
    }
}

/// A bullet advanced by one tick.
pub open spec fn advance_bullet(b: Bullet) -> Bullet {
    Bullet {
        x: (b.x + b.move_x->0 * BULLET_SPEED) as i64,
        y: (b.y + b.move_y->0 * BULLET_SPEED) as i64,
        ..b
    }
}

/// The next bullet id, wrapping at the end of the id space.
pub open spec fn next_id(id: u32) -> u32 {
    if id == u32::MAX {
        0
    } else {
        (id + 1) as u32
    }
}

/// An entity whose values fit the simulation's working range, within which
/// every step of the tick arithmetic is exact.
pub open spec fn entity_sim_wf(e: crate::message::EntityV) -> bool {
    &&& crate::message::entity_shape_wf(e)
    &&& -FX_ABS_MAX <= e.x <= FX_ABS_MAX
    &&& -FX_ABS_MAX <= e.y <= FX_ABS_MAX
    &&& (e.move_x is Some ==> -FX_ABS_MAX <= e.move_x->0 <= FX_ABS_MAX)
    &&& (e.move_y is Some ==> -FX_ABS_MAX <= e.move_y->0 <= FX_ABS_MAX)
}

/// A message every value of which fits the simulation's working range.
pub open spec fn msg_sim_wf(m: crate::message::MsgV) -> bool {
    msg_shape_wf(m) && match m {
        crate::message::MsgV::Welcome { speed, size, bullet_speed, bullet_size, .. } => {
            &&& -FX_ABS_MAX <= speed <= FX_ABS_MAX
            &&& -FX_ABS_MAX <= size <= FX_ABS_MAX
            &&& -FX_ABS_MAX <= bullet_speed <= FX_ABS_MAX
            &&& -FX_ABS_MAX <= bullet_size <= FX_ABS_MAX
        },
        crate::message::MsgV::ShotsFired { x, y, aim_x, aim_y, .. } => {
            &&& -FX_ABS_MAX <= x <= FX_ABS_MAX
            &&& -FX_ABS_MAX <= y <= FX_ABS_MAX
            &&& -FX_ABS_MAX <= aim_x <= FX_ABS_MAX
            &&& -FX_ABS_MAX <= aim_y <= FX_ABS_MAX
        },
        crate::message::MsgV::PlayerSpawned { x, y, .. } => -FX_ABS_MAX <= x <= FX_ABS_MAX
            && -FX_ABS_MAX <= y <= FX_ABS_MAX,
        crate::message::MsgV::PlayerMoving { x, y, move_x, move_y, .. } => {
            &&& -FX_ABS_MAX <= x <= FX_ABS_MAX
            &&& -FX_ABS_MAX <= y <= FX_ABS_MAX
            &&& -FX_ABS_MAX <= move_x <= FX_ABS_MAX
            &&& -FX_ABS_MAX <= move_y <= FX_ABS_MAX
        },
        crate::message::MsgV::PlayerStopped { x, y, .. } => -FX_ABS_MAX <= x <= FX_ABS_MAX
            && -FX_ABS_MAX <= y <= FX_ABS_MAX,
        crate::message::MsgV::WorldState { alive_players, alive_bullets, .. } => {
            &&& forall|i: int|
                0 <= i < alive_players.len() ==> entity_sim_wf(#[trigger] alive_players[i])
            &&& forall|i: int|
                0 <= i < alive_bullets.len() ==> entity_sim_wf(#[trigger] alive_bullets[i])
        },
        crate::message::MsgV::StartMoving { move_x, move_y } => -FX_ABS_MAX <= move_x
            <= FX_ABS_MAX && -FX_ABS_MAX <= move_y <= FX_ABS_MAX,
        crate::message::MsgV::Fire { move_x, move_y } => -FX_ABS_MAX <= move_x <= FX_ABS_MAX
            && -FX_ABS_MAX <= move_y <= FX_ABS_MAX,
        _ => true,
    }
}

/// An event whose values the simulation accepts: any message it carries
/// fits the simulation's working range.
pub open spec fn event_wf(e: WebSocketEvent) -> bool {
    match e {
        WebSocketEvent::ClientMessage { message, .. } => msg_sim_wf(mv(message)),
        _ => true,
    }
}

/// The whole state of the game: every connected player and client, every
/// bullet in flight, and the id the next bullet will take.
pub struct GameState {
    pub players: Vec<Player>,
    pub bullets: Vec<Bullet>,
    pub clients: Vec<Client>,
    pub next_bullet_id: u32,
    pub ticks_since_last_full_update: u32,
}

impl GameState {
    /// The state invariant: players and bullets well-formed, player and
    /// client ids unique.
    pub open spec fn wf(self) -> bool {
        &&& players_wf(self.players@)
        &&& forall|i: int| 0 <= i < self.bullets@.len() ==> bullet_wf(#[trigger] self.bullets@[i])
        &&& forall|i: int, j: int|
            0 <= i < j < self.clients@.len() ==> (#[trigger] self.clients@[i]).id != (
            #[trigger] self.clients@[j]).id
        &&& self.ticks_since_last_full_update <= TICKS_BETWEEN_FULL_UPDATES
    }

    /// Create a new game state.
    pub fn new() -> (r: GameState)
        ensures
            r.wf(),
            r.players@.len() == 0,
            r.bullets@.len() == 0,
            r.clients@.len() == 0,
            r.next_bullet_id == 0,
            r.ticks_since_last_full_update == 0,
    {
        GameState {
            players: Vec::new(),
            bullets: Vec::new(),
            clients: Vec::new(),
            next_bullet_id: 0,
            ticks_since_last_full_update: 0,
        }
    }

    /// Send a message to every connected client, ignoring clients whose
    /// channel is gone: their disconnect event will clean up later.
    fn send_to_everybody(&self, what: &Message)
        requires
            msg_shape_wf(mv(*what)),
    {
        let value = what.to_text();
        let n = self.clients.len();
        let mut i: usize = 0;
        while i < n
            invariant
                n == self.clients@.len(),
                0 <= i <= n,
            decreases n - i,
        {
            let _ = self.clients[i].send(value.clone());
            i = i + 1;
        }
    }

    /// The entire game state as one full world-state message.
    fn serialize(&self) -> (r: Message)
        requires
            self.wf(),
        ensures
            r is WorldState,
            r->WorldState_alive_players@ == self.players@,
            r->WorldState_alive_bullets@ == self.bullets@,
            r->WorldState_player_count == self.players@.len() as u32,
            msg_shape_wf(mv(r)),
    {
        let mut players: Vec<Player> = Vec::new();
        let n = self.players.len();
        let mut i: usize = 0;
        while i < n
            invariant
                n == self.players@.len(),
                0 <= i <= n,
                players@ == self.players@.subrange(0, i as int),
            decreases n - i,
        {
            players.push(self.players[i]);
            proof {
                assert(players@ =~= self.players@.subrange(0, i + 1 as int));
            }
            i = i + 1;
        }
        proof {
            assert(players@ =~= self.players@);
        }
        let mut bullets: Vec<Bullet> = Vec::new();
        let bn = self.bullets.len();
        let mut k: usize = 0;
        while k < bn
            invariant
                bn == self.bullets@.len(),
                0 <= k <= bn,
                bullets@ == self.bullets@.subrange(0, k as int),
            decreases bn - k,
        {
            bullets.push(self.bullets[k]);
            proof {
                assert(bullets@ =~= self.bullets@.subrange(0, k + 1 as int));
            }
            k = k + 1;
        }
        proof {
            assert(bullets@ =~= self.bullets@);
        }
        let count = #[verifier::truncate] (n as u32);
        Message::WorldState { player_count: count, alive_players: players, alive_bullets: bullets }
    }
}

/// One filtering step: filtering a sequence extended by one element keeps
/// the element exactly when the predicate holds of it.
proof fn lemma_filter_push<A>(s: Seq<A>, pred: spec_fn(A) -> bool, x: A)
    ensures
        (s.push(x)).filter(pred) == if pred(x) {
            s.filter(pred).push(x)
        } else {
            s.filter(pred)
        },
{
    reveal(Seq::filter);
    assert(s.push(x).drop_last() =~= s);
    assert(s.push(x).last() == x);
}

/// Removing an id keeps the players well-formed: every survivor comes from
/// the prior roster and no survivor carries the removed id.
proof fn lemma_remove_player(s: Seq<Player>, id: u32)
    requires
        players_wf(s),
    ensures
        players_wf(remove_player(s, id)),
        remove_player(s, id).len() <= s.len(),
        forall|k: int|
            0 <= k < remove_player(s, id).len() ==> (#[trigger] remove_player(s, id)[k]).id != id,
        forall|k: int|
            0 <= k < remove_player(s, id).len() ==> s.contains(
                #[trigger] remove_player(s, id)[k],
            ),
    decreases s.len(),
{
    reveal(Seq::filter);
    let pred = |p: Player| p.id != id;
    if s.len() > 0 {
        let dl = s.drop_last();
        assert(players_wf(dl));
        lemma_remove_player(dl, id);
        lemma_filter_push(dl, pred, s.last());
        assert(dl.push(s.last()) =~= s);
        let out = remove_player(s, id);
        let sub = remove_player(dl, id);
        assert forall|k: int| 0 <= k < out.len() implies s.contains(#[trigger] out[k]) by {
            if k < sub.len() {
                assert(out[k] == sub[k]);
                assert(dl.contains(sub[k]));
                let j = choose|j: int| 0 <= j < dl.len() && dl[j] == sub[k];
                assert(s[j] == out[k]);
            } else {
                assert(out[k] == s[s.len() - 1]);
            }
        }
        assert forall|k1: int, k2: int| 0 <= k1 < k2 < out.len() implies (#[trigger] out[k1]).id
            != (#[trigger] out[k2]).id by {
            if k2 < sub.len() {
            } else if pred(s.last()) {
                assert(out[k2] == s.last());
                assert(dl.contains(sub[k1]));
                let j = choose|j: int| 0 <= j < dl.len() && dl[j] == sub[k1];
                assert(s[j].id != s[s.len() - 1].id);
            }
        }
    }
}

/// Removing an id keeps client ids unique, and no survivor carries it.
proof fn lemma_remove_client(s: Seq<Client>, id: u32)
    requires
        forall|i: int, j: int| 0 <= i < j < s.len() ==> (#[trigger] s[i]).id != (#[trigger] s[j]).id,
    ensures
        forall|i: int, j: int|
            0 <= i < j < remove_client(s, id).len() ==> (#[trigger] remove_client(s, id)[i]).id
                != (#[trigger] remove_client(s, id)[j]).id,
        forall|k: int|
            0 <= k < remove_client(s, id).len() ==> (#[trigger] remove_client(s, id)[k]).id != id,
    decreases s.len(),
{
    reveal(Seq::filter);
    let pred = |c: Client| c.id != id;
    if s.len() > 0 {
        let dl = s.drop_last();
        lemma_remove_client(dl, id);
        lemma_filter_push(dl, pred, s.last());
        assert(dl.push(s.last()) =~= s);
        let out = remove_client(s, id);
        let sub = remove_client(dl, id);
        assert forall|k: int| 0 <= k < sub.len() implies dl.contains(#[trigger] sub[k]) by {
            lemma_remove_client_membership(dl, id, k);
        }
        assert forall|k1: int, k2: int| 0 <= k1 < k2 < out.len() implies (#[trigger] out[k1]).id
            != (#[trigger] out[k2]).id by {
            if k2 < sub.len() {
            } else if pred(s.last()) {
                assert(out[k2] == s.last());
                lemma_remove_client_membership(dl, id, k1);
                assert(dl.contains(sub[k1]));
                let j = choose|j: int| 0 <= j < dl.len() && dl[j] == sub[k1];
                assert(s[j].id != s[s.len() - 1].id);
            }
        }
    }
}

/// Every survivor of a client removal comes from the prior roster.
proof fn lemma_remove_client_membership(s: Seq<Client>, id: u32, k: int)
    requires
        0 <= k < remove_client(s, id).len(),
    ensures
        s.contains(remove_client(s, id)[k]),
    decreases s.len(),
{
    reveal(Seq::filter);
    let pred = |c: Client| c.id != id;
    if s.len() > 0 {
        let dl = s.drop_last();
        lemma_filter_push(dl, pred, s.last());
        assert(dl.push(s.last()) =~= s);
        let out = remove_client(s, id);
        let sub = remove_client(dl, id);
        if k < sub.len() {
            lemma_remove_client_membership(dl, id, k);
            assert(dl.contains(sub[k]));
            let j = choose|j: int| 0 <= j < dl.len() && dl[j] == sub[k];
            assert(out[k] == s[j]);
            assert(s.contains(out[k]));
        } else {
            assert(out[k] == s[s.len() - 1]);
            assert(s.contains(out[k]));
        }
    }
}

/// Relies on rand's `random_range`: a uniform sample in `[lo, hi)` from the
/// thread's generator. Which value comes back is not assumed.
#[verifier::external_body]
fn random_in_range(lo: i64, hi: i64) -> (r: i64)
    requires
        lo < hi,
    ensures
        lo <= r < hi,
{
    rand::random_range(lo..hi)
}

impl GameState {
    /// No player within two player radii, no bullet within a bullet radius
    /// plus a player radius: a spot where a player may spawn.
    pub open spec fn spot_free(self, x: int, y: int) -> bool {
        &&& forall|i: int|
            0 <= i < self.players@.len() ==> spec_dist_sq(
                x,
                y,
                (#[trigger] self.players@[i]).x as int,
                self.players@[i].y as int,
            ) >= PLAYER_DIAM_SQ
        &&& forall|i: int|
            0 <= i < self.bullets@.len() ==> spec_dist_sq(
                x,
                y,
                (#[trigger] self.bullets@[i]).x as int,
                self.bullets@[i].y as int,
            ) >= HIT_SQ
    }

    /// Whether `(x, y)` is a free spot.
    pub fn is_free_spot(&self, x: i64, y: i64) -> (r: bool)
        requires
            self.wf(),
            0 <= x <= MAP_WIDTH,
            0 <= y <= MAP_HEIGHT,
        ensures
            r == self.spot_free(x as int, y as int),
    {
        let pn = self.players.len();
        let mut i: usize = 0;
        while i < pn
            invariant
                pn == self.players@.len(),
                0 <= i <= pn,
                self.wf(),
                0 <= x <= MAP_WIDTH,
                0 <= y <= MAP_HEIGHT,
                forall|k: int|
                    0 <= k < i ==> spec_dist_sq(
                        x as int,
                        y as int,
                        (#[trigger] self.players@[k]).x as int,
                        self.players@[k].y as int,
                    ) >= PLAYER_DIAM_SQ,
            decreases pn - i,
        {
            let p = self.players[i];
            if dist_sq_between(x, y, p.x, p.y) < PLAYER_DIAM_SQ {
                return false;
            }
            i = i + 1;
        }
        let bn = self.bullets.len();
        let mut k: usize = 0;
        while k < bn
            invariant
                bn == self.bullets@.len(),
                0 <= k <= bn,
                self.wf(),
                0 <= x <= MAP_WIDTH,
                0 <= y <= MAP_HEIGHT,
                forall|t: int|
                    0 <= t < self.players@.len() ==> spec_dist_sq(
                        x as int,
                        y as int,
                        (#[trigger] self.players@[t]).x as int,
                        self.players@[t].y as int,
                    ) >= PLAYER_DIAM_SQ,
                forall|t: int|
                    0 <= t < k ==> spec_dist_sq(
                        x as int,
                        y as int,
                        (#[trigger] self.bullets@[t]).x as int,
                        self.bullets@[t].y as int,
                    ) >= HIT_SQ,
            decreases bn - k,
        {
            let b = self.bullets[k];
            if dist_sq_between(x, y, b.x, b.y) < HIT_SQ {
                return false;
            }
            k = k + 1;
        }
        true
    }

    /// A spawn position: up to ninety-nine uniform samples over the
    /// player-viable band, the first free one taken; if none is free, one
    /// last unchecked sample, a degraded but never fatal placement.
    pub fn random_free_spot(&self) -> (r: (i64, i64))
        requires
            self.wf(),
        ensures
            PLAYER_RADIUS <= r.0 <= MAP_WIDTH - PLAYER_RADIUS,
            PLAYER_RADIUS <= r.1 <= MAP_HEIGHT - PLAYER_RADIUS,
    {
        let mut tries: u32 = 1;
        while tries < 100
            invariant
                self.wf(),
            decreases 100 - tries,
        {
            let x = random_in_range(PLAYER_RADIUS, MAP_WIDTH - PLAYER_RADIUS);
            let y = random_in_range(PLAYER_RADIUS, MAP_HEIGHT - PLAYER_RADIUS);
            if self.is_free_spot(x, y) {
                return (x, y);
            }
            tries = tries + 1;
        }
        (
            random_in_range(PLAYER_RADIUS, MAP_WIDTH - PLAYER_RADIUS),
            random_in_range(PLAYER_RADIUS, MAP_HEIGHT - PLAYER_RADIUS),
        )
    }
}

/// How many queued events one drain pass will take at most; the rest stay
/// queued for the next tick.
pub const EVENT_DRAIN_BUDGET: u32 = 10_000;

/// Whether a world-state entry fits the wire ranges.
fn player_entry_ok(p: &Player) -> (r: bool)
    ensures
        r == entity_sim_wf(crate::message::player_view(*p)),
{
    let moves_ok = match (p.move_x, p.move_y) {
        (Some(mx), Some(my)) => -FX_ABS_MAX <= mx && mx <= FX_ABS_MAX && -FX_ABS_MAX <= my && my
            <= FX_ABS_MAX,
        (None, None) => true,
        _ => false,
    };
    moves_ok && -FX_ABS_MAX <= p.x && p.x <= FX_ABS_MAX && -FX_ABS_MAX <= p.y && p.y <= FX_ABS_MAX
}

/// Whether a world-state bullet entry fits the wire ranges.
fn bullet_entry_ok(b: &Bullet) -> (r: bool)
    ensures
        r == entity_sim_wf(crate::message::bullet_view(*b)),
{
    let moves_ok = match (b.move_x, b.move_y) {
        (Some(mx), Some(my)) => -FX_ABS_MAX <= mx && mx <= FX_ABS_MAX && -FX_ABS_MAX <= my && my
            <= FX_ABS_MAX,
        (None, None) => true,
        _ => false,
    };
    moves_ok && -FX_ABS_MAX <= b.x && b.x <= FX_ABS_MAX && -FX_ABS_MAX <= b.y && b.y <= FX_ABS_MAX
}

fn fx_ok(v: i64) -> (r: bool)
    ensures
        r == (-FX_ABS_MAX <= v <= FX_ABS_MAX),
{
    -FX_ABS_MAX <= v && v <= FX_ABS_MAX
}

/// Whether every value a message carries fits the wire ranges.
#[verifier::loop_isolation(false)]
fn msg_in_bounds(m: &Message) -> (r: bool)
    ensures
        r == msg_sim_wf(mv(*m)),
{
    match m {
        Message::Welcome { speed, size, bullet_speed, bullet_size, .. } => fx_ok(*speed) && fx_ok(
            *size,
        ) && fx_ok(*bullet_speed) && fx_ok(*bullet_size),
        Message::GoAway { .. } => true,
        Message::PlayerJoined { .. } => true,
        Message::PlayerLeft { .. } => true,
        Message::ShotsFired { x, y, aim_x, aim_y, .. } => fx_ok(*x) && fx_ok(*y) && fx_ok(*aim_x)
            && fx_ok(*aim_y),
        Message::PlayerSpawned { x, y, .. } => fx_ok(*x) && fx_ok(*y),
        Message::PlayerDestroyed { killer_id, bullet_id, .. } => match (killer_id, bullet_id) {
            (Some(_), Some(_)) => true,
            (None, None) => true,
            _ => false,
        },
        Message::PlayerMoving { x, y, move_x, move_y, .. } => fx_ok(*x) && fx_ok(*y) && fx_ok(
            *move_x,
        ) && fx_ok(*move_y),
        Message::PlayerStopped { x, y, .. } => fx_ok(*x) && fx_ok(*y),
        Message::WorldState { alive_players, alive_bullets, .. } => {
            let ghost aps = mv(*m)->WorldState_alive_players;
            let ghost abs = mv(*m)->WorldState_alive_bullets;
            let pn = alive_players.len();
            let mut i: usize = 0;
            while i < pn
                invariant
                    pn == alive_players@.len(),
                    0 <= i <= pn,
                    aps == Seq::new(
                        alive_players@.len(),
                        |k: int| crate::message::player_view(alive_players@[k]),
                    ),
                    forall|k: int|
                        0 <= k < i ==> entity_sim_wf(#[trigger] aps[k]),
                decreases pn - i,
            {
                if !player_entry_ok(&alive_players[i]) {
                    proof {
                        assert(aps[i as int] == crate::message::player_view(
                            alive_players@[i as int],
                        ));
                        if msg_sim_wf(mv(*m)) {
                            assert(entity_sim_wf(
                                mv(*m)->WorldState_alive_players[i as int],
                            ));
                            assert(false);
                        }
                    }
                    return false;
                }
                proof {
                    assert(aps[i as int] == crate::message::player_view(
                        alive_players@[i as int],
                    ));
                }
                i = i + 1;
            }
            let bn = alive_bullets.len();
            let mut k: usize = 0;
            while k < bn
                invariant
                    bn == alive_bullets@.len(),
                    0 <= k <= bn,
                    abs == Seq::new(
                        alive_bullets@.len(),
                        |t: int| crate::message::bullet_view(alive_bullets@[t]),
                    ),
                    forall|t: int|
                        0 <= t < k ==> entity_sim_wf(#[trigger] abs[t]),
                decreases bn - k,
            {
                if !bullet_entry_ok(&alive_bullets[k]) {
                    proof {
                        assert(abs[k as int] == crate::message::bullet_view(
                            alive_bullets@[k as int],
                        ));
                        if msg_sim_wf(mv(*m)) {
                            assert(entity_sim_wf(
                                mv(*m)->WorldState_alive_bullets[k as int],
                            ));
                            assert(false);
                        }
                    }
                    return false;
                }
                proof {
                    assert(abs[k as int] == crate::message::bullet_view(
                        alive_bullets@[k as int],
                    ));
                }
                k = k + 1;
            }
            true
        },
        Message::StartMoving { move_x, move_y } => fx_ok(*move_x) && fx_ok(*move_y),
        Message::StopMoving => true,
        Message::Fire { move_x, move_y } => fx_ok(*move_x) && fx_ok(*move_y),
    }
}

/// Whether the simulation accepts an event's values.
fn event_in_bounds(e: &WebSocketEvent) -> (r: bool)
    ensures
        r == event_wf(*e),
{
    match e {
        WebSocketEvent::ClientMessage { message, .. } => msg_in_bounds(message),
        _ => true,
    }
}

impl GameState {
    /// Take the player and the client with this id out of the state.
    fn disconnect_client(&mut self, client_id: u32)
        requires
            old(self).wf(),
        ensures
            final(self).wf(),
            final(self).players@ == remove_player(old(self).players@, client_id),
            final(self).clients@ == remove_client(old(self).clients@, client_id),
            final(self).bullets@ == old(self).bullets@,
            final(self).next_bullet_id == old(self).next_bullet_id,
            final(self).ticks_since_last_full_update == old(self).ticks_since_last_full_update,
    {
        let ghost ps0 = self.players@;
        let ghost cs0 = self.clients@;
        let mut kept: Vec<Player> = Vec::new();
        let n = self.players.len();
        let mut i: usize = 0;
        while i < n
            invariant
                n == ps0.len(),
                self.players@ == ps0,
                0 <= i <= n,
                kept@ == remove_player(ps0.subrange(0, i as int), client_id),
            decreases n - i,
        {
            let p = self.players[i];
            proof {
                lemma_filter_push(ps0.subrange(0, i as int), |q: Player| q.id != client_id, p);
                assert(ps0.subrange(0, i + 1 as int) =~= ps0.subrange(0, i as int).push(p));
            }
            if p.id != client_id {
                kept.push(p);
            }
            i = i + 1;
        }
        proof {
            assert(ps0.subrange(0, n as int) =~= ps0);
        }
        self.players = kept;
        let cn = self.clients.len();
        let mut k: usize = 0;
        let mut found: bool = false;
        let mut at: usize = 0;
        while k < cn
            invariant
                cn == cs0.len(),
                self.clients@ == cs0,
                0 <= k <= cn,
                !found ==> forall|t: int| 0 <= t < k ==> (#[trigger] cs0[t]).id != client_id,
                found ==> 0 <= at < cn && cs0[at as int].id == client_id,
            decreases cn - k,
        {
            if !found && self.clients[k].id == client_id {
                found = true;
                at = k;
            }
            k = k + 1;
        }
        if found {
            let _ = self.clients.remove(at);
            proof {
                lemma_remove_client_at(cs0, client_id, at as int);
            }
        } else {
            proof {
                lemma_filter_all_clients(cs0, client_id);
            }
        }
        proof {
            lemma_remove_player(ps0, client_id);
            lemma_remove_client(cs0, client_id);
        }
    }
}

/// Filtering changes nothing when every element already satisfies the
/// predicate.
proof fn lemma_filter_all<A>(s: Seq<A>, pred: spec_fn(A) -> bool)
    requires
        forall|i: int| 0 <= i < s.len() ==> pred(#[trigger] s[i]),
    ensures
        s.filter(pred) == s,
    decreases s.len(),
{
    reveal(Seq::filter);
    if s.len() > 0 {
        let dl = s.drop_last();
        lemma_filter_all(dl, pred);
        assert(s.filter(pred) =~= s);
    } else {
        assert(s.filter(pred) =~= s);
    }
}

/// Removing an id no client carries changes nothing.
proof fn lemma_filter_all_clients(s: Seq<Client>, id: u32)
    requires
        forall|i: int| 0 <= i < s.len() ==> (#[trigger] s[i]).id != id,
    ensures
        remove_client(s, id) == s,
{
    lemma_filter_all(s, |c: Client| c.id != id);
}

/// With unique ids, removing an id is removing the one index that carries
/// it.
proof fn lemma_remove_client_at(s: Seq<Client>, id: u32, at: int)
    requires
        forall|i: int, j: int| 0 <= i < j < s.len() ==> (#[trigger] s[i]).id != (#[trigger] s[j]).id,
        0 <= at < s.len(),
        s[at].id == id,
    ensures
        remove_client(s, id) == s.remove(at),
{
    reveal(Seq::filter);
    let pred = |c: Client| c.id != id;
    let pre = s.subrange(0, at);
    let mid: Seq<Client> = seq![s[at]];
    let post = s.subrange(at + 1, s.len() as int);
    assert(s =~= pre + (mid + post));
    Seq::filter_distributes_over_add(pre, mid + post, pred);
    Seq::filter_distributes_over_add(mid, post, pred);
    assert forall|i: int| 0 <= i < pre.len() implies pred(#[trigger] pre[i]) by {
        assert(pre[i] == s[i]);
    }
    lemma_filter_all(pre, pred);
    assert forall|i: int| 0 <= i < post.len() implies pred(#[trigger] post[i]) by {
        assert(post[i] == s[at + 1 + i]);
    }
    lemma_filter_all(post, pred);
    assert(mid.drop_last() =~= Seq::<Client>::empty());
    assert(Seq::<Client>::empty().filter(pred) =~= Seq::<Client>::empty());
    assert(mid.filter(pred) =~= Seq::<Client>::empty());
    assert(remove_client(s, id) =~= pre + post);
    assert(s.remove(at) =~= pre + post);
}

impl GameState {
    /// Apply one message a client sent: movement intent, stop, or fire. A
    /// message no client should send here gets the sender told off and
    /// disconnected; an unknown id is a stale event and does nothing.
    #[verifier::loop_isolation(false)]
    fn process_client_message(&mut self, client_id: u32, message: Message)
        requires
            old(self).wf(),
            msg_sim_wf(mv(message)),
        ensures
            final(self).wf(),
            final(self).ticks_since_last_full_update == old(
                self,
            ).ticks_since_last_full_update,
            match message {
                Message::StartMoving { move_x, move_y } => final(self).players@ == set_moves(
                    old(self).players@,
                    client_id,
                    move_x,
                    move_y,
                ) && final(self).bullets@ == old(self).bullets@ && final(self).clients@ == old(
                    self,
                ).clients@ && final(self).next_bullet_id == old(self).next_bullet_id,
                Message::StopMoving => final(self).players@ == clear_moves(
                    old(self).players@,
                    client_id,
                ) && final(self).bullets@ == old(self).bullets@ && final(self).clients@ == old(
                    self,
                ).clients@ && final(self).next_bullet_id == old(self).next_bullet_id,
                Message::Fire { move_x, move_y } => final(self).players@ == old(self).players@
                    && final(self).clients@ == old(self).clients@ && (if has_player(
                    old(self).players@,
                    client_id,
                ) {
                    exists|i: int|
                        0 <= i < old(self).players@.len() && (#[trigger] old(
                            self,
                        ).players@[i]).id == client_id && final(self).bullets@ == old(
                            self,
                        ).bullets@.push(
                            fire_bullet(
                                old(self).players@[i],
                                old(self).next_bullet_id,
                                move_x,
                                move_y,
                            ),
                        ) && final(self).next_bullet_id == next_id(old(self).next_bullet_id)
                } else {
                    final(self).bullets@ == old(self).bullets@ && final(self).next_bullet_id
                        == old(self).next_bullet_id
                }),
                _ => final(self).players@ == remove_player(old(self).players@, client_id)
                    && final(self).clients@ == remove_client(old(self).clients@, client_id)
                    && final(self).bullets@ == old(self).bullets@ && final(self).next_bullet_id
                    == old(self).next_bullet_id,
            },
    {
        let ghost ps0 = self.players@;
        match message {
            Message::StartMoving { move_x, move_y } => {
                let n = self.players.len();
                let mut i: usize = 0;
                while i < n
                    invariant
                        0 <= i <= n,
                        self == old(self),
                        forall|k: int| 0 <= k < i ==> (#[trigger] ps0[k]).id != client_id,
                    decreases n - i,
                {
                    if self.players[i].id == client_id {
                        let p = self.players[i];
                        let np = Player {
                            move_x: Some(move_x),
                            move_y: Some(move_y),
                            ..p
                        };
                        self.players[i] = np;
                        proof {
                            assert forall|k: int|
                                0 <= k < ps0.len() && k != i as int implies (#[trigger] ps0[k]).id
                                != client_id by {}
                            assert(self.players@ =~= set_moves(ps0, client_id, move_x, move_y));
                        }
                        let resp = Message::PlayerMoving {
                            id: p.id,
                            x: p.x,
                            y: p.y,
                            move_x,
                            move_y,
                        };
                        self.send_to_everybody(&resp);
                        return;
                    }
                    i = i + 1;
                }
                proof {
                    assert(self.players@ =~= set_moves(ps0, client_id, move_x, move_y));
                }
            },
            Message::StopMoving => {
                let n = self.players.len();
                let mut i: usize = 0;
                while i < n
                    invariant
                        0 <= i <= n,
                        self == old(self),
                        forall|k: int| 0 <= k < i ==> (#[trigger] ps0[k]).id != client_id,
                    decreases n - i,
                {
                    if self.players[i].id == client_id {
                        let p = self.players[i];
                        let np = Player { move_x: None, move_y: None, ..p };
                        self.players[i] = np;
                        proof {
                            assert forall|k: int|
                                0 <= k < ps0.len() && k != i as int implies (#[trigger] ps0[k]).id
                                != client_id by {}
                            assert(self.players@ =~= clear_moves(ps0, client_id));
                        }
                        let resp = Message::PlayerStopped { id: p.id, x: p.x, y: p.y };
                        self.send_to_everybody(&resp);
                        return;
                    }
                    i = i + 1;
                }
                proof {
                    assert(self.players@ =~= clear_moves(ps0, client_id));
                }
            },
            Message::Fire { move_x, move_y } => {
                let n = self.players.len();
                let mut i: usize = 0;
                while i < n
                    invariant
                        0 <= i <= n,
                        self == old(self),
                        forall|k: int| 0 <= k < i ==> (#[trigger] ps0[k]).id != client_id,
                    decreases n - i,
                {
                    if self.players[i].id == client_id {
                        let p = self.players[i];
                        // Move the bullet out of the way of the player to
                        // avoid an instant collision.
                        let start_x = p.x + move_x * FIRE_OFFSET_PX;
                        let start_y = p.y + move_y * FIRE_OFFSET_PX;
                        let bullet_id = self.next_bullet_id;
                        let b = Bullet::moving(bullet_id, start_x, start_y, move_x, move_y);
                        self.bullets.push(b);
                        let resp = Message::ShotsFired {
                            id: p.id,
                            bullet_id,
                            x: start_x,
                            y: start_y,
                            aim_x: move_x,
                            aim_y: move_y,
                        };
                        self.send_to_everybody(&resp);
                        self.next_bullet_id = if self.next_bullet_id == 0xffff_ffff {
                            0
                        } else {
                            self.next_bullet_id + 1
                        };
                        proof {
                            assert(b == fire_bullet(ps0[i as int], old(self).next_bullet_id, move_x, move_y));
                            assert(has_player(ps0, client_id));
                        }
                        return;
                    }
                    i = i + 1;
                }
                proof {
                    assert(!has_player(ps0, client_id));
                }
            },
            other => {
                let offender_id = client_id;
                let n = self.clients.len();
                let mut i: usize = 0;
                while i < n
                    invariant
                        0 <= i <= n,
                        self == old(self),
                    decreases n - i,
                {
                    if self.clients[i].id == offender_id {
                        let note = Message::GoAway {
                            reason: String::from_str("unexpected message"),
                        };
                        let _ = self.clients[i].send(note.to_text());
                        break;
                    }
                    i = i + 1;
                }
                self.disconnect_client(offender_id);
                let left = Message::PlayerLeft { id: offender_id };
                self.send_to_everybody(&left);
            },
        }
    }
}

impl GameState {
    /// Dispatch one event from a connection thread: a new client is
    /// welcomed and spawned, a closed one is removed (a second close for
    /// the same id finds nothing and leaves the state as it was), and a
    /// content message is applied to its player.
    pub fn process_websocket_event(&mut self, event: WebSocketEvent)
        requires
            old(self).wf(),
            event_wf(event),
        ensures
            final(self).wf(),
            final(self).ticks_since_last_full_update == old(
                self,
            ).ticks_since_last_full_update,
            match event {
                WebSocketEvent::ClientCreated { client } => {
                    &&& final(self).players@.len() > 0
                    &&& final(self).players@ == remove_player(
                        old(self).players@,
                        client.id,
                    ).push(final(self).players@.last())
                    &&& final(self).players@.last().id == client.id
                    &&& final(self).players@.last().move_x is None
                    &&& final(self).players@.last().move_y is None
                    &&& player_in_bounds(final(self).players@.last())
                    &&& final(self).clients@ == remove_client(
                        old(self).clients@,
                        client.id,
                    ).push(client)
                    &&& final(self).bullets@ == old(self).bullets@
                    &&& final(self).next_bullet_id == old(self).next_bullet_id
                },
                WebSocketEvent::ClientClosed { client_id } => final(self).players@
                    == remove_player(old(self).players@, client_id) && final(self).clients@
                    == remove_client(old(self).clients@, client_id) && final(self).bullets@
                    == old(self).bullets@ && final(self).next_bullet_id == old(
                    self,
                ).next_bullet_id,
                WebSocketEvent::ClientMessage { client_id, message } => match message {
                    Message::StartMoving { move_x, move_y } => final(self).players@ == set_moves(
                        old(self).players@,
                        client_id,
                        move_x,
                        move_y,
                    ) && final(self).bullets@ == old(self).bullets@ && final(self).clients@ == old(self).clients@ && final(self).next_bullet_id == old(self).next_bullet_id,
                    Message::StopMoving => final(self).players@ == clear_moves(
                        old(self).players@,
                        client_id,
                    ) && final(self).bullets@ == old(self).bullets@ && final(self).clients@ == old(self).clients@ && final(self).next_bullet_id == old(self).next_bullet_id,
                    Message::Fire { move_x, move_y } => final(self).players@ == old(self).players@ && final(self).clients@ == old(self).clients@ && (if has_player(
                        old(self).players@,
                        client_id,
                    ) {
                        exists|i: int|
                            0 <= i < old(self).players@.len() && ( #[trigger] old(self).players@[i]).id == client_id && final(self).bullets@ == old(self).bullets@.push(
                                fire_bullet(
                                    old(self).players@[i],
                                    old(self).next_bullet_id,
                                    move_x,
                                    move_y,
                                ),
                            ) && final(self).next_bullet_id == next_id(old(self).next_bullet_id)
                    } else {
                        final(self).bullets@ == old(self).bullets@ && final(self).next_bullet_id
                            == old(self).next_bullet_id
                    }),
                    _ => final(self).players@ == remove_player(old(self).players@, client_id)
                        && final(self).clients@ == remove_client(old(self).clients@, client_id)
                        && final(self).bullets@ == old(self).bullets@ && final(self).next_bullet_id == old(self).next_bullet_id,
                },
            },
    {
        match event {
            WebSocketEvent::ClientCreated { client } => {
                let welcome = Message::Welcome {
                    id: client.id,
                    speed: PLAYER_SPEED * SCALE,
                    size: PLAYER_RADIUS,
                    bullet_speed: BULLET_SPEED * SCALE,
                    bullet_size: BULLET_RADIUS,
                };
                let _ = client.send(welcome.to_text());
                let joined = Message::PlayerJoined { id: client.id };
                self.send_to_everybody(&joined);
                let (x, y) = self.random_free_spot();
                self.disconnect_player_only(client.id);
                let p = Player::not_moving(client.id, x, y);
                proof {
                    lemma_remove_player(old(self).players@, client.id);
                }
                self.players.push(p);
                let spawned = Message::PlayerSpawned { id: client.id, x, y };
                self.send_to_everybody(&spawned);
                let ws = self.serialize();
                let _ = client.send(ws.to_text());
                self.remove_client_only(client.id);
                proof {
                    lemma_remove_client(old(self).clients@, client.id);
                }
                self.clients.push(client);
            },
            WebSocketEvent::ClientClosed { client_id } => {
                self.disconnect_client(client_id);
                let left = Message::PlayerLeft { id: client_id };
                self.send_to_everybody(&left);
            },
            WebSocketEvent::ClientMessage { client_id, message } => {
                self.process_client_message(client_id, message);
            },
        }
    }

    /// Take only the player with this id out.
    fn disconnect_player_only(&mut self, client_id: u32)
        requires
            old(self).wf(),
        ensures
            final(self).wf(),
            final(self).players@ == remove_player(old(self).players@, client_id),
            final(self).clients@ == old(self).clients@,
            final(self).bullets@ == old(self).bullets@,
            final(self).next_bullet_id == old(self).next_bullet_id,
            final(self).ticks_since_last_full_update == old(
                self,
            ).ticks_since_last_full_update,
    {
        let ghost ps0 = self.players@;
        let mut kept: Vec<Player> = Vec::new();
        let n = self.players.len();
        let mut i: usize = 0;
        while i < n
            invariant
                n == ps0.len(),
                self.players@ == ps0,
                0 <= i <= n,
                kept@ == remove_player(ps0.subrange(0, i as int), client_id),
            decreases n - i,
        {
            let p = self.players[i];
            proof {
                lemma_filter_push(ps0.subrange(0, i as int), |q: Player| q.id != client_id, p);
                assert(ps0.subrange(0, i + 1 as int) =~= ps0.subrange(0, i as int).push(p));
            }
            if p.id != client_id {
                kept.push(p);
            }
            i = i + 1;
        }
        proof {
            assert(ps0.subrange(0, n as int) =~= ps0);
        }
        self.players = kept;
        proof {
            lemma_remove_player(ps0, client_id);
        }
    }

    /// Take only the client with this id out.
    fn remove_client_only(&mut self, client_id: u32)
        requires
            old(self).wf(),
        ensures
            final(self).wf(),
            final(self).players@ == old(self).players@,
            final(self).clients@ == remove_client(old(self).clients@, client_id),
            final(self).bullets@ == old(self).bullets@,
            final(self).next_bullet_id == old(self).next_bullet_id,
            final(self).ticks_since_last_full_update == old(
                self,
            ).ticks_since_last_full_update,
    {
        let ghost cs0 = self.clients@;
        let cn = self.clients.len();
        let mut k: usize = 0;
        let mut found: bool = false;
        let mut at: usize = 0;
        while k < cn
            invariant
                cn == cs0.len(),
                self.clients@ == cs0,
                self == old(self),
                0 <= k <= cn,
                !found ==> forall|t: int| 0 <= t < k ==> (#[trigger] cs0[t]).id != client_id,
                found ==> 0 <= at < cn && cs0[at as int].id == client_id,
            decreases cn - k,
        {
            if !found && self.clients[k].id == client_id {
                found = true;
                at = k;
            }
            k = k + 1;
        }
        if found {
            let _ = self.clients.remove(at);
            proof {
                lemma_remove_client_at(cs0, client_id, at as int);
            }
        } else {
            proof {
                lemma_filter_all_clients(cs0, client_id);
            }
        }
        proof {
            lemma_remove_client(cs0, client_id);
        }
    }

    /// Drain the inbound queue without blocking: apply every event that is
    /// ready, up to a fixed budget per call; events carrying values out of
    /// the wire ranges are dropped.
    pub fn process_websocket_events(&mut self, game_messages: &Receiver<WebSocketEvent>)
        requires
            old(self).wf(),
        ensures
            final(self).wf(),
            final(self).ticks_since_last_full_update == old(
                self,
            ).ticks_since_last_full_update,
    {
        let mut budget: u32 = EVENT_DRAIN_BUDGET;
        while budget > 0
            invariant
                self.wf(),
                self.ticks_since_last_full_update == old(self).ticks_since_last_full_update,
            decreases budget,
        {
            match try_recv_event(game_messages) {
                None => {
                    return;
                },
                Some(event) => {
                    if event_in_bounds(&event) {
                        self.process_websocket_event(event);
                    }
                },
            }
            budget = budget - 1;
        }
    }

    /// Once every `TICKS_BETWEEN_FULL_UPDATES` ticks, send the whole world
    /// to every client to correct any drift from the incremental updates.
    pub fn send_state_updates(&mut self)
        requires
            old(self).wf(),
        ensures
            final(self).wf(),
            final(self).players@ == old(self).players@,
            final(self).bullets@ == old(self).bullets@,
            final(self).clients@ == old(self).clients@,
            final(self).next_bullet_id == old(self).next_bullet_id,
            final(self).ticks_since_last_full_update == (
            if old(self).ticks_since_last_full_update == TICKS_BETWEEN_FULL_UPDATES {
                0u32
            } else {
                (old(self).ticks_since_last_full_update + 1) as u32
            }),
    {
        if self.ticks_since_last_full_update == TICKS_BETWEEN_FULL_UPDATES {
            self.ticks_since_last_full_update = 0;
            let ws = self.serialize();
            self.send_to_everybody(&ws);
        } else {
            self.ticks_since_last_full_update = self.ticks_since_last_full_update + 1;
        }
    }
}

/// Squared distance is symmetric in its two points.
proof fn lemma_dist_sym(x0: int, y0: int, x1: int, y1: int)
    ensures
        spec_dist_sq(x0, y0, x1, y1) == spec_dist_sq(x1, y1, x0, y0),
{
    assert((x0 - x1) * (x0 - x1) == (x1 - x0) * (x1 - x0)) by (nonlinear_arith);
    assert((y0 - y1) * (y0 - y1) == (y1 - y0) * (y1 - y0)) by (nonlinear_arith);
}

/// A bullet during the tick, after its advance and before the removal pass:
/// as a well-formed bullet, but its position may overshoot the map by up to
/// one advance.
pub open spec fn bullet_twf(b: Bullet) -> bool {
    &&& -400_000_000 <= b.x <= 400_000_000
    &&& -400_000_000 <= b.y <= 400_000_000
    &&& b.move_x is Some
    &&& b.move_y is Some
    &&& -FX_ABS_MAX <= b.move_x->0 <= FX_ABS_MAX
    &&& -FX_ABS_MAX <= b.move_y->0 <= FX_ABS_MAX
}


/// A moving player's raw step on the x axis: one movement vector times the
/// player speed, before any clamping.
pub open spec fn raw_step_x(p: Player) -> int {
    p.x + p.move_x->0 * PLAYER_SPEED
}

/// A moving player's raw step on the y axis.
pub open spec fn raw_step_y(p: Player) -> int {
    p.y + p.move_y->0 * PLAYER_SPEED
}

/// The candidate x position: the raw step clamped to the player band.
pub open spec fn cand_x(p: Player) -> int {
    spec_clamp(raw_step_x(p), PLAYER_RADIUS as int, (MAP_WIDTH - PLAYER_RADIUS) as int)
}

/// The candidate y position: the raw step clamped to the player band.
pub open spec fn cand_y(p: Player) -> int {
    spec_clamp(raw_step_y(p), PLAYER_RADIUS as int, (MAP_HEIGHT - PLAYER_RADIUS) as int)
}

/// Whether the step ran into the map edge: clamping changed the candidate.
pub open spec fn move_clamped(p: Player) -> bool {
    cand_x(p) != raw_step_x(p) || cand_y(p) != raw_step_y(p)
}

/// The player standing at its candidate position, vector untouched.
pub open spec fn moved_player(p: Player) -> Player {
    Player { x: cand_x(p) as i64, y: cand_y(p) as i64, ..p }
}

/// Whether, on the roster `t` as it stands when player `i` takes its step,
/// some other player is within two radii of `i`'s candidate.
pub open spec fn move_blocked_in(t: Seq<Player>, i: int) -> bool {
    exists|j: int|
        0 <= j < t.len() && j != i && spec_dist_sq(
            cand_x(t[i]),
            cand_y(t[i]),
            (#[trigger] t[j]).x as int,
            t[j].y as int,
        ) < PLAYER_DIAM_SQ
}

/// One step of the movement pass: player `i` commits its candidate unless
/// it is not moving or the candidate is blocked by another player.
pub open spec fn step_move(t: Seq<Player>, i: int) -> Seq<Player> {
    if t[i].move_x is Some && t[i].move_y is Some && !move_blocked_in(t, i) {
        t.update(i, moved_player(t[i]))
    } else {
        t
    }
}

/// The roster after the first `i` players took their steps, in index order;
/// later players still stand where they were, so each step's collision
/// probe sees the earlier commits.
pub open spec fn move_upto(s: Seq<Player>, i: int) -> Seq<Player>
    decreases i,
{
    if i <= 0 {
        s
    } else {
        step_move(move_upto(s, i - 1), i - 1)
    }
}

/// Whether player `i` is forced to stop this tick: it was moving and its
/// step was blocked by another player or ran into the map edge.
pub open spec fn move_stopped(s: Seq<Player>, i: int) -> bool {
    s[i].move_x is Some && s[i].move_y is Some && (move_blocked_in(move_upto(s, i), i)
        || move_clamped(s[i]))
}

/// The roster after the whole movement pass: every player has taken its
/// step in index order, and every forced-stopped player's vector is
/// cleared.
pub open spec fn after_movement(s: Seq<Player>) -> Seq<Player> {
    Seq::new(
        s.len(),
        |i: int|
            if move_stopped(s, i) {
                Player { move_x: None, move_y: None, ..move_upto(s, s.len() as int)[i] }
            } else {
                move_upto(s, s.len() as int)[i]
            },
    )
}

/// The partial movement pass keeps length, ids and vectors, and leaves the
/// players from `i` on untouched.
pub proof fn lemma_move_upto(s: Seq<Player>, i: int)
    requires
        0 <= i <= s.len(),
    ensures
        move_upto(s, i).len() == s.len(),
        forall|k: int| i <= k < s.len() ==> #[trigger] move_upto(s, i)[k] == s[k],
        forall|k: int|
            0 <= k < s.len() ==> (#[trigger] move_upto(s, i)[k]).id == s[k].id && move_upto(
                s,
                i,
            )[k].move_x == s[k].move_x && move_upto(s, i)[k].move_y == s[k].move_y,
    decreases i,
{
    if i > 0 {
        lemma_move_upto(s, i - 1);
    }
}

/// Whether the advanced bullet `i` strikes the player `j` of roster `ps`.
pub open spec fn bullet_strikes(bs: Seq<Bullet>, ps: Seq<Player>, i: int, j: int) -> bool {
    spec_dist_sq(
        advance_bullet(bs[i]).x as int,
        advance_bullet(bs[i]).y as int,
        ps[j].x as int,
        ps[j].y as int,
    ) < HIT_SQ
}

/// Whether some advanced bullet strikes player `j`.
pub open spec fn player_hit(bs: Seq<Bullet>, ps: Seq<Player>, j: int) -> bool {
    exists|i: int| 0 <= i < bs.len() && #[trigger] bullet_strikes(bs, ps, i, j)
}

/// Whether bullet `i` survives the tick: advanced, it is still inside the
/// map and strikes no player.
pub open spec fn bullet_survives(bs: Seq<Bullet>, ps: Seq<Player>, i: int) -> bool {
    bullet_in_map(advance_bullet(bs[i])) && forall|j: int|
        0 <= j < ps.len() ==> !(#[trigger] bullet_strikes(bs, ps, i, j))
}

/// The advanced forms of the bullets from `i` on that survive the tick, in
/// their order.
pub open spec fn surviving_from(bs: Seq<Bullet>, ps: Seq<Player>, i: int) -> Seq<Bullet>
    decreases bs.len() - i,
{
    if i < 0 || i >= bs.len() {
        seq![]
    } else if bullet_survives(bs, ps, i) {
        seq![advance_bullet(bs[i])] + surviving_from(bs, ps, i + 1)
    } else {
        surviving_from(bs, ps, i + 1)
    }
}

/// The bullets that survive the tick against roster `ps`.
pub open spec fn surviving_bullets(bs: Seq<Bullet>, ps: Seq<Player>) -> Seq<Bullet> {
    surviving_from(bs, ps, 0)
}

/// The unmarked entries from `i` on, in their order.
pub open spec fn keep_unmarked(bs: Seq<Bullet>, marks: Seq<bool>, i: int) -> Seq<Bullet>
    decreases bs.len() - i,
{
    if i < 0 || i >= bs.len() {
        seq![]
    } else if marks[i] {
        keep_unmarked(bs, marks, i + 1)
    } else {
        seq![bs[i]] + keep_unmarked(bs, marks, i + 1)
    }
}

/// Dropping the marked bullets from the advanced sequence keeps exactly the
/// survivors, when the marks say exactly "does not survive".
proof fn lemma_survivors_eq(
    bs: Seq<Bullet>,
    ps: Seq<Player>,
    adv: Seq<Bullet>,
    marks: Seq<bool>,
    i: int,
)
    requires
        adv.len() == bs.len(),
        marks.len() == bs.len(),
        0 <= i,
        forall|k: int| 0 <= k < bs.len() ==> #[trigger] adv[k] == advance_bullet(bs[k]),
        forall|k: int| 0 <= k < bs.len() ==> #[trigger] marks[k] == !bullet_survives(bs, ps, k),
    ensures
        keep_unmarked(adv, marks, i) == surviving_from(bs, ps, i),
    decreases bs.len() - i,
{
    if i < bs.len() {
        lemma_survivors_eq(bs, ps, adv, marks, i + 1);
    }
}

impl GameState {
    /// Whether any player other than `skip` sits within two radii of the
    /// candidate `(cx, cy)`.
    #[verifier::loop_isolation(false)]
    fn collides_with_other(&self, skip: usize, cx: i64, cy: i64) -> (r: bool)
        requires
            self.wf(),
            PLAYER_RADIUS <= cx <= MAP_WIDTH - PLAYER_RADIUS,
            PLAYER_RADIUS <= cy <= MAP_HEIGHT - PLAYER_RADIUS,
        ensures
            r == exists|j: int|
                0 <= j < self.players@.len() && j != skip && spec_dist_sq(
                    cx as int,
                    cy as int,
                    (#[trigger] self.players@[j]).x as int,
                    self.players@[j].y as int,
                ) < PLAYER_DIAM_SQ,
    {
        let n = self.players.len();
        let mut j: usize = 0;
        while j < n
            invariant
                0 <= j <= n,
                forall|t: int|
                    0 <= t < j && t != skip ==> spec_dist_sq(
                        cx as int,
                        cy as int,
                        (#[trigger] self.players@[t]).x as int,
                        self.players@[t].y as int,
                    ) >= PLAYER_DIAM_SQ,
            decreases n - j,
        {
            if j != skip {
                let p = self.players[j];
                if dist_sq_between(cx, cy, p.x, p.y) < PLAYER_DIAM_SQ {
                    return true;
                }
            }
            j = j + 1;
        }
        false
    }

    /// The player movement pass: each moving player steps along its vector,
    /// clamped to the map; a step that would bring it within two radii of
    /// any other player is rejected. A player whose step was blocked or ran
    /// into the map edge is forced to stop: its vector is cleared and the
    /// stop announced.
    #[verifier::loop_isolation(false)]
    fn move_players(&mut self)
        requires
            old(self).wf(),
        ensures
            final(self).wf(),
            final(self).players@ == after_movement(old(self).players@),
            final(self).bullets@ == old(self).bullets@,
            final(self).clients@ == old(self).clients@,
            final(self).next_bullet_id == old(self).next_bullet_id,
            final(self).ticks_since_last_full_update == old(
                self,
            ).ticks_since_last_full_update,
            players_separated(old(self).players@) ==> players_separated(final(self).players@),
    {
        let ghost ps0 = self.players@;
        let mut stopped: Vec<bool> = Vec::new();
        let n = self.players.len();
        let mut i: usize = 0;
        while i < n
            invariant
                0 <= i <= n,
                self.players@ == move_upto(ps0, i as int),
                self.players@.len() == ps0.len(),
                self.wf(),
                stopped@.len() == i,
                forall|t: int| 0 <= t < i ==> #[trigger] stopped@[t] == move_stopped(ps0, t),
                self.bullets@ == old(self).bullets@,
                self.clients@ == old(self).clients@,
                self.next_bullet_id == old(self).next_bullet_id,
                self.ticks_since_last_full_update == old(self).ticks_since_last_full_update,
                players_separated(ps0) ==> players_separated(self.players@),
            decreases n - i,
        {
            proof {
                lemma_move_upto(ps0, i as int);
                assert(self.players@[i as int] == ps0[i as int]);
            }
            let p = self.players[i];
            match (p.move_x, p.move_y) {
                (Some(mx), Some(my)) => {
                    let raw_x = p.x + mx * PLAYER_SPEED;
                    let raw_y = p.y + my * PLAYER_SPEED;
                    let cx = clamp(raw_x, PLAYER_RADIUS, MAP_WIDTH - PLAYER_RADIUS);
                    let cy = clamp(raw_y, PLAYER_RADIUS, MAP_HEIGHT - PLAYER_RADIUS);
                    proof {
                        assert(cx as int == cand_x(ps0[i as int]));
                        assert(cy as int == cand_y(ps0[i as int]));
                    }
                    let collides_with_player = self.collides_with_other(i, cx, cy);
                    proof {
                        assert(collides_with_player == move_blocked_in(
                            move_upto(ps0, i as int),
                            i as int,
                        ));
                    }
                    if !collides_with_player {
                        let ghost before = self.players@;
                        let np = Player { x: cx, y: cy, ..p };
                        self.players[i] = np;
                        proof {
                            assert(np == moved_player(ps0[i as int]));
                            assert(self.players@ == move_upto(ps0, i + 1 as int));
                            if players_separated(ps0) {
                                assert forall|a: int, b: int|
                                    0 <= a < self.players@.len() && 0 <= b
                                        < self.players@.len() && a != b implies spec_dist_sq(
                                    (#[trigger] self.players@[a]).x as int,
                                    self.players@[a].y as int,
                                    (#[trigger] self.players@[b]).x as int,
                                    self.players@[b].y as int,
                                ) >= PLAYER_DIAM_SQ by {
                                    if a == i as int {
                                        assert(spec_dist_sq(
                                            cx as int,
                                            cy as int,
                                            before[b].x as int,
                                            before[b].y as int,
                                        ) >= PLAYER_DIAM_SQ);
                                    } else if b == i as int {
                                        assert(spec_dist_sq(
                                            cx as int,
                                            cy as int,
                                            before[a].x as int,
                                            before[a].y as int,
                                        ) >= PLAYER_DIAM_SQ);
                                        lemma_dist_sym(
                                            self.players@[a].x as int,
                                            self.players@[a].y as int,
                                            cx as int,
                                            cy as int,
                                        );
                                    } else {
                                        assert(self.players@[a] == before[a]);
                                        assert(self.players@[b] == before[b]);
                                    }
                                }
                            }
                        }
                    } else {
                        proof {
                            assert(self.players@ == move_upto(ps0, i + 1 as int));
                        }
                    }
                    // A stop is forced when the step was blocked, or when
                    // clamping moved the raw step back into the map.
                    let clamped = raw_x < PLAYER_RADIUS || raw_x > MAP_WIDTH - PLAYER_RADIUS
                        || raw_y < PLAYER_RADIUS || raw_y > MAP_HEIGHT - PLAYER_RADIUS;
                    proof {
                        assert(clamped == move_clamped(ps0[i as int]));
                    }
                    stopped.push(collides_with_player || clamped);
                },
                _ => {
                    proof {
                        assert(self.players@ == move_upto(ps0, i + 1 as int));
                        assert(!move_stopped(ps0, i as int));
                    }
                    stopped.push(false);
                },
            }
            i = i + 1;
        }
        let ghost moved = self.players@;
        proof {
            assert(moved == move_upto(ps0, ps0.len() as int));
            lemma_move_upto(ps0, ps0.len() as int);
        }
        let mut k: usize = 0;
        while k < n
            invariant
                0 <= k <= n,
                self.players@.len() == n,
                self.wf(),
                forall|t: int| k <= t < n ==> #[trigger] self.players@[t] == moved[t],
                forall|t: int|
                    0 <= t < k ==> #[trigger] self.players@[t] == after_movement(ps0)[t],
                self.bullets@ == old(self).bullets@,
                self.clients@ == old(self).clients@,
                self.next_bullet_id == old(self).next_bullet_id,
                self.ticks_since_last_full_update == old(self).ticks_since_last_full_update,
            decreases n - k,
        {
            if stopped[k] {
                let p = self.players[k];
                let np = Player { move_x: None, move_y: None, ..p };
                self.players[k] = np;
                let resp = Message::PlayerStopped { id: p.id, x: p.x, y: p.y };
                self.send_to_everybody(&resp);
            }
            proof {
                assert(self.players@[k as int] == after_movement(ps0)[k as int]);
            }
            k = k + 1;
        }
        proof {
            assert(self.players@ =~= after_movement(ps0));
            if players_separated(ps0) {
                assert forall|a: int, b: int|
                    0 <= a < self.players@.len() && 0 <= b < self.players@.len() && a
                        != b implies spec_dist_sq(
                    (#[trigger] self.players@[a]).x as int,
                    self.players@[a].y as int,
                    (#[trigger] self.players@[b]).x as int,
                    self.players@[b].y as int,
                ) >= PLAYER_DIAM_SQ by {
                    assert(self.players@[a].x == moved[a].x && self.players@[a].y == moved[a].y);
                    assert(self.players@[b].x == moved[b].x && self.players@[b].y == moved[b].y);
                    assert(spec_dist_sq(
                        moved[a].x as int,
                        moved[a].y as int,
                        moved[b].x as int,
                        moved[b].y as int,
                    ) >= PLAYER_DIAM_SQ);
                }
            }
        }
    }
}

impl GameState {
    /// The bullet movement pass: every bullet advances along its vector;
    /// the returned marks name the bullets that left the map.
    #[verifier::loop_isolation(false)]
    fn advance_bullets(&mut self) -> (oob: Vec<bool>)
        requires
            old(self).wf(),
        ensures
            players_wf(final(self).players@),
            final(self).players@ == old(self).players@,
            final(self).clients@ == old(self).clients@,
            final(self).next_bullet_id == old(self).next_bullet_id,
            final(self).ticks_since_last_full_update == old(
                self,
            ).ticks_since_last_full_update,
            final(self).bullets@.len() == old(self).bullets@.len(),
            forall|i: int|
                0 <= i < old(self).bullets@.len() ==> (#[trigger] final(self).bullets@[i])
                    == advance_bullet(old(self).bullets@[i]),
            forall|i: int|
                0 <= i < final(self).bullets@.len() ==> bullet_twf(
                    #[trigger] final(self).bullets@[i],
                ),
            oob@.len() == old(self).bullets@.len(),
            forall|i: int|
                0 <= i < oob@.len() ==> (#[trigger] oob@[i]) == !bullet_in_map(
                    advance_bullet(old(self).bullets@[i]),
                ),
            final(self).ticks_since_last_full_update <= TICKS_BETWEEN_FULL_UPDATES,
    {
        let ghost bs0 = self.bullets@;
        let mut oob: Vec<bool> = Vec::new();
        let n = self.bullets.len();
        let mut i: usize = 0;
        while i < n
            invariant
                0 <= i <= n,
                self.bullets@.len() == bs0.len(),
                self.players@ == old(self).players@,
                self.clients@ == old(self).clients@,
                self.next_bullet_id == old(self).next_bullet_id,
                self.ticks_since_last_full_update == old(self).ticks_since_last_full_update,
                forall|t: int| i <= t < bs0.len() ==> (#[trigger] self.bullets@[t]) == bs0[t],
                forall|t: int|
                    0 <= t < i ==> (#[trigger] self.bullets@[t]) == advance_bullet(bs0[t]),
                forall|t: int| 0 <= t < i ==> bullet_twf(#[trigger] self.bullets@[t]),
                oob@.len() == i,
                forall|t: int|
                    0 <= t < i ==> (#[trigger] oob@[t]) == !bullet_in_map(
                        advance_bullet(bs0[t]),
                    ),
            decreases n - i,
        {
            let b = self.bullets[i];
            let (mx, my) = match (b.move_x, b.move_y) {
                (Some(mx), Some(my)) => (mx, my),
                _ => (0, 0),
            };
            let nb = Bullet { x: b.x + mx * BULLET_SPEED, y: b.y + my * BULLET_SPEED, ..b };
            self.bullets[i] = nb;
            let out = nb.x < 0 || nb.x > MAP_WIDTH || nb.y < 0 || nb.y > MAP_HEIGHT;
            oob.push(out);
            i = i + 1;
        }
        oob
    }

    /// Whether any bullet sits within a hit radius of the player at `pj`.
    #[verifier::loop_isolation(false)]
    fn player_hit_by_some_bullet(&self, pj: usize) -> (r: bool)
        requires
            players_wf(self.players@),
            forall|i: int| 0 <= i < self.bullets@.len() ==> bullet_twf(#[trigger] self.bullets@[i]),
            pj < self.players@.len(),
        ensures
            r == exists|i: int|
                0 <= i < self.bullets@.len() && spec_dist_sq(
                    (#[trigger] self.bullets@[i]).x as int,
                    self.bullets@[i].y as int,
                    self.players@[pj as int].x as int,
                    self.players@[pj as int].y as int,
                ) < HIT_SQ,
    {
        let p = self.players[pj];
        let n = self.bullets.len();
        let mut i: usize = 0;
        while i < n
            invariant
                0 <= i <= n,
                forall|t: int|
                    0 <= t < i ==> spec_dist_sq(
                        (#[trigger] self.bullets@[t]).x as int,
                        self.bullets@[t].y as int,
                        self.players@[pj as int].x as int,
                        self.players@[pj as int].y as int,
                    ) >= HIT_SQ,
            decreases n - i,
        {
            let b = self.bullets[i];
            if dist_sq_between(b.x, b.y, p.x, p.y) < HIT_SQ {
                return true;
            }
            i = i + 1;
        }
        false
    }

    /// Whether any player sits within a hit radius of the bullet at `bi`.
    #[verifier::loop_isolation(false)]
    fn bullet_hits_some_player(&self, bi: usize) -> (r: bool)
        requires
            players_wf(self.players@),
            forall|i: int| 0 <= i < self.bullets@.len() ==> bullet_twf(#[trigger] self.bullets@[i]),
            bi < self.bullets@.len(),
        ensures
            r == exists|j: int|
                0 <= j < self.players@.len() && spec_dist_sq(
                    self.bullets@[bi as int].x as int,
                    self.bullets@[bi as int].y as int,
                    (#[trigger] self.players@[j]).x as int,
                    self.players@[j].y as int,
                ) < HIT_SQ,
    {
        let b = self.bullets[bi];
        let n = self.players.len();
        let mut j: usize = 0;
        while j < n
            invariant
                0 <= j <= n,
                forall|t: int|
                    0 <= t < j ==> spec_dist_sq(
                        self.bullets@[bi as int].x as int,
                        self.bullets@[bi as int].y as int,
                        (#[trigger] self.players@[t]).x as int,
                        self.players@[t].y as int,
                    ) >= HIT_SQ,
            decreases n - j,
        {
            let p = self.players[j];
            if dist_sq_between(b.x, b.y, p.x, p.y) < HIT_SQ {
                return true;
            }
            j = j + 1;
        }
        false
    }

    /// The collision pass: every bullet within a hit radius of a player is
    /// marked, and so is every player within a hit radius of a bullet — all
    /// pairs at once, never only a first hit.
    #[verifier::loop_isolation(false)]
    fn collision_marks(&self, oob: &mut Vec<bool>) -> (dead: Vec<bool>)
        requires
            players_wf(self.players@),
            forall|i: int| 0 <= i < self.bullets@.len() ==> bullet_twf(#[trigger] self.bullets@[i]),
            old(oob)@.len() == self.bullets@.len(),
        ensures
            final(oob)@.len() == self.bullets@.len(),
            forall|i: int|
                0 <= i < final(oob)@.len() ==> (#[trigger] final(oob)@[i]) == (old(oob)@[i]
                    || exists|j: int|
                    0 <= j < self.players@.len() && spec_dist_sq(
                        self.bullets@[i].x as int,
                        self.bullets@[i].y as int,
                        (#[trigger] self.players@[j]).x as int,
                        self.players@[j].y as int,
                    ) < HIT_SQ),
            dead@.len() == self.players@.len(),
            forall|j: int|
                0 <= j < dead@.len() ==> (#[trigger] dead@[j]) == exists|i: int|
                    0 <= i < self.bullets@.len() && spec_dist_sq(
                        (#[trigger] self.bullets@[i]).x as int,
                        self.bullets@[i].y as int,
                        self.players@[j].x as int,
                        self.players@[j].y as int,
                    ) < HIT_SQ,
    {
        let bn = self.bullets.len();
        let mut i: usize = 0;
        while i < bn
            invariant
                0 <= i <= bn,
                oob@.len() == self.bullets@.len(),
                forall|t: int| i <= t < oob@.len() ==> (#[trigger] oob@[t]) == old(oob)@[t],
                forall|t: int|
                    0 <= t < i ==> (#[trigger] oob@[t]) == (old(oob)@[t] || exists|j: int|
                        0 <= j < self.players@.len() && spec_dist_sq(
                            self.bullets@[t].x as int,
                            self.bullets@[t].y as int,
                            (#[trigger] self.players@[j]).x as int,
                            self.players@[j].y as int,
                        ) < HIT_SQ),
            decreases bn - i,
        {
            let hit = self.bullet_hits_some_player(i);
            let v = oob[i] || hit;
            oob[i] = v;
            i = i + 1;
        }
        let pn = self.players.len();
        let mut dead: Vec<bool> = Vec::new();
        let mut j: usize = 0;
        while j < pn
            invariant
                0 <= j <= pn,
                dead@.len() == j,
                forall|t: int|
                    0 <= t < j ==> (#[trigger] dead@[t]) == exists|i: int|
                        0 <= i < self.bullets@.len() && spec_dist_sq(
                            (#[trigger] self.bullets@[i]).x as int,
                            self.bullets@[i].y as int,
                            self.players@[t].x as int,
                            self.players@[t].y as int,
                        ) < HIT_SQ,
            decreases pn - j,
        {
            let hit = self.player_hit_by_some_bullet(j);
            dead.push(hit);
            j = j + 1;
        }
        dead
    }

    /// The destruction pass for bullets: drop every marked one. The
    /// survivors are exactly the unmarked bullets, in their order.
    #[verifier::loop_isolation(false)]
    fn retain_bullets(&mut self, marks: &Vec<bool>)
        requires
            players_wf(old(self).players@),
            forall|i: int|
                0 <= i < old(self).bullets@.len() ==> bullet_twf(#[trigger] old(self).bullets@[i]),
            forall|i: int, j: int|
                0 <= i < j < old(self).clients@.len() ==> (#[trigger] old(self).clients@[i]).id
                    != (#[trigger] old(self).clients@[j]).id,
            old(self).ticks_since_last_full_update <= TICKS_BETWEEN_FULL_UPDATES,
            marks@.len() == old(self).bullets@.len(),
            forall|i: int|
                0 <= i < marks@.len() ==> (!(#[trigger] marks@[i]) ==> bullet_in_map(
                    old(self).bullets@[i],
                )),
        ensures
            final(self).wf(),
            final(self).players@ == old(self).players@,
            final(self).clients@ == old(self).clients@,
            final(self).next_bullet_id == old(self).next_bullet_id,
            final(self).ticks_since_last_full_update == old(
                self,
            ).ticks_since_last_full_update,
            final(self).bullets@.len() <= old(self).bullets@.len(),
            final(self).bullets@ == keep_unmarked(old(self).bullets@, marks@, 0),
            forall|i: int|
                0 <= i < final(self).bullets@.len() ==> bullet_in_map(
                    #[trigger] final(self).bullets@[i],
                ) && bullet_wf(final(self).bullets@[i]),
    {
        let ghost bs0 = self.bullets@;
        let mut kept: Vec<Bullet> = Vec::new();
        let n = self.bullets.len();
        let mut i: usize = 0;
        while i < n
            invariant
                0 <= i <= n,
                self.bullets@ == bs0,
                kept@.len() <= i,
                keep_unmarked(bs0, marks@, 0) == kept@ + keep_unmarked(bs0, marks@, i as int),
                forall|t: int|
                    0 <= t < kept@.len() ==> bullet_in_map(#[trigger] kept@[t]) && bullet_wf(
                        kept@[t],
                    ),
            decreases n - i,
        {
            let ghost oldk = kept@;
            if !marks[i] {
                let b = self.bullets[i];
                kept.push(b);
                proof {
                    assert(keep_unmarked(bs0, marks@, i as int) =~= seq![bs0[i as int]]
                        + keep_unmarked(bs0, marks@, i + 1 as int));
                    assert(oldk + keep_unmarked(bs0, marks@, i as int) =~= kept@ + keep_unmarked(
                        bs0,
                        marks@,
                        i + 1 as int,
                    ));
                }
            }
            i = i + 1;
        }
        proof {
            assert(keep_unmarked(bs0, marks@, n as int) =~= Seq::<Bullet>::empty());
            assert(kept@ + keep_unmarked(bs0, marks@, n as int) =~= kept@);
        }
        self.bullets = kept;
    }

    /// The destruction pass for players: a destroyed player is never
    /// removed, only announced and respawned at a fresh spot, keeping its
    /// id and movement intent.
    #[verifier::loop_isolation(false)]
    fn respawn_dead(&mut self, dead: &Vec<bool>)
        requires
            old(self).wf(),
            dead@.len() == old(self).players@.len(),
        ensures
            final(self).wf(),
            final(self).players@.len() == old(self).players@.len(),
            final(self).clients@ == old(self).clients@,
            final(self).bullets@ == old(self).bullets@,
            final(self).next_bullet_id == old(self).next_bullet_id,
            final(self).ticks_since_last_full_update == old(
                self,
            ).ticks_since_last_full_update,
            forall|j: int|
                0 <= j < dead@.len() ==> (!(#[trigger] dead@[j]) ==> final(self).players@[j]
                    == old(self).players@[j]),
            forall|j: int|
                0 <= j < dead@.len() ==> ((#[trigger] dead@[j]) ==> (final(self).players@[j]).id
                    == old(self).players@[j].id && final(self).players@[j].move_x == old(
                    self,
                ).players@[j].move_x && final(self).players@[j].move_y == old(
                    self,
                ).players@[j].move_y && player_in_bounds(final(self).players@[j])),
    {
        let n = self.players.len();
        let mut j: usize = 0;
        while j < n
            invariant
                0 <= j <= n,
                self.wf(),
                self.players@.len() == n,
                self.clients@ == old(self).clients@,
                self.bullets@ == old(self).bullets@,
                self.next_bullet_id == old(self).next_bullet_id,
                self.ticks_since_last_full_update == old(self).ticks_since_last_full_update,
                forall|t: int| j <= t < n ==> (#[trigger] self.players@[t]) == old(self).players@[t],
                forall|t: int|
                    0 <= t < j ==> (!(#[trigger] dead@[t]) ==> self.players@[t] == old(self).players@[t]),
                forall|t: int|
                    0 <= t < j ==> ((#[trigger] dead@[t]) ==> (self.players@[t]).id == old(self).players@[t].id && self.players@[t].move_x == old(self).players@[t].move_x && self.players@[t].move_y == old(self).players@[t].move_y && player_in_bounds(self.players@[t])),
            decreases n - j,
        {
            if dead[j] {
                let p = self.players[j];
                let gone = Message::PlayerDestroyed {
                    id: p.id,
                    killer_id: None,
                    bullet_id: None,
                };
                self.send_to_everybody(&gone);
                let (x, y) = self.random_free_spot();
                let np = Player { x, y, ..p };
                self.players[j] = np;
                let spawned = Message::PlayerSpawned { id: p.id, x, y };
                self.send_to_everybody(&spawned);
            }
            j = j + 1;
        }
    }

    /// One fixed tick: moving players step and stop at walls or other
    /// players, bullets advance and leave the map or strike, and every
    /// struck player is announced and respawned.
    #[verifier::loop_isolation(false)]
    pub fn process_game_update(&mut self)
        requires
            old(self).wf(),
        ensures
            final(self).wf(),
            final(self).players@.len() == old(self).players@.len(),
            forall|j: int|
                0 <= j < old(self).players@.len() ==> (!player_hit(
                    old(self).bullets@,
                    after_movement(old(self).players@),
                    j,
                ) ==> #[trigger] final(self).players@[j] == after_movement(
                    old(self).players@,
                )[j]),
            forall|j: int|
                0 <= j < old(self).players@.len() ==> (player_hit(
                    old(self).bullets@,
                    after_movement(old(self).players@),
                    j,
                ) ==> (#[trigger] final(self).players@[j]).id == after_movement(
                    old(self).players@,
                )[j].id && final(self).players@[j].move_x == after_movement(
                    old(self).players@,
                )[j].move_x && final(self).players@[j].move_y == after_movement(
                    old(self).players@,
                )[j].move_y && player_in_bounds(final(self).players@[j])),
            final(self).bullets@ == surviving_bullets(
                old(self).bullets@,
                after_movement(old(self).players@),
            ),
            forall|i: int|
                0 <= i < final(self).players@.len() ==> player_in_bounds(
                    #[trigger] final(self).players@[i],
                ),
            forall|i: int|
                0 <= i < final(self).bullets@.len() ==> bullet_in_map(
                    #[trigger] final(self).bullets@[i],
                ),
            final(self).clients@ == old(self).clients@,
            final(self).next_bullet_id == old(self).next_bullet_id,
            final(self).ticks_since_last_full_update == old(
                self,
            ).ticks_since_last_full_update,
            (players_separated(old(self).players@) && (forall|j: int|
                0 <= j < old(self).players@.len() ==> !(#[trigger] player_hit(
                    old(self).bullets@,
                    after_movement(old(self).players@),
                    j,
                )))) ==> players_separated(final(self).players@),
    {
        let ghost ps0 = self.players@;
        let ghost bs0 = self.bullets@;
        self.move_players();
        let ghost ap = self.players@;
        let mut oob = self.advance_bullets();
        let ghost adv = self.bullets@;
        let dead = self.collision_marks(&mut oob);
        self.retain_bullets(&oob);
        let ghost before_respawn = self.players@;
        self.respawn_dead(&dead);
        proof {
            assert(ap == after_movement(ps0));
            assert(before_respawn == ap);
            assert forall|i: int| 0 <= i < bs0.len() implies #[trigger] oob@[i]
                == !bullet_survives(bs0, ap, i) by {
                assert(adv[i] == advance_bullet(bs0[i]));
                if oob@[i] {
                    if !bullet_in_map(advance_bullet(bs0[i])) {
                    } else {
                        let j = choose|j: int|
                            0 <= j < ap.len() && spec_dist_sq(
                                adv[i].x as int,
                                adv[i].y as int,
                                (#[trigger] ap[j]).x as int,
                                ap[j].y as int,
                            ) < HIT_SQ;
                        assert(bullet_strikes(bs0, ap, i, j));
                    }
                } else {
                    assert(bullet_in_map(advance_bullet(bs0[i])));
                    assert forall|j: int| 0 <= j < ap.len() implies !(#[trigger] bullet_strikes(
                        bs0,
                        ap,
                        i,
                        j,
                    )) by {
                        assert(spec_dist_sq(
                            adv[i].x as int,
                            adv[i].y as int,
                            ap[j].x as int,
                            ap[j].y as int,
                        ) >= HIT_SQ);
                    }
                }
            }
            lemma_survivors_eq(bs0, ap, adv, oob@, 0);
            assert forall|j: int| 0 <= j < ap.len() implies #[trigger] dead@[j] == player_hit(
                bs0,
                ap,
                j,
            ) by {
                if dead@[j] {
                    let i = choose|i: int|
                        0 <= i < adv.len() && spec_dist_sq(
                            (#[trigger] adv[i]).x as int,
                            adv[i].y as int,
                            ap[j].x as int,
                            ap[j].y as int,
                        ) < HIT_SQ;
                    assert(adv[i] == advance_bullet(bs0[i]));
                    assert(bullet_strikes(bs0, ap, i, j));
                } else {
                    if player_hit(bs0, ap, j) {
                        let i = choose|i: int|
                            0 <= i < bs0.len() && #[trigger] bullet_strikes(bs0, ap, i, j);
                        assert(adv[i] == advance_bullet(bs0[i]));
                        assert(spec_dist_sq(
                            adv[i].x as int,
                            adv[i].y as int,
                            ap[j].x as int,
                            ap[j].y as int,
                        ) < HIT_SQ);
                    }
                }
            }
            assert(ap.len() == ps0.len());
            assert(dead@.len() == ps0.len());
            assert forall|j: int|
                0 <= j < ps0.len() && !player_hit(bs0, ap, j) implies #[trigger] self.players@[j]
                == ap[j] by {
                assert(dead@[j] == player_hit(bs0, ap, j));
                assert(!dead@[j]);
            }
            assert forall|j: int|
                0 <= j < ps0.len() && player_hit(bs0, ap, j) implies (
            #[trigger] self.players@[j]).id == ap[j].id && self.players@[j].move_x
                == ap[j].move_x && self.players@[j].move_y == ap[j].move_y && player_in_bounds(
                self.players@[j],
            ) by {
                assert(dead@[j] == player_hit(bs0, ap, j));
                if dead@[j] {
                } else {
                    assert(self.players@[j] == ap[j]);
                }
            }
            if players_separated(ps0) && (forall|j: int|
                0 <= j < ps0.len() ==> !(#[trigger] player_hit(bs0, ap, j))) {
                assert forall|t: int| 0 <= t < dead@.len() implies !(#[trigger] dead@[t]) by {
                    assert(!player_hit(bs0, ap, t));
                }
                assert(players_separated(self.players@)) by {
                    assert forall|a: int, b: int|
                        0 <= a < self.players@.len() && 0 <= b < self.players@.len() && a
                            != b implies spec_dist_sq(
                        (#[trigger] self.players@[a]).x as int,
                        self.players@[a].y as int,
                        (#[trigger] self.players@[b]).x as int,
                        self.players@[b].y as int,
                    ) >= PLAYER_DIAM_SQ by {
                        assert(!dead@[a] && !dead@[b]);
                        assert(self.players@[a] == ap[a]);
                        assert(self.players@[b] == ap[b]);
                    }
                }
            }
        }
    }
}

/// Disconnecting the same id twice leaves exactly what one disconnect
/// leaves: the second removal finds nothing to take out.
pub proof fn lemma_disconnect_idempotent(players: Seq<Player>, clients: Seq<Client>, id: u32)
    ensures
        remove_player(remove_player(players, id), id) == remove_player(players, id),
        remove_client(remove_client(clients, id), id) == remove_client(clients, id),
{
    let ppred = |p: Player| p.id != id;
    players.filter_lemma(ppred);
    lemma_filter_all(players.filter(ppred), ppred);
    let cpred = |c: Client| c.id != id;
    clients.filter_lemma(cpred);
    lemma_filter_all(clients.filter(cpred), cpred);
}

} // verus!
