use vstd::prelude::*;
use crate::board::Tile;
use crate::game::{
    aoe_center, at_cell, cardinal_target, consistent, cooling_down, distance_along, has_id,
    index_of, lemma_index_of, marked, move_target, occupant_ok, reach, resolved, unique_ids,
    GameState, Obstruction,
};
use crate::geometry::{melee_hit_box, Direction, Position, RelativePosition};
use crate::player::{PlayerAction, Player, Status, MAX_HEALTH};

verus! {

/// Every player's health lies in `[0, MAX_HEALTH]`, and a player is dead
/// exactly when its health is zero. Every operation keeps the state well
/// formed, so this holds at all times.
pub proof fn lemma_health_in_range(g: GameState)
    requires
        g.wf(),
    ensures
        forall|i: int|
            0 <= i < g.players@.len() ==> #[trigger] g.players@[i].health <= MAX_HEALTH && (
            g.players@[i].status == Status::DEAD) == (g.players@[i].health == 0),
{
    assert forall|i: int| 0 <= i < g.players@.len() implies #[trigger] g.players@[i].health <= MAX_HEALTH
        && (g.players@[i].status == Status::DEAD) == (g.players@[i].health == 0) by {
        assert(g.players@[i].wf());
    }
}

/// The board cell at a living player's position holds exactly its id, and no
/// other cell holds it.
pub proof fn lemma_living_players_on_board(g: GameState)
    requires
        g.wf(),
    ensures
        forall|i: int|
            0 <= i < g.players@.len() && #[trigger] g.players@[i].is_living() ==> at_cell(
                g.board,
                g.players@[i].position,
            ) == Tile::Player(g.players@[i].id),
        forall|i: int, r: int, c: int|
            0 <= i < g.players@.len() && g.board.in_bounds(r, c) && #[trigger] g.board.cell(r, c)
                == Tile::Player(#[trigger] g.players@[i].id) ==> g.players@[i].is_living()
                && g.players@[i].position.x == r && g.players@[i].position.y == c,
{
    let ps = g.players@;
    assert(consistent(ps, g.board));
    assert forall|i: int, r: int, c: int|
        0 <= i < ps.len() && g.board.in_bounds(r, c) && #[trigger] g.board.cell(r, c)
            == Tile::Player(#[trigger] ps[i].id) implies ps[i].is_living() && ps[i].position.x == r
        && ps[i].position.y == c by {
        assert(occupant_ok(ps, g.board, r, c));
        let w = choose|w: int|
            0 <= w < ps.len() && #[trigger] ps[w].id == ps[i].id && ps[w].is_living()
                && ps[w].position.x == r && ps[w].position.y == c;
        assert(unique_ids(ps));
    }
}

/// A cardinal move from the corner `(0, 0)` towards the lower edge of either
/// axis stays at `(0, 0)`, however far the player reaches and whatever the
/// obstruction policy: nothing wraps.
pub proof fn lemma_move_from_origin_stays(
    g: GameState,
    p: Player,
    direction: Direction,
    obstruction: Obstruction,
)
    requires
        g.wf(),
        p.position == (Position { x: 0, y: 0 }),
        direction == Direction::UP || direction == Direction::LEFT,
    ensures
        cardinal_target(g.board, p, direction) == (Position { x: 0, y: 0 }),
        move_target(g.board, p, direction, obstruction) == (Position { x: 0, y: 0 }),
{
    let t = cardinal_target(g.board, p, direction);
    assert(distance_along(p.position, t, direction) == 0);
    assert(reach(g.board, p.position, direction, 0) == 0);
}

/// After a melee attack at time `t1` goes through, a second attack by the same
/// player at a time `t2` before its cooldown has run is turned away (and so
/// changes nothing: no new timestamp, no damage).
pub proof fn lemma_second_attack_within_cooldown(
    players: Seq<Player>,
    attacker: u64,
    direction: Direction,
    t1: u64,
    t2: u64,
)
    requires
        unique_ids(players),
        has_id(players, attacker),
        t1 <= t2,
        t2 - t1 < players[index_of(players, attacker)].character.cooldown,
    ensures
        ({
            let i = index_of(players, attacker);
            let a = players[i];
            let after = resolved(
                marked(players, i, PlayerAction::ATTACKING, t1),
                melee_hit_box(direction, a.position),
                attacker,
                a.character.attack_dmg,
            );
            cooling_down(after[index_of(after, attacker)], t2)
        }),
{
    let i = index_of(players, attacker);
    let a = players[i];
    let m = marked(players, i, PlayerAction::ATTACKING, t1);
    let after = resolved(m, melee_hit_box(direction, a.position), attacker, a.character.attack_dmg);
    assert(0 <= i < players.len() && players[i].id == attacker);
    assert forall|x: int, y: int| 0 <= x < after.len() && 0 <= y < after.len() && x != y implies after[x].id
        != after[y].id by {
        assert(after[x].id == players[x].id);
        assert(after[y].id == players[y].id);
    }
    assert(after[i].id == attacker);
    lemma_index_of(after, attacker, i);
}

/// An area attack along the zero vector is centered on the attacker.
pub proof fn lemma_aoe_zero_vector_centers_on_attacker(position: Position)
    ensures
        aoe_center(position, RelativePosition { x: 0, y: 0 }) == position,
{
}

} // verus!
