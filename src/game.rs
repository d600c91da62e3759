use vstd::prelude::*;
use crate::board::{all_cells, cell_at, precedes, Board, Tile};
use crate::random::random_below;
use crate::geometry::{
    adjacent_spec, advance_position, advance_spec, aoe_coordinate, clamp_below, clamp_to_board,
    compute_adjacent_position_n_tiles, compute_attack_aoe_initial_positions,
    compute_attack_initial_positions, melee_hit_box, square_box, square_hit_box, Direction, HitBox,
    Position, RelativePosition, AOE_HALF_EXTENT,
};
use crate::player::{
    decayed, health_after, status_after, with_effect, Archetype, Character, Effect, Player,
    PlayerAction, Status, MAX_HEALTH,
};
use crate::projectile::{
    Projectile, ProjectileStatus, ProjectileType, PROJECTILE_DAMAGE, PROJECTILE_LIFETIME,
    PROJECTILE_RANGE, PROJECTILE_SPEED,
};

verus! {

/// Why an operation was refused; a refused operation changes nothing.
#[derive(Debug, Clone, Copy, PartialEq, Eq, Structural)]
pub enum GameError {
    /// No player in the roster has the given id.
    UnknownPlayer,
    /// A player with the given id is already in the roster.
    DuplicatePlayer,
    /// No empty cell is left to place a player on.
    BoardFull,
    /// The cell asked for is off the board or not empty.
    CellUnavailable,
    /// Every projectile id has been handed out.
    ProjectileIdsExhausted,
}

/// The whole simulation: the board, the roster and the projectiles in flight.
pub struct GameState {
    pub players: Vec<Player>,
    pub board: Board,
    pub projectiles: Vec<Projectile>,
    pub next_projectile_id: u64,
    /// How cardinal moves treat the tiles they cross.
    pub obstruction: Obstruction,
}

/// How a cardinal move treats the tiles between a player and its target.
#[derive(Debug, Clone, Copy, PartialEq, Eq, Structural)]
pub enum Obstruction {
    /// Go straight to the target cell; only that cell can refuse the move.
    Ignore,
    /// Walk tile by tile, stopping before the first tile that is not empty.
    StopAtBlocker,
}

/// The tile of `board` at `p`.
pub open spec fn at_cell(board: Board, p: Position) -> Tile {
    board.cell(p.x as int, p.y as int)
}

pub open spec fn on_board(board: Board, p: Position) -> bool {
    board.in_bounds(p.x as int, p.y as int)
}

/// Player ids are pairwise distinct.
pub open spec fn unique_ids(players: Seq<Player>) -> bool {
    forall|i: int, j: int|
        0 <= i < players.len() && 0 <= j < players.len() && i != j ==> players[i].id
            != players[j].id
}

/// Some player in `players` has id `id`.
pub open spec fn has_id(players: Seq<Player>, id: u64) -> bool {
    exists|i: int| 0 <= i < players.len() && players[i].id == id
}

/// A cell that holds a player tile is where that living player stands.
pub open spec fn occupant_ok(players: Seq<Player>, board: Board, row: int, col: int) -> bool {
    match board.cell(row, col) {
        Tile::Player(k) => exists|i: int|
            0 <= i < players.len() && #[trigger] players[i].id == k && players[i].is_living()
                && players[i].position.x == row && players[i].position.y == col,
        _ => true,
    }
}

/// The board and the roster agree: every living player stands on its own tile,
/// and every player tile is a living player's.
pub open spec fn consistent(players: Seq<Player>, board: Board) -> bool {
    &&& forall|i: int|
        0 <= i < players.len() ==> #[trigger] players[i].wf() && on_board(board, players[i].position)
    &&& unique_ids(players)
    &&& forall|i: int|
        0 <= i < players.len() && #[trigger] players[i].is_living() ==> at_cell(
            board,
            players[i].position,
        ) == Tile::Player(players[i].id)
    &&& forall|r: int, c: int| board.in_bounds(r, c) ==> #[trigger] occupant_ok(players, board, r, c)
}

/// Projectiles are on the board, alive, and in increasing order of id, all
/// below the next id to hand out.
pub open spec fn projectiles_ok(projectiles: Seq<Projectile>, board: Board, next_id: u64) -> bool {
    &&& forall|k: int|
        0 <= k < projectiles.len() ==> on_board(board, #[trigger] projectiles[k].position)
            && projectiles[k].id < next_id && projectiles[k].remaining_ticks > 0
    &&& forall|k: int, l: int|
        0 <= k < l < projectiles.len() ==> #[trigger] projectiles[k].id < #[trigger] projectiles[l].id
}

/// The same cells hold walls on both boards.
pub open spec fn same_walls(a: Board, b: Board) -> bool {
    &&& a.width == b.width
    &&& a.height == b.height
    &&& forall|r: int, c: int|
        a.in_bounds(r, c) ==> (#[trigger] a.cell(r, c) == Tile::Wall) == (b.cell(r, c) == Tile::Wall)
}

/// The ids of the player tiles in row `row`, columns `[c0, c)`, left to right.
pub open spec fn row_ids(board: Board, row: int, c0: int, c: int) -> Seq<u64>
    decreases c - c0,
{
    if c <= c0 {
        Seq::empty()
    } else {
        let before = row_ids(board, row, c0, c - 1);
        match board.cell(row, c - 1) {
            Tile::Player(k) => before.push(k),
            _ => before,
        }
    }
}

/// The ids of the player tiles in rows `[r0, r)` and columns `[c0, c1)`, row by row.
pub open spec fn range_ids(board: Board, r0: int, r: int, c0: int, c1: int) -> Seq<u64>
    decreases r - r0,
{
    if r <= r0 {
        Seq::empty()
    } else {
        range_ids(board, r0, r - 1, c0, c1) + row_ids(board, r - 1, c0, c1)
    }
}

pub open spec fn min_int(a: int, b: int) -> int {
    if a < b {
        a
    } else {
        b
    }
}

/// The index of the player with id `id` (meaningful where there is one).
pub open spec fn index_of(players: Seq<Player>, id: u64) -> int {
    choose|i: int| 0 <= i < players.len() && players[i].id == id
}

pub proof fn lemma_index_of(players: Seq<Player>, id: u64, i: int)
    requires
        unique_ids(players),
        0 <= i < players.len(),
        players[i].id == id,
    ensures
        index_of(players, id) == i,
{
    let j = index_of(players, id);
    assert(0 <= j < players.len() && players[j].id == id);
}

/// A living player inside `hb` other than the one with id `exclude`.
pub open spec fn is_target(p: Player, hb: HitBox, exclude: u64) -> bool {
    &&& p.is_living()
    &&& hb.contains(p.position)
    &&& p.id != exclude
}

/// `p` after taking `dmg` damage.
pub open spec fn damaged(p: Player, dmg: u64) -> Player {
    let h = health_after(p.health, dmg);
    Player { health: h, status: status_after(p.status, h), ..p }
}

/// The roster after every target in `hb` takes `dmg` damage.
pub open spec fn struck(players: Seq<Player>, hb: HitBox, exclude: u64, dmg: u64) -> Seq<Player> {
    Seq::new(
        players.len(),
        |j: int|
            if is_target(players[j], hb, exclude) {
                damaged(players[j], dmg)
            } else {
                players[j]
            },
    )
}

/// How many targets in `hb` have no more than `dmg` health, and so die of it.
pub open spec fn kills_in(players: Seq<Player>, hb: HitBox, exclude: u64, dmg: u64) -> nat
    decreases players.len(),
{
    if players.len() == 0 {
        0
    } else {
        let last = players.last();
        kills_in(players.drop_last(), hb, exclude, dmg) + if is_target(last, hb, exclude)
            && last.health <= dmg {
            1nat
        } else {
            0nat
        }
    }
}

pub open spec fn any_target(players: Seq<Player>, hb: HitBox, exclude: u64) -> bool {
    exists|j: int| 0 <= j < players.len() && is_target(players[j], hb, exclude)
}

/// `a + b`, stopping at `u64::MAX`.
pub open spec fn saturating_sum(a: u64, b: int) -> u64 {
    if a + b > u64::MAX {
        u64::MAX
    } else {
        (a + b) as u64
    }
}

/// The roster after the player with id `id` is credited with `kills` kills.
pub open spec fn credited(players: Seq<Player>, id: u64, kills: int) -> Seq<Player> {
    Seq::new(
        players.len(),
        |j: int|
            if players[j].id == id {
                Player { kill_count: saturating_sum(players[j].kill_count, kills), ..players[j] }
            } else {
                players[j]
            },
    )
}

/// The roster after the player at index `i` starts an attack at time `now`.
pub open spec fn marked(players: Seq<Player>, i: int, action: PlayerAction, now: u64) -> Seq<Player> {
    players.update(i, Player { action, last_melee_attack: now, ..players[i] })
}

/// The roster after a strike on `hb` by the player with id `attacker`.
pub open spec fn resolved(players: Seq<Player>, hb: HitBox, attacker: u64, dmg: u64) -> Seq<Player> {
    credited(struck(players, hb, attacker, dmg), attacker, kills_in(players, hb, attacker, dmg) as int)
}

/// Whether the attack cooldown still runs at time `now`.
pub open spec fn cooling_down(p: Player, now: u64) -> bool {
    (if now >= p.last_melee_attack {
        now - p.last_melee_attack
    } else {
        0
    }) < p.character.cooldown
}

/// The two agree on everything that the board depends on.
pub open spec fn same_place(a: Player, b: Player) -> bool {
    &&& a.id == b.id
    &&& a.position == b.position
    &&& a.health == b.health
    &&& a.status == b.status
}

/// Nothing changed between the two states.
pub open spec fn unchanged(a: GameState, b: GameState) -> bool {
    &&& a.players@ == b.players@
    &&& a.board == b.board
    &&& a.projectiles@ == b.projectiles@
    &&& a.next_projectile_id == b.next_projectile_id
    &&& a.obstruction == b.obstruction
}

/// Damage an area attack deals when it places no effect.
pub const AOE_DAMAGE: u64 = 10;

/// Where an area attack from `position` along `attack` lands.
pub open spec fn aoe_center(position: Position, attack: RelativePosition) -> Position {
    Position {
        x: aoe_coordinate(position.x as int, -(attack.y as int)) as usize,
        y: aoe_coordinate(position.y as int, attack.x as int) as usize,
    }
}

/// `b` is `a` with `effect` placed for `ticks` ticks, and nothing else changed.
pub open spec fn afflicted_player(a: Player, b: Player, effect: Effect, ticks: u64) -> bool {
    &&& b.character.status_effects@ == with_effect(a.character.status_effects@, effect, ticks)
    &&& b.character.speed == a.character.speed
    &&& b.character.attack_dmg == a.character.attack_dmg
    &&& b.character.cooldown == a.character.cooldown
    &&& b.character.archetype == a.character.archetype
    &&& b.character.aoe_effect == a.character.aoe_effect
    &&& b.id == a.id
    &&& b.health == a.health
    &&& b.position == a.position
    &&& b.status == a.status
    &&& b.last_melee_attack == a.last_melee_attack
    &&& b.kill_count == a.kill_count
    &&& b.action == a.action
    &&& b.aoe_position == a.aoe_position
}

/// `after` is `before` with `effect` placed on every target in `hb`.
pub open spec fn afflicted(
    before: Seq<Player>,
    after: Seq<Player>,
    hb: HitBox,
    exclude: u64,
    effect: Effect,
    ticks: u64,
) -> bool {
    &&& after.len() == before.len()
    &&& forall|j: int|
        0 <= j < before.len() ==> if is_target(before[j], hb, exclude) {
            afflicted_player(before[j], #[trigger] after[j], effect, ticks)
        } else {
            after[j] == before[j]
        }
}

/// The projectile that the player `p` fires along `attack` under id `id`.
pub open spec fn fired(id: u64, p: Player, attack: RelativePosition) -> Projectile {
    Projectile {
        id,
        position: p.position,
        direction: attack,
        speed: PROJECTILE_SPEED,
        range: PROJECTILE_RANGE,
        player_id: p.id,
        damage: PROJECTILE_DAMAGE,
        remaining_ticks: PROJECTILE_LIFETIME,
        projectile_type: ProjectileType::BULLET,
        status: ProjectileStatus::ACTIVE,
    }
}

/// A player at `p.position` may step onto `dest`: its own cell, or an empty one.
pub open spec fn can_enter(board: Board, p: Player, dest: Position) -> bool {
    dest == p.position || !(at_cell(board, dest) is Player)
}

/// The board after the player `p` tries to step onto `dest`: if it may enter,
/// its old cell is emptied and `dest` holds it (a wall there is knocked down);
/// otherwise nothing changes.
pub open spec fn board_after_move(before: Board, after: Board, p: Player, dest: Position) -> bool {
    if can_enter(before, p, dest) {
        &&& after.width == before.width
        &&& after.height == before.height
        &&& forall|r: int, c: int|
            before.in_bounds(r, c) ==> #[trigger] after.cell(r, c) == if r == dest.x && c == dest.y {
                Tile::Player(p.id)
            } else if r == p.position.x && c == p.position.y {
                Tile::Empty
            } else {
                before.cell(r, c)
            }
    } else {
        after == before
    }
}

/// The roster after the player at index `i` tries to step onto `dest`; another
/// player there keeps it in place.
pub open spec fn moved(players: Seq<Player>, board: Board, i: int, dest: Position) -> Seq<Player> {
    if can_enter(board, players[i], dest) {
        players.update(i, Player { position: dest, ..players[i] })
    } else {
        players
    }
}

/// `(row, col)` brought onto the board.
pub open spec fn clamped(board: Board, row: int, col: int) -> Position {
    Position {
        x: clamp_below(row, board.width as int) as usize,
        y: clamp_below(col, board.height as int) as usize,
    }
}

/// Where a cardinal move of `p` aims: `p`'s speed in tiles towards `direction`,
/// without wrapping, then brought onto the board.
pub open spec fn cardinal_target(board: Board, p: Player, direction: Direction) -> Position {
    let (x, y) = adjacent_spec(
        direction,
        p.position.x as int,
        p.position.y as int,
        p.character.speed as usize as int,
    );
    clamped(board, x, y)
}

/// `p` after one tick of flight on a `width` x `height` board.
pub open spec fn advanced(width: int, height: int, p: Projectile) -> Projectile {
    Projectile {
        position: advance_spec(width, height, p.direction, p.position, p.speed as int),
        remaining_ticks: if p.remaining_ticks == 0 {
            0
        } else {
            (p.remaining_ticks - 1) as u64
        },
        ..p
    }
}

/// The projectiles after one tick of flight, without those whose time ran out.
pub open spec fn aged(width: int, height: int, s: Seq<Projectile>) -> Seq<Projectile>
    decreases s.len(),
{
    if s.len() == 0 {
        s
    } else {
        let rest = aged(width, height, s.drop_last());
        let next = advanced(width, height, s.last());
        if next.remaining_ticks > 0 {
            rest.push(next)
        } else {
            rest
        }
    }
}

/// The square in which `p` strikes.
pub open spec fn blast_box(p: Projectile) -> HitBox {
    square_box(p.position, p.range as int)
}

/// The roster after the projectile `p` is checked for a hit: an active one
/// strikes the players around it other than its owner.
pub open spec fn collide(players: Seq<Player>, p: Projectile) -> Seq<Player> {
    if p.status == ProjectileStatus::ACTIVE {
        resolved(players, blast_box(p), p.player_id, p.damage)
    } else {
        players
    }
}

/// The roster after the projectiles in `s` are checked in order.
pub open spec fn collide_all(players: Seq<Player>, s: Seq<Projectile>) -> Seq<Player>
    decreases s.len(),
{
    if s.len() == 0 {
        players
    } else {
        collide(collide_all(players, s.drop_last()), s.last())
    }
}

/// The projectiles `s` once checked in order against `players`: an active one
/// with a target around it has exploded.
pub open spec fn detonations(players: Seq<Player>, s: Seq<Projectile>) -> Seq<Projectile> {
    Seq::new(
        s.len(),
        |k: int|
            if s[k].status == ProjectileStatus::ACTIVE && any_target(
                collide_all(players, s.subrange(0, k)),
                blast_box(s[k]),
                s[k].player_id,
            ) {
                Projectile { status: ProjectileStatus::EXPLODED, ..s[k] }
            } else {
                s[k]
            },
    )
}

/// `b` is `a` at the start of a new tick: idle, with its effects aged.
pub open spec fn ticked(a: Player, b: Player) -> bool {
    &&& b.character.status_effects@ == decayed(a.character.status_effects@)
    &&& b.character.speed == a.character.speed
    &&& b.character.attack_dmg == a.character.attack_dmg
    &&& b.character.cooldown == a.character.cooldown
    &&& b.character.archetype == a.character.archetype
    &&& b.character.aoe_effect == a.character.aoe_effect
    &&& b.action == PlayerAction::NOTHING
    &&& b.id == a.id
    &&& b.health == a.health
    &&& b.position == a.position
    &&& b.status == a.status
    &&& b.last_melee_attack == a.last_melee_attack
    &&& b.kill_count == a.kill_count
    &&& b.aoe_position == a.aoe_position
}

/// Each projectile of `aged(s)` is a projectile of `s` that had more than one
/// tick left, one tick on; their ids keep increasing.
pub proof fn lemma_aged(width: int, height: int, s: Seq<Projectile>)
    requires
        forall|k: int, l: int| 0 <= k < l < s.len() ==> #[trigger] s[k].id < #[trigger] s[l].id,
    ensures
        forall|l: int|
            0 <= l < aged(width, height, s).len() ==> exists|m: int|
                0 <= m < s.len() && s[m].remaining_ticks > 1 && #[trigger] aged(width, height, s)[l]
                    == advanced(width, height, s[m]),
        forall|k: int, l: int|
            0 <= k < l < aged(width, height, s).len() ==> #[trigger] aged(width, height, s)[k].id
                < #[trigger] aged(width, height, s)[l].id,
    decreases s.len(),
{
    if s.len() > 0 {
        let t = s.drop_last();
        lemma_aged(width, height, t);
        let rest = aged(width, height, t);
        let a = aged(width, height, s);
        assert forall|l: int| 0 <= l < a.len() implies exists|m: int|
            0 <= m < s.len() && s[m].remaining_ticks > 1 && #[trigger] a[l] == advanced(width, height, s[m]) by {
            if l < rest.len() {
                assert(a[l] == rest[l]);
                let m = choose|m: int|
                    0 <= m < t.len() && t[m].remaining_ticks > 1 && #[trigger] rest[l] == advanced(width, height, t[m]);
                assert(s[m] == t[m]);
            } else {
                assert(s[s.len() - 1] == s.last());
            }
        }
        assert forall|k: int, l: int| 0 <= k < l < a.len() implies #[trigger] a[k].id < #[trigger] a[l].id by {
            if l < rest.len() {
                assert(a[k] == rest[k] && a[l] == rest[l]);
            } else {
                assert(a[k] == rest[k]);
                let m = choose|m: int|
                    0 <= m < t.len() && t[m].remaining_ticks > 1 && #[trigger] rest[k] == advanced(width, height, t[m]);
                assert(s[m] == t[m]);
                assert(s[m].id < s[s.len() - 1].id);
            }
        }
    }
}

/// A projectile with at most one tick left is gone after the tick, whether or
/// not it would have hit anyone.
pub proof fn lemma_expired_projectiles_removed(width: int, height: int, players: Seq<Player>, s: Seq<Projectile>, k: int)
    requires
        forall|a: int, b: int| 0 <= a < b < s.len() ==> #[trigger] s[a].id < #[trigger] s[b].id,
        0 <= k < s.len(),
        s[k].remaining_ticks <= 1,
    ensures
        forall|l: int|
            0 <= l < detonations(players, aged(width, height, s)).len() ==> #[trigger] detonations(
                players,
                aged(width, height, s),
            )[l].id != s[k].id,
{
    lemma_aged(width, height, s);
    let a = aged(width, height, s);
    let d = detonations(players, a);
    assert forall|l: int| 0 <= l < d.len() implies #[trigger] d[l].id != s[k].id by {
        let m = choose|m: int|
            0 <= m < s.len() && s[m].remaining_ticks > 1 && #[trigger] a[l] == advanced(width, height, s[m]);
        assert(d[l].id == a[l].id);
        if m < k {
            assert(s[m].id < s[k].id);
        } else if k < m {
            assert(s[k].id < s[m].id);
        }
    }
}

/// `b` is `a` brought back for a new round: full health and alive, wherever
/// it now stands.
pub open spec fn revived(a: Player, b: Player) -> bool {
    &&& b.health == MAX_HEALTH
    &&& b.status == Status::ALIVE
    &&& b.id == a.id
    &&& b.last_melee_attack == a.last_melee_attack
    &&& b.kill_count == a.kill_count
    &&& b.character == a.character
    &&& b.action == a.action
    &&& b.aoe_position == a.aoe_position
}

/// `c` holds the starting stats under `archetype`, with no effects.
pub open spec fn is_starter(c: Character, archetype: Archetype) -> bool {
    &&& c.speed == 3
    &&& c.attack_dmg == 10
    &&& c.cooldown == 1
    &&& c.archetype == archetype
    &&& c.aoe_effect.is_none()
    &&& c.status_effects@.len() == 0
}

/// `p` is a player with id `id` who joined at time `now`: full health, alive,
/// no kills, and a starting character.
pub open spec fn is_newcomer(p: Player, id: u64, now: u64) -> bool {
    &&& p.id == id
    &&& p.health == MAX_HEALTH
    &&& p.status == Status::ALIVE
    &&& p.last_melee_attack == now
    &&& p.kill_count == 0
    &&& p.action == PlayerAction::NOTHING
    &&& is_starter(
        p.character,
        if id % 2 == 0 {
            Archetype::AreaEffect
        } else {
            Archetype::Ranged
        },
    )
}

/// No cell of `board` holds a wall.
pub open spec fn no_walls(board: Board) -> bool {
    forall|r: int, c: int| board.in_bounds(r, c) ==> #[trigger] board.cell(r, c) != Tile::Wall
}

/// Some cell of `board` is empty.
pub open spec fn has_empty_cell(board: Board) -> bool {
    exists|r: int, c: int| board.in_bounds(r, c) && #[trigger] board.cell(r, c) == Tile::Empty
}

/// The cell at `(row, col)` is empty or holds one of the first `k` players,
/// standing there.
pub open spec fn placed_ok(players: Seq<Player>, k: int, board: Board, row: int, col: int) -> bool {
    match board.cell(row, col) {
        Tile::Player(id) => exists|i: int|
            0 <= i < k && #[trigger] players[i].id == id && players[i].position.x == row
                && players[i].position.y == col,
        Tile::Empty => true,
        Tile::Wall => false,
    }
}

/// The cell `j` tiles from `start` towards `direction`.
pub open spec fn step_from(start: Position, direction: Direction, j: int) -> Position {
    match direction {
        Direction::UP => Position { x: (start.x - j) as usize, y: start.y },
        Direction::DOWN => Position { x: (start.x + j) as usize, y: start.y },
        Direction::LEFT => Position { x: start.x, y: (start.y - j) as usize },
        Direction::RIGHT => Position { x: start.x, y: (start.y + j) as usize },
    }
}

/// How many tiles `target` lies from `start` towards `direction`.
pub open spec fn distance_along(start: Position, target: Position, direction: Direction) -> int {
    match direction {
        Direction::UP => start.x - target.x,
        Direction::DOWN => target.x - start.x,
        Direction::LEFT => start.y - target.y,
        Direction::RIGHT => target.y - start.y,
    }
}

/// `target` lies on the board, on the ray from `start` towards `direction`.
pub open spec fn on_ray(board: Board, start: Position, target: Position, direction: Direction) -> bool {
    &&& on_board(board, start)
    &&& on_board(board, target)
    &&& match direction {
        Direction::UP | Direction::DOWN => target.y == start.y,
        Direction::LEFT | Direction::RIGHT => target.x == start.x,
    }
    &&& distance_along(start, target, direction) >= 0
}

/// How many of the first `dist` tiles from `start` towards `direction` can be
/// crossed before one that is not empty.
pub open spec fn reach(board: Board, start: Position, direction: Direction, dist: int) -> int
    decreases dist,
{
    if dist <= 0 {
        0
    } else {
        let r = reach(board, start, direction, dist - 1);
        if r == dist - 1 && at_cell(board, step_from(start, direction, dist)) == Tile::Empty {
            dist
        } else {
            r
        }
    }
}

/// Where a cardinal move of `p` ends up under `obstruction`, before the target
/// cell itself is checked.
pub open spec fn move_target(board: Board, p: Player, direction: Direction, obstruction: Obstruction) -> Position {
    let t = cardinal_target(board, p, direction);
    match obstruction {
        Obstruction::Ignore => t,
        Obstruction::StopAtBlocker => step_from(
            p.position,
            direction,
            reach(board, p.position, direction, distance_along(p.position, t, direction)),
        ),
    }
}

proof fn lemma_reach_stops(board: Board, start: Position, direction: Direction, s: int, d: int)
    requires
        0 <= s < d,
        reach(board, start, direction, s) == s,
        at_cell(board, step_from(start, direction, s + 1)) != Tile::Empty,
    ensures
        reach(board, start, direction, d) == s,
    decreases d,
{
    if d > s + 1 {
        lemma_reach_stops(board, start, direction, s, d - 1);
    }
}

impl GameState {
    pub open spec fn wf(&self) -> bool {
        &&& self.board.wf()
        &&& self.board.width > 0
        &&& self.board.height > 0
        &&& consistent(self.players@, self.board)
        &&& projectiles_ok(self.projectiles@, self.board, self.next_projectile_id)
    }

    /// The index of the player with id `player_id`.
    pub fn find_player(&self, player_id: u64) -> (r: Option<usize>)
        ensures
            match r {
                Some(i) => i < self.players@.len() && self.players@[i as int].id == player_id,
                None => !has_id(self.players@, player_id),
            },
    {
        let mut i: usize = 0;
        while i < self.players.len()
            invariant
                i <= self.players@.len(),
                forall|k: int| 0 <= k < i ==> self.players@[k].id != player_id,
            decreases self.players@.len() - i,
        {
            if self.players[i].id == player_id {
                return Some(i);
            }
            i = i + 1;
        }
        None
    }

    /// The player with id `player_id`.
    pub fn get_player(&self, player_id: u64) -> (r: Result<&Player, GameError>)
        ensures
            match r {
                Ok(p) => exists|i: int|
                    0 <= i < self.players@.len() && self.players@[i] == *p && p.id == player_id,
                Err(e) => e == GameError::UnknownPlayer && !has_id(self.players@, player_id),
            },
    {
        match self.find_player(player_id) {
            Some(i) => Ok(&self.players[i]),
            None => Err(GameError::UnknownPlayer),
        }
    }

    /// The player with id `player_id`, to change in place.
    pub fn get_player_mut(players: &mut Vec<Player>, player_id: u64) -> (r: Result<
        &mut Player,
        GameError,
    >)
        ensures
            match r {
                Ok(p) => exists|i: int|
                    0 <= i < old(players)@.len() && old(players)@[i] == *p && p.id == player_id
                        && (forall|k: int| 0 <= k < i ==> old(players)@[k].id != player_id)
                        && final(players)@ == old(players)@.update(i, *final(p)),
                Err(e) => e == GameError::UnknownPlayer && !has_id(old(players)@, player_id)
                    && final(players)@ == old(players)@,
            },
    {
        let mut i: usize = 0;
        while i < players.len()
            invariant
                i <= players@.len(),
                players@ == old(players)@,
                forall|k: int| 0 <= k < i ==> players@[k].id != player_id,
            decreases players@.len() - i,
        {
            if players[i].id == player_id {
                return Ok(&mut players[i]);
            }
            i = i + 1;
        }
        Err(GameError::UnknownPlayer)
    }

    /// Marks the player as disconnected; it keeps its place in the roster and on
    /// the board. A dead player stays dead.
    pub fn disconnect(&mut self, player_id: u64) -> (r: Result<(), GameError>)
        requires
            old(self).wf(),
        ensures
            final(self).wf(),
            final(self).obstruction == old(self).obstruction,
            final(self).board == old(self).board,
            final(self).projectiles == old(self).projectiles,
            final(self).next_projectile_id == old(self).next_projectile_id,
            r is Err <==> !has_id(old(self).players@, player_id),
            r is Err ==> r == Err::<(), GameError>(GameError::UnknownPlayer) && final(self).players@
                == old(self).players@,
            r is Ok ==> exists|i: int|
                0 <= i < old(self).players@.len() && old(self).players@[i].id == player_id
                    && final(self).players@ == old(self).players@.update(
                    i,
                    if old(self).players@[i].status == Status::DEAD {
                        old(self).players@[i]
                    } else {
                        Player { status: Status::DISCONNECTED, ..old(self).players@[i] }
                    },
                ),
    {
        match self.find_player(player_id) {
            None => Err(GameError::UnknownPlayer),
            Some(i) => {
                if self.players[i].status != Status::DEAD {
                    self.players[i].status = Status::DISCONNECTED;
                }
                proof {
                    let ps = self.players@;
                    let olds = old(self).players@;
                    assert forall|r: int, c: int| self.board.in_bounds(r, c) implies #[trigger] occupant_ok(ps, self.board, r, c) by {
                        assert(occupant_ok(olds, self.board, r, c));
                        if let Tile::Player(k) = self.board.cell(r, c) {
                            let j = choose|j: int|
                                0 <= j < olds.len() && #[trigger] olds[j].id == k && olds[j].is_living()
                                    && olds[j].position.x == r && olds[j].position.y == c;
                            assert(ps[j].id == k);
                        }
                    }
                    assert forall|j: int| 0 <= j < ps.len() implies #[trigger] ps[j].wf()
                        && on_board(self.board, ps[j].position) by {
                        assert(olds[j].wf());
                    }
                    assert forall|j: int| 0 <= j < ps.len() && #[trigger] ps[j].is_living()
                        implies at_cell(self.board, ps[j].position) == Tile::Player(ps[j].id) by {
                        assert(olds[j].is_living());
                    }
                }
                Ok(())
            },
        }
    }

    /// The ids of the players on the board inside the rectangle from `top_left`
    /// to `bottom_right`, both included, row by row.
    pub fn players_in_range(board: &Board, top_left: Position, bottom_right: Position) -> (ids: Vec<
        u64,
    >)
        requires
            board.wf(),
        ensures
            ids@ == range_ids(
                *board,
                top_left.x as int,
                min_int(bottom_right.x + 1, board.width as int),
                top_left.y as int,
                min_int(bottom_right.y + 1, board.height as int),
            ),
    {
        let mut ids: Vec<u64> = Vec::new();
        let row_end: usize = if bottom_right.x < board.width {
            bottom_right.x + 1
        } else {
            board.width
        };
        let col_end: usize = if bottom_right.y < board.height {
            bottom_right.y + 1
        } else {
            board.height
        };
        let mut row: usize = top_left.x;
        if row > row_end {
            row = row_end;
        }
        assert(range_ids(*board, top_left.x as int, row as int, top_left.y as int, col_end as int)
            =~= Seq::empty());
        while row < row_end
            invariant
                board.wf(),
                top_left.x <= row || row == row_end,
                row <= row_end <= board.width,
                col_end <= board.height,
                ids@ == range_ids(*board, top_left.x as int, row as int, top_left.y as int, col_end as int),
            decreases row_end - row,
        {
            let mut col: usize = top_left.y;
            let ghost start = ids@;
            if col > col_end {
                col = col_end;
            }
            assert(row_ids(*board, row as int, top_left.y as int, col as int) =~= Seq::empty());
            while col < col_end
                invariant
                    board.wf(),
                    row < row_end <= board.width,
                    col <= col_end <= board.height,
                    top_left.y <= col || col == col_end,
                    ids@ == start + row_ids(*board, row as int, top_left.y as int, col as int),
                decreases col_end - col,
            {
                match board.get_cell(row, col) {
                    Some(Tile::Player(k)) => {
                        ids.push(k);
                    },
                    _ => {},
                }
                assert(ids@ =~= start + row_ids(*board, row as int, top_left.y as int, col + 1));
                col = col + 1;
            }
            row = row + 1;
        }
        ids
    }

    /// Deals `dmg` to the living player at index `i`; one left without health is
    /// dead and leaves the board.
    #[verifier::spinoff_prover]
    fn strike(&mut self, i: usize, dmg: u64) -> (killed: bool)
        requires
            old(self).wf(),
            i < old(self).players@.len(),
            old(self).players@[i as int].is_living(),
        ensures
            final(self).wf(),
            final(self).obstruction == old(self).obstruction,
            final(self).players@ == old(self).players@.update(i as int, damaged(old(self).players@[i as int], dmg)),
            killed == (old(self).players@[i as int].health <= dmg),
            same_walls(old(self).board, final(self).board),
            final(self).projectiles == old(self).projectiles,
            final(self).next_projectile_id == old(self).next_projectile_id,
    {
        let ghost olds = self.players@;
        let ghost oldb = self.board;
        let pos = self.players[i].position;
        self.players[i].take_damage(dmg);
        let killed = self.players[i].status == Status::DEAD;
        if killed {
            self.board.set_cell(pos.x, pos.y, Tile::Empty);
        }
        proof {
            let ps = self.players@;
            let b = self.board;
            assert(ps =~= olds.update(i as int, damaged(olds[i as int], dmg)));
            assert(consistent(olds, oldb));
            assert(olds[i as int].wf());
            assert forall|j: int| 0 <= j < ps.len() implies #[trigger] ps[j].wf()
                && on_board(b, ps[j].position) by {
                assert(olds[j].wf());
            }
            assert forall|j: int| 0 <= j < ps.len() && #[trigger] ps[j].is_living()
                implies at_cell(b, ps[j].position) == Tile::Player(ps[j].id) by {
                assert(olds[j].is_living());
                assert(at_cell(oldb, olds[j].position) == Tile::Player(olds[j].id));
                if j != i && killed {
                    assert(olds[i as int].is_living());
                    assert(at_cell(oldb, pos) == Tile::Player(olds[i as int].id));
                    assert(olds[j].id != olds[i as int].id);
                    assert(ps[j].position != pos);
                    assert(0 <= j < olds.len());
                    assert(olds[j].wf());
                    assert(on_board(oldb, olds[j].position));
                    assert(b.cell(ps[j].position.x as int, ps[j].position.y as int) == oldb.cell(
                        ps[j].position.x as int,
                        ps[j].position.y as int,
                    ));
                }
            }
            assert forall|r: int, c: int| b.in_bounds(r, c) implies #[trigger] occupant_ok(ps, b, r, c) by {
                assert(occupant_ok(olds, oldb, r, c));
                if let Tile::Player(k) = b.cell(r, c) {
                    assert(oldb.cell(r, c) == b.cell(r, c));
                    let w = choose|w: int|
                        0 <= w < olds.len() && #[trigger] olds[w].id == k && olds[w].is_living()
                            && olds[w].position.x == r && olds[w].position.y == c;
                    assert(ps[w].id == k);
                }
            }
        }
        killed
    }

    /// Deals `dmg` to every target in `hb`; says whether there was any, and how
    /// many died.
    fn strike_all(&mut self, hb: HitBox, exclude: u64, dmg: u64) -> (r: (bool, u64))
        requires
            old(self).wf(),
        ensures
            final(self).wf(),
            final(self).obstruction == old(self).obstruction,
            final(self).players@ == struck(old(self).players@, hb, exclude, dmg),
            r.0 == any_target(old(self).players@, hb, exclude),
            r.1 == kills_in(old(self).players@, hb, exclude, dmg),
            same_walls(old(self).board, final(self).board),
            final(self).projectiles == old(self).projectiles,
            final(self).next_projectile_id == old(self).next_projectile_id,
    {
        let ghost olds = self.players@;
        let ghost oldb = self.board;
        let mut hit = false;
        let mut kills: u64 = 0;
        let mut j: usize = 0;
        while j < self.players.len()
            invariant
                self.wf(),
                j <= self.players@.len(),
                self.players@.len() == olds.len(),
                forall|k: int| 0 <= k < j ==> self.players@[k] == struck(olds, hb, exclude, dmg)[k],
                forall|k: int| j <= k < olds.len() ==> self.players@[k] == olds[k],
                hit == exists|k: int| 0 <= k < j && is_target(olds[k], hb, exclude),
                kills == kills_in(olds.subrange(0, j as int), hb, exclude, dmg),
                kills <= j,
                same_walls(oldb, self.board),
                self.projectiles == old(self).projectiles,
                self.next_projectile_id == old(self).next_projectile_id,
                self.obstruction == old(self).obstruction,
            decreases self.players@.len() - j,
        {
            let ghost before = self.players@;
            let target = self.players[j].status != Status::DEAD && hb.contains_position(
                self.players[j].position,
            ) && self.players[j].id != exclude;
            let mut died = false;
            if target {
                died = self.strike(j, dmg);
                hit = true;
                if died {
                    kills = kills + 1;
                }
            }
            proof {
                let pre = olds.subrange(0, j + 1);
                assert(pre.drop_last() =~= olds.subrange(0, j as int));
                assert(pre.last() == olds[j as int]);
                assert forall|k: int| 0 <= k < j + 1 implies self.players@[k] == struck(olds, hb, exclude, dmg)[k] by {
                    if k < j {
                        assert(self.players@[k] == before[k]);
                    }
                }
            }
            j = j + 1;
        }
        assert(olds.subrange(0, j as int) =~= olds);
        assert(self.players@ =~= struck(olds, hb, exclude, dmg));
        (hit, kills)
    }

    /// Credits the player with id `id`, if present, with `kills` kills.
    fn credit_kills(&mut self, id: u64, kills: u64)
        requires
            old(self).wf(),
        ensures
            final(self).wf(),
            final(self).obstruction == old(self).obstruction,
            final(self).players@ == credited(old(self).players@, id, kills as int),
            final(self).board == old(self).board,
            final(self).projectiles == old(self).projectiles,
            final(self).next_projectile_id == old(self).next_projectile_id,
    {
        let ghost olds = self.players@;
        match self.find_player(id) {
            Some(i) => {
                self.players[i].add_kills(kills);
                proof {
                    let ps = self.players@;
                    assert forall|j: int| 0 <= j < ps.len() implies ps[j] == credited(olds, id, kills as int)[j] by {
                        if j != i {
                            assert(olds[j].id != id);
                        }
                    }
                    assert(ps =~= credited(olds, id, kills as int));
                    self.lemma_same_places(olds);
                }
            },
            None => {
                assert(self.players@ =~= credited(olds, id, kills as int));
            },
        }
    }

    /// A roster change that keeps every id, position, health and status keeps
    /// the state well formed.
    proof fn lemma_same_places(&self, olds: Seq<Player>)
        requires
            self.board.wf(),
            self.board.width > 0,
            self.board.height > 0,
            consistent(olds, self.board),
            projectiles_ok(self.projectiles@, self.board, self.next_projectile_id),
            olds.len() == self.players@.len(),
            forall|j: int| 0 <= j < olds.len() ==> same_place(#[trigger] self.players@[j], olds[j]),
        ensures
            self.wf(),
    {
        let ps = self.players@;
        let b = self.board;
        assert forall|j: int| 0 <= j < ps.len() implies #[trigger] ps[j].wf()
            && on_board(b, ps[j].position) by {
            assert(olds[j].wf());
        }
        assert forall|j: int| 0 <= j < ps.len() && #[trigger] ps[j].is_living()
            implies at_cell(b, ps[j].position) == Tile::Player(ps[j].id) by {
            assert(olds[j].is_living());
        }
        assert forall|j: int, k: int| 0 <= j < ps.len() && 0 <= k < ps.len() && j != k implies ps[j].id != ps[k].id by {
            assert(ps[j].id == olds[j].id);
            assert(ps[k].id == olds[k].id);
        }
        assert forall|r: int, c: int| b.in_bounds(r, c) implies #[trigger] occupant_ok(ps, b, r, c) by {
            assert(occupant_ok(olds, b, r, c));
            if let Tile::Player(k) = b.cell(r, c) {
                let w = choose|w: int|
                    0 <= w < olds.len() && #[trigger] olds[w].id == k && olds[w].is_living()
                        && olds[w].position.x == r && olds[w].position.y == c;
                assert(ps[w].id == k);
            }
        }
    }

    /// A melee attack at time `now` by the player with id `attacking_player_id`,
    /// facing `attack_direction`. An attacker that is dead or disconnected, or
    /// whose cooldown still runs, changes nothing. Otherwise every other living player in the melee
    /// hit box takes the attacker's damage, and the attacker is credited with
    /// the kills.
    #[verifier::spinoff_prover]
    pub fn attack_player(&mut self, attacking_player_id: u64, attack_direction: Direction, now: u64) -> (r: Result<(), GameError>)
        requires
            old(self).wf(),
        ensures
            final(self).wf(),
            final(self).obstruction == old(self).obstruction,
            r is Err <==> !has_id(old(self).players@, attacking_player_id),
            r is Err ==> r == Err::<(), GameError>(GameError::UnknownPlayer),
            ({
                let olds = old(self).players@;
                let i = index_of(olds, attacking_player_id);
                let a = olds[i];
                let hb = melee_hit_box(attack_direction, a.position);
                if r is Err || a.status != Status::ALIVE || cooling_down(a, now) {
                    unchanged(*final(self), *old(self))
                } else {
                    &&& final(self).players@ == resolved(marked(olds, i, PlayerAction::ATTACKING, now), hb, attacking_player_id, a.character.attack_dmg)
                    &&& same_walls(old(self).board, final(self).board)
                    &&& final(self).projectiles@ == old(self).projectiles@
                    &&& final(self).next_projectile_id == old(self).next_projectile_id
                }
            }),
    {
        let i = match self.find_player(attacking_player_id) {
            Some(i) => i,
            None => return Err(GameError::UnknownPlayer),
        };
        proof {
            lemma_index_of(self.players@, attacking_player_id, i as int);
        }
        if self.players[i].status != Status::ALIVE {
            return Ok(());
        }
        let elapsed = now.saturating_sub(self.players[i].last_melee_attack);
        if elapsed < self.players[i].character.cooldown() {
            return Ok(());
        }
        let ghost olds = self.players@;
        self.players[i].action = PlayerAction::ATTACKING;
        self.players[i].last_melee_attack = now;
        proof {
            assert(self.players@ =~= marked(olds, i as int, PlayerAction::ATTACKING, now));
            self.lemma_same_places(olds);
        }
        let dmg = self.players[i].character.attack_dmg();
        let hb = compute_attack_initial_positions(attack_direction, self.players[i].position);
        let (_, kills) = self.strike_all(hb, attacking_player_id, dmg);
        self.credit_kills(attacking_player_id, kills);
        Ok(())
    }

    /// Places `effect` for `ticks` ticks on every target in `hb`.
    fn afflict_all(&mut self, hb: HitBox, exclude: u64, effect: Effect, ticks: u64)
        requires
            old(self).wf(),
        ensures
            final(self).wf(),
            final(self).obstruction == old(self).obstruction,
            afflicted(old(self).players@, final(self).players@, hb, exclude, effect, ticks),
            final(self).board == old(self).board,
            final(self).projectiles == old(self).projectiles,
            final(self).next_projectile_id == old(self).next_projectile_id,
    {
        let ghost olds = self.players@;
        let mut j: usize = 0;
        while j < self.players.len()
            invariant
                self.board == old(self).board,
                self.projectiles == old(self).projectiles,
                self.next_projectile_id == old(self).next_projectile_id,
                self.obstruction == old(self).obstruction,
                olds == old(self).players@,
                old(self).wf(),
                j <= self.players@.len(),
                self.players@.len() == olds.len(),
                forall|k: int| 0 <= k < j ==> if is_target(olds[k], hb, exclude) {
                    afflicted_player(olds[k], #[trigger] self.players@[k], effect, ticks)
                } else {
                    self.players@[k] == olds[k]
                },
                forall|k: int| j <= k < olds.len() ==> self.players@[k] == olds[k],
            decreases self.players@.len() - j,
        {
            let ghost before = self.players@;
            let target = self.players[j].status != Status::DEAD && hb.contains_position(
                self.players[j].position,
            ) && self.players[j].id != exclude;
            if target {
                self.players[j].character.add_effect(effect, ticks);
            }
            proof {
                assert forall|k: int| 0 <= k < j + 1 implies if is_target(olds[k], hb, exclude) {
                    afflicted_player(olds[k], #[trigger] self.players@[k], effect, ticks)
                } else {
                    self.players@[k] == olds[k]
                } by {
                    if k < j {
                        assert(self.players@[k] == before[k]);
                    }
                }
            }
            j = j + 1;
        }
        proof {
            assert forall|k: int| 0 <= k < olds.len() implies same_place(#[trigger] self.players@[k], olds[k]) by {
                if is_target(olds[k], hb, exclude) {
                    assert(afflicted_player(olds[k], self.players@[k], effect, ticks));
                }
            }
            self.lemma_same_places(olds);
        }
    }

    /// The secondary attack of the player with id `attacking_player_id` at time
    /// `now`, aimed along `attack_position`. An attacker that is dead or
    /// disconnected changes nothing.
    ///
    /// An area-effect character, once its cooldown has run, strikes the square
    /// around `aoe_center`: every other living player there receives the
    /// character's effect if it has one, else `AOE_DAMAGE` damage, with the kills
    /// credited to the attacker. A ranged character fires a projectile along a
    /// non-zero `attack_position`.
    #[verifier::spinoff_prover]
    pub fn aoe_attack(&mut self, attacking_player_id: u64, attack_position: RelativePosition, now: u64) -> (r: Result<(), GameError>)
        requires
            old(self).wf(),
        ensures
            final(self).wf(),
            final(self).obstruction == old(self).obstruction,
            (r == Err::<(), GameError>(GameError::UnknownPlayer)) == !has_id(old(self).players@, attacking_player_id),
            (r == Err::<(), GameError>(GameError::ProjectileIdsExhausted)) == ({
                let a = old(self).players@[index_of(old(self).players@, attacking_player_id)];
                &&& has_id(old(self).players@, attacking_player_id)
                &&& a.status == Status::ALIVE
                &&& a.character.archetype == Archetype::Ranged
                &&& (attack_position.x != 0 || attack_position.y != 0)
                &&& old(self).next_projectile_id == u64::MAX
            }),
            r is Err ==> r == Err::<(), GameError>(GameError::UnknownPlayer) || r == Err::<(), GameError>(GameError::ProjectileIdsExhausted),
            ({
                let olds = old(self).players@;
                let i = index_of(olds, attacking_player_id);
                let a = olds[i];
                let center = aoe_center(a.position, attack_position);
                let hb = square_box(center, AOE_HALF_EXTENT as int);
                let m = olds.update(i, Player { action: PlayerAction::ATTACKINGAOE, last_melee_attack: now, aoe_position: center, ..a });
                if r is Err || a.status != Status::ALIVE {
                    unchanged(*final(self), *old(self))
                } else if a.character.archetype == Archetype::AreaEffect {
                    if cooling_down(a, now) {
                        unchanged(*final(self), *old(self))
                    } else {
                        &&& same_walls(old(self).board, final(self).board)
                        &&& final(self).projectiles@ == old(self).projectiles@
                        &&& final(self).next_projectile_id == old(self).next_projectile_id
                        &&& match a.character.aoe_effect {
                            Some((effect, ticks)) => afflicted(m, final(self).players@, hb, attacking_player_id, effect, ticks),
                            None => final(self).players@ == resolved(m, hb, attacking_player_id, AOE_DAMAGE),
                        }
                    }
                } else if attack_position.x == 0 && attack_position.y == 0 {
                    unchanged(*final(self), *old(self))
                } else {
                    &&& final(self).players@ == olds
                    &&& final(self).board == old(self).board
                    &&& final(self).projectiles@ == old(self).projectiles@.push(fired(old(self).next_projectile_id, a, attack_position))
                    &&& final(self).next_projectile_id == old(self).next_projectile_id + 1
                }
            }),
    {
        let i = match self.find_player(attacking_player_id) {
            Some(i) => i,
            None => return Err(GameError::UnknownPlayer),
        };
        proof {
            lemma_index_of(self.players@, attacking_player_id, i as int);
        }
        if self.players[i].status != Status::ALIVE {
            return Ok(());
        }
        match self.players[i].character.archetype {
            Archetype::AreaEffect => {
                let elapsed = now.saturating_sub(self.players[i].last_melee_attack);
                if elapsed < self.players[i].character.cooldown() {
                    return Ok(());
                }
                let (center, hb) = compute_attack_aoe_initial_positions(self.players[i].position, attack_position);
                let ghost olds = self.players@;
                self.players[i].action = PlayerAction::ATTACKINGAOE;
                self.players[i].last_melee_attack = now;
                self.players[i].aoe_position = center;
                proof {
                    assert(self.players@ =~= olds.update(
                        i as int,
                        Player {
                            action: PlayerAction::ATTACKINGAOE,
                            last_melee_attack: now,
                            aoe_position: center,
                            ..olds[i as int]
                        },
                    ));
                    self.lemma_same_places(olds);
                }
                match self.players[i].character.select_aoe_effect() {
                    Some((effect, ticks)) => {
                        self.afflict_all(hb, attacking_player_id, effect, ticks);
                    },
                    None => {
                        let (_, kills) = self.strike_all(hb, attacking_player_id, AOE_DAMAGE);
                        self.credit_kills(attacking_player_id, kills);
                    },
                }
            },
            Archetype::Ranged => {
                if attack_position.x != 0 || attack_position.y != 0 {
                    if self.next_projectile_id == u64::MAX {
                        return Err(GameError::ProjectileIdsExhausted);
                    }
                    let projectile = Projectile::new(
                        self.next_projectile_id,
                        self.players[i].position,
                        attack_position,
                        PROJECTILE_SPEED,
                        PROJECTILE_RANGE,
                        attacking_player_id,
                        PROJECTILE_DAMAGE,
                        PROJECTILE_LIFETIME,
                        ProjectileType::BULLET,
                        ProjectileStatus::ACTIVE,
                    );
                    self.projectiles.push(projectile);
                    self.next_projectile_id = self.next_projectile_id + 1;
                    proof {
                        let olds = self.players@;
                        assert(olds[i as int].wf());
                        assert(on_board(self.board, olds[i as int].position));
                        let ps = self.projectiles@;
                        let oldp = old(self).projectiles@;
                        assert(ps == oldp.push(projectile));
                        assert forall|k: int| 0 <= k < ps.len() implies on_board(self.board, #[trigger] ps[k].position)
                            && ps[k].id < self.next_projectile_id && ps[k].remaining_ticks > 0 by {
                            if k < oldp.len() {
                                assert(oldp[k] == ps[k]);
                                assert(on_board(self.board, oldp[k].position));
                            }
                        }
                        assert forall|k: int, l: int| 0 <= k < l < ps.len() implies #[trigger] ps[k].id < #[trigger] ps[l].id by {
                            assert(oldp[k] == ps[k]);
                            assert(on_board(self.board, oldp[k].position));
                            if l < oldp.len() {
                                assert(oldp[l] == ps[l]);
                            }
                        }
                    }
                }
            },
        }
        Ok(())
    }

    /// Moves the living player at index `i` onto `dest` if it may enter it.
    #[verifier::spinoff_prover]
    fn relocate(&mut self, i: usize, dest: Position)
        requires
            old(self).wf(),
            i < old(self).players@.len(),
            old(self).players@[i as int].is_living(),
            on_board(old(self).board, dest),
        ensures
            final(self).wf(),
            final(self).obstruction == old(self).obstruction,
            final(self).players@ == moved(old(self).players@, old(self).board, i as int, dest),
            board_after_move(old(self).board, final(self).board, old(self).players@[i as int], dest),
            final(self).projectiles == old(self).projectiles,
            final(self).next_projectile_id == old(self).next_projectile_id,
    {
        let ghost olds = self.players@;
        let ghost oldb = self.board;
        let pos = self.players[i].position;
        let id = self.players[i].id;
        let free = match self.board.get_cell(dest.x, dest.y) {
            Some(Tile::Player(_)) => false,
            _ => true,
        };
        if dest == pos || free {
            self.board.set_cell(pos.x, pos.y, Tile::Empty);
            self.board.set_cell(dest.x, dest.y, Tile::Player(id));
            self.players[i].position = dest;
            proof {
                let ps = self.players@;
                let b = self.board;
                assert(ps =~= olds.update(i as int, Player { position: dest, ..olds[i as int] }));
                assert(consistent(olds, oldb));
                assert(olds[i as int].wf());
                assert(at_cell(oldb, pos) == Tile::Player(id));
                assert forall|j: int| 0 <= j < ps.len() implies #[trigger] ps[j].wf()
                    && on_board(b, ps[j].position) by {
                    assert(olds[j].wf());
                }
                assert forall|j: int| 0 <= j < ps.len() && #[trigger] ps[j].is_living()
                    implies at_cell(b, ps[j].position) == Tile::Player(ps[j].id) by {
                    if j != i {
                        assert(olds[j].is_living());
                        assert(0 <= j < olds.len());
                        assert(olds[j].wf());
                        assert(on_board(oldb, olds[j].position));
                        assert(at_cell(oldb, olds[j].position) == Tile::Player(olds[j].id));
                        assert(olds[j].id != id);
                        assert(ps[j].position != pos);
                        assert(ps[j].position != dest);
                    }
                }
                assert forall|r: int, c: int| b.in_bounds(r, c) implies #[trigger] occupant_ok(ps, b, r, c) by {
                    assert(occupant_ok(olds, oldb, r, c));
                    if r == dest.x && c == dest.y {
                        assert(ps[i as int].id == id);
                    } else if let Tile::Player(k) = b.cell(r, c) {
                        assert(oldb.cell(r, c) == b.cell(r, c));
                        let w = choose|w: int|
                            0 <= w < olds.len() && #[trigger] olds[w].id == k && olds[w].is_living()
                                && olds[w].position.x == r && olds[w].position.y == c;
                        assert(ps[w].id == k);
                    }
                }
                assert(consistent(ps, b));
                let pr = self.projectiles@;
                assert forall|k: int| 0 <= k < pr.len() implies on_board(b, #[trigger] pr[k].position)
                    && pr[k].id < self.next_projectile_id && pr[k].remaining_ticks > 0 by {
                    assert(on_board(oldb, pr[k].position));
                }
            }
        }
    }

    /// Moves the player with id `player_id` its speed in tiles towards
    /// `direction`. The move stops at the board's edges and never wraps. Under
    /// `Obstruction::Ignore` the tiles on the way are not looked at; under
    /// `Obstruction::StopAtBlocker` the player stops before the first one that
    /// is not empty. The player then vacates its cell and occupies the one it
    /// aims at, knocking down a wall there; only another player on that cell
    /// refuses the move. A player that is dead or disconnected does not move.
    pub fn move_player(&mut self, player_id: u64, direction: Direction) -> (r: Result<(), GameError>)
        requires
            old(self).wf(),
        ensures
            final(self).wf(),
            final(self).obstruction == old(self).obstruction,
            r is Err <==> !has_id(old(self).players@, player_id),
            r is Err ==> r == Err::<(), GameError>(GameError::UnknownPlayer),
            ({
                let olds = old(self).players@;
                let i = index_of(olds, player_id);
                if r is Err || olds[i].status != Status::ALIVE {
                    unchanged(*final(self), *old(self))
                } else {
                    &&& final(self).players@ == moved(olds, old(self).board, i, move_target(old(self).board, olds[i], direction, old(self).obstruction))
                    &&& board_after_move(old(self).board, final(self).board, olds[i], move_target(old(self).board, olds[i], direction, old(self).obstruction))
                    &&& final(self).projectiles@ == old(self).projectiles@
                    &&& final(self).next_projectile_id == old(self).next_projectile_id
                }
            }),
    {
        let i = match self.find_player(player_id) {
            Some(i) => i,
            None => return Err(GameError::UnknownPlayer),
        };
        proof {
            lemma_index_of(self.players@, player_id, i as int);
        }
        if self.players[i].status != Status::ALIVE {
            return Ok(());
        }
        let ahead = compute_adjacent_position_n_tiles(
            direction,
            self.players[i].position,
            self.players[i].character.speed() as usize,
        );
        let dest = clamp_to_board(ahead.x as i128, ahead.y as i128, self.board.width, self.board.height);
        let target = match self.obstruction {
            Obstruction::Ignore => dest,
            Obstruction::StopAtBlocker => {
                proof {
                    assert(self.players@[i as int].wf());
                    assert(on_board(self.board, self.players@[i as int].position));
                }
                self.walk(self.players[i].position, direction, dest)
            },
        };
        self.relocate(i, target);
        Ok(())
    }

    /// The last cell on the way from `start` to `target` that can be reached
    /// crossing only empty tiles.
    fn walk(&self, start: Position, direction: Direction, target: Position) -> (p: Position)
        requires
            self.board.wf(),
            on_ray(self.board, start, target, direction),
        ensures
            p == step_from(start, direction, reach(self.board, start, direction, distance_along(start, target, direction))),
            on_board(self.board, p),
    {
        let dist: usize = match direction {
            Direction::UP => start.x - target.x,
            Direction::DOWN => target.x - start.x,
            Direction::LEFT => start.y - target.y,
            Direction::RIGHT => target.y - start.y,
        };
        let mut s: usize = 0;
        while s < dist
            invariant
                self.board.wf(),
                on_ray(self.board, start, target, direction),
                dist == distance_along(start, target, direction),
                s <= dist,
                reach(self.board, start, direction, s as int) == s,
            ensures
                reach(self.board, start, direction, dist as int) == s,
            decreases dist - s,
        {
            let next = match direction {
                Direction::UP => Position::new(start.x - (s + 1), start.y),
                Direction::DOWN => Position::new(start.x + (s + 1), start.y),
                Direction::LEFT => Position::new(start.x, start.y - (s + 1)),
                Direction::RIGHT => Position::new(start.x, start.y + (s + 1)),
            };
            assert(next == step_from(start, direction, s + 1));
            match self.board.get_cell(next.x, next.y) {
                Some(Tile::Empty) => {
                    s = s + 1;
                },
                _ => {
                    proof {
                        lemma_reach_stops(self.board, start, direction, s as int, dist as int);
                    }
                    break;
                },
            }
        }
        match direction {
            Direction::UP => Position::new(start.x - s, start.y),
            Direction::DOWN => Position::new(start.x + s, start.y),
            Direction::LEFT => Position::new(start.x, start.y - s),
            Direction::RIGHT => Position::new(start.x, start.y + s),
        }
    }

    /// Moves the player with id `player_id` onto `new_position`, brought onto
    /// the board first: it vacates its cell and occupies that one, knocking down
    /// a wall there. Only another player on that cell refuses the move; a player
    /// that is dead or disconnected does not move.
    pub fn move_player_to_coordinates(&mut self, player_id: u64, new_position: Position) -> (r: Result<(), GameError>)
        requires
            old(self).wf(),
        ensures
            final(self).wf(),
            final(self).obstruction == old(self).obstruction,
            r is Err <==> !has_id(old(self).players@, player_id),
            r is Err ==> r == Err::<(), GameError>(GameError::UnknownPlayer),
            ({
                let olds = old(self).players@;
                let i = index_of(olds, player_id);
                if r is Err || olds[i].status != Status::ALIVE {
                    unchanged(*final(self), *old(self))
                } else {
                    &&& final(self).players@ == moved(olds, old(self).board, i, clamped(old(self).board, new_position.x as int, new_position.y as int))
                    &&& board_after_move(old(self).board, final(self).board, olds[i], clamped(old(self).board, new_position.x as int, new_position.y as int))
                    &&& final(self).projectiles@ == old(self).projectiles@
                    &&& final(self).next_projectile_id == old(self).next_projectile_id
                }
            }),
    {
        let i = match self.find_player(player_id) {
            Some(i) => i,
            None => return Err(GameError::UnknownPlayer),
        };
        proof {
            lemma_index_of(self.players@, player_id, i as int);
        }
        if self.players[i].status != Status::ALIVE {
            return Ok(());
        }
        let dest = clamp_to_board(
            new_position.x as i128,
            new_position.y as i128,
            self.board.width,
            self.board.height,
        );
        self.relocate(i, dest);
        Ok(())
    }

    /// Advances the simulation by one tick. Every projectile moves one step and
    /// loses a tick; those left with none are removed. Then, in order, each
    /// active projectile with players other than its owner around it explodes
    /// and deals its damage to them, crediting its owner with the kills. Last,
    /// every player is set idle and its effects age by a tick. (Collisions read
    /// nothing that this last pass writes.)
    #[verifier::spinoff_prover]
    pub fn world_tick(&mut self)
        requires
            old(self).wf(),
        ensures
            final(self).wf(),
            final(self).obstruction == old(self).obstruction,
            ({
                let w = old(self).board.width as int;
                let h = old(self).board.height as int;
                let flown = aged(w, h, old(self).projectiles@);
                let hit = collide_all(old(self).players@, flown);
                &&& final(self).projectiles@ == detonations(old(self).players@, flown)
                &&& final(self).players@.len() == hit.len()
                &&& forall|j: int| 0 <= j < hit.len() ==> ticked(hit[j], #[trigger] final(self).players@[j])
            }),
            same_walls(old(self).board, final(self).board),
            final(self).next_projectile_id == old(self).next_projectile_id,
    {
        let ghost olds = self.players@;
        let ghost w = self.board.width as int;
        let ghost h = self.board.height as int;
        let ghost oldp = self.projectiles@;
        proof {
            lemma_aged(w, h, oldp);
        }
        let mut kept: Vec<Projectile> = Vec::new();
        let mut k: usize = 0;
        while k < self.projectiles.len()
            invariant
                self.wf(),
                *self == *old(self),
                oldp == self.projectiles@,
                w == self.board.width,
                h == self.board.height,
                k <= self.projectiles@.len(),
                kept@ == aged(w, h, oldp.subrange(0, k as int)),
            decreases self.projectiles@.len() - k,
        {
            let p = self.projectiles[k];
            let position = advance_position(self.board.width, self.board.height, p.direction, p.position, p.speed);
            let next = Projectile { position, remaining_ticks: p.remaining_ticks.saturating_sub(1), ..p };
            if next.remaining_ticks > 0 {
                kept.push(next);
            }
            proof {
                let pre = oldp.subrange(0, k + 1);
                assert(pre.drop_last() =~= oldp.subrange(0, k as int));
                assert(pre.last() == p);
            }
            k = k + 1;
        }
        assert(oldp.subrange(0, k as int) =~= oldp);
        let ghost flown = kept@;
        self.projectiles = kept;
        proof {
            let pr = self.projectiles@;
            assert forall|k: int| 0 <= k < pr.len() implies on_board(self.board, #[trigger] pr[k].position)
                && pr[k].id < self.next_projectile_id && pr[k].remaining_ticks > 0 by {
                let m = choose|m: int|
                    0 <= m < oldp.len() && oldp[m].remaining_ticks > 1 && #[trigger] pr[k] == advanced(w, h, oldp[m]);
                assert(on_board(self.board, oldp[m].position));
            }
        }
        let mut k: usize = 0;
        while k < self.projectiles.len()
            invariant
                self.wf(),
                same_walls(old(self).board, self.board),
                self.next_projectile_id == old(self).next_projectile_id,
                self.obstruction == old(self).obstruction,
                self.projectiles@.len() == flown.len(),
                k <= flown.len(),
                self.players@ == collide_all(olds, flown.subrange(0, k as int)),
                forall|m: int| 0 <= m < k ==> self.projectiles@[m] == detonations(olds, flown)[m],
                forall|m: int| k <= m < flown.len() ==> self.projectiles@[m] == flown[m],
            decreases flown.len() - k,
        {
            let p = self.projectiles[k];
            let ghost before = self.players@;
            let ghost pre = flown.subrange(0, k + 1);
            proof {
                assert(pre.drop_last() =~= flown.subrange(0, k as int));
                assert(pre.last() == p);
            }
            if p.status == ProjectileStatus::ACTIVE {
                let hb = square_hit_box(p.position, p.range);
                let (hit, kills) = self.strike_all(hb, p.player_id, p.damage);
                self.credit_kills(p.player_id, kills);
                if hit {
                    let ghost pr0 = self.projectiles@;
                    self.projectiles.set(k, Projectile { status: ProjectileStatus::EXPLODED, ..p });
                    proof {
                        let pr = self.projectiles@;
                        assert forall|m: int| 0 <= m < pr.len() implies on_board(self.board, #[trigger] pr[m].position)
                            && pr[m].id < self.next_projectile_id && pr[m].remaining_ticks > 0 by {
                            assert(on_board(self.board, pr0[m].position));
                        }
                        assert forall|a: int, b: int| 0 <= a < b < pr.len() implies #[trigger] pr[a].id < #[trigger] pr[b].id by {
                            assert(pr0[a].id < pr0[b].id);
                        }
                    }
                }
            }
            proof {
                assert(self.players@ == collide_all(olds, pre));
            }
            k = k + 1;
        }
        assert(flown.subrange(0, k as int) =~= flown);
        let ghost hitps = self.players@;
        let mut j: usize = 0;
        while j < self.players.len()
            invariant
                same_walls(old(self).board, self.board),
                self.next_projectile_id == old(self).next_projectile_id,
                self.obstruction == old(self).obstruction,
                self.projectiles@ == detonations(olds, flown),
                self.board.wf(),
                self.board.width > 0,
                self.board.height > 0,
                consistent(hitps, self.board),
                projectiles_ok(self.projectiles@, self.board, self.next_projectile_id),
                hitps == collide_all(olds, flown),
                j <= self.players@.len(),
                self.players@.len() == hitps.len(),
                forall|m: int| 0 <= m < j ==> ticked(hitps[m], #[trigger] self.players@[m]),
                forall|m: int| j <= m < hitps.len() ==> self.players@[m] == hitps[m],
            decreases self.players@.len() - j,
        {
            let ghost before = self.players@;
            self.players[j].action = PlayerAction::NOTHING;
            self.players[j].character.decay_effects();
            proof {
                assert forall|m: int| 0 <= m < j + 1 implies ticked(hitps[m], #[trigger] self.players@[m]) by {
                    if m < j {
                        assert(self.players@[m] == before[m]);
                    }
                }
            }
            j = j + 1;
        }
        proof {
            assert forall|m: int| 0 <= m < hitps.len() implies same_place(#[trigger] self.players@[m], hitps[m]) by {
                assert(ticked(hitps[m], self.players@[m]));
            }
            self.lemma_same_places(hitps);
            assert(self.projectiles@ =~= detonations(olds, flown));
        }
    }

    /// Starts a new round with `players`: the board is cleared of everything,
    /// walls included, and each player, back to full health and alive, is put
    /// on a cell drawn at random among those still free. Kill counters and
    /// cooldowns carry over. `new_round_at` takes the cells instead, so that a
    /// recorded game can be replayed.
    pub fn new_round(&mut self, players: Vec<Player>)
        requires
            old(self).wf(),
            unique_ids(players@),
            players@.len() <= old(self).board.width * old(self).board.height,
        ensures
            final(self).wf(),
            final(self).obstruction == old(self).obstruction,
            final(self).players@.len() == players@.len(),
            forall|k: int| 0 <= k < players@.len() ==> revived(players@[k], #[trigger] final(self).players@[k]),
            no_walls(final(self).board),
            final(self).board.width == old(self).board.width,
            final(self).board.height == old(self).board.height,
            final(self).projectiles@ == old(self).projectiles@,
            final(self).next_projectile_id == old(self).next_projectile_id,
    {
        let width = self.board.width;
        let height = self.board.height;
        let mut free = all_cells(width, height);
        let mut positions: Vec<Position> = Vec::new();
        while positions.len() < players.len()
            invariant
                width == self.board.width,
                height == self.board.height,
                players@.len() <= width * height,
                positions@.len() <= players@.len(),
                free@.len() == width * height - positions@.len(),
                forall|a: int| 0 <= a < free@.len() ==> on_board(self.board, #[trigger] free@[a]),
                forall|a: int| 0 <= a < positions@.len() ==> on_board(self.board, #[trigger] positions@[a]),
                forall|a: int, b: int| 0 <= a < free@.len() && 0 <= b < free@.len() && a != b ==> #[trigger] free@[a] != #[trigger] free@[b],
                forall|a: int, b: int|
                    0 <= a < positions@.len() && 0 <= b < positions@.len() && a != b ==> #[trigger] positions@[a]
                        != #[trigger] positions@[b],
                forall|a: int, b: int| 0 <= a < free@.len() && 0 <= b < positions@.len() ==> #[trigger] free@[a] != #[trigger] positions@[b],
            decreases players@.len() - positions@.len(),
        {
            let d = random_below(free.len());
            let ghost free0 = free@;
            let ghost pos0 = positions@;
            let spot = free.remove(d);
            positions.push(spot);
            proof {
                assert forall|a: int| 0 <= a < free@.len() implies on_board(self.board, #[trigger] free@[a]) by {
                    let a0 = if a < d { a } else { a + 1 };
                    assert(free@[a] == free0[a0]);
                }
                assert forall|a: int| 0 <= a < positions@.len() implies on_board(self.board, #[trigger] positions@[a]) by {
                    if a < pos0.len() {
                        assert(positions@[a] == pos0[a]);
                    }
                }
                assert forall|a: int, b: int| 0 <= a < free@.len() && 0 <= b < free@.len() && a != b implies #[trigger] free@[a] != #[trigger] free@[b] by {
                    let a0 = if a < d { a } else { a + 1 };
                    let b0 = if b < d { b } else { b + 1 };
                    assert(free@[a] == free0[a0]);
                    assert(free@[b] == free0[b0]);
                }
                assert forall|a: int, b: int|
                    0 <= a < positions@.len() && 0 <= b < positions@.len() && a != b implies #[trigger] positions@[a]
                        != #[trigger] positions@[b] by {
                    if a < pos0.len() && b < pos0.len() {
                        assert(positions@[a] == pos0[a] && positions@[b] == pos0[b]);
                    } else if a < pos0.len() {
                        assert(positions@[a] == pos0[a]);
                    } else if b < pos0.len() {
                        assert(positions@[b] == pos0[b]);
                    }
                }
                assert forall|a: int, b: int| 0 <= a < free@.len() && 0 <= b < positions@.len() implies #[trigger] free@[a] != #[trigger] positions@[b] by {
                    let a0 = if a < d { a } else { a + 1 };
                    assert(free@[a] == free0[a0]);
                    if b < pos0.len() {
                        assert(positions@[b] == pos0[b]);
                    }
                }
            }
        }
        self.new_round_at(players, positions);
    }

    /// Starts a new round with `players`, placing player `k` on `positions[k]`:
    /// the board is cleared of everything, walls included, and each player is
    /// back to full health and alive. Kill counters and cooldowns carry over.
    #[verifier::spinoff_prover]
    pub fn new_round_at(&mut self, players: Vec<Player>, positions: Vec<Position>)
        requires
            old(self).wf(),
            unique_ids(players@),
            positions@.len() == players@.len(),
            forall|a: int| 0 <= a < positions@.len() ==> on_board(old(self).board, #[trigger] positions@[a]),
            forall|a: int, b: int|
                0 <= a < positions@.len() && 0 <= b < positions@.len() && a != b ==> #[trigger] positions@[a]
                    != #[trigger] positions@[b],
        ensures
            final(self).wf(),
            final(self).obstruction == old(self).obstruction,
            final(self).players@.len() == players@.len(),
            forall|k: int| 0 <= k < players@.len() ==> revived(players@[k], #[trigger] final(self).players@[k]),
            forall|k: int| 0 <= k < players@.len() ==> #[trigger] final(self).players@[k].position == positions@[k],
            no_walls(final(self).board),
            final(self).board.width == old(self).board.width,
            final(self).board.height == old(self).board.height,
            final(self).projectiles@ == old(self).projectiles@,
            final(self).next_projectile_id == old(self).next_projectile_id,
    {
        let ghost orig = players@;
        let mut players = players;
        let width = self.board.width;
        let height = self.board.height;
        let mut board = Board::new(width, height);
        let mut k: usize = 0;
        while k < players.len()
            invariant
                board.wf(),
                board.width == width,
                board.height == height,
                width * height <= usize::MAX,
                players@.len() == orig.len(),
                positions@.len() == orig.len(),
                forall|a: int, b: int|
                    0 <= a < positions@.len() && 0 <= b < positions@.len() && a != b ==> #[trigger] positions@[a]
                        != #[trigger] positions@[b],
                unique_ids(orig),
                k <= orig.len(),
                forall|a: int| k <= a < positions@.len() ==> board.in_bounds(#[trigger] positions@[a].x as int, positions@[a].y as int)
                    && at_cell(board, positions@[a]) == Tile::Empty,
                forall|m: int| 0 <= m < k ==> revived(orig[m], #[trigger] players@[m]) && players@[m].position == positions@[m] && on_board(board, players@[m].position)
                    && at_cell(board, players@[m].position) == Tile::Player(players@[m].id),
                forall|m: int| k <= m < orig.len() ==> #[trigger] players@[m] == orig[m],
                forall|r: int, c: int| board.in_bounds(r, c) ==> #[trigger] placed_ok(players@, k as int, board, r, c),
            decreases orig.len() - k,
        {
            let ghost board0 = board;
            let ghost ps0 = players@;
            let spot = positions[k];
            let id = players[k].id;
            board.set_cell(spot.x, spot.y, Tile::Player(id));
            players[k].position = spot;
            players[k].health = MAX_HEALTH;
            players[k].status = Status::ALIVE;
            proof {
                let ps = players@;
                assert(board0.in_bounds(spot.x as int, spot.y as int) && at_cell(board0, spot) == Tile::Empty);
                assert forall|a: int| k + 1 <= a < positions@.len() implies board.in_bounds(#[trigger] positions@[a].x as int, positions@[a].y as int)
                    && at_cell(board, positions@[a]) == Tile::Empty by {
                    assert(positions@[a] != positions@[k as int]);
                }
                assert forall|m: int| 0 <= m < k + 1 implies revived(orig[m], #[trigger] ps[m]) && ps[m].position == positions@[m] && on_board(board, ps[m].position)
                    && at_cell(board, ps[m].position) == Tile::Player(ps[m].id) by {
                    if m < k {
                        assert(ps[m] == ps0[m]);
                        assert(at_cell(board0, ps0[m].position) == Tile::Player(ps0[m].id));
                        assert(ps0[m].position != spot);
                    }
                }
                assert forall|m: int| k + 1 <= m < orig.len() implies #[trigger] ps[m] == orig[m] by {
                    assert(ps[m] == ps0[m]);
                }
                assert forall|r: int, c: int| board.in_bounds(r, c) implies #[trigger] placed_ok(ps, k + 1, board, r, c) by {
                    if r == spot.x && c == spot.y {
                        assert(ps[k as int].id == id);
                    } else {
                        assert(placed_ok(ps0, k as int, board0, r, c));
                        if let Tile::Player(q) = board.cell(r, c) {
                            let w = choose|w: int|
                                0 <= w < k && #[trigger] ps0[w].id == q && ps0[w].position.x == r && ps0[w].position.y == c;
                            assert(ps[w] == ps0[w]);
                        }
                    }
                }
            }
            k = k + 1;
        }
        proof {
            let ps = players@;
            assert forall|i: int| 0 <= i < ps.len() implies #[trigger] ps[i].wf() && on_board(board, ps[i].position) by {
                assert(revived(orig[i], ps[i]));
            }
            assert forall|i: int, j: int| 0 <= i < ps.len() && 0 <= j < ps.len() && i != j implies ps[i].id != ps[j].id by {
                assert(revived(orig[i], ps[i]));
                assert(revived(orig[j], ps[j]));
            }
            assert forall|i: int| 0 <= i < ps.len() && #[trigger] ps[i].is_living() implies at_cell(board, ps[i].position) == Tile::Player(ps[i].id) by {
                assert(revived(orig[i], ps[i]));
            }
            assert forall|r: int, c: int| board.in_bounds(r, c) implies #[trigger] occupant_ok(ps, board, r, c) by {
                assert(placed_ok(ps, k as int, board, r, c));
                if let Tile::Player(q) = board.cell(r, c) {
                    let w = choose|w: int| 0 <= w < k && #[trigger] ps[w].id == q && ps[w].position.x == r && ps[w].position.y == c;
                    assert(revived(orig[w], ps[w]));
                }
            }
            assert forall|r: int, c: int| board.in_bounds(r, c) implies #[trigger] board.cell(r, c) != Tile::Wall by {
                assert(placed_ok(ps, k as int, board, r, c));
            }
            let pr = self.projectiles@;
            assert forall|q: int| 0 <= q < pr.len() implies on_board(board, #[trigger] pr[q].position)
                && pr[q].id < self.next_projectile_id && pr[q].remaining_ticks > 0 by {
                assert(on_board(self.board, pr[q].position));
            }
        }
        self.players = players;
        self.board = board;
    }

    /// Adds a newcomer with id `player_id`, joining at time `now`, on an empty
    /// cell drawn at random. `spawn_player_at` places it on a given cell
    /// instead, so that a recorded game can be replayed.
    #[verifier::spinoff_prover]
    pub fn spawn_player(&mut self, player_id: u64, now: u64) -> (r: Result<(), GameError>)
        requires
            old(self).wf(),
        ensures
            final(self).wf(),
            final(self).obstruction == old(self).obstruction,
            (r == Err::<(), GameError>(GameError::DuplicatePlayer)) == has_id(old(self).players@, player_id),
            (r == Err::<(), GameError>(GameError::BoardFull)) == (!has_id(old(self).players@, player_id)
                && !has_empty_cell(old(self).board)),
            r is Ok <==> (!has_id(old(self).players@, player_id) && has_empty_cell(old(self).board)),
            r is Err ==> unchanged(*final(self), *old(self)),
            r is Ok ==> {
                let p = final(self).players@.last();
                &&& final(self).players@ == old(self).players@.push(p)
                &&& is_newcomer(p, player_id, now)
                &&& on_board(old(self).board, p.position)
                &&& at_cell(old(self).board, p.position) == Tile::Empty
                &&& same_walls(old(self).board, final(self).board)
                &&& forall|r: int, c: int|
                    old(self).board.in_bounds(r, c) && !(r == p.position.x && c == p.position.y) ==> #[trigger] final(self).board.cell(r, c)
                        == old(self).board.cell(r, c)
                &&& final(self).projectiles@ == old(self).projectiles@
                &&& final(self).next_projectile_id == old(self).next_projectile_id
            },
    {
        if self.find_player(player_id).is_some() {
            return Err(GameError::DuplicatePlayer);
        }
        let cells = self.board.empty_cells();
        if cells.len() == 0 {
            proof {
                assert forall|r: int, c: int| self.board.in_bounds(r, c) implies #[trigger] self.board.cell(r, c) != Tile::Empty by {
                    if self.board.cell(r, c) == Tile::Empty {
                        let a = choose|a: int| 0 <= a < cells@.len() && cells@[a] == cell_at(r, c);
                    }
                }
            }
            return Err(GameError::BoardFull);
        }
        let d = random_below(cells.len());
        let spot = cells[d];
        proof {
            assert(self.board.in_bounds(spot.x as int, spot.y as int));
            assert(self.board.cell(spot.x as int, spot.y as int) == Tile::Empty);
        }
        self.spawn_player_at(player_id, spot, now)
    }

    /// Adds a newcomer with id `player_id`, joining at time `now`, on the cell
    /// `position`, which must be an empty cell of the board.
    #[verifier::spinoff_prover]
    pub fn spawn_player_at(&mut self, player_id: u64, position: Position, now: u64) -> (r: Result<(), GameError>)
        requires
            old(self).wf(),
        ensures
            final(self).wf(),
            final(self).obstruction == old(self).obstruction,
            (r == Err::<(), GameError>(GameError::DuplicatePlayer)) == has_id(old(self).players@, player_id),
            (r == Err::<(), GameError>(GameError::CellUnavailable)) == (!has_id(old(self).players@, player_id)
                && !(on_board(old(self).board, position) && at_cell(old(self).board, position) == Tile::Empty)),
            r is Ok <==> (!has_id(old(self).players@, player_id) && on_board(old(self).board, position)
                && at_cell(old(self).board, position) == Tile::Empty),
            r is Err ==> unchanged(*final(self), *old(self)),
            r is Ok ==> {
                let p = final(self).players@.last();
                &&& final(self).players@ == old(self).players@.push(p)
                &&& is_newcomer(p, player_id, now)
                &&& p.position == position
                &&& final(self).board.width == old(self).board.width
                &&& final(self).board.height == old(self).board.height
                &&& forall|r: int, c: int|
                    old(self).board.in_bounds(r, c) ==> #[trigger] final(self).board.cell(r, c) == if r == position.x
                        && c == position.y {
                        Tile::Player(player_id)
                    } else {
                        old(self).board.cell(r, c)
                    }
                &&& final(self).projectiles@ == old(self).projectiles@
                &&& final(self).next_projectile_id == old(self).next_projectile_id
            },
    {
        if self.find_player(player_id).is_some() {
            return Err(GameError::DuplicatePlayer);
        }
        match self.board.get_cell(position.x, position.y) {
            Some(Tile::Empty) => {},
            _ => return Err(GameError::CellUnavailable),
        }
        let spot = position;
        let ghost olds = self.players@;
        let ghost oldb = self.board;
        proof {
            assert(oldb.in_bounds(spot.x as int, spot.y as int));
        }
        self.board.set_cell(spot.x, spot.y, Tile::Player(player_id));
        let character = Character::starter(Character::archetype_for(player_id));
        self.players.push(Player::new(player_id, MAX_HEALTH, spot, character, now));
        proof {
            let ps = self.players@;
            let b = self.board;
            let n = olds.len() as int;
            assert(consistent(olds, oldb));
            assert forall|j: int| 0 <= j < ps.len() implies #[trigger] ps[j].wf() && on_board(b, ps[j].position) by {
                if j < n {
                    assert(ps[j] == olds[j]);
                    assert(olds[j].wf());
                }
            }
            assert forall|i: int, j: int| 0 <= i < ps.len() && 0 <= j < ps.len() && i != j implies ps[i].id != ps[j].id by {
                if i < n && j < n {
                    assert(ps[i] == olds[i] && ps[j] == olds[j]);
                } else if i < n {
                    assert(ps[i] == olds[i]);
                } else if j < n {
                    assert(ps[j] == olds[j]);
                }
            }
            assert forall|j: int| 0 <= j < ps.len() && #[trigger] ps[j].is_living() implies at_cell(b, ps[j].position) == Tile::Player(ps[j].id) by {
                if j < n {
                    assert(ps[j] == olds[j]);
                    assert(olds[j].is_living());
                    assert(olds[j].wf());
                    assert(on_board(oldb, olds[j].position));
                    assert(at_cell(oldb, olds[j].position) == Tile::Player(olds[j].id));
                    assert(olds[j].position != spot);
                }
            }
            assert forall|r: int, c: int| b.in_bounds(r, c) implies #[trigger] occupant_ok(ps, b, r, c) by {
                if r == spot.x && c == spot.y {
                    assert(ps[n].id == player_id);
                } else {
                    assert(occupant_ok(olds, oldb, r, c));
                    if let Tile::Player(q) = b.cell(r, c) {
                        let w = choose|w: int|
                            0 <= w < olds.len() && #[trigger] olds[w].id == q && olds[w].is_living()
                                && olds[w].position.x == r && olds[w].position.y == c;
                        assert(ps[w] == olds[w]);
                    }
                }
            }
            let pr = self.projectiles@;
            assert forall|q: int| 0 <= q < pr.len() implies on_board(b, #[trigger] pr[q].position)
                && pr[q].id < self.next_projectile_id && pr[q].remaining_ticks > 0 by {
                assert(on_board(oldb, pr[q].position));
            }
            assert(consistent(ps, b));
            assert(projectiles_ok(pr, b, self.next_projectile_id));
            assert(ps =~= olds.push(ps.last()));
        }
        Ok(())
    }

    /// Turns the cell at `(row, col)` into a wall if it is empty.
    fn place_wall(&mut self, row: usize, col: usize)
        requires
            old(self).wf(),
        ensures
            final(self).wf(),
            final(self).obstruction == old(self).obstruction,
            final(self).players@ == old(self).players@,
            final(self).projectiles@ == old(self).projectiles@,
            final(self).next_projectile_id == old(self).next_projectile_id,
            final(self).board.width == old(self).board.width,
            final(self).board.height == old(self).board.height,
            forall|r: int, c: int|
                old(self).board.in_bounds(r, c) ==> #[trigger] final(self).board.cell(r, c) == if r == row
                    && c == col && old(self).board.cell(r, c) == Tile::Empty {
                    Tile::Wall
                } else {
                    old(self).board.cell(r, c)
                },
    {
        if let Some(Tile::Empty) = self.board.get_cell(row, col) {
            let ghost oldb = self.board;
            self.board.set_cell(row, col, Tile::Wall);
            proof {
                let ps = self.players@;
                let b = self.board;
                assert(consistent(ps, oldb));
                assert forall|j: int| 0 <= j < ps.len() implies #[trigger] ps[j].wf() && on_board(b, ps[j].position) by {
                    assert(ps[j].wf());
                    assert(on_board(oldb, ps[j].position));
                }
                assert forall|j: int| 0 <= j < ps.len() && #[trigger] ps[j].is_living() implies at_cell(b, ps[j].position) == Tile::Player(ps[j].id) by {
                    assert(ps[j].wf());
                    assert(on_board(oldb, ps[j].position));
                    assert(at_cell(oldb, ps[j].position) == Tile::Player(ps[j].id));
                }
                assert forall|r: int, c: int| b.in_bounds(r, c) implies #[trigger] occupant_ok(ps, b, r, c) by {
                    assert(occupant_ok(ps, oldb, r, c));
                }
                let pr = self.projectiles@;
                assert forall|q: int| 0 <= q < pr.len() implies on_board(b, #[trigger] pr[q].position)
                    && pr[q].id < self.next_projectile_id && pr[q].remaining_ticks > 0 by {
                    assert(on_board(oldb, pr[q].position));
                }
            }
        }
    }

    /// A game on a `board_width` x `board_height` board with players `1` to
    /// `number_of_players`, each at full health on a cell of its own drawn at
    /// random and joining at time `now`. With `build_walls`, ten cells are
    /// drawn at random, and those of them still empty become walls.
    pub fn new(
        number_of_players: u64,
        board_width: usize,
        board_height: usize,
        build_walls: bool,
        now: u64,
    ) -> (g: GameState)
        requires
            board_width > 0,
            board_height > 0,
            board_width * board_height <= usize::MAX,
            number_of_players <= board_width * board_height,
        ensures
            g.wf(),
            g.board.width == board_width,
            g.board.height == board_height,
            g.players@.len() == number_of_players,
            forall|k: int| 0 <= k < g.players@.len() ==> is_newcomer(#[trigger] g.players@[k], (k + 1) as u64, now),
            g.projectiles@.len() == 0,
            g.next_projectile_id == 0,
            g.obstruction == Obstruction::Ignore,
            !build_walls ==> no_walls(g.board),
            build_walls ==> exists|drawn: Seq<Position>|
                drawn.len() == 10 && forall|r: int, c: int|
                    g.board.in_bounds(r, c) && #[trigger] g.board.cell(r, c) == Tile::Wall ==> exists|k: int|
                        0 <= k < 10 && drawn[k] == cell_at(r, c),
    {
        let mut roster: Vec<Player> = Vec::new();
        let mut count: u64 = 0;
        while count < number_of_players
            invariant
                count <= number_of_players,
                roster@.len() == count,
                forall|k: int| 0 <= k < roster@.len() ==> is_newcomer(#[trigger] roster@[k], (k + 1) as u64, now),
            decreases number_of_players - count,
        {
            let id = count + 1;
            let character = Character::starter(Character::archetype_for(id));
            roster.push(Player::new(id, MAX_HEALTH, Position::new(0, 0), character, now));
            count = id;
        }
        let mut game = GameState {
            players: Vec::new(),
            board: Board::new(board_width, board_height),
            projectiles: Vec::new(),
            next_projectile_id: 0,
            obstruction: Obstruction::Ignore,
        };
        proof {
            assert forall|i: int, j: int| 0 <= i < roster@.len() && 0 <= j < roster@.len() && i != j implies roster@[i].id != roster@[j].id by {
                assert(is_newcomer(roster@[i], (i + 1) as u64, now));
                assert(is_newcomer(roster@[j], (j + 1) as u64, now));
            }
            assert forall|r: int, c: int| game.board.in_bounds(r, c) implies #[trigger] occupant_ok(game.players@, game.board, r, c) by {
                assert(game.board.cell(r, c) == Tile::Empty);
            }
        }
        let ghost roster0 = roster@;
        game.new_round(roster);
        proof {
            assert forall|k: int| 0 <= k < game.players@.len() implies is_newcomer(#[trigger] game.players@[k], (k + 1) as u64, now) by {
                assert(revived(roster0[k], game.players@[k]));
                assert(is_newcomer(roster0[k], (k + 1) as u64, now));
            }
        }
        if build_walls {
            let ghost ps = game.players@;
            let ghost mut drawn: Seq<Position> = Seq::empty();
            let mut n: usize = 0;
            while n < 10
                invariant
                    n <= 10,
                    drawn.len() == n,
                    forall|r: int, c: int|
                        game.board.in_bounds(r, c) && #[trigger] game.board.cell(r, c) == Tile::Wall ==> exists|k: int|
                            0 <= k < n && drawn[k] == cell_at(r, c),
                    game.wf(),
                    game.players@ == ps,
                    game.projectiles@.len() == 0,
                    game.next_projectile_id == 0,
                    game.obstruction == Obstruction::Ignore,
                    game.board.width == board_width,
                    game.board.height == board_height,
                decreases 10 - n,
            {
                let row = random_below(board_width);
                let col = random_below(board_height);
                let ghost before = game.board;
                game.place_wall(row, col);
                proof {
                    let d0 = drawn;
                    drawn = drawn.push(cell_at(row as int, col as int));
                    assert forall|r: int, c: int|
                        game.board.in_bounds(r, c) && #[trigger] game.board.cell(r, c) == Tile::Wall implies exists|k: int|
                            0 <= k < n + 1 && drawn[k] == cell_at(r, c) by {
                        if r == row && c == col {
                            assert(drawn[n as int] == cell_at(r, c));
                        } else {
                            assert(before.cell(r, c) == Tile::Wall);
                            let k = choose|k: int| 0 <= k < n && d0[k] == cell_at(r, c);
                            assert(drawn[k] == d0[k]);
                        }
                    }
                }
                n = n + 1;
            }
        }
        game
    }
}

} // verus!
