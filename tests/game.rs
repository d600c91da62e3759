use gamestate::geometry::{
    compute_adjacent_position_n_tiles, compute_attack_aoe_initial_positions,
    compute_attack_initial_positions, scaled_component,
};
use gamestate::{
    Archetype, Board, Character, Direction, Effect, GameError, GameState, Obstruction, Player,
    PlayerAction, Position, Projectile, ProjectileStatus, ProjectileType, RelativePosition, Status, Tile,
};

fn pos(x: usize, y: usize) -> Position {
    Position::new(x, y)
}

/// A game on a `w` x `h` board with the given players, each on its own cell.
fn game_with(w: usize, h: usize, players: Vec<Player>) -> GameState {
    let mut board = Board::new(w, h);
    for p in players.iter() {
        board.set_cell(p.position.x, p.position.y, Tile::Player(p.id));
    }
    GameState {
        players,
        board,
        projectiles: Vec::new(),
        next_projectile_id: 0,
        obstruction: Obstruction::Ignore,
    }
}

fn fighter(id: u64, at: Position, archetype: Archetype) -> Player {
    Player::new(id, 100, at, Character::starter(archetype), 0)
}

fn health_of(g: &GameState, id: u64) -> u64 {
    g.get_player(id).unwrap().health
}

/// Checks the board against the roster: living players on their own tiles,
/// dead ones off the board, health in range.
fn assert_consistent(g: &GameState) {
    for p in g.players.iter() {
        assert!(p.health <= 100);
        assert_eq!(p.status == Status::DEAD, p.health == 0);
        let occupied = (0..g.board.width)
            .flat_map(|r| (0..g.board.height).map(move |c| (r, c)))
            .filter(|&(r, c)| g.board.get_cell(r, c) == Some(Tile::Player(p.id)))
            .count();
        if p.status == Status::DEAD {
            assert_eq!(occupied, 0);
        } else {
            assert_eq!(occupied, 1);
            assert_eq!(g.board.get_cell(p.position.x, p.position.y), Some(Tile::Player(p.id)));
        }
    }
}

#[test]
fn melee_right_hits_neighbour() {
    let mut g = game_with(
        10,
        10,
        vec![fighter(1, pos(5, 5), Archetype::Ranged), fighter(2, pos(5, 6), Archetype::Ranged)],
    );
    assert_eq!(g.attack_player(1, Direction::RIGHT, 1000), Ok(()));
    assert_eq!(health_of(&g, 2), 90);
    assert_eq!(g.get_player(2).unwrap().status, Status::ALIVE);
    assert_eq!(g.get_player(1).unwrap().action, PlayerAction::ATTACKING);
    assert_eq!(g.get_player(1).unwrap().last_melee_attack, 1000);
    assert_eq!(g.get_player(1).unwrap().kill_count, 0);
    assert_eq!(health_of(&g, 1), 100);
    assert_consistent(&g);
}

#[test]
fn melee_kill_clears_cell_and_counts() {
    let mut victim = fighter(2, pos(5, 6), Archetype::Ranged);
    victim.health = 10;
    let mut g = game_with(10, 10, vec![fighter(1, pos(5, 5), Archetype::Ranged), victim]);
    assert_eq!(g.attack_player(1, Direction::RIGHT, 1000), Ok(()));
    assert_eq!(health_of(&g, 2), 0);
    assert_eq!(g.get_player(2).unwrap().status, Status::DEAD);
    assert_eq!(g.board.get_cell(5, 6), Some(Tile::Empty));
    assert_eq!(g.get_player(1).unwrap().kill_count, 1);
    assert_consistent(&g);
}

#[test]
fn melee_misses_behind_and_far() {
    let mut g = game_with(
        60,
        60,
        vec![
            fighter(1, pos(30, 30), Archetype::Ranged),
            fighter(2, pos(30, 29), Archetype::Ranged),
            fighter(3, pos(30, 51), Archetype::Ranged),
            fighter(4, pos(10, 50), Archetype::Ranged),
        ],
    );
    assert_eq!(g.attack_player(1, Direction::RIGHT, 1000), Ok(()));
    assert_eq!(health_of(&g, 2), 100);
    assert_eq!(health_of(&g, 3), 100);
    assert_eq!(health_of(&g, 4), 90);
}

#[test]
fn second_attack_within_cooldown_is_ignored() {
    let mut c = Character::starter(Archetype::Ranged);
    c.cooldown = 5;
    let attacker = Player::new(1, 100, pos(5, 5), c, 0);
    let mut g = game_with(10, 10, vec![attacker, fighter(2, pos(5, 6), Archetype::Ranged)]);
    assert_eq!(g.attack_player(1, Direction::RIGHT, 1000), Ok(()));
    assert_eq!(health_of(&g, 2), 90);
    assert_eq!(g.attack_player(1, Direction::RIGHT, 1004), Ok(()));
    assert_eq!(health_of(&g, 2), 90);
    assert_eq!(g.get_player(1).unwrap().last_melee_attack, 1000);
    assert_eq!(g.attack_player(1, Direction::RIGHT, 1005), Ok(()));
    assert_eq!(health_of(&g, 2), 80);
    assert_eq!(g.get_player(1).unwrap().last_melee_attack, 1005);
}

#[test]
fn dead_attacker_does_nothing() {
    let mut dead = fighter(1, pos(5, 5), Archetype::Ranged);
    dead.health = 0;
    dead.status = Status::DEAD;
    let mut g = game_with(10, 10, vec![fighter(2, pos(5, 6), Archetype::Ranged)]);
    g.players.insert(0, dead);
    assert_eq!(g.attack_player(1, Direction::RIGHT, 1000), Ok(()));
    assert_eq!(health_of(&g, 2), 100);
    assert_eq!(g.get_player(1).unwrap().last_melee_attack, 0);
}

#[test]
fn unknown_player_is_reported() {
    let mut g = game_with(10, 10, vec![fighter(1, pos(1, 1), Archetype::Ranged)]);
    assert_eq!(g.attack_player(9, Direction::UP, 10), Err(GameError::UnknownPlayer));
    assert_eq!(g.move_player(9, Direction::UP), Err(GameError::UnknownPlayer));
    assert_eq!(g.move_player_to_coordinates(9, pos(0, 0)), Err(GameError::UnknownPlayer));
    assert_eq!(g.aoe_attack(9, RelativePosition::new(1, 0), 10), Err(GameError::UnknownPlayer));
    assert_eq!(g.disconnect(9), Err(GameError::UnknownPlayer));
    assert!(matches!(g.get_player(9), Err(GameError::UnknownPlayer)));
}

#[test]
fn move_toward_lower_edge_from_origin_stays() {
    let mut c = Character::starter(Archetype::Ranged);
    c.speed = u64::MAX;
    let mut g = game_with(10, 10, vec![Player::new(1, 100, pos(0, 0), c, 0)]);
    assert_eq!(g.move_player(1, Direction::UP), Ok(()));
    assert_eq!(g.get_player(1).unwrap().position, pos(0, 0));
    assert_eq!(g.move_player(1, Direction::LEFT), Ok(()));
    assert_eq!(g.get_player(1).unwrap().position, pos(0, 0));
    assert_eq!(g.move_player(1, Direction::DOWN), Ok(()));
    assert_eq!(g.get_player(1).unwrap().position, pos(9, 0));
    assert_eq!(g.move_player(1, Direction::RIGHT), Ok(()));
    assert_eq!(g.get_player(1).unwrap().position, pos(9, 9));
    assert_eq!(g.board.get_cell(9, 9), Some(Tile::Player(1)));
    assert_eq!(g.board.get_cell(0, 0), Some(Tile::Empty));
    assert_consistent(&g);
}

#[test]
fn move_onto_wall_knocks_it_down() {
    let mut g = game_with(10, 10, vec![fighter(1, pos(5, 5), Archetype::Ranged)]);
    assert_eq!(g.move_player(1, Direction::UP), Ok(()));
    assert_eq!(g.get_player(1).unwrap().position, pos(2, 5));
    g.board.set_cell(2, 8, Tile::Wall);
    assert_eq!(g.move_player(1, Direction::RIGHT), Ok(()));
    assert_eq!(g.get_player(1).unwrap().position, pos(2, 8));
    assert_eq!(g.board.get_cell(2, 8), Some(Tile::Player(1)));
    assert_eq!(g.board.get_cell(2, 5), Some(Tile::Empty));
    g.board.set_cell(4, 4, Tile::Wall);
    assert_eq!(g.move_player_to_coordinates(1, pos(4, 4)), Ok(()));
    assert_eq!(g.get_player(1).unwrap().position, pos(4, 4));
    assert_eq!(g.board.get_cell(4, 4), Some(Tile::Player(1)));
    assert_consistent(&g);
}

#[test]
fn move_onto_another_player_is_refused() {
    let mut g = game_with(
        10,
        10,
        vec![fighter(1, pos(5, 5), Archetype::Ranged), fighter(2, pos(2, 5), Archetype::Ranged)],
    );
    assert_eq!(g.move_player(1, Direction::UP), Ok(()));
    assert_eq!(g.get_player(1).unwrap().position, pos(5, 5));
    assert_eq!(g.board.get_cell(2, 5), Some(Tile::Player(2)));
    assert_consistent(&g);
}

#[test]
fn disconnected_player_is_inert() {
    let mut g = game_with(
        10,
        10,
        vec![fighter(1, pos(5, 5), Archetype::Ranged), fighter(2, pos(5, 6), Archetype::Ranged)],
    );
    assert_eq!(g.disconnect(1), Ok(()));
    assert_eq!(g.attack_player(1, Direction::RIGHT, 1000), Ok(()));
    assert_eq!(health_of(&g, 2), 100);
    assert_eq!(g.move_player(1, Direction::UP), Ok(()));
    assert_eq!(g.move_player_to_coordinates(1, pos(0, 0)), Ok(()));
    assert_eq!(g.get_player(1).unwrap().position, pos(5, 5));
    assert_eq!(g.aoe_attack(1, RelativePosition::new(1, 0), 1000), Ok(()));
    assert!(g.projectiles.is_empty());
    assert_eq!(g.board.get_cell(5, 5), Some(Tile::Player(1)));
}

#[test]
fn new_player_waits_out_cooldown() {
    let attacker = Player::new(1, 100, pos(5, 5), Character::starter(Archetype::Ranged), 100);
    assert_eq!(attacker.last_melee_attack, 100);
    let mut g = game_with(10, 10, vec![attacker, fighter(2, pos(5, 6), Archetype::Ranged)]);
    assert_eq!(g.attack_player(1, Direction::RIGHT, 100), Ok(()));
    assert_eq!(health_of(&g, 2), 100);
    assert_eq!(g.attack_player(1, Direction::RIGHT, 101), Ok(()));
    assert_eq!(health_of(&g, 2), 90);
}

#[test]
fn ranged_attack_without_ids_left_fails() {
    let mut g = game_with(10, 10, vec![fighter(1, pos(5, 0), Archetype::Ranged)]);
    g.next_projectile_id = u64::MAX;
    assert_eq!(
        g.aoe_attack(1, RelativePosition::new(1, 0), 10),
        Err(GameError::ProjectileIdsExhausted)
    );
    assert!(g.projectiles.is_empty());
    assert_eq!(g.aoe_attack(1, RelativePosition::new(0, 0), 10), Ok(()));
}

#[test]
fn move_stops_before_blocker_when_paths_are_checked() {
    let mut c = Character::starter(Archetype::Ranged);
    c.speed = 6;
    let mut g = game_with(
        10,
        10,
        vec![Player::new(1, 100, pos(2, 0), c, 0), fighter(2, pos(2, 4), Archetype::Ranged)],
    );
    g.obstruction = Obstruction::StopAtBlocker;
    assert_eq!(g.move_player(1, Direction::RIGHT), Ok(()));
    assert_eq!(g.get_player(1).unwrap().position, pos(2, 3));
    assert_eq!(g.move_player(1, Direction::DOWN), Ok(()));
    assert_eq!(g.get_player(1).unwrap().position, pos(8, 3));
    g.board.set_cell(7, 3, Tile::Wall);
    assert_eq!(g.move_player(1, Direction::UP), Ok(()));
    assert_eq!(g.get_player(1).unwrap().position, pos(8, 3));
    assert_eq!(g.move_player(1, Direction::DOWN), Ok(()));
    assert_eq!(g.get_player(1).unwrap().position, pos(9, 3));
    assert_consistent(&g);
    g.obstruction = Obstruction::Ignore;
    assert_eq!(g.move_player(1, Direction::UP), Ok(()));
    assert_eq!(g.get_player(1).unwrap().position, pos(3, 3));
    assert_consistent(&g);
}

#[test]
fn move_to_coordinates_clamps_and_respects_others() {
    let mut g = game_with(
        10,
        10,
        vec![fighter(1, pos(1, 1), Archetype::Ranged), fighter(2, pos(9, 9), Archetype::Ranged)],
    );
    assert_eq!(g.move_player_to_coordinates(1, pos(50, 3)), Ok(()));
    assert_eq!(g.get_player(1).unwrap().position, pos(9, 3));
    assert_eq!(g.move_player_to_coordinates(1, pos(100, 100)), Ok(()));
    assert_eq!(g.get_player(1).unwrap().position, pos(9, 3));
    assert_eq!(g.get_player(2).unwrap().position, pos(9, 9));
    assert_consistent(&g);
}

#[test]
fn aoe_zero_vector_consumes_cooldown_and_damages() {
    let mut g = game_with(
        60,
        60,
        vec![
            fighter(2, pos(30, 30), Archetype::AreaEffect),
            fighter(3, pos(40, 20), Archetype::Ranged),
            fighter(5, pos(56, 30), Archetype::Ranged),
        ],
    );
    assert_eq!(g.aoe_attack(2, RelativePosition::new(0, 0), 500), Ok(()));
    let a = g.get_player(2).unwrap();
    assert_eq!(a.last_melee_attack, 500);
    assert_eq!(a.action, PlayerAction::ATTACKINGAOE);
    assert_eq!(a.aoe_position, pos(30, 30));
    assert_eq!(a.health, 100);
    assert_eq!(health_of(&g, 3), 90);
    assert_eq!(health_of(&g, 5), 100);
    assert_eq!(g.aoe_attack(2, RelativePosition::new(0, 0), 500), Ok(()));
    assert_eq!(health_of(&g, 3), 90);
}

#[test]
fn aoe_with_effect_places_effect_instead_of_damage() {
    let mut c = Character::starter(Archetype::AreaEffect);
    c.aoe_effect = Some((Effect::Stunned, 2));
    let mut g = game_with(
        60,
        60,
        vec![Player::new(2, 100, pos(30, 30), c, 0), fighter(3, pos(31, 31), Archetype::Ranged)],
    );
    assert_eq!(g.aoe_attack(2, RelativePosition::new(0, 0), 500), Ok(()));
    let t = g.get_player(3).unwrap();
    assert_eq!(t.health, 100);
    assert_eq!(t.character.status_effects, vec![(Effect::Stunned, 2)]);
    assert!(g.get_player(2).unwrap().character.status_effects.is_empty());
    g.world_tick();
    assert_eq!(g.get_player(3).unwrap().character.status_effects, vec![(Effect::Stunned, 1)]);
    g.world_tick();
    assert!(g.get_player(3).unwrap().character.status_effects.is_empty());
}

#[test]
fn aoe_center_is_offset_by_input() {
    let (center, hb) = compute_attack_aoe_initial_positions(pos(50, 50), RelativePosition::new(10, 20));
    assert_eq!(center, pos(26, 62));
    assert_eq!(hb.top_left, pos(1, 37));
    assert_eq!(hb.bottom_right, pos(51, 87));
    let (center, hb) = compute_attack_aoe_initial_positions(pos(3, 3), RelativePosition::new(-100, 100));
    assert_eq!(center, pos(0, 0));
    assert_eq!(hb.top_left, pos(0, 0));
    assert_eq!(hb.bottom_right, pos(25, 25));
}

#[test]
fn ranged_attack_fires_projectile() {
    let mut g = game_with(10, 10, vec![fighter(1, pos(5, 0), Archetype::Ranged)]);
    assert_eq!(g.aoe_attack(1, RelativePosition::new(0, 0), 10), Ok(()));
    assert!(g.projectiles.is_empty());
    assert_eq!(g.aoe_attack(1, RelativePosition::new(1, 0), 10), Ok(()));
    assert_eq!(g.aoe_attack(1, RelativePosition::new(0, 1), 10), Ok(()));
    assert_eq!(g.projectiles.len(), 2);
    assert_eq!(g.next_projectile_id, 2);
    let p = g.projectiles[0];
    assert_eq!((p.id, p.player_id, p.position), (0, 1, pos(5, 0)));
    assert_eq!((p.speed, p.range, p.damage, p.remaining_ticks), (5, 10, 20, 30));
    assert_eq!(p.status, ProjectileStatus::ACTIVE);
    assert_eq!(g.projectiles[1].id, 1);
    g.world_tick();
    assert_eq!(g.projectiles[0].position, pos(5, 5));
    assert_eq!(g.projectiles[1].position, pos(0, 0));
    assert_eq!(g.projectiles[0].remaining_ticks, 29);
}

fn bullet(id: u64, owner: u64, at: Position, dir: RelativePosition, ticks: u64) -> Projectile {
    Projectile::new(id, at, dir, 0, 10, owner, 20, ticks, ProjectileType::BULLET, ProjectileStatus::ACTIVE)
}

#[test]
fn projectile_with_one_tick_left_is_removed_without_hitting() {
    let mut g = game_with(
        30,
        30,
        vec![fighter(1, pos(0, 0), Archetype::Ranged), fighter(2, pos(10, 10), Archetype::Ranged)],
    );
    g.projectiles.push(bullet(0, 1, pos(10, 11), RelativePosition::new(1, 0), 1));
    g.next_projectile_id = 1;
    g.world_tick();
    assert!(g.projectiles.is_empty());
    assert_eq!(health_of(&g, 2), 100);
}

#[test]
fn projectile_explodes_once_and_credits_owner() {
    let mut g = game_with(
        30,
        30,
        vec![fighter(1, pos(0, 0), Archetype::Ranged), fighter(2, pos(20, 20), Archetype::Ranged)],
    );
    g.players[1].health = 30;
    g.projectiles.push(bullet(0, 1, pos(20, 25), RelativePosition::new(1, 0), 5));
    g.next_projectile_id = 1;
    g.world_tick();
    assert_eq!(health_of(&g, 2), 10);
    assert_eq!(g.projectiles.len(), 1);
    assert_eq!(g.projectiles[0].status, ProjectileStatus::EXPLODED);
    assert_eq!(g.projectiles[0].remaining_ticks, 4);
    g.world_tick();
    assert_eq!(health_of(&g, 2), 10);
    g.projectiles.push(bullet(1, 1, pos(20, 25), RelativePosition::new(1, 0), 5));
    g.next_projectile_id = 2;
    g.world_tick();
    assert_eq!(health_of(&g, 2), 0);
    assert_eq!(g.get_player(2).unwrap().status, Status::DEAD);
    assert_eq!(g.board.get_cell(20, 20), Some(Tile::Empty));
    assert_eq!(g.get_player(1).unwrap().kill_count, 1);
    assert_eq!(health_of(&g, 1), 100);
    assert_consistent(&g);
}

#[test]
fn world_tick_resets_actions() {
    let mut g = game_with(
        10,
        10,
        vec![fighter(1, pos(5, 5), Archetype::Ranged), fighter(2, pos(5, 6), Archetype::Ranged)],
    );
    assert_eq!(g.attack_player(1, Direction::RIGHT, 100), Ok(()));
    g.world_tick();
    assert_eq!(g.get_player(1).unwrap().action, PlayerAction::NOTHING);
}

#[test]
fn spawn_lands_on_the_only_empty_cell() {
    let mut g = game_with(4, 4, vec![]);
    for r in 0..4 {
        for c in 0..4 {
            if (r, c) != (0, 0) {
                g.board.set_cell(r, c, Tile::Wall);
            }
        }
    }
    assert_eq!(g.spawn_player(7, 0), Ok(()));
    let p = g.get_player(7).unwrap();
    assert_eq!(p.position, pos(0, 0));
    assert_eq!(p.health, 100);
    assert_eq!(p.status, Status::ALIVE);
    assert_eq!(p.character.archetype, Archetype::Ranged);
    assert_eq!(g.board.get_cell(0, 0), Some(Tile::Player(7)));
    assert_eq!(g.spawn_player(8, 0), Err(GameError::BoardFull));
    assert_eq!(g.spawn_player(7, 0), Err(GameError::DuplicatePlayer));
    assert_eq!(g.players.len(), 1);
}

#[test]
fn spawn_fills_board_on_distinct_cells() {
    let mut g = game_with(3, 3, vec![]);
    for id in 1..=9 {
        assert_eq!(g.spawn_player(id, 0), Ok(()));
    }
    assert_eq!(g.spawn_player(10, 0), Err(GameError::BoardFull));
    assert_consistent(&g);
    assert_eq!(g.get_player(4).unwrap().character.archetype, Archetype::AreaEffect);
}

#[test]
fn new_game_places_every_player() {
    let g = GameState::new(5, 4, 3, true, 0);
    assert_eq!(g.players.len(), 5);
    for (k, p) in g.players.iter().enumerate() {
        assert_eq!(p.id, k as u64 + 1);
        assert_eq!(p.health, 100);
        assert_eq!(p.status, Status::ALIVE);
    }
    assert!(g.projectiles.is_empty());
    assert_eq!(g.next_projectile_id, 0);
    assert_eq!(g.obstruction, Obstruction::Ignore);
    assert_consistent(&g);
    let walls = (0..4)
        .flat_map(|r| (0..3).map(move |c| (r, c)))
        .filter(|&(r, c)| g.board.get_cell(r, c) == Some(Tile::Wall))
        .count();
    assert!(walls <= 7);
    let full = GameState::new(12, 4, 3, false, 0);
    assert_consistent(&full);
    assert_eq!(full.board.empty_cells().len(), 0);
}

#[test]
fn new_round_revives_and_keeps_kills() {
    let mut g = GameState::new(3, 5, 5, true, 0);
    let mut roster = Vec::new();
    for (id, kills, health) in [(1u64, 4u64, 0u64), (2, 0, 50), (3, 1, 100)] {
        let mut p = fighter(id, pos(0, 0), Archetype::Ranged);
        p.kill_count = kills;
        p.health = health;
        p.last_melee_attack = 77;
        if health == 0 {
            p.status = Status::DEAD;
        }
        roster.push(p);
    }
    g.new_round(roster);
    assert_eq!(g.players.len(), 3);
    for p in g.players.iter() {
        assert_eq!(p.health, 100);
        assert_eq!(p.status, Status::ALIVE);
        assert_eq!(p.last_melee_attack, 77);
    }
    assert_eq!(g.get_player(1).unwrap().kill_count, 4);
    assert_eq!(g.get_player(3).unwrap().kill_count, 1);
    for r in 0..5 {
        for c in 0..5 {
            assert_ne!(g.board.get_cell(r, c), Some(Tile::Wall));
        }
    }
    assert_consistent(&g);
}

#[test]
fn disconnect_keeps_player_on_board() {
    let mut dead = fighter(2, pos(3, 3), Archetype::Ranged);
    dead.health = 0;
    dead.status = Status::DEAD;
    let mut g = game_with(10, 10, vec![fighter(1, pos(1, 1), Archetype::Ranged)]);
    g.players.push(dead);
    assert_eq!(g.disconnect(1), Ok(()));
    assert_eq!(g.get_player(1).unwrap().status, Status::DISCONNECTED);
    assert_eq!(g.board.get_cell(1, 1), Some(Tile::Player(1)));
    assert_eq!(g.disconnect(2), Ok(()));
    assert_eq!(g.get_player(2).unwrap().status, Status::DEAD);
}

#[test]
fn players_in_range_lists_row_by_row() {
    let mut b = Board::new(5, 5);
    b.set_cell(1, 3, Tile::Player(7));
    b.set_cell(1, 1, Tile::Player(4));
    b.set_cell(3, 0, Tile::Player(9));
    b.set_cell(2, 2, Tile::Wall);
    assert_eq!(GameState::players_in_range(&b, pos(0, 0), pos(10, 10)), vec![4, 7, 9]);
    assert_eq!(GameState::players_in_range(&b, pos(1, 2), pos(3, 3)), vec![7]);
    assert_eq!(GameState::players_in_range(&b, pos(4, 4), pos(1, 1)), Vec::<u64>::new());
}

#[test]
fn board_cells_outside_are_absent() {
    let mut b = Board::new(3, 2);
    assert_eq!(b.get_cell(2, 1), Some(Tile::Empty));
    assert_eq!(b.get_cell(3, 0), None);
    assert_eq!(b.get_cell(0, 2), None);
    b.set_cell(5, 5, Tile::Wall);
    b.set_cell(2, 1, Tile::Wall);
    assert_eq!(b.get_cell(2, 1), Some(Tile::Wall));
    assert_eq!(b.empty_cells().len(), 5);
}

#[test]
fn adjacent_positions_saturate() {
    assert_eq!(compute_adjacent_position_n_tiles(Direction::RIGHT, pos(0, 0), 2), pos(0, 2));
    assert_eq!(compute_adjacent_position_n_tiles(Direction::UP, pos(1, 4), 3), pos(0, 4));
    assert_eq!(compute_adjacent_position_n_tiles(Direction::DOWN, pos(usize::MAX - 1, 0), 5), pos(usize::MAX, 0));
    assert_eq!(compute_adjacent_position_n_tiles(Direction::LEFT, pos(2, 2), 1), pos(2, 1));
}

#[test]
fn melee_boxes_per_direction() {
    let b = compute_attack_initial_positions(Direction::UP, pos(30, 30));
    assert_eq!((b.top_left, b.bottom_right), (pos(10, 10), pos(29, 50)));
    let b = compute_attack_initial_positions(Direction::DOWN, pos(30, 30));
    assert_eq!((b.top_left, b.bottom_right), (pos(31, 10), pos(50, 50)));
    let b = compute_attack_initial_positions(Direction::LEFT, pos(5, 5));
    assert_eq!((b.top_left, b.bottom_right), (pos(0, 0), pos(25, 4)));
    let b = compute_attack_initial_positions(Direction::RIGHT, pos(5, 5));
    assert_eq!((b.top_left, b.bottom_right), (pos(0, 6), pos(25, 25)));
}

#[test]
fn velocity_step_rounds_to_nearest_tile() {
    assert_eq!(scaled_component(3, 4, 5), 3);
    assert_eq!(scaled_component(4, 3, 5), 4);
    assert_eq!(scaled_component(1, 1, 5), 4);
    assert_eq!(scaled_component(-1, 1, 5), -4);
    assert_eq!(scaled_component(1, 2, 5), 2);
    assert_eq!(scaled_component(0, 7, 5), 0);
    assert_eq!(scaled_component(0, 0, 5), 0);
    assert_eq!(scaled_component(1, 0, 0), 0);
    assert_eq!(scaled_component(-2147483648, 2147483648, 65535), -46340);
}

#[test]
fn effects_form_a_map() {
    let mut c = Character::starter(Archetype::AreaEffect);
    c.add_effect(Effect::Stunned, 2);
    c.add_effect(Effect::Slowed, 3);
    c.add_effect(Effect::Stunned, 5);
    assert_eq!(c.status_effects, vec![(Effect::Stunned, 5), (Effect::Slowed, 3)]);
    c.decay_effects();
    assert_eq!(c.status_effects, vec![(Effect::Stunned, 4), (Effect::Slowed, 2)]);
    c.decay_effects();
    c.decay_effects();
    assert_eq!(c.status_effects, vec![(Effect::Stunned, 2)]);
}

#[test]
fn spawn_at_given_cell() {
    let mut g = game_with(4, 4, vec![fighter(1, pos(1, 1), Archetype::Ranged)]);
    g.board.set_cell(2, 2, Tile::Wall);
    assert_eq!(g.spawn_player_at(2, pos(3, 0), 40), Ok(()));
    let p = g.get_player(2).unwrap();
    assert_eq!((p.position, p.health, p.last_melee_attack), (pos(3, 0), 100, 40));
    assert_eq!(p.character.archetype, Archetype::AreaEffect);
    assert_eq!(g.board.get_cell(3, 0), Some(Tile::Player(2)));
    assert_eq!(g.spawn_player_at(3, pos(2, 2), 40), Err(GameError::CellUnavailable));
    assert_eq!(g.spawn_player_at(3, pos(1, 1), 40), Err(GameError::CellUnavailable));
    assert_eq!(g.spawn_player_at(3, pos(4, 0), 40), Err(GameError::CellUnavailable));
    assert_eq!(g.spawn_player_at(1, pos(0, 0), 40), Err(GameError::DuplicatePlayer));
    assert_eq!(g.players.len(), 2);
    assert_consistent(&g);
}

#[test]
fn new_round_at_given_cells() {
    let mut g = game_with(4, 4, vec![fighter(1, pos(1, 1), Archetype::Ranged)]);
    g.board.set_cell(0, 0, Tile::Wall);
    let roster = vec![fighter(1, pos(0, 0), Archetype::Ranged), fighter(2, pos(0, 0), Archetype::Ranged)];
    g.new_round_at(roster, vec![pos(0, 0), pos(3, 3)]);
    assert_eq!(g.get_player(1).unwrap().position, pos(0, 0));
    assert_eq!(g.get_player(2).unwrap().position, pos(3, 3));
    assert_eq!(g.board.get_cell(0, 0), Some(Tile::Player(1)));
    assert_eq!(g.board.get_cell(1, 1), Some(Tile::Empty));
    assert_consistent(&g);
}
