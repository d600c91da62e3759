use vstd::prelude::*;

verus! {

/// A grid coordinate: `x` is the row, `y` the column.
#[derive(Debug, Clone, Copy, PartialEq, Eq, Structural)]
pub struct Position {
    pub x: usize,
    pub y: usize,
}

impl Position {
    pub fn new(x: usize, y: usize) -> (p: Position)
        ensures
            p.x == x,
            p.y == y,
    {
        Position { x, y }
    }
}

/// An input vector as the client sends it: `x` to the right, `y` upwards.
#[derive(Debug, Clone, Copy, PartialEq, Eq, Structural)]
pub struct RelativePosition {
    pub x: i32,
    pub y: i32,
}

impl RelativePosition {
    pub fn new(x: i32, y: i32) -> (r: RelativePosition)
        ensures
            r.x == x,
            r.y == y,
    {
        RelativePosition { x, y }
    }
}

#[derive(Debug, Clone, Copy, PartialEq, Eq, Structural)]
pub enum Direction {
    UP,
    DOWN,
    LEFT,
    RIGHT,
}

/// Reach of a melee swing, in tiles, forwards and to each side.
pub const MELEE_REACH: usize = 20;

/// Half the side of the square that an area attack strikes.
pub const AOE_HALF_EXTENT: usize = 25;

/// An integer forced into the range of `usize`.
pub open spec fn saturate(v: int) -> int {
    if v < 0 {
        0
    } else if v > usize::MAX {
        usize::MAX as int
    } else {
        v
    }
}

/// `v` forced into `[0, bound - 1]`.
pub open spec fn clamp_below(v: int, bound: int) -> int {
    if v < 0 {
        0
    } else if v >= bound {
        bound - 1
    } else {
        v
    }
}

/// The point `n` tiles from `(x, y)` towards `direction`, saturated to `usize`.
pub open spec fn adjacent_spec(direction: Direction, x: int, y: int, n: int) -> (int, int) {
    match direction {
        Direction::UP => (saturate(x - n), y),
        Direction::DOWN => (saturate(x + n), y),
        Direction::LEFT => (x, saturate(y - n)),
        Direction::RIGHT => (x, saturate(y + n)),
    }
}

/// The position `n` tiles away in `direction`; no coordinate wraps or underflows.
pub fn compute_adjacent_position_n_tiles(direction: Direction, position: Position, n: usize) -> (p:
    Position)
    ensures
        (p.x as int, p.y as int) == adjacent_spec(direction, position.x as int, position.y as int, n as int),
{
    let x = position.x;
    let y = position.y;
    match direction {
        Direction::UP => Position::new(x.saturating_sub(n), y),
        Direction::DOWN => Position::new(x.saturating_add(n), y),
        Direction::LEFT => Position::new(x, y.saturating_sub(n)),
        Direction::RIGHT => Position::new(x, y.saturating_add(n)),
    }
}

/// A point given as signed row and column, brought inside a `width` x `height` board.
pub fn clamp_to_board(row: i128, col: i128, width: usize, height: usize) -> (p: Position)
    requires
        width > 0,
        height > 0,
    ensures
        p.x == clamp_below(row as int, width as int),
        p.y == clamp_below(col as int, height as int),
{
    let x: usize = if row < 0 {
        0
    } else if row >= width as i128 {
        width - 1
    } else {
        row as usize
    };
    let y: usize = if col < 0 {
        0
    } else if col >= height as i128 {
        height - 1
    } else {
        col as usize
    };
    Position::new(x, y)
}

/// An axis-aligned rectangle of cells, both corners included.
#[derive(Debug, Clone, Copy, PartialEq, Eq, Structural)]
pub struct HitBox {
    pub top_left: Position,
    pub bottom_right: Position,
}

impl HitBox {
    pub open spec fn contains(&self, p: Position) -> bool {
        &&& self.top_left.x <= p.x <= self.bottom_right.x
        &&& self.top_left.y <= p.y <= self.bottom_right.y
    }

    pub fn contains_position(&self, p: Position) -> (r: bool)
        ensures
            r == self.contains(p),
    {
        self.top_left.x <= p.x && p.x <= self.bottom_right.x && self.top_left.y <= p.y && p.y
            <= self.bottom_right.y
    }
}

/// The corners of the melee hit box of an attacker at `(x, y)` facing `direction`.
pub open spec fn melee_box_spec(direction: Direction, x: int, y: int) -> (int, int, int, int) {
    let r = MELEE_REACH as int;
    match direction {
        Direction::UP => (saturate(x - r), saturate(y - r), saturate(x - 1), saturate(y + r)),
        Direction::DOWN => (saturate(x + 1), saturate(y - r), saturate(x + r), saturate(y + r)),
        Direction::LEFT => (saturate(x - r), saturate(y - r), saturate(x + r), saturate(y - 1)),
        Direction::RIGHT => (saturate(x - r), saturate(y + 1), saturate(x + r), saturate(y + r)),
    }
}

pub open spec fn box_corners(b: HitBox) -> (int, int, int, int) {
    (b.top_left.x as int, b.top_left.y as int, b.bottom_right.x as int, b.bottom_right.y as int)
}

/// The melee hit box, as a box.
pub open spec fn melee_hit_box(direction: Direction, position: Position) -> HitBox {
    let (t, l, b, r) = melee_box_spec(direction, position.x as int, position.y as int);
    HitBox {
        top_left: Position { x: t as usize, y: l as usize },
        bottom_right: Position { x: b as usize, y: r as usize },
    }
}

/// The melee hit box: `MELEE_REACH` tiles ahead and to each side of the attacker.
pub fn compute_attack_initial_positions(direction: Direction, position: Position) -> (b: HitBox)
    ensures
        box_corners(b) == melee_box_spec(direction, position.x as int, position.y as int),
        b == melee_hit_box(direction, position),
{
    let x = position.x;
    let y = position.y;
    let r = MELEE_REACH;
    match direction {
        Direction::UP => HitBox {
            top_left: Position::new(x.saturating_sub(r), y.saturating_sub(r)),
            bottom_right: Position::new(x.saturating_sub(1), y.saturating_add(r)),
        },
        Direction::DOWN => HitBox {
            top_left: Position::new(x.saturating_add(1), y.saturating_sub(r)),
            bottom_right: Position::new(x.saturating_add(r), y.saturating_add(r)),
        },
        Direction::LEFT => HitBox {
            top_left: Position::new(x.saturating_sub(r), y.saturating_sub(r)),
            bottom_right: Position::new(x.saturating_add(r), y.saturating_sub(1)),
        },
        Direction::RIGHT => HitBox {
            top_left: Position::new(x.saturating_sub(r), y.saturating_add(1)),
            bottom_right: Position::new(x.saturating_add(r), y.saturating_add(r)),
        },
    }
}

/// One coordinate of an area attack's center: `base + 1.2 * delta`, cut towards
/// zero and saturated to `usize`.
pub open spec fn aoe_coordinate(base: int, delta: int) -> int {
    let num = 5 * base + 6 * delta;
    if num <= 0 {
        0
    } else {
        saturate(num / 5)
    }
}

fn aoe_coordinate_exec(base: usize, delta: i64) -> (r: usize)
    ensures
        r == aoe_coordinate(base as int, delta as int),
{
    let num: i128 = 5 * (base as i128) + 6 * (delta as i128);
    if num <= 0 {
        0
    } else {
        let q: i128 = num / 5;
        if q > usize::MAX as i128 {
            usize::MAX
        } else {
            q as usize
        }
    }
}

/// The square `half` tiles around `center`, saturated to `usize`.
pub open spec fn square_around(center: Position, half: int) -> (int, int, int, int) {
    (
        saturate(center.x - half),
        saturate(center.y - half),
        saturate(center.x + half),
        saturate(center.y + half),
    )
}

/// The square `half` tiles around `center`, as a box.
pub open spec fn square_box(center: Position, half: int) -> HitBox {
    let (t, l, b, r) = square_around(center, half);
    HitBox {
        top_left: Position { x: t as usize, y: l as usize },
        bottom_right: Position { x: b as usize, y: r as usize },
    }
}

pub fn square_hit_box(center: Position, half: usize) -> (b: HitBox)
    ensures
        box_corners(b) == square_around(center, half as int),
        b == square_box(center, half as int),
{
    HitBox {
        top_left: Position::new(center.x.saturating_sub(half), center.y.saturating_sub(half)),
        bottom_right: Position::new(center.x.saturating_add(half), center.y.saturating_add(half)),
    }
}

/// The center of an area attack and the square it strikes. The input vector is
/// turned onto the grid (`x` moves the column, `-y` the row) and scaled by 1.2.
pub fn compute_attack_aoe_initial_positions(
    player_position: Position,
    attack_position: RelativePosition,
) -> (r: (Position, HitBox))
    ensures
        r.0.x == aoe_coordinate(player_position.x as int, -(attack_position.y as int)),
        r.0.y == aoe_coordinate(player_position.y as int, attack_position.x as int),
        box_corners(r.1) == square_around(r.0, AOE_HALF_EXTENT as int),
{
    let x = aoe_coordinate_exec(player_position.x, -(attack_position.y as i64));
    let y = aoe_coordinate_exec(player_position.y, attack_position.x as i64);
    let center = Position::new(x, y);
    (center, square_hit_box(center, AOE_HALF_EXTENT))
}

/// `m` is `s * a / sqrt(n)` rounded to the nearest integer, halves upwards:
/// `m - 1/2 <= s * a / sqrt(n) < m + 1/2`, squared so that no root is taken.
pub open spec fn nearest_step(a: int, n: int, s: int, m: int) -> bool {
    &&& 0 <= m
    &&& (m == 0 || (2 * m - 1) * (2 * m - 1) * n <= 4 * s * s * a * a)
    &&& 4 * s * s * a * a < (2 * m + 1) * (2 * m + 1) * n
}

/// `k` is component `a` of the vector `(a, b)` scaled to length `s` and rounded
/// to the nearest integer, halves away from zero; the zero vector gives zero.
pub open spec fn scaled_component_spec(a: int, b: int, s: int, k: int) -> bool {
    let n = a * a + b * b;
    if n == 0 {
        k == 0
    } else if a >= 0 {
        nearest_step(a, n, s, k)
    } else {
        nearest_step(-a, n, s, -k)
    }
}

proof fn lemma_square_bounds(a: int, b: int)
    requires
        -0x8000_0000 <= a <= 0x8000_0000,
        -0x8000_0000 <= b <= 0x8000_0000,
    ensures
        0 <= a * a <= 0x4000_0000_0000_0000,
        a * a <= a * a + b * b <= 0x8000_0000_0000_0000,
{
    assert(0 <= a * a <= 0x4000_0000_0000_0000) by (nonlinear_arith)
        requires -0x8000_0000 <= a <= 0x8000_0000;
    assert(0 <= b * b <= 0x4000_0000_0000_0000) by (nonlinear_arith)
        requires -0x8000_0000 <= b <= 0x8000_0000;
}

/// Component `a` of `(a, b)` scaled to length `speed`, rounded to a whole tile.
pub fn scaled_component(a: i64, b: i64, speed: u16) -> (k: i64)
    requires
        -0x8000_0000 <= a <= 0x8000_0000,
        -0x8000_0000 <= b <= 0x8000_0000,
    ensures
        scaled_component_spec(a as int, b as int, speed as int, k as int),
        -(speed as int) <= k <= speed,
{
    let aa: u128 = if a < 0 { (-a) as u128 } else { a as u128 };
    let bb: u128 = if b < 0 { (-b) as u128 } else { b as u128 };
    proof {
        lemma_square_bounds(aa as int, bb as int);
    }
    let n: u128 = aa * aa + bb * bb;
    assert(aa * aa == a * a && bb * bb == b * b) by (nonlinear_arith)
        requires aa == a || aa == -a, bb == b || bb == -b;
    if n == 0 {
        return 0;
    }
    let s: u128 = speed as u128;
    assert(s * s <= 0x1_0000_0000) by (nonlinear_arith)
        requires s <= 0xffff;
    let s2: u128 = s * s;
    let a2: u128 = aa * aa;
    assert(4 * s2 * a2 <= 0x4_0000_0000 * 0x4000_0000_0000_0000) by (nonlinear_arith)
        requires s2 <= 0x1_0000_0000, a2 <= 0x4000_0000_0000_0000, 0 <= a2;
    let target: u128 = 4 * s2 * a2;
    assert(target == 4 * s * s * aa * aa) by (nonlinear_arith)
        requires target == 4 * s2 * a2, s2 == s * s, a2 == aa * aa;
    let mut m: u128 = 0;
    while m < s
        invariant
            m <= s,
            s == speed,
            n == aa * aa + bb * bb,
            0 < n <= 0x8000_0000_0000_0000,
            target == 4 * s * s * aa * aa,
            m == 0 || (2 * m - 1) * (2 * m - 1) * n <= target,
        ensures
            m == s || target < (2 * m + 1) * (2 * m + 1) * n,
        decreases s - m,
    {
        let d: u128 = 2 * m + 1;
        assert(d * d <= 0x4_0000_0000) by (nonlinear_arith)
            requires d == 2 * m + 1, m < s, s <= 0xffff, 0 <= m;
        let d2: u128 = d * d;
        assert(d2 * n <= 0x4_0000_0000 * 0x8000_0000_0000_0000) by (nonlinear_arith)
            requires d2 <= 0x4_0000_0000, n <= 0x8000_0000_0000_0000, 0 <= n, 0 <= d2;
        if d2 * n <= target {
            m = m + 1;
        } else {
            break;
        }
    }
    if m == s {
        assert(target < (2 * m + 1) * (2 * m + 1) * n) by (nonlinear_arith)
            requires
                m == s,
                target == 4 * s * s * aa * aa,
                aa * aa <= n,
                0 < n,
                0 <= s,
        ;
    }
    if a < 0 {
        -(m as i64)
    } else {
        m as i64
    }
}

/// The rounded step: the one `k` that `scaled_component_spec` admits.
pub open spec fn scaled(a: int, b: int, s: int) -> int {
    choose|k: int| scaled_component_spec(a, b, s, k)
}

proof fn lemma_nearest_step_unique(a: int, n: int, s: int, m1: int, m2: int)
    requires
        n > 0,
        nearest_step(a, n, s, m1),
        nearest_step(a, n, s, m2),
    ensures
        m1 == m2,
{
    if m1 < m2 {
        assert((2 * m1 + 1) * (2 * m1 + 1) * n <= (2 * m2 - 1) * (2 * m2 - 1) * n)
            by (nonlinear_arith)
            requires 0 <= m1 < m2, n > 0;
    } else if m2 < m1 {
        assert((2 * m2 + 1) * (2 * m2 + 1) * n <= (2 * m1 - 1) * (2 * m1 - 1) * n)
            by (nonlinear_arith)
            requires 0 <= m2 < m1, n > 0;
    }
}

/// A step admitted by `scaled_component_spec` is the one `scaled` names.
pub proof fn lemma_scaled_unique(a: int, b: int, s: int, k: int)
    requires
        scaled_component_spec(a, b, s, k),
    ensures
        scaled(a, b, s) == k,
{
    let c = scaled(a, b, s);
    assert(scaled_component_spec(a, b, s, c));
    let n = a * a + b * b;
    assert(n >= 0) by (nonlinear_arith)
        requires n == a * a + b * b;
    if n != 0 {
        if a >= 0 {
            lemma_nearest_step_unique(a, n, s, c, k);
        } else {
            lemma_nearest_step_unique(-a, n, s, -c, -k);
        }
    }
}

/// Where one velocity step takes an entity at `position`: the input vector
/// `(x, y)` is turned onto the grid as `(-y, x)`, scaled to length `speed`,
/// rounded to whole tiles, added, and the result kept on the board.
pub open spec fn advance_spec(
    width: int,
    height: int,
    direction: RelativePosition,
    position: Position,
    speed: int,
) -> Position {
    let dx = direction.x as int;
    let dy = direction.y as int;
    Position {
        x: clamp_below(position.x + scaled(-dy, dx, speed), width) as usize,
        y: clamp_below(position.y + scaled(dx, -dy, speed), height) as usize,
    }
}

/// One velocity step on a `width` x `height` board.
pub fn advance_position(
    width: usize,
    height: usize,
    direction: RelativePosition,
    position: Position,
    speed: u16,
) -> (p: Position)
    requires
        width > 0,
        height > 0,
    ensures
        p == advance_spec(width as int, height as int, direction, position, speed as int),
        p.x < width,
        p.y < height,
{
    let dx = direction.x as i64;
    let dy = direction.y as i64;
    let row_step = scaled_component(-dy, dx, speed);
    let col_step = scaled_component(dx, -dy, speed);
    proof {
        lemma_scaled_unique(-dy as int, dx as int, speed as int, row_step as int);
        lemma_scaled_unique(dx as int, -dy as int, speed as int, col_step as int);
    }
    clamp_to_board(
        position.x as i128 + row_step as i128,
        position.y as i128 + col_step as i128,
        width,
        height,
    )
}

} // verus!
