use vstd::prelude::*;
use crate::grid::WalkGrid;
use crate::neighbor_policy::MovementPolicy;

verus! {

/// Totals reported by the jump-point stage.
#[derive(Clone, Debug, Default)]
pub struct JpsStats {
    pub planes_processed: usize,
    pub tiles_examined: usize,
    pub spans_written: usize,
    pub jumps_written: usize,
}

/// How far a scan runs before it gives up.
pub const SCAN_LIMIT: i64 = 10000;

/// The cell `k` steps from `(x, y)` along `(dx, dy)`.
pub open spec fn ray(x: int, y: int, dx: int, dy: int, k: int) -> (int, int) {
    (x + k * dx, y + k * dy)
}

/// `(x, y)` is walkable in the grid.
pub open spec fn open_at(g: &WalkGrid, c: (int, int)) -> bool {
    g.walkable(c.0, c.1)
}

/// The first blocked cell along the ray, by its coordinate on the axis of travel,
/// when it comes within `SCAN_LIMIT + 1` steps.
pub open spec fn span_spec(g: &WalkGrid, x: int, y: int, dx: int, dy: int) -> Option<int> {
    if exists|k: int| 1 <= k <= SCAN_LIMIT + 1 && !open_at(g, #[trigger] ray(x, y, dx, dy, k)) {
        let k = choose|k: int|
            1 <= k <= SCAN_LIMIT + 1 && !open_at(g, #[trigger] ray(x, y, dx, dy, k)) && forall|j: int|
                1 <= j < k ==> open_at(g, #[trigger] ray(x, y, dx, dy, j));
        Some(if dx != 0 { ray(x, y, dx, dy, k).0 } else { ray(x, y, dx, dy, k).1 })
    } else {
        None
    }
}

/// `k * d` for a unit `d`.
fn times(k: i64, d: i32) -> (r: i64)
    requires
        0 <= k <= SCAN_LIMIT + 1,
        -1 <= d <= 1,
    ensures
        r == k * d,
        -SCAN_LIMIT - 1 <= r <= SCAN_LIMIT + 1,
{
    if d > 0 {
        assert(k * d == k) by (nonlinear_arith)
            requires
                d == 1,
        ;
        k
    } else if d < 0 {
        assert(k * d == -k) by (nonlinear_arith)
            requires
                d == -1,
        ;
        -k
    } else {
        assert(k * d == 0) by (nonlinear_arith)
            requires
                d == 0,
        ;
        0
    }
}

/// A stored span is the coordinate the specification gives.
pub open spec fn span_matches(a: Option<i64>, b: Option<int>) -> bool {
    match a {
        Some(c) => b == Some(c as int),
        None => b is None,
    }
}

/// Scans from `(x, y)` along a cardinal `(dx, dy)` to the first cell that is not
/// walkable and gives its coordinate on that axis; `None` when the run is longer
/// than `SCAN_LIMIT`.
pub fn scan_until_block(g: &WalkGrid, x: i32, y: i32, dx: i32, dy: i32) -> (r: Option<i64>)
    requires
        (dx == 0) != (dy == 0),
        -1 <= dx <= 1,
        -1 <= dy <= 1,
    ensures
        match r {
            Some(c) => exists|k: int|
                1 <= k <= SCAN_LIMIT + 1 && !open_at(g, #[trigger] ray(x as int, y as int, dx as int, dy as int, k))
                    && (forall|j: int| 1 <= j < k ==> open_at(g, #[trigger] ray(x as int, y as int, dx as int, dy as int, j)))
                    && c == if dx != 0 { ray(x as int, y as int, dx as int, dy as int, k).0 } else { ray(x as int, y as int, dx as int, dy as int, k).1 },
            None => forall|j: int| 1 <= j <= SCAN_LIMIT + 1 ==> open_at(g, #[trigger] ray(x as int, y as int, dx as int, dy as int, j)),
        },
{
    let ghost (xi, yi, dxi, dyi) = (x as int, y as int, dx as int, dy as int);
    let mut k: i64 = 1;
    while k <= SCAN_LIMIT + 1
        invariant
            1 <= k <= SCAN_LIMIT + 2,
            forall|j: int| 1 <= j < k ==> open_at(g, #[trigger] ray(xi, yi, dxi, dyi, j)),
            xi == x, yi == y, dxi == dx, dyi == dy,
            -1 <= dx <= 1,
            -1 <= dy <= 1,
            (dx == 0) != (dy == 0),
        decreases SCAN_LIMIT + 2 - k,
    {
        let nx = x as i64 + times(k, dx);
        let ny = y as i64 + times(k, dy);
        proof {
            assert(ray(xi, yi, dxi, dyi, k as int) == (nx as int, ny as int));
        }
        if !g.is_walkable(nx, ny) {
            return Some(if dx != 0 { nx } else { ny });
        }
        k = k + 1;
    }
    None
}

/// A forced neighbour at `(x, y)` for travel along `(dx, dy)`: beside a straight
/// path, a blocked cell behind on one side with an open cell alongside on that
/// side; beside a diagonal path, a blocked cell behind on one axis with the
/// cell diagonally beyond it open.
pub open spec fn forced(g: &WalkGrid, x: int, y: int, dx: int, dy: int) -> bool {
    if dx != 0 && dy == 0 {
        let sx = if dx > 0 { 1int } else { -1int };
        (!g.walkable(x - sx, y + 1) && g.walkable(x, y + 1)) || (!g.walkable(x - sx, y - 1) && g.walkable(x, y - 1))
    } else if dy != 0 && dx == 0 {
        let sy = if dy > 0 { 1int } else { -1int };
        (!g.walkable(x - 1, y - sy) && g.walkable(x - 1, y)) || (!g.walkable(x + 1, y - sy) && g.walkable(x + 1, y))
    } else if dx != 0 && dy != 0 {
        (!g.walkable(x - dx, y) && g.walkable(x - dx, y + dy)) || (!g.walkable(x, y - dy) && g.walkable(x + dx, y - dy))
    } else {
        false
    }
}

pub fn has_forced_neighbor(g: &WalkGrid, x: i64, y: i64, dx: i64, dy: i64) -> (r: bool)
    requires
        -1 <= dx <= 1,
        -1 <= dy <= 1,
        i32::MIN - SCAN_LIMIT - 4 <= x <= i32::MAX + SCAN_LIMIT + 4,
        i32::MIN - SCAN_LIMIT - 4 <= y <= i32::MAX + SCAN_LIMIT + 4,
    ensures
        r == forced(g, x as int, y as int, dx as int, dy as int),
{
    if dx != 0 && dy == 0 {
        let sx: i64 = if dx > 0 { 1 } else { -1 };
        let blocked_up = !g.is_walkable(x - sx, y + 1);
        let pass_up = g.is_walkable(x, y + 1);
        let blocked_dn = !g.is_walkable(x - sx, y - 1);
        let pass_dn = g.is_walkable(x, y - 1);
        (blocked_up && pass_up) || (blocked_dn && pass_dn)
    } else if dy != 0 && dx == 0 {
        let sy: i64 = if dy > 0 { 1 } else { -1 };
        let blocked_l = !g.is_walkable(x - 1, y - sy);
        let pass_l = g.is_walkable(x - 1, y);
        let blocked_r = !g.is_walkable(x + 1, y - sy);
        let pass_r = g.is_walkable(x + 1, y);
        (blocked_l && pass_l) || (blocked_r && pass_r)
    } else if dx != 0 && dy != 0 {
        let c1 = !g.is_walkable(x - dx, y) && g.is_walkable(x - dx, y + dy);
        let c2 = !g.is_walkable(x, y - dy) && g.is_walkable(x + dx, y - dy);
        c1 || c2
    } else {
        false
    }
}

/// The jump scan from the cell `k` steps along the ray: where it stops, if it
/// stops at a cell other than the start.
pub open spec fn jump_from(p: MovementPolicy, g: &WalkGrid, x: int, y: int, dx: int, dy: int, k: int) -> Option<(int, int)>
    decreases SCAN_LIMIT + 1 - k,
{
    let c = ray(x, y, dx, dy, k);
    let n = ray(x, y, dx, dy, k + 1);
    let diagonal = dx != 0 && dy != 0;
    let here = if k > 0 { Some(c) } else { None };
    if k < 0 || k > SCAN_LIMIT + 1 {
        None
    } else if diagonal && !p.allow_corner_cut && (!g.walkable(c.0 + dx, c.1) || !g.walkable(c.0, c.1 + dy)) {
        here
    } else if !open_at(g, n) {
        here
    } else if forced(g, n.0, n.1, dx, dy) || (diagonal && (forced(g, n.0, n.1, dx, 0) || forced(g, n.0, n.1, 0, dy))) {
        Some(n)
    } else if k + 1 > SCAN_LIMIT {
        None
    } else {
        jump_from(p, g, x, y, dx, dy, k + 1)
    }
}

/// Where a jump scan stops is a walkable cell on the ray, past the start.
pub proof fn lemma_jump_walkable(p: MovementPolicy, g: &WalkGrid, x: int, y: int, dx: int, dy: int, k: int)
    requires
        0 <= k,
        k > 0 ==> open_at(g, ray(x, y, dx, dy, k)),
    ensures
        match jump_from(p, g, x, y, dx, dy, k) {
            Some(c) => open_at(g, c) && exists|m: int| 1 <= m && c == #[trigger] ray(x, y, dx, dy, m),
            None => true,
        },
    decreases SCAN_LIMIT + 1 - k,
{
    let c = ray(x, y, dx, dy, k);
    let n = ray(x, y, dx, dy, k + 1);
    if k <= SCAN_LIMIT + 1 {
        if k > 0 {
            assert(c == ray(x, y, dx, dy, k));
        }
        assert(n == ray(x, y, dx, dy, k + 1));
        if open_at(g, n) && k + 1 <= SCAN_LIMIT {
            lemma_jump_walkable(p, g, x, y, dx, dy, k + 1);
        }
    }
}

/// The step of a jump direction: 0 N, 1 E, 2 S, 3 W, 4 NE, 5 SE, 6 SW, 7 NW
/// (north is `y + 1`).
pub open spec fn jump_delta(dir: i32) -> (int, int) {
    if dir == 0 {
        (0, 1)
    } else if dir == 1 {
        (1, 0)
    } else if dir == 2 {
        (0, -1)
    } else if dir == 3 {
        (-1, 0)
    } else if dir == 4 {
        (1, 1)
    } else if dir == 5 {
        (1, -1)
    } else if dir == 6 {
        (-1, -1)
    } else if dir == 7 {
        (-1, 1)
    } else {
        (0, 0)
    }
}

pub fn dir_to_delta(dir: i32) -> (r: (i32, i32))
    ensures
        (r.0 as int, r.1 as int) == jump_delta(dir),
{
    match dir {
        0 => (0, 1),
        1 => (1, 0),
        2 => (0, -1),
        3 => (-1, 0),
        4 => (1, 1),
        5 => (1, -1),
        6 => (-1, -1),
        7 => (-1, 1),
        _ => (0, 0),
    }
}

/// Scans from `(x, y)` along `(dx, dy)` by the jump-point rules and returns
/// the jump point with its forced mask, if the scan moved before it stopped.
#[verifier::rlimit(40)]
pub fn next_jump(g: &WalkGrid, x: i32, y: i32, dx: i32, dy: i32, p: &MovementPolicy) -> (r: Option<(i64, i64, i32)>)
    requires
        -1 <= dx <= 1,
        -1 <= dy <= 1,
    ensures
        match r {
            Some((nx, ny, m)) => jump_from(*p, g, x as int, y as int, dx as int, dy as int, 0) == Some((nx as int, ny as int)) && m == 0,
            None => jump_from(*p, g, x as int, y as int, dx as int, dy as int, 0) is None,
        },
{
    let ghost (xi, yi, dxi, dyi) = (x as int, y as int, dx as int, dy as int);
    let diagonal = dx != 0 && dy != 0;
    let mut k: i64 = 0;
    loop
        invariant
            0 <= k <= SCAN_LIMIT,
            xi == x, yi == y, dxi == dx, dyi == dy,
            -1 <= dx <= 1,
            -1 <= dy <= 1,
            diagonal == (dx != 0 && dy != 0),
            jump_from(*p, g, xi, yi, dxi, dyi, 0) == jump_from(*p, g, xi, yi, dxi, dyi, k as int),
        decreases SCAN_LIMIT - k,
    {
        let cx = x as i64 + times(k, dx);
        let cy = y as i64 + times(k, dy);
        let nx = cx + dx as i64;
        let ny = cy + dy as i64;
        proof {
            assert(ray(xi, yi, dxi, dyi, k as int) == (cx as int, cy as int));
            assert(ray(xi, yi, dxi, dyi, k + 1) == (nx as int, ny as int));
        }
        if diagonal && !p.allow_corner_cut {
            if !g.is_walkable(cx + dx as i64, cy) || !g.is_walkable(cx, cy + dy as i64) {
                return if k > 0 { Some((cx, cy, 0)) } else { None };
            }
        }
        if !g.is_walkable(nx, ny) {
            return if k > 0 { Some((cx, cy, 0)) } else { None };
        }
        if has_forced_neighbor(g, nx, ny, dx as i64, dy as i64) {
            return Some((nx, ny, 0));
        }
        if diagonal {
            if has_forced_neighbor(g, nx, ny, dx as i64, 0) || has_forced_neighbor(g, nx, ny, 0, dy as i64) {
                return Some((nx, ny, 0));
            }
        }
        if k + 1 > SCAN_LIMIT {
            return None;
        }
        k = k + 1;
    }
}

/// The span row of a tile: the first blocked cell to the left, right, up and down.
#[derive(Clone, Copy, Debug, PartialEq, Eq, Structural)]
pub struct JpsSpan {
    pub x: i32,
    pub y: i32,
    pub plane: i32,
    pub left_block_at: Option<i64>,
    pub right_block_at: Option<i64>,
    pub up_block_at: Option<i64>,
    pub down_block_at: Option<i64>,
}

/// A jump row: from `(x, y)` in direction `dir` the scan stops at `(next_x, next_y)`.
#[derive(Clone, Copy, Debug, PartialEq, Eq, Structural)]
pub struct JpsJump {
    pub x: i32,
    pub y: i32,
    pub plane: i32,
    pub dir: i32,
    pub next_x: i64,
    pub next_y: i64,
    pub forced_mask: i32,
}

/// The span row of one tile and its jump rows, one for each direction (the
/// diagonals only when the policy allows them) whose scan finds a jump point.
pub fn jps_for_tile(p: &MovementPolicy, g: &WalkGrid, plane: i32, x: i32, y: i32) -> (r: (JpsSpan, Vec<JpsJump>))
    ensures
        r.0.x == x && r.0.y == y && r.0.plane == plane,
        span_matches(r.0.left_block_at, span_spec(g, x as int, y as int, -1, 0)),
        span_matches(r.0.right_block_at, span_spec(g, x as int, y as int, 1, 0)),
        span_matches(r.0.up_block_at, span_spec(g, x as int, y as int, 0, 1)),
        span_matches(r.0.down_block_at, span_spec(g, x as int, y as int, 0, -1)),
        forall|k: int| 0 <= k < r.1@.len() ==> {
            let j = #[trigger] r.1@[k];
            &&& j.x == x && j.y == y && j.plane == plane && j.forced_mask == 0
            &&& 0 <= j.dir < 8
            &&& (j.dir >= 4 ==> p.allow_diagonals)
            &&& jump_from(*p, g, x as int, y as int, jump_delta(j.dir).0, jump_delta(j.dir).1, 0) == Some((j.next_x as int, j.next_y as int))
            &&& open_at(g, (j.next_x as int, j.next_y as int))
        },
        forall|d: i32| 0 <= d < 8 && (d < 4 || p.allow_diagonals)
            && jump_from(*p, g, x as int, y as int, jump_delta(d).0, jump_delta(d).1, 0) is Some
            ==> exists|k: int| 0 <= k < r.1@.len() && (#[trigger] r.1@[k]).dir == d,
        forall|a: int, b: int| 0 <= a < b < r.1@.len() ==> (#[trigger] r.1@[a]).dir < (#[trigger] r.1@[b]).dir,
{
    let left = scan_until_block(g, x, y, -1, 0);
    let right = scan_until_block(g, x, y, 1, 0);
    let up = scan_until_block(g, x, y, 0, 1);
    let down = scan_until_block(g, x, y, 0, -1);
    proof {
        lemma_span_exact(g, x as int, y as int, -1, 0, left);
        lemma_span_exact(g, x as int, y as int, 1, 0, right);
        lemma_span_exact(g, x as int, y as int, 0, 1, up);
        lemma_span_exact(g, x as int, y as int, 0, -1, down);
    }
    let span = JpsSpan { x, y, plane, left_block_at: left, right_block_at: right, up_block_at: up, down_block_at: down };
    let mut jumps: Vec<JpsJump> = Vec::new();
    let mut dir: i32 = 0;
    while dir < 8
        invariant
            0 <= dir <= 8,
            forall|k: int| 0 <= k < jumps@.len() ==> {
                let j = #[trigger] jumps@[k];
                &&& j.x == x && j.y == y && j.plane == plane && j.forced_mask == 0
                &&& 0 <= j.dir < dir
                &&& (j.dir >= 4 ==> p.allow_diagonals)
                &&& jump_from(*p, g, x as int, y as int, jump_delta(j.dir).0, jump_delta(j.dir).1, 0) == Some((j.next_x as int, j.next_y as int))
                &&& open_at(g, (j.next_x as int, j.next_y as int))
            },
            forall|d: i32| 0 <= d < dir && (d < 4 || p.allow_diagonals)
                && jump_from(*p, g, x as int, y as int, jump_delta(d).0, jump_delta(d).1, 0) is Some
                ==> exists|k: int| 0 <= k < jumps@.len() && (#[trigger] jumps@[k]).dir == d,
            forall|a: int, b: int| 0 <= a < b < jumps@.len() ==> (#[trigger] jumps@[a]).dir < (#[trigger] jumps@[b]).dir,
        decreases 8 - dir,
    {
        if dir >= 4 && !p.allow_diagonals {
            dir = dir + 1;
            continue;
        }
        let (dx, dy) = dir_to_delta(dir);
        match next_jump(g, x, y, dx, dy, p) {
            Some((nx, ny, m)) => {
                proof {
                    lemma_jump_walkable(*p, g, x as int, y as int, dx as int, dy as int, 0);
                }
                let ghost j0 = jumps@;
                jumps.push(JpsJump { x, y, plane, dir, next_x: nx, next_y: ny, forced_mask: m });
                proof {
                    assert(jumps@[jumps@.len() - 1].dir == dir);
                    assert forall|d: i32| 0 <= d < dir + 1 && (d < 4 || p.allow_diagonals)
                        && jump_from(*p, g, x as int, y as int, jump_delta(d).0, jump_delta(d).1, 0) is Some
                        implies exists|k: int| 0 <= k < jumps@.len() && (#[trigger] jumps@[k]).dir == d by {
                        if d < dir {
                            let k = choose|k: int| 0 <= k < j0.len() && (#[trigger] j0[k]).dir == d;
                            assert(jumps@[k] == j0[k]);
                        } else {
                            assert(jumps@[jumps@.len() - 1].dir == d);
                        }
                    }
                }
            },
            None => {},
        }
        dir = dir + 1;
    }
    (span, jumps)
}

proof fn lemma_span_exact(g: &WalkGrid, x: int, y: int, dx: int, dy: int, r: Option<i64>)
    requires
        match r {
            Some(c) => exists|k: int|
                1 <= k <= SCAN_LIMIT + 1 && !open_at(g, #[trigger] ray(x, y, dx, dy, k))
                    && (forall|j: int| 1 <= j < k ==> open_at(g, #[trigger] ray(x, y, dx, dy, j)))
                    && c == if dx != 0 { ray(x, y, dx, dy, k).0 } else { ray(x, y, dx, dy, k).1 },
            None => forall|j: int| 1 <= j <= SCAN_LIMIT + 1 ==> open_at(g, #[trigger] ray(x, y, dx, dy, j)),
        },
    ensures
        span_matches(r, span_spec(g, x, y, dx, dy)),
{
    match r {
        Some(c) => {
            let k = choose|k: int|
                1 <= k <= SCAN_LIMIT + 1 && !open_at(g, #[trigger] ray(x, y, dx, dy, k))
                    && (forall|j: int| 1 <= j < k ==> open_at(g, #[trigger] ray(x, y, dx, dy, j)))
                    && c == if dx != 0 { ray(x, y, dx, dy, k).0 } else { ray(x, y, dx, dy, k).1 };
            let k2 = choose|k: int|
                1 <= k <= SCAN_LIMIT + 1 && !open_at(g, #[trigger] ray(x, y, dx, dy, k)) && forall|j: int|
                    1 <= j < k ==> open_at(g, #[trigger] ray(x, y, dx, dy, j));
            if k2 < k {
                assert(open_at(g, ray(x, y, dx, dy, k2)));
            }
            if k < k2 {
                assert(open_at(g, ray(x, y, dx, dy, k)));
            }
        },
        None => {},
    }
}

} // verus!
