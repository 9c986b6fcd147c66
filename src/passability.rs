use vstd::prelude::*;
use crate::grid::WalkGrid;
use crate::neighbor_policy::MovementPolicy;

verus! {

/// Bit slots of a walk mask, in canonical order.
pub const LEFT: u8 = 0;
pub const BOTTOM: u8 = 1;
pub const RIGHT: u8 = 2;
pub const TOP: u8 = 3;
pub const TOP_LEFT: u8 = 4;
pub const BOTTOM_LEFT: u8 = 5;
pub const BOTTOM_RIGHT: u8 = 6;
pub const TOP_RIGHT: u8 = 7;

/// `(dx, dy)` is one of the eight unit steps.
pub open spec fn unit_step(dx: int, dy: int) -> bool {
    -1 <= dx <= 1 && -1 <= dy <= 1 && !(dx == 0 && dy == 0)
}

/// The mask slot that permits leaving a tile by `(dx, dy)` (north is `y + 1`).
pub open spec fn dir_bit(dx: int, dy: int) -> u8 {
    if dx == -1 && dy == 0 {
        LEFT
    } else if dx == 0 && dy == -1 {
        BOTTOM
    } else if dx == 1 && dy == 0 {
        RIGHT
    } else if dx == 0 && dy == 1 {
        TOP
    } else if dx == -1 && dy == 1 {
        TOP_LEFT
    } else if dx == -1 && dy == -1 {
        BOTTOM_LEFT
    } else if dx == 1 && dy == -1 {
        BOTTOM_RIGHT
    } else {
        TOP_RIGHT
    }
}

pub open spec fn bit_set(m: u8, i: u8) -> bool {
    (m >> i) & 1u8 == 1u8
}

/// Both sides agree on the step `(dx, dy)` out of `(x, y)`: the tile's own slot
/// for that direction and the neighbour's slot for the reverse are set.
pub open spec fn crosses(g: &WalkGrid, x: int, y: int, dx: int, dy: int) -> bool {
    bit_set(g.mask(x, y), dir_bit(dx, dy)) && bit_set(g.mask(x + dx, y + dy), dir_bit(-dx, -dy))
}

/// Around a diagonal step: the horizontal-then-vertical and the
/// vertical-then-horizontal routes; all of both without corner cutting, either
/// one with it.
pub open spec fn corner_ok(p: MovementPolicy, g: &WalkGrid, x: int, y: int, dx: int, dy: int) -> bool {
    let hv = g.walkable(x + dx, y) && crosses(g, x, y, dx, 0) && crosses(g, x + dx, y, 0, dy);
    let vh = g.walkable(x, y + dy) && crosses(g, x, y, 0, dy) && crosses(g, x, y + dy, dx, 0);
    if p.allow_corner_cut {
        hv || vh
    } else {
        hv && vh
    }
}

/// The oracle: one step from `(ax, ay)` to `(bx, by)` is legal.
pub open spec fn step_allowed(p: MovementPolicy, g: &WalkGrid, ax: int, ay: int, bx: int, by: int) -> bool {
    let dx = bx - ax;
    let dy = by - ay;
    &&& unit_step(dx, dy)
    &&& g.walkable(ax, ay)
    &&& g.walkable(bx, by)
    &&& crosses(g, ax, ay, dx, dy)
    &&& (dx == 0 || dy == 0 || corner_ok(p, g, ax, ay, dx, dy))
}

/// Passability is symmetric: a step is legal exactly when its reverse is.
pub proof fn lemma_step_symmetric(p: MovementPolicy, g: &WalkGrid, ax: int, ay: int, bx: int, by: int)
    ensures
        step_allowed(p, g, ax, ay, bx, by) == step_allowed(p, g, bx, by, ax, ay),
{
}

fn has_bit(m: u8, i: u8) -> (r: bool)
    requires
        i < 8,
    ensures
        r == bit_set(m, i),
{
    (m >> i) & 1u8 == 1u8
}

fn dir_bit_of(dx: i64, dy: i64) -> (r: u8)
    ensures
        r == dir_bit(dx as int, dy as int),
        r < 8,
{
    if dx == -1 && dy == 0 {
        LEFT
    } else if dx == 0 && dy == -1 {
        BOTTOM
    } else if dx == 1 && dy == 0 {
        RIGHT
    } else if dx == 0 && dy == 1 {
        TOP
    } else if dx == -1 && dy == 1 {
        TOP_LEFT
    } else if dx == -1 && dy == -1 {
        BOTTOM_LEFT
    } else if dx == 1 && dy == -1 {
        BOTTOM_RIGHT
    } else {
        TOP_RIGHT
    }
}

/// The mutual slot check of one unit step.
pub fn can_cross(g: &WalkGrid, x: i64, y: i64, dx: i64, dy: i64) -> (r: bool)
    requires
        -1 <= dx <= 1,
        -1 <= dy <= 1,
        i32::MIN <= x <= i32::MAX,
        i32::MIN <= y <= i32::MAX,
    ensures
        r == crosses(g, x as int, y as int, dx as int, dy as int),
{
    let a = g.mask_at(x, y);
    let b = g.mask_at(x + dx, y + dy);
    has_bit(a, dir_bit_of(dx, dy)) && has_bit(b, dir_bit_of(-dx, -dy))
}

/// Whether a unit may step from `(sx, sy)` to `(nx, ny)` on this plane.
pub fn can_step(p: &MovementPolicy, g: &WalkGrid, sx: i32, sy: i32, nx: i32, ny: i32) -> (r: bool)
    ensures
        r == step_allowed(*p, g, sx as int, sy as int, nx as int, ny as int),
{
    let (x, y) = (sx as i64, sy as i64);
    let dx = nx as i64 - x;
    let dy = ny as i64 - y;
    if dx < -1 || dx > 1 || dy < -1 || dy > 1 || (dx == 0 && dy == 0) {
        return false;
    }
    if !g.is_walkable(x, y) || !g.is_walkable(x + dx, y + dy) {
        return false;
    }
    if !can_cross(g, x, y, dx, dy) {
        return false;
    }
    if dx == 0 || dy == 0 {
        return true;
    }
    let hv = g.is_walkable(x + dx, y) && can_cross(g, x, y, dx, 0) && can_cross(g, x + dx, y, 0, dy);
    let vh = g.is_walkable(x, y + dy) && can_cross(g, x, y, 0, dy) && can_cross(g, x, y + dy, dx, 0);
    if p.allow_corner_cut {
        hv || vh
    } else {
        hv && vh
    }
}

/// The step of each mask slot, in canonical slot order.
pub open spec fn slot_delta(i: u8) -> (int, int) {
    if i == LEFT {
        (-1, 0)
    } else if i == BOTTOM {
        (0, -1)
    } else if i == RIGHT {
        (1, 0)
    } else if i == TOP {
        (0, 1)
    } else if i == TOP_LEFT {
        (-1, 1)
    } else if i == BOTTOM_LEFT {
        (-1, -1)
    } else if i == BOTTOM_RIGHT {
        (1, -1)
    } else {
        (1, 1)
    }
}

/// A slot survives reconciliation when it is set, the neighbour it leads to
/// has the reverse slot set, and, for a diagonal, both of its cardinal
/// components survive on this tile.
pub open spec fn slot_survives(g: &WalkGrid, x: int, y: int, i: u8) -> bool {
    let (dx, dy) = slot_delta(i);
    let own = crosses(g, x, y, dx, dy);
    if i < 4 {
        own
    } else {
        own && crosses(g, x, y, dx, 0) && crosses(g, x, y, 0, dy)
    }
}

pub fn key_delta(i: u8) -> (r: (i64, i64))
    requires
        i < 8,
    ensures
        (r.0 as int, r.1 as int) == slot_delta(i),
        dir_bit(r.0 as int, r.1 as int) == i,
{
    if i == LEFT {
        (-1, 0)
    } else if i == BOTTOM {
        (0, -1)
    } else if i == RIGHT {
        (1, 0)
    } else if i == TOP {
        (0, 1)
    } else if i == TOP_LEFT {
        (-1, 1)
    } else if i == BOTTOM_LEFT {
        (-1, -1)
    } else if i == BOTTOM_RIGHT {
        (1, -1)
    } else {
        (1, 1)
    }
}

proof fn lemma_set_bit(r: u8, i: u8, j: u8)
    requires
        i < 8,
        j < 8,
    ensures
        bit_set(r | (1u8 << i), j) == (bit_set(r, j) || i == j),
{
    assert(((r | (1u8 << i)) >> j) & 1u8 == 1u8 <==> (((r >> j) & 1u8 == 1u8) || i == j)) by (bit_vector)
        requires
            i < 8,
            j < 8,
    ;
}

proof fn lemma_zero_bits(j: u8)
    requires
        j < 8,
    ensures
        !bit_set(0u8, j),
{
    assert((0u8 >> j) & 1u8 != 1u8) by (bit_vector);
}

/// The tile's mask after reciprocal reconciliation: each slot kept exactly when
/// it survives, so that passability becomes symmetric.
pub fn reconciled_mask(g: &WalkGrid, x: i32, y: i32) -> (r: u8)
    ensures
        forall|j: u8| j < 8 ==> (bit_set(r, j) <==> #[trigger] slot_survives(g, x as int, y as int, j)),
{
    let mut r: u8 = 0;
    let mut i: u8 = 0;
    proof {
        assert forall|j: u8| 0 <= j < 8 implies !#[trigger] bit_set(r, j) by {
            lemma_zero_bits(j);
        }
    }
    while i < 8
        invariant
            0 <= i <= 8,
            forall|j: u8| j < i ==> (bit_set(r, j) <==> #[trigger] slot_survives(g, x as int, y as int, j)),
            forall|j: u8| i <= j < 8 ==> !#[trigger] bit_set(r, j),
        decreases 8 - i,
    {
        let (dx, dy) = key_delta(i);
        let mut keep = can_cross(g, x as i64, y as i64, dx, dy);
        if i >= 4 {
            keep = keep && can_cross(g, x as i64, y as i64, dx, 0) && can_cross(g, x as i64, y as i64, 0, dy);
        }
        if keep {
            let r0 = r;
            r = r | (1u8 << i);
            proof {
                assert forall|j: u8| j < 8 implies #[trigger] bit_set(r, j) == (bit_set(r0, j) || i == j) by {
                    lemma_set_bit(r0, i, j);
                }
            }
        }
        i = i + 1;
    }
    r
}

/// The walk mask of a tile from its stored per-direction flags, in slot order:
/// a slot is set when the tile is walkable and its flag is not `false` (a
/// missing flag permits the move).
pub fn mask_from_flags(walkable: bool, flags: &Vec<Option<bool>>) -> (r: u8)
    requires
        flags@.len() == 8,
    ensures
        forall|j: u8| j < 8 ==> (bit_set(r, j) <==> walkable && #[trigger] flags@[j as int] != Some(false)),
{
    let mut r: u8 = 0;
    let mut i: u8 = 0;
    proof {
        assert forall|j: u8| 0 <= j < 8 implies !#[trigger] bit_set(r, j) by {
            lemma_zero_bits(j);
        }
    }
    while i < 8
        invariant
            0 <= i <= 8,
            flags@.len() == 8,
            forall|j: u8| j < i ==> (bit_set(r, j) <==> walkable && #[trigger] flags@[j as int] != Some(false)),
            forall|j: u8| i <= j < 8 ==> !#[trigger] bit_set(r, j),
        decreases 8 - i,
    {
        let allowed = match flags[i as usize] {
            Some(b) => b,
            None => true,
        };
        if walkable && allowed {
            let r0 = r;
            r = r | (1u8 << i);
            proof {
                assert forall|j: u8| j < 8 implies #[trigger] bit_set(r, j) == (bit_set(r0, j) || i == j) by {
                    lemma_set_bit(r0, i, j);
                }
            }
        }
        i = i + 1;
    }
    r
}

/// The grid that the oracle reads: each listed tile with its reconciled mask,
/// every other tile empty.
pub fn reconcile_grid(raw: &WalkGrid, tiles: &Vec<(i32, i32)>) -> (r: WalkGrid)
    ensures
        forall|x: i32, y: i32, j: u8|
            tiles@.contains((x, y)) && j < 8 ==> (bit_set(r.mask(x as int, y as int), j) <==> #[trigger] slot_survives(raw, x as int, y as int, j)),
        forall|x: int, y: int| !(exists|t: (i32, i32)| tiles@.contains(t) && t.0 == x && t.1 == y) ==> #[trigger] r.mask(x, y) == 0,
{
    let mut g = WalkGrid::new();
    let mut i: usize = 0;
    while i < tiles.len()
        invariant
            0 <= i <= tiles.len(),
            forall|k: int, j: u8|
                0 <= k < i && j < 8 && (forall|m: int| k < m < i ==> tiles@[m] != tiles@[k]) ==> (bit_set(
                    g.mask(tiles@[k].0 as int, tiles@[k].1 as int),
                    j,
                ) <==> #[trigger] slot_survives(raw, tiles@[k].0 as int, tiles@[k].1 as int, j)),
            forall|x: int, y: int| !(exists|k: int| 0 <= k < i && tiles@[k].0 == x && tiles@[k].1 == y) ==> #[trigger] g.mask(x, y) == 0,
        decreases tiles.len() - i,
    {
        let (x, y) = tiles[i];
        let m = reconciled_mask(raw, x, y);
        g.set_mask(x, y, m);
        i = i + 1;
    }
    proof {
        assert forall|x: i32, y: i32, j: u8|
            tiles@.contains((x, y)) && j < 8 implies (bit_set(g.mask(x as int, y as int), j) <==> #[trigger] slot_survives(raw, x as int, y as int, j)) by {
            let k0 = choose|k: int| 0 <= k < tiles@.len() && tiles@[k] == (x, y);
            let k = last_index(tiles@, (x, y), k0);
            assert(tiles@[k] == (x, y));
            assert(forall|m: int| k < m < tiles@.len() ==> tiles@[m] != tiles@[k]);
            assert(bit_set(g.mask(tiles@[k].0 as int, tiles@[k].1 as int), j) <==> slot_survives(raw, tiles@[k].0 as int, tiles@[k].1 as int, j));
        }
        assert forall|x: int, y: int| !(exists|t: (i32, i32)| tiles@.contains(t) && t.0 == x && t.1 == y) implies #[trigger] g.mask(x, y) == 0 by {
            if exists|k: int| 0 <= k < tiles@.len() && tiles@[k].0 == x && tiles@[k].1 == y {
                let k = choose|k: int| 0 <= k < tiles@.len() && tiles@[k].0 == x && tiles@[k].1 == y;
                assert(tiles@.contains(tiles@[k]));
            }
        }
    }
    g
}

/// The last position of `t` in `s`, at or after `k`.
proof fn last_index(s: Seq<(i32, i32)>, t: (i32, i32), k: int) -> (r: int)
    requires
        0 <= k < s.len(),
        s[k] == t,
    ensures
        k <= r < s.len(),
        s[r] == t,
        forall|m: int| r < m < s.len() ==> s[m] != t,
    decreases s.len() - k,
{
    if exists|m: int| k < m < s.len() && s[m] == t {
        let m = choose|m: int| k < m < s.len() && s[m] == t;
        last_index(s, t, m)
    } else {
        k
    }
}

} // verus!
