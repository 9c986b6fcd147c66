use std::collections::HashMap;
use vstd::prelude::*;

verus! {

broadcast use vstd::std_specs::hash::group_hash_axioms;

/// Shifts a 32-bit coordinate into `0 .. 2^32`.
pub open spec fn lift(v: i32) -> int {
    v as int + 0x8000_0000
}

/// Packs a tile coordinate into one map key: `x` in the high half, `y` in the low half.
pub open spec fn tile_key(x: i32, y: i32) -> u64 {
    (lift(x) * 0x1_0000_0000 + lift(y)) as u64
}

/// Distinct tiles have distinct keys.
pub proof fn lemma_tile_key_injective(x1: i32, y1: i32, x2: i32, y2: i32)
    ensures
        tile_key(x1, y1) == tile_key(x2, y2) <==> (x1 == x2 && y1 == y2),
{
    let (a, b, c, d) = (lift(x1), lift(y1), lift(x2), lift(y2));
    assert(0 <= a * 0x1_0000_0000 + b < 0x1_0000_0000_0000_0000) by (nonlinear_arith)
        requires
            0 <= a < 0x1_0000_0000,
            0 <= b < 0x1_0000_0000,
    ;
    assert(0 <= c * 0x1_0000_0000 + d < 0x1_0000_0000_0000_0000) by (nonlinear_arith)
        requires
            0 <= c < 0x1_0000_0000,
            0 <= d < 0x1_0000_0000,
    ;
    if tile_key(x1, y1) == tile_key(x2, y2) {
        assert(a == c && b == d) by (nonlinear_arith)
            requires
                a * 0x1_0000_0000 + b == c * 0x1_0000_0000 + d,
                0 <= b < 0x1_0000_0000,
                0 <= d < 0x1_0000_0000,
        ;
    }
}

pub fn pack_tile(x: i32, y: i32) -> (r: u64)
    ensures
        r == tile_key(x, y),
{
    let a: u64 = (x as i64 + 0x8000_0000) as u64;
    let b: u64 = (y as i64 + 0x8000_0000) as u64;
    assert(a * 0x1_0000_0000 + b < 0x1_0000_0000_0000_0000) by (nonlinear_arith)
        requires
            a < 0x1_0000_0000,
            b < 0x1_0000_0000,
    ;
    a * 0x1_0000_0000 + b
}

/// A coordinate fits the 32-bit tile space.
pub open spec fn in_i32(v: int) -> bool {
    i32::MIN <= v <= i32::MAX
}

/// The directional walk masks of the tiles of one plane. A tile that is absent
/// has mask 0; a tile is walkable when its mask is non-zero.
pub struct WalkGrid {
    masks: HashMap<u64, u8>,
}

impl WalkGrid {
    /// The mask stored at `(x, y)`, 0 where none is stored.
    pub closed spec fn mask(&self, x: int, y: int) -> u8 {
        if in_i32(x) && in_i32(y) && self.masks@.contains_key(tile_key(x as i32, y as i32)) {
            self.masks@[tile_key(x as i32, y as i32)]
        } else {
            0
        }
    }

    pub open spec fn walkable(&self, x: int, y: int) -> bool {
        self.mask(x, y) != 0
    }

    /// Nothing is stored outside the 32-bit tile space.
    pub proof fn lemma_outside_empty(&self, x: int, y: int)
        requires
            !(in_i32(x) && in_i32(y)),
        ensures
            self.mask(x, y) == 0,
    {
    }

    pub fn new() -> (r: WalkGrid)
        ensures
            forall|x: int, y: int| #[trigger] r.mask(x, y) == 0,
    {
        WalkGrid { masks: HashMap::new() }
    }

    /// Stores the mask of one tile; every other tile keeps its mask.
    pub fn set_mask(&mut self, x: i32, y: i32, m: u8)
        ensures
            forall|a: int, b: int|
                #[trigger] final(self).mask(a, b) == if a == x && b == y {
                    m
                } else {
                    old(self).mask(a, b)
                },
    {
        let k = pack_tile(x, y);
        self.masks.insert(k, m);
        assert forall|a: int, b: int|
            #[trigger] self.mask(a, b) == if a == x && b == y {
                m
            } else {
                old(self).mask(a, b)
            } by {
            if in_i32(a) && in_i32(b) {
                lemma_tile_key_injective(a as i32, b as i32, x, y);
            }
        }
    }

    /// The mask at `(x, y)`; coordinates outside the 32-bit space hold nothing.
    pub fn mask_at(&self, x: i64, y: i64) -> (r: u8)
        ensures
            r == self.mask(x as int, y as int),
    {
        if x < i32::MIN as i64 || x > i32::MAX as i64 || y < i32::MIN as i64 || y > i32::MAX as i64 {
            return 0;
        }
        let k = pack_tile(x as i32, y as i32);
        match self.masks.get(&k) {
            Some(m) => *m,
            None => 0,
        }
    }

    pub fn is_walkable(&self, x: i64, y: i64) -> (r: bool)
        ensures
            r == self.walkable(x as int, y as int),
    {
        self.mask_at(x, y) != 0
    }
}

} // verus!
