use std::collections::HashSet;
use vstd::prelude::*;
use crate::grid::{lemma_tile_key_injective, pack_tile, tile_key};

verus! {

broadcast use {vstd::std_specs::hash::group_hash_axioms, vstd::seq_lib::group_seq_properties};

/// A set of tiles of one plane.
pub struct TileSet {
    keys: HashSet<u64>,
}

impl TileSet {
    pub closed spec fn has(&self, t: (i32, i32)) -> bool {
        self.keys@.contains(tile_key(t.0, t.1))
    }

    pub fn from_tiles(tiles: &Vec<(i32, i32)>) -> (r: TileSet)
        ensures
            forall|t: (i32, i32)| #[trigger] r.has(t) <==> tiles@.contains(t),
    {
        let mut s = TileSet { keys: HashSet::new() };
        let mut i: usize = 0;
        while i < tiles.len()
            invariant
                0 <= i <= tiles.len(),
                forall|t: (i32, i32)| #[trigger] s.has(t) <==> tiles@.subrange(0, i as int).contains(t),
            decreases tiles.len() - i,
        {
            let t = tiles[i];
            let ghost s0 = s;
            s.keys.insert(pack_tile(t.0, t.1));
            proof {
                assert forall|u: (i32, i32)| #[trigger] s.has(u) <==> tiles@.subrange(0, i + 1).contains(u) by {
                    lemma_tile_key_injective(u.0, u.1, t.0, t.1);
                    assert(tiles@.subrange(0, i + 1) =~= tiles@.subrange(0, i as int).push(t));
                    assert(s0.has(u) <==> tiles@.subrange(0, i as int).contains(u));
                    if tiles@.subrange(0, i + 1).contains(u) && u != t {
                        let k = choose|k: int| 0 <= k < i + 1 && #[trigger] tiles@.subrange(0, i + 1)[k] == u;
                        assert(tiles@.subrange(0, i as int)[k] == u);
                    }
                }
            }
            i = i + 1;
        }
        assert(tiles@.subrange(0, tiles@.len() as int) =~= tiles@);
        s
    }

    pub fn contains(&self, t: (i32, i32)) -> (r: bool)
        ensures
            r == self.has(t),
    {
        self.keys.contains(&pack_tile(t.0, t.1))
    }
}

} // verus!
