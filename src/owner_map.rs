use std::collections::HashMap;
use vstd::prelude::*;
use crate::grid::{in_i32, lemma_tile_key_injective, pack_tile, tile_key};
use crate::models::ClusterTile;

verus! {

broadcast use vstd::std_specs::hash::group_hash_axioms;

/// The cluster that the list gives to `(x, y)`: its last entry there, if any.
pub open spec fn owner(s: Seq<ClusterTile>, x: int, y: int) -> Option<i64>
    decreases s.len(),
{
    if s.len() == 0 {
        None
    } else if s.last().x == x && s.last().y == y {
        Some(s.last().cluster_id)
    } else {
        owner(s.drop_last(), x, y)
    }
}

/// A tile that has an owner is listed.
pub proof fn lemma_owner_listed(s: Seq<ClusterTile>, x: int, y: int)
    requires
        owner(s, x, y).is_some(),
    ensures
        exists|k: int| 0 <= k < s.len() && s[k].x == x && s[k].y == y && s[k].cluster_id == owner(s, x, y).unwrap(),
    decreases s.len(),
{
    if !(s.last().x == x && s.last().y == y) {
        lemma_owner_listed(s.drop_last(), x, y);
        let k = choose|k: int|
            0 <= k < s.drop_last().len() && s.drop_last()[k].x == x && s.drop_last()[k].y == y
                && s.drop_last()[k].cluster_id == owner(s.drop_last(), x, y).unwrap();
        assert(s[k] == s.drop_last()[k]);
    } else {
        assert(s[s.len() - 1] == s.last());
    }
}

/// Every listed tile has an owner.
pub proof fn lemma_listed_owned(s: Seq<ClusterTile>, k: int)
    requires
        0 <= k < s.len(),
    ensures
        owner(s, s[k].x as int, s[k].y as int).is_some(),
    decreases s.len(),
{
    if k < s.len() - 1 {
        if !(s.last().x == s[k].x && s.last().y == s[k].y) {
            assert(s.drop_last()[k] == s[k]);
            lemma_listed_owned(s.drop_last(), k);
        }
    }
}

/// Tile-to-cluster lookup for one plane.
pub struct OwnerMap {
    map: HashMap<u64, i64>,
}

impl OwnerMap {
    pub closed spec fn lookup(&self, x: int, y: int) -> Option<i64> {
        if in_i32(x) && in_i32(y) && self.map@.contains_key(tile_key(x as i32, y as i32)) {
            Some(self.map@[tile_key(x as i32, y as i32)])
        } else {
            None
        }
    }

    /// The lookup that `owner` describes.
    pub fn from_tiles(tiles: &Vec<ClusterTile>) -> (r: OwnerMap)
        ensures
            forall|x: int, y: int| #[trigger] r.lookup(x, y) == owner(tiles@, x, y),
    {
        let mut m = OwnerMap { map: HashMap::new() };
        let mut i: usize = 0;
        while i < tiles.len()
            invariant
                0 <= i <= tiles.len(),
                forall|x: int, y: int| #[trigger] m.lookup(x, y) == owner(tiles@.subrange(0, i as int), x, y),
            decreases tiles.len() - i,
        {
            let t = tiles[i];
            let ghost old_m = m;
            m.map.insert(pack_tile(t.x, t.y), t.cluster_id);
            proof {
                let s = tiles@.subrange(0, i + 1);
                assert(s.drop_last() =~= tiles@.subrange(0, i as int));
                assert(s.last() == t);
                assert forall|x: int, y: int| #[trigger] m.lookup(x, y) == owner(s, x, y) by {
                    if in_i32(x) && in_i32(y) {
                        lemma_tile_key_injective(x as i32, y as i32, t.x, t.y);
                    }
                    assert(old_m.lookup(x, y) == owner(tiles@.subrange(0, i as int), x, y));
                }
            }
            i = i + 1;
        }
        assert(tiles@.subrange(0, tiles@.len() as int) =~= tiles@);
        m
    }

    /// The cluster at `(x, y)`, if any.
    pub fn get(&self, x: i64, y: i64) -> (r: Option<i64>)
        ensures
            r == self.lookup(x as int, y as int),
    {
        if x < i32::MIN as i64 || x > i32::MAX as i64 || y < i32::MIN as i64 || y > i32::MAX as i64 {
            return None;
        }
        match self.map.get(&pack_tile(x as i32, y as i32)) {
            Some(c) => Some(*c),
            None => None,
        }
    }
}

} // verus!
