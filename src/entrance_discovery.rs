use vstd::prelude::*;
use crate::models::{delta_of, dir_delta, is_cardinal, ClusterTile, Dir, EntranceKey};
use crate::owner_map::{lemma_listed_owned, lemma_owner_listed, owner, OwnerMap};
use crate::tile_order::{sorted_unique_tiles, strictly_sorted, tile_lt};

verus! {

broadcast use vstd::seq_lib::group_seq_properties;

/// Totals reported by entrance discovery.
#[derive(Clone, Debug, Default)]
pub struct EntrancesStats {
    pub chunks_processed: usize,
    pub entrances_created: usize,
}

/// A boundary entrance: a tile of cluster `e.cluster_id` whose cardinal
/// neighbour in direction `e.dir` belongs to another cluster of the plane.
pub open spec fn is_boundary(s: Seq<ClusterTile>, plane: i32, e: EntranceKey) -> bool {
    &&& e.plane == plane
    &&& is_cardinal(e.dir)
    &&& owner(s, e.x as int, e.y as int) == Some(e.cluster_id)
    &&& match owner(s, e.x + delta_of(e.dir).0, e.y + delta_of(e.dir).1) {
        Some(c) => c != e.cluster_id,
        None => false,
    }
}

pub open spec fn distinct<T>(s: Seq<T>) -> bool {
    forall|i: int, j: int| 0 <= i < j < s.len() ==> s[i] != s[j]
}

/// Adds the entrance of tile `c` on side `d` when it is one.
fn check_side(
    owners: &OwnerMap,
    tiles: &Vec<ClusterTile>,
    plane: i32,
    c: (i32, i32),
    cid: i64,
    d: Dir,
    out: &mut Vec<EntranceKey>,
)
    requires
        forall|x: int, y: int| #[trigger] owners.lookup(x, y) == owner(tiles@, x, y),
        owner(tiles@, c.0 as int, c.1 as int) == Some(cid),
        is_cardinal(d),
    ensures
        final(out)@ == old(out)@ || final(out)@ == old(out)@.push(EntranceKey { cluster_id: cid, x: c.0, y: c.1, plane, dir: d }),
        forall|k: int| 0 <= k < final(out)@.len() ==> old(out)@.len() <= k ==> is_boundary(tiles@, plane, #[trigger] final(out)@[k]),
        is_boundary(tiles@, plane, EntranceKey { cluster_id: cid, x: c.0, y: c.1, plane, dir: d })
            ==> final(out)@.contains(EntranceKey { cluster_id: cid, x: c.0, y: c.1, plane, dir: d }),
{
    let (dx, dy) = dir_delta(d);
    let n = owners.get(c.0 as i64 + dx as i64, c.1 as i64 + dy as i64);
    match n {
        Some(nc) => {
            if nc != cid {
                out.push(EntranceKey { cluster_id: cid, x: c.0, y: c.1, plane, dir: d });
                assert(out@.last() == EntranceKey { cluster_id: cid, x: c.0, y: c.1, plane, dir: d });
            }
        },
        None => {},
    }
}

/// The boundary entrances of one plane, each once: for every tile and each
/// cardinal side whose neighbour lies in another cluster, the entrance on that
/// tile, labelled with the outward side.
#[verifier::rlimit(60)]
pub fn discover_boundary_entrances(plane: i32, tiles: &Vec<ClusterTile>) -> (r: Vec<EntranceKey>)
    ensures
        forall|k: int| 0 <= k < r@.len() ==> is_boundary(tiles@, plane, #[trigger] r@[k]),
        forall|e: EntranceKey| is_boundary(tiles@, plane, e) ==> r@.contains(e),
        distinct(r@),
{
    let owners = OwnerMap::from_tiles(tiles);
    let mut coords_in: Vec<(i32, i32)> = Vec::new();
    let mut i: usize = 0;
    while i < tiles.len()
        invariant
            0 <= i <= tiles.len(),
            coords_in@.len() == i,
            forall|k: int| 0 <= k < i ==> #[trigger] coords_in@[k] == (tiles@[k].x, tiles@[k].y),
        decreases tiles.len() - i,
    {
        coords_in.push((tiles[i].x, tiles[i].y));
        i = i + 1;
    }
    let coords = sorted_unique_tiles(&coords_in);
    let mut out: Vec<EntranceKey> = Vec::new();
    let mut i: usize = 0;
    while i < coords.len()
        invariant
            0 <= i <= coords.len(),
            strictly_sorted(coords@),
            forall|t: (i32, i32)| coords@.contains(t) <==> coords_in@.contains(t),
            coords_in@.len() == tiles@.len(),
            forall|k: int| 0 <= k < tiles@.len() ==> #[trigger] coords_in@[k] == (tiles@[k].x, tiles@[k].y),
            forall|x: int, y: int| #[trigger] owners.lookup(x, y) == owner(tiles@, x, y),
            forall|k: int| 0 <= k < out@.len() ==> is_boundary(tiles@, plane, #[trigger] out@[k]),
            forall|e: EntranceKey|
                is_boundary(tiles@, plane, e) && (exists|j: int| 0 <= j < i && #[trigger] coords@[j] == (e.x, e.y))
                    ==> out@.contains(e),
            distinct(out@),
            i < coords.len() ==> forall|k: int| 0 <= k < out@.len() ==> tile_lt((#[trigger] out@[k].x, out@[k].y), coords@[i as int]),
        decreases coords.len() - i,
    {
        let c = coords[i];
        proof {
            assert(coords@.contains(c));
            let k = choose|k: int| 0 <= k < coords_in@.len() && coords_in@[k] == c;
            lemma_listed_owned(tiles@, k);
        }
        let cid = match owners.get(c.0 as i64, c.1 as i64) {
            Some(v) => v,
            None => {
                assert(false);
                0
            },
        };
        let ghost o0 = out@;
        check_side(&owners, tiles, plane, c, cid, Dir::E, &mut out);
        let ghost o1 = out@;
        check_side(&owners, tiles, plane, c, cid, Dir::W, &mut out);
        let ghost o2 = out@;
        check_side(&owners, tiles, plane, c, cid, Dir::N, &mut out);
        let ghost o3 = out@;
        check_side(&owners, tiles, plane, c, cid, Dir::S, &mut out);
        proof {
            let mk = |d: Dir| EntranceKey { cluster_id: cid, x: c.0, y: c.1, plane, dir: d };
            assert forall|k: int| 0 <= k < out@.len() implies is_boundary(tiles@, plane, #[trigger] out@[k]) by {
                if k < o3.len() {
                    assert(out@[k] == o3[k]);
                    if k < o2.len() {
                        assert(o3[k] == o2[k]);
                        if k < o1.len() {
                            assert(o2[k] == o1[k]);
                            if k < o0.len() {
                                assert(o1[k] == o0[k]);
                            }
                        }
                    }
                }
            }
            // Old entries lie strictly before `c`; new ones sit at `c` with distinct sides.
            assert forall|p: int, q: int| 0 <= p < q < out@.len() implies out@[p] != out@[q] by {
                if q >= o0.len() {
                    if p < o0.len() {
                        assert(o1.subrange(0, o0.len() as int) =~= o0 || o1 == o0);
                        assert(out@[p] == o0[p]);
                        assert(tile_lt((o0[p].x, o0[p].y), c));
                    }
                }
            }
            assert forall|e: EntranceKey|
                is_boundary(tiles@, plane, e) && (exists|j: int| 0 <= j < i + 1 && #[trigger] coords@[j] == (e.x, e.y))
                    implies out@.contains(e) by {
                let j = choose|j: int| 0 <= j < i + 1 && #[trigger] coords@[j] == (e.x, e.y);
                if j == i {
                    assert(e.cluster_id == cid);
                    assert(e == mk(e.dir));
                    if e.dir == Dir::E {
                        assert(o1.contains(e));
                    } else if e.dir == Dir::W {
                        assert(o2.contains(e));
                    } else if e.dir == Dir::N {
                        assert(o3.contains(e));
                    }
                    assert(out@.contains(e));
                } else {
                    assert(o0.contains(e));
                }
            }
            if i + 1 < coords.len() {
                assert(tile_lt(c, coords@[i + 1]));
                assert forall|k: int| 0 <= k < out@.len() implies tile_lt((#[trigger] out@[k].x, out@[k].y), coords@[i + 1]) by {
                    if k < o0.len() {
                        assert(out@[k] == o0[k]);
                    }
                }
            }
        }
        i = i + 1;
    }
    proof {
        assert forall|e: EntranceKey| is_boundary(tiles@, plane, e) implies out@.contains(e) by {
            lemma_owner_listed(tiles@, e.x as int, e.y as int);
            let k = choose|k: int| 0 <= k < tiles@.len() && tiles@[k].x == e.x && tiles@[k].y == e.y && tiles@[k].cluster_id == owner(tiles@, e.x as int, e.y as int).unwrap();
            assert(coords_in@[k] == (e.x, e.y));
            assert(coords_in@.contains((e.x, e.y)));
            let j = choose|j: int| 0 <= j < coords@.len() && coords@[j] == (e.x, e.y);
        }
    }
    out
}

} // verus!
