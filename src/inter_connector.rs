use vstd::prelude::*;
use crate::grid::WalkGrid;
use crate::models::{delta_of, dir_delta, is_cardinal, opposite, opposite_of, ClusterTile, Dir, EdgeRow, EntranceRow};
use crate::neighbor_policy::MovementPolicy;
use crate::owner_map::{owner, OwnerMap};
use crate::passability::{can_step, step_allowed};

verus! {

/// Totals reported by the inter connector.
#[derive(Clone, Debug, Default)]
pub struct InterStats {
    pub entrances_examined: usize,
    pub inter_edges_created: usize,
}

/// The entrances of `plane` labelled `d`, as tile-to-entrance-id entries.
pub open spec fn labelled(es: Seq<EntranceRow>, plane: i32, d: Dir) -> Seq<ClusterTile>
    decreases es.len(),
{
    if es.len() == 0 {
        seq![]
    } else {
        let rest = labelled(es.drop_last(), plane, d);
        let e = es.last();
        if e.plane == plane && e.dir == d {
            rest.push(ClusterTile { cluster_id: e.entrance_id, x: e.x, y: e.y })
        } else {
            rest
        }
    }
}

/// The entrance across the boundary from `e`: at the neighbouring tile on
/// side `e.dir`, labelled with the opposite side, when the oracle admits the
/// step from `e` to it.
pub open spec fn partner_of(p: MovementPolicy, g: &WalkGrid, es: Seq<EntranceRow>, plane: i32, e: EntranceRow) -> Option<i64> {
    let (dx, dy) = delta_of(e.dir);
    if e.plane == plane && is_cardinal(e.dir) && step_allowed(p, g, e.x as int, e.y as int, e.x + dx, e.y + dy) {
        owner(labelled(es, plane, opposite_of(e.dir)), e.x + dx, e.y + dy)
    } else {
        None
    }
}

/// The inter edges created for the first `n` entrances: for each with a
/// partner, the edge to it and the edge back, both at `cost`.
pub open spec fn inter_rows(p: MovementPolicy, g: &WalkGrid, es: Seq<EntranceRow>, plane: i32, cost: i64, n: int) -> Seq<EdgeRow>
    decreases n,
{
    if n <= 0 {
        seq![]
    } else {
        let rest = inter_rows(p, g, es, plane, cost, n - 1);
        let e = es[n - 1];
        match partner_of(p, g, es, plane, e) {
            Some(o) => rest.push(EdgeRow { from: e.entrance_id, to: o, cost }).push(EdgeRow { from: o, to: e.entrance_id, cost }),
            None => rest,
        }
    }
}

/// Every inter edge comes with its reverse at the same cost.
pub proof fn lemma_inter_rows_symmetric(p: MovementPolicy, g: &WalkGrid, es: Seq<EntranceRow>, plane: i32, cost: i64, n: int, k: int)
    requires
        0 <= k < inter_rows(p, g, es, plane, cost, n).len(),
    ensures
        ({
            let r = inter_rows(p, g, es, plane, cost, n);
            exists|m: int| 0 <= m < r.len() && r[m].from == r[k].to && r[m].to == r[k].from && r[m].cost == r[k].cost
        }),
        inter_rows(p, g, es, plane, cost, n)[k].cost == cost,
    decreases n,
{
    let r = inter_rows(p, g, es, plane, cost, n);
    if n > 0 {
        let rest = inter_rows(p, g, es, plane, cost, n - 1);
        if k < rest.len() {
            lemma_inter_rows_symmetric(p, g, es, plane, cost, n - 1, k);
            let m = choose|m: int| 0 <= m < rest.len() && rest[m].from == rest[k].to && rest[m].to == rest[k].from && rest[m].cost == rest[k].cost;
            assert(r[m] == rest[m]);
            assert(r[k] == rest[k]);
        } else if k == rest.len() {
            assert(r[k + 1].from == r[k].to);
        } else {
            assert(r[k - 1].from == r[k].to);
        }
    }
}

fn labelled_tiles(es: &Vec<EntranceRow>, plane: i32, d: Dir) -> (r: Vec<ClusterTile>)
    ensures
        r@ == labelled(es@, plane, d),
{
    let mut r: Vec<ClusterTile> = Vec::new();
    let mut i: usize = 0;
    while i < es.len()
        invariant
            0 <= i <= es.len(),
            r@ == labelled(es@.subrange(0, i as int), plane, d),
        decreases es.len() - i,
    {
        let e = es[i];
        proof {
            assert(es@.subrange(0, i + 1).drop_last() =~= es@.subrange(0, i as int));
        }
        if e.plane == plane && e.dir == d {
            r.push(ClusterTile { cluster_id: e.entrance_id, x: e.x, y: e.y });
        }
        i = i + 1;
    }
    assert(es@.subrange(0, es@.len() as int) =~= es@);
    r
}

/// The inter edges of one plane: for each cardinal entrance whose opposite
/// entrance exists across the boundary and whose step to it the oracle admits,
/// an edge each way at `cost_card`, in the order of the entrances.
pub fn build_inter_rows(p: &MovementPolicy, g: &WalkGrid, plane: i32, es: &Vec<EntranceRow>, cost_card: i64) -> (r: Vec<EdgeRow>)
    ensures
        r@ == inter_rows(*p, g, es@, plane, cost_card, es@.len() as int),
{
    let by_n = OwnerMap::from_tiles(&labelled_tiles(es, plane, Dir::N));
    let by_s = OwnerMap::from_tiles(&labelled_tiles(es, plane, Dir::S));
    let by_e = OwnerMap::from_tiles(&labelled_tiles(es, plane, Dir::E));
    let by_w = OwnerMap::from_tiles(&labelled_tiles(es, plane, Dir::W));
    let mut r: Vec<EdgeRow> = Vec::new();
    let mut i: usize = 0;
    while i < es.len()
        invariant
            0 <= i <= es.len(),
            r@ == inter_rows(*p, g, es@, plane, cost_card, i as int),
            forall|x: int, y: int| #[trigger] by_n.lookup(x, y) == owner(labelled(es@, plane, Dir::N), x, y),
            forall|x: int, y: int| #[trigger] by_s.lookup(x, y) == owner(labelled(es@, plane, Dir::S), x, y),
            forall|x: int, y: int| #[trigger] by_e.lookup(x, y) == owner(labelled(es@, plane, Dir::E), x, y),
            forall|x: int, y: int| #[trigger] by_w.lookup(x, y) == owner(labelled(es@, plane, Dir::W), x, y),
        decreases es.len() - i,
    {
        let e = es[i];
        i = i + 1;
        if e.plane != plane || e.dir == Dir::TP {
            continue;
        }
        let (dx, dy) = dir_delta(e.dir);
        let nx = e.x as i64 + dx as i64;
        let ny = e.y as i64 + dy as i64;
        if nx < i32::MIN as i64 || nx > i32::MAX as i64 || ny < i32::MIN as i64 || ny > i32::MAX as i64 {
            proof {
                g.lemma_outside_empty(nx as int, ny as int);
            }
            continue;
        }
        if !can_step(p, g, e.x, e.y, nx as i32, ny as i32) {
            continue;
        }
        let table = match opposite(e.dir) {
            Dir::N => &by_n,
            Dir::S => &by_s,
            Dir::E => &by_e,
            _ => &by_w,
        };
        match table.get(nx, ny) {
            Some(o) => {
                r.push(EdgeRow { from: e.entrance_id, to: o, cost: cost_card });
                r.push(EdgeRow { from: o, to: e.entrance_id, cost: cost_card });
            },
            None => {},
        }
    }
    r
}

} // verus!
