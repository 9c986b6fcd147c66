use std::collections::{HashMap, HashSet};
use vstd::prelude::*;
use crate::grid::{lemma_tile_key_injective, pack_tile, tile_key};
use crate::neighbor_policy::{MovementPolicy, Offset, is_unit_step, lemma_policy_step_offset, policy_step};
use crate::tile_set::TileSet;
use crate::models::{delta_of, dir_delta, Dir, EntranceRow};
use crate::owner_map::OwnerMap;
use crate::path_blob::{blob_of, breakpoints, encode_path_blob};
use crate::tile_order::{tile_less, tile_lt};

verus! {

broadcast use {vstd::std_specs::hash::group_hash_axioms, vstd::seq_lib::group_seq_properties};

/// Totals reported by the intra connector.
#[derive(Clone, Debug, Default)]
pub struct IntraStats {
    pub clusters_processed: usize,
    pub edges_created: usize,
}

/// Cost of one step: straight when the tiles share a row or a column, diagonal otherwise.
pub open spec fn step_cost(a: (i32, i32), b: (i32, i32), cost_card: i64, cost_diag: i64) -> int {
    if a.0 == b.0 || a.1 == b.1 {
        cost_card as int
    } else {
        cost_diag as int
    }
}

/// Total cost of a walk.
pub open spec fn walk_cost(w: Seq<(i32, i32)>, cost_card: i64, cost_diag: i64) -> int
    decreases w.len(),
{
    if w.len() <= 1 {
        0
    } else {
        walk_cost(w.drop_last(), cost_card, cost_diag) + step_cost(w[w.len() - 2], w.last(), cost_card, cost_diag)
    }
}

/// `w` walks from `start` to `goal` through tiles of the set (a walk of one
/// tile needs no set membership: it is the empty walk from a tile to itself).
pub open spec fn valid_walk(p: MovementPolicy, tiles: Seq<(i32, i32)>, w: Seq<(i32, i32)>, start: (i32, i32), goal: (i32, i32)) -> bool {
    &&& w.len() >= 1
    &&& w[0] == start
    &&& w.last() == goal
    &&& w.len() > 1 ==> forall|k: int| 0 <= k < w.len() ==> tiles.contains(#[trigger] w[k])
    &&& forall|k: int| 0 <= k < w.len() - 1 ==> policy_step(p, #[trigger] w[k], w[k + 1])
}

fn reverse_tiles(v: &Vec<(i32, i32)>) -> (r: Vec<(i32, i32)>)
    ensures
        r@.len() == v@.len(),
        forall|k: int| 0 <= k < v@.len() ==> r@[k] == v@[v@.len() - 1 - k],
{
    let mut r: Vec<(i32, i32)> = Vec::new();
    let mut i: usize = v.len();
    while i > 0
        invariant
            0 <= i <= v.len(),
            r@.len() == v.len() - i,
            forall|k: int| 0 <= k < r@.len() ==> r@[k] == v@[v@.len() - 1 - k],
        decreases i,
    {
        i = i - 1;
        r.push(v[i]);
    }
    r
}

pub open spec fn dist_at(dist: Map<u64, i64>, t: (i32, i32)) -> int {
    dist[tile_key(t.0, t.1)] as int
}

pub open spec fn settled(dist: Map<u64, i64>, t: (i32, i32)) -> bool {
    dist.contains_key(tile_key(t.0, t.1))
}

/// The distances certify a shortest distance to `goal`: `start` is at 0;
/// every step out of an expanded tile to a tile of the set reaches a tile with
/// a distance no greater than the expanded one's plus the step's cost; and
/// `goal` has a distance no greater than that of any tile not expanded.
pub open spec fn certified(
    p: MovementPolicy,
    tiles: Seq<(i32, i32)>,
    dist: Map<u64, i64>,
    expanded: Set<u64>,
    start: (i32, i32),
    goal: (i32, i32),
    cost_card: i64,
    cost_diag: i64,
) -> bool {
    &&& settled(dist, start)
    &&& dist_at(dist, start) == 0
    &&& settled(dist, goal)
    &&& forall|u: (i32, i32)| #[trigger] expanded.contains(tile_key(u.0, u.1)) ==> settled(dist, u)
    &&& forall|u: (i32, i32), v: (i32, i32)|
        #![trigger expanded.contains(tile_key(u.0, u.1)), policy_step(p, u, v)]
        expanded.contains(tile_key(u.0, u.1)) && tiles.contains(v) && policy_step(p, u, v) ==> settled(dist, v)
            && dist_at(dist, v) <= dist_at(dist, u) + step_cost(u, v, cost_card, cost_diag)
    &&& forall|v: (i32, i32)|
        #[trigger] settled(dist, v) && !expanded.contains(tile_key(v.0, v.1)) ==> dist_at(dist, goal) <= dist_at(dist, v)
}

proof fn lemma_prefix_cost(w: Seq<(i32, i32)>, k: int, cost_card: i64, cost_diag: i64)
    requires
        0 <= k < w.len(),
        cost_card >= 0,
        cost_diag >= 0,
    ensures
        walk_cost(w.subrange(0, k + 1), cost_card, cost_diag) <= walk_cost(w, cost_card, cost_diag),
    decreases w.len() - k,
{
    if k < w.len() - 1 {
        lemma_prefix_cost(w.drop_last(), k, cost_card, cost_diag);
        assert(w.drop_last().subrange(0, k + 1) =~= w.subrange(0, k + 1));
        assert(step_cost(w[w.len() - 2], w.last(), cost_card, cost_diag) >= 0);
    } else {
        assert(w.subrange(0, k + 1) =~= w);
    }
}

/// A walk whose tiles before index `k` are all expanded reaches `w[k]` at no
/// less than its distance.
proof fn lemma_expanded_prefix(
    p: MovementPolicy,
    tiles: Seq<(i32, i32)>,
    dist: Map<u64, i64>,
    expanded: Set<u64>,
    start: (i32, i32),
    goal: (i32, i32),
    cost_card: i64,
    cost_diag: i64,
    w: Seq<(i32, i32)>,
    k: int,
)
    requires
        certified(p, tiles, dist, expanded, start, goal, cost_card, cost_diag),
        valid_walk(p, tiles, w, start, goal),
        0 <= k < w.len(),
        forall|j: int| 0 <= j < k ==> expanded.contains(tile_key(#[trigger] w[j].0, w[j].1)),
    ensures
        settled(dist, w[k]),
        dist_at(dist, w[k]) <= walk_cost(w.subrange(0, k + 1), cost_card, cost_diag),
    decreases k,
{
    let pre = w.subrange(0, k + 1);
    if k == 0 {
        assert(pre.len() == 1);
    } else {
        lemma_expanded_prefix(p, tiles, dist, expanded, start, goal, cost_card, cost_diag, w, k - 1);
        assert(pre.drop_last() =~= w.subrange(0, k));
        assert(pre[pre.len() - 2] == w[k - 1] && pre.last() == w[k]);
        assert(policy_step(p, w[k - 1], w[k]));
        assert(tiles.contains(w[k]));
        assert(expanded.contains(tile_key(w[k - 1].0, w[k - 1].1)));
    }
}

#[verifier::rlimit(100)]
proof fn lemma_certified_scan(
    p: MovementPolicy,
    tiles: Seq<(i32, i32)>,
    dist: Map<u64, i64>,
    expanded: Set<u64>,
    start: (i32, i32),
    goal: (i32, i32),
    cost_card: i64,
    cost_diag: i64,
    w: Seq<(i32, i32)>,
    k: int,
)
    requires
        certified(p, tiles, dist, expanded, start, goal, cost_card, cost_diag),
        valid_walk(p, tiles, w, start, goal),
        cost_card >= 0,
        cost_diag >= 0,
        0 <= k < w.len(),
        forall|j: int| 0 <= j < k ==> expanded.contains(tile_key(#[trigger] w[j].0, w[j].1)),
    ensures
        dist_at(dist, goal) <= walk_cost(w, cost_card, cost_diag),
    decreases w.len() - k,
{
    lemma_expanded_prefix(p, tiles, dist, expanded, start, goal, cost_card, cost_diag, w, k);
    lemma_prefix_cost(w, k, cost_card, cost_diag);
    if k == w.len() - 1 {
        assert(w.subrange(0, k + 1) =~= w);
    } else if !expanded.contains(tile_key(w[k].0, w[k].1)) {
        assert(settled(dist, w[k]));
        assert(dist_at(dist, goal) <= dist_at(dist, w[k]));
    } else {
        assert forall|j: int| 0 <= j < k + 1 implies expanded.contains(tile_key(#[trigger] w[j].0, w[j].1)) by {}
        lemma_certified_scan(p, tiles, dist, expanded, start, goal, cost_card, cost_diag, w, k + 1);
    }
}

/// Under a certificate, no walk from `start` to `goal` in the set is cheaper
/// than the distance of `goal`.
pub proof fn lemma_certified_optimal(
    p: MovementPolicy,
    tiles: Seq<(i32, i32)>,
    dist: Map<u64, i64>,
    expanded: Set<u64>,
    start: (i32, i32),
    goal: (i32, i32),
    cost_card: i64,
    cost_diag: i64,
    w: Seq<(i32, i32)>,
)
    requires
        certified(p, tiles, dist, expanded, start, goal, cost_card, cost_diag),
        valid_walk(p, tiles, w, start, goal),
        cost_card >= 0,
        cost_diag >= 0,
    ensures
        dist_at(dist, goal) <= walk_cost(w, cost_card, cost_diag),
{
    lemma_certified_scan(p, tiles, dist, expanded, start, goal, cost_card, cost_diag, w, 0);
}

/// Walks never cost less than nothing.
pub proof fn lemma_walk_cost_nonneg(w: Seq<(i32, i32)>, cost_card: i64, cost_diag: i64)
    requires
        cost_card >= 0,
        cost_diag >= 0,
    ensures
        walk_cost(w, cost_card, cost_diag) >= 0,
    decreases w.len(),
{
    if w.len() > 1 {
        lemma_walk_cost_nonneg(w.drop_last(), cost_card, cost_diag);
    }
}

fn same_tile(a: (i32, i32), b: (i32, i32)) -> (r: bool)
    ensures
        r == (a == b),
{
    a.0 == b.0 && a.1 == b.1
}

fn key_less(a: (i64, i32, i32), b: (i64, i32, i32)) -> (r: bool)
    ensures
        r ==> a.0 <= b.0,
        !r ==> b.0 <= a.0,
{
    a.0 < b.0 || (a.0 == b.0 && (a.1 < b.1 || (a.1 == b.1 && a.2 < b.2)))
}

pub open spec fn node(e: (i64, i32, i32)) -> (i32, i32) {
    (e.1, e.2)
}

pub open spec fn is_done(done: Set<u64>, t: (i32, i32)) -> bool {
    done.contains(tile_key(t.0, t.1))
}

pub open spec fn pred_of(prev: Map<u64, (i32, i32)>, t: (i32, i32)) -> (i32, i32) {
    prev[tile_key(t.0, t.1)]
}

pub open spec fn rank_of(rank: Map<u64, nat>, t: (i32, i32)) -> nat {
    rank[tile_key(t.0, t.1)]
}

/// The frontier holds exactly the reached, unexpanded tiles, each at its distance.
#[verifier::opaque]
spec fn frontier_ok(fr: Seq<(i64, i32, i32)>, dist: Map<u64, i64>, done: Set<u64>) -> bool {
    &&& forall|k: int|
        0 <= k < fr.len() ==> settled(dist, node(#[trigger] fr[k])) && !is_done(done, node(fr[k])) && fr[k].0 == dist_at(
            dist,
            node(fr[k]),
        )
    &&& forall|t: (i32, i32)| #[trigger] settled(dist, t) && !is_done(done, t) ==> exists|k: int| 0 <= k < fr.len() && node(#[trigger] fr[k]) == t
}

/// Steps out of expanded tiles (but `ex`) are relaxed.
#[verifier::opaque]
spec fn closed_ok(p: MovementPolicy, list: Seq<(i32, i32)>, dist: Map<u64, i64>, done: Set<u64>, cc: i64, cd: i64, ex: Option<(i32, i32)>) -> bool {
    forall|u: (i32, i32), v: (i32, i32)|
        #![trigger is_done(done, u), policy_step(p, u, v)]
        is_done(done, u) && ex != Some(u) && list.contains(v) && policy_step(p, u, v) ==> settled(dist, v) && dist_at(dist, v)
            <= dist_at(dist, u) + step_cost(u, v, cc, cd)
}

/// A reached tile other than the start has an expanded predecessor one step
/// back at exactly the step's cost, expanded earlier than it when it is itself expanded.
spec fn pred_ok(
    p: MovementPolicy,
    dist: Map<u64, i64>,
    done: Set<u64>,
    prev: Map<u64, (i32, i32)>,
    rank: Map<u64, nat>,
    n: (i32, i32),
    cc: i64,
    cd: i64,
) -> bool {
    &&& prev.contains_key(tile_key(n.0, n.1))
    &&& is_done(done, pred_of(prev, n))
    &&& policy_step(p, pred_of(prev, n), n)
    &&& dist_at(dist, n) == dist_at(dist, pred_of(prev, n)) + step_cost(pred_of(prev, n), n, cc, cd)
    &&& is_done(done, n) ==> rank_of(rank, pred_of(prev, n)) < rank_of(rank, n)
}

/// The search state between expansions.
#[verifier::opaque]
spec fn search_ok(
    p: MovementPolicy,
    list: Seq<(i32, i32)>,
    dist: Map<u64, i64>,
    done: Set<u64>,
    prev: Map<u64, (i32, i32)>,
    rank: Map<u64, nat>,
    start: (i32, i32),
    goal: (i32, i32),
    cc: i64,
    cd: i64,
    m: int,
    tkeys: Set<u64>,
) -> bool {
    &&& settled(dist, start)
    &&& dist_at(dist, start) == 0
    &&& !is_done(done, goal)
    &&& done.subset_of(tkeys)
    &&& tkeys.finite()
    &&& forall|t: (i32, i32)| #[trigger] settled(dist, t) ==> list.contains(t) && 0 <= dist_at(dist, t) <= done.len() * m
    &&& forall|t: (i32, i32)|
        #[trigger] is_done(done, t) ==> settled(dist, t) && rank.contains_key(tile_key(t.0, t.1)) && rank_of(rank, t) < done.len()
            && (t != start ==> rank_of(rank, t) >= 1)
    &&& forall|f: (i32, i32), t: (i32, i32)|
        #![trigger is_done(done, f), settled(dist, t)]
        is_done(done, f) && settled(dist, t) && !is_done(done, t) ==> dist_at(dist, f) <= dist_at(dist, t)
    &&& forall|n: (i32, i32)| #[trigger] settled(dist, n) && n != start ==> pred_ok(p, dist, done, prev, rank, n, cc, cd)
}

proof fn lemma_done_bound(
    p: MovementPolicy,
    list: Seq<(i32, i32)>,
    dist: Map<u64, i64>,
    done: Set<u64>,
    prev: Map<u64, (i32, i32)>,
    rank: Map<u64, nat>,
    start: (i32, i32),
    goal: (i32, i32),
    cc: i64,
    cd: i64,
    m: int,
    tkeys: Set<u64>,
)
    requires
        search_ok(p, list, dist, done, prev, rank, start, goal, cc, cd, m, tkeys),
    ensures
        done.subset_of(tkeys),
        tkeys.finite(),
        done.finite(),
        done.len() <= tkeys.len(),
        settled(dist, start),
        !is_done(done, goal),
{
    reveal(search_ok);
    vstd::set_lib::lemma_len_subset(done, tkeys);
}

/// Every expanded tile's distance is a lower bound on the walks to it.
#[verifier::opaque]
spec fn opt_ok(p: MovementPolicy, list: Seq<(i32, i32)>, dist: Map<u64, i64>, done: Set<u64>, start: (i32, i32), cc: i64, cd: i64) -> bool {
    forall|u: (i32, i32), w: Seq<(i32, i32)>|
        #![trigger is_done(done, u), valid_walk(p, list, w, start, u)]
        is_done(done, u) && valid_walk(p, list, w, start, u) ==> dist_at(dist, u) <= walk_cost(w, cc, cd)
}

/// The tile taken off the frontier has a distance no walk undercuts.
proof fn lemma_extracted_lower(
    p: MovementPolicy,
    list: Seq<(i32, i32)>,
    dist: Map<u64, i64>,
    done: Set<u64>,
    prev: Map<u64, (i32, i32)>,
    rank: Map<u64, nat>,
    start: (i32, i32),
    goal: (i32, i32),
    cc: i64,
    cd: i64,
    m: int,
    tkeys: Set<u64>,
    u: (i32, i32),
)
    requires
        cc >= 0,
        cd >= 0,
        search_ok(p, list, dist, done, prev, rank, start, goal, cc, cd, m, tkeys),
        closed_ok(p, list, dist, done, cc, cd, None),
        settled(dist, u),
        forall|t: (i32, i32)| #[trigger] settled(dist, t) && !is_done(done, t) ==> dist_at(dist, u) <= dist_at(dist, t),
    ensures
        forall|w: Seq<(i32, i32)>| valid_walk(p, list, w, start, u) ==> dist_at(dist, u) <= walk_cost(w, cc, cd),
{
    reveal(search_ok);
    reveal(closed_ok);
    assert forall|x: (i32, i32)| #[trigger] done.contains(tile_key(x.0, x.1)) implies settled(dist, x) by {
        assert(is_done(done, x));
    }
    assert forall|x: (i32, i32), v: (i32, i32)|
        #![trigger done.contains(tile_key(x.0, x.1)), policy_step(p, x, v)]
        done.contains(tile_key(x.0, x.1)) && list.contains(v) && policy_step(p, x, v) implies settled(dist, v) && dist_at(dist, v)
            <= dist_at(dist, x) + step_cost(x, v, cc, cd) by {
        assert(is_done(done, x));
    }
    assert forall|v: (i32, i32)| #[trigger] settled(dist, v) && !done.contains(tile_key(v.0, v.1)) implies dist_at(dist, u) <= dist_at(dist, v) by {
        assert(!is_done(done, v));
    }
    assert(certified(p, list, dist, done, start, u, cc, cd));
    assert forall|w: Seq<(i32, i32)>| valid_walk(p, list, w, start, u) implies dist_at(dist, u) <= walk_cost(w, cc, cd) by {
        lemma_certified_optimal(p, list, dist, done, start, u, cc, cd, w);
    }
}

/// Every reached tile's distance is the cost of some walk to it.
#[verifier::rlimit(100)]
proof fn lemma_settled_walk(
    p: MovementPolicy,
    list: Seq<(i32, i32)>,
    dist: Map<u64, i64>,
    done: Set<u64>,
    prev: Map<u64, (i32, i32)>,
    rank: Map<u64, nat>,
    start: (i32, i32),
    goal: (i32, i32),
    cc: i64,
    cd: i64,
    m: int,
    tkeys: Set<u64>,
    n: (i32, i32),
) -> (w: Seq<(i32, i32)>)
    requires
        search_ok(p, list, dist, done, prev, rank, start, goal, cc, cd, m, tkeys),
        settled(dist, n),
    ensures
        valid_walk(p, list, w, start, n),
        walk_cost(w, cc, cd) == dist_at(dist, n),
    decreases (if is_done(done, n) { rank_of(rank, n) as int } else { done.len() as int }),
{
    reveal(search_ok);
    if n == start {
        seq![start]
    } else {
        assert(pred_ok(p, dist, done, prev, rank, n, cc, cd));
        let q = pred_of(prev, n);
        let w0 = lemma_settled_walk(p, list, dist, done, prev, rank, start, goal, cc, cd, m, tkeys, q);
        let w = w0.push(n);
        assert(w.drop_last() == w0);
        assert(w[w.len() - 2] == q);
        assert(list.contains(n) && list.contains(q));
        assert forall|k: int| 0 <= k < w.len() implies list.contains(#[trigger] w[k]) by {
            if k < w0.len() {
                assert(w[k] == w0[k]);
                if w0.len() == 1 {
                    assert(w0[0] == start);
                }
            }
        }
        assert forall|k: int| 0 <= k < w.len() - 1 implies policy_step(p, #[trigger] w[k], w[k + 1]) by {
            if k < w0.len() - 1 {
                assert(w[k] == w0[k] && w[k + 1] == w0[k + 1]);
            }
        }
        w
    }
}

/// Once `goal` leads the frontier, a tile reachable more cheaply than `goal`'s
/// distance has been expanded.
proof fn lemma_cheaper_done(
    p: MovementPolicy,
    list: Seq<(i32, i32)>,
    dist: Map<u64, i64>,
    done: Set<u64>,
    prev: Map<u64, (i32, i32)>,
    rank: Map<u64, nat>,
    start: (i32, i32),
    goal: (i32, i32),
    cc: i64,
    cd: i64,
    m: int,
    tkeys: Set<u64>,
    w: Seq<(i32, i32)>,
    t: (i32, i32),
)
    requires
        cc >= 0,
        cd >= 0,
        search_ok(p, list, dist, done, prev, rank, start, goal, cc, cd, m, tkeys),
        closed_ok(p, list, dist, done, cc, cd, None),
        settled(dist, goal),
        forall|x: (i32, i32)| #[trigger] settled(dist, x) && !is_done(done, x) ==> dist_at(dist, goal) <= dist_at(dist, x),
        valid_walk(p, list, w, start, t),
        walk_cost(w, cc, cd) < dist_at(dist, goal),
    ensures
        is_done(done, t),
{
    lemma_reached_certified(p, list, dist, done, prev, rank, start, goal, cc, cd, m, tkeys);
    reveal(search_ok);
    lemma_walk_cost_nonneg(w, cc, cd);
    lemma_first_open(p, list, dist, done, start, goal, cc, cd, w, t, 0);
}

proof fn lemma_first_open(
    p: MovementPolicy,
    list: Seq<(i32, i32)>,
    dist: Map<u64, i64>,
    done: Set<u64>,
    start: (i32, i32),
    goal: (i32, i32),
    cc: i64,
    cd: i64,
    w: Seq<(i32, i32)>,
    t: (i32, i32),
    k: int,
)
    requires
        cc >= 0,
        cd >= 0,
        certified(p, list, dist, done, start, goal, cc, cd),
        valid_walk(p, list, w, start, t),
        walk_cost(w, cc, cd) < dist_at(dist, goal),
        0 <= k < w.len(),
        forall|j: int| 0 <= j < k ==> done.contains(tile_key(#[trigger] w[j].0, w[j].1)),
    ensures
        done.contains(tile_key(t.0, t.1)),
    decreases w.len() - k,
{
    // The walk bounds the distance of its first unexpanded tile, which no
    // unexpanded tile can have below the goal's.
    assert(valid_walk(p, list, w, start, w.last()));
    lemma_expanded_prefix_any(p, list, dist, done, start, goal, cc, cd, w, k);
    lemma_prefix_cost(w, k, cc, cd);
    if !done.contains(tile_key(w[k].0, w[k].1)) {
        assert(settled(dist, w[k]));
        assert(dist_at(dist, goal) <= dist_at(dist, w[k]));
    } else if k < w.len() - 1 {
        lemma_first_open(p, list, dist, done, start, goal, cc, cd, w, t, k + 1);
    }
}

/// A walk whose tiles before index `k` are all expanded reaches `w[k]` at no
/// less than its distance (for a walk to any tile).
proof fn lemma_expanded_prefix_any(
    p: MovementPolicy,
    tiles: Seq<(i32, i32)>,
    dist: Map<u64, i64>,
    expanded: Set<u64>,
    start: (i32, i32),
    goal: (i32, i32),
    cost_card: i64,
    cost_diag: i64,
    w: Seq<(i32, i32)>,
    k: int,
)
    requires
        certified(p, tiles, dist, expanded, start, goal, cost_card, cost_diag),
        valid_walk(p, tiles, w, start, w.last()),
        0 <= k < w.len(),
        forall|j: int| 0 <= j < k ==> expanded.contains(tile_key(#[trigger] w[j].0, w[j].1)),
    ensures
        settled(dist, w[k]),
        dist_at(dist, w[k]) <= walk_cost(w.subrange(0, k + 1), cost_card, cost_diag),
    decreases k,
{
    let pre = w.subrange(0, k + 1);
    if k == 0 {
        assert(pre.len() == 1);
    } else {
        lemma_expanded_prefix_any(p, tiles, dist, expanded, start, goal, cost_card, cost_diag, w, k - 1);
        assert(pre.drop_last() =~= w.subrange(0, k));
        assert(pre[pre.len() - 2] == w[k - 1] && pre.last() == w[k]);
        assert(policy_step(p, w[k - 1], w[k]));
        assert(tiles.contains(w[k]));
        assert(expanded.contains(tile_key(w[k - 1].0, w[k - 1].1)));
    }
}

/// Removes every frontier entry of tile `(x, y)`.
fn remove_node(fr: &mut Vec<(i64, i32, i32)>, x: i32, y: i32)
    ensures
        forall|k: int| 0 <= k < final(fr)@.len() ==> old(fr)@.contains(#[trigger] final(fr)@[k]) && node(final(fr)@[k]) != (x, y),
        forall|k: int| 0 <= k < old(fr)@.len() && node(#[trigger] old(fr)@[k]) != (x, y) ==> final(fr)@.contains(old(fr)@[k]),
{
    let mut out: Vec<(i64, i32, i32)> = Vec::new();
    let mut i: usize = 0;
    while i < fr.len()
        invariant
            0 <= i <= fr@.len(),
            forall|k: int| 0 <= k < out@.len() ==> fr@.contains(#[trigger] out@[k]) && node(out@[k]) != (x, y),
            forall|k: int| 0 <= k < i && node(#[trigger] fr@[k]) != (x, y) ==> out@.contains(fr@[k]),
        decreases fr.len() - i,
    {
        let e = fr[i];
        if !(e.1 == x && e.2 == y) {
            let ghost o0 = out@;
            out.push(e);
            proof {
                assert(out@[out@.len() - 1] == e);
                assert(fr@.contains(fr@[i as int]));
                assert forall|k: int| 0 <= k < i + 1 && node(#[trigger] fr@[k]) != (x, y) implies out@.contains(fr@[k]) by {
                    if k < i {
                        let j = choose|j: int| 0 <= j < o0.len() && o0[j] == fr@[k];
                        assert(out@[j] == fr@[k]);
                    }
                }
            }
        }
        i = i + 1;
    }
    *fr = out;
}

proof fn lemma_offset_is_policy_step(p: MovementPolicy, offs: Seq<Offset>, k: int, u: (i32, i32), v: (i32, i32))
    requires
        offs == p.offsets(),
        0 <= k < offs.len(),
        v.0 == u.0 + offs[k].0,
        v.1 == u.1 + offs[k].1,
    ensures
        policy_step(p, u, v),
{
}

proof fn lemma_prepend_cost(a: (i32, i32), w: Seq<(i32, i32)>, cc: i64, cd: i64)
    requires
        w.len() >= 1,
    ensures
        walk_cost(seq![a] + w, cc, cd) == step_cost(a, w[0], cc, cd) + walk_cost(w, cc, cd),
    decreases w.len(),
{
    let aw = seq![a] + w;
    assert(aw.len() == w.len() + 1);
    if w.len() == 1 {
        assert(aw.drop_last() =~= seq![a]);
        assert(aw[aw.len() - 2] == a && aw.last() == w[0]);
        assert(walk_cost(seq![a], cc, cd) == 0);
        assert(walk_cost(w, cc, cd) == 0);
    } else {
        lemma_prepend_cost(a, w.drop_last(), cc, cd);
        assert(aw.drop_last() =~= seq![a] + w.drop_last());
        assert(aw[aw.len() - 2] == w[w.len() - 2] && aw.last() == w.last());
        assert(w.drop_last()[0] == w[0]);
    }
}

/// No tile occurs twice.
pub open spec fn no_repeat(s: Seq<(i32, i32)>) -> bool {
    forall|i: int, j: int| 0 <= i < j < s.len() ==> s[i] != s[j]
}

pub open spec fn rev(s: Seq<(i32, i32)>) -> Seq<(i32, i32)> {
    Seq::new(s.len(), |k: int| s[s.len() - 1 - k])
}

/// With every reached tile expanded and steps out of them relaxed, a walk
/// from the start reaches only reached tiles.
proof fn lemma_closed_walk(
    p: MovementPolicy,
    list: Seq<(i32, i32)>,
    dist: Map<u64, i64>,
    done: Set<u64>,
    start: (i32, i32),
    goal: (i32, i32),
    cc: i64,
    cd: i64,
    w: Seq<(i32, i32)>,
    k: int,
)
    requires
        closed_ok(p, list, dist, done, cc, cd, None),
        forall|t: (i32, i32)| #[trigger] settled(dist, t) ==> is_done(done, t),
        settled(dist, start),
        valid_walk(p, list, w, start, goal),
        w.len() > 1,
        0 <= k < w.len(),
    ensures
        settled(dist, w[k]),
    decreases k,
{
    reveal(closed_ok);
    if k > 0 {
        lemma_closed_walk(p, list, dist, done, start, goal, cc, cd, w, k - 1);
        assert(policy_step(p, w[k - 1], w[k]));
        assert(list.contains(w[k]));
        assert(is_done(done, w[k - 1]));
    }
}

proof fn lemma_unreached_no_walk(
    p: MovementPolicy,
    list: Seq<(i32, i32)>,
    dist: Map<u64, i64>,
    done: Set<u64>,
    prev: Map<u64, (i32, i32)>,
    rank: Map<u64, nat>,
    fr: Seq<(i64, i32, i32)>,
    start: (i32, i32),
    goal: (i32, i32),
    cc: i64,
    cd: i64,
    m: int,
    tkeys: Set<u64>,
)
    requires
        search_ok(p, list, dist, done, prev, rank, start, goal, cc, cd, m, tkeys),
        frontier_ok(fr, dist, done),
        closed_ok(p, list, dist, done, cc, cd, None),
        fr.len() == 0,
    ensures
        forall|w2: Seq<(i32, i32)>| !valid_walk(p, list, w2, start, goal),
{
    reveal(frontier_ok);
    reveal(search_ok);
    assert forall|t: (i32, i32)| #[trigger] settled(dist, t) implies is_done(done, t) by {
        if !is_done(done, t) {
            let k = choose|k: int| 0 <= k < fr.len() && node(#[trigger] fr[k]) == t;
        }
    }
    assert forall|w2: Seq<(i32, i32)>| !valid_walk(p, list, w2, start, goal) by {
        if valid_walk(p, list, w2, start, goal) {
            if w2.len() == 1 {
                assert(start == goal);
                assert(is_done(done, start));
            } else {
                lemma_closed_walk(p, list, dist, done, start, goal, cc, cd, w2, w2.len() - 1);
                assert(is_done(done, w2[w2.len() - 1]));
            }
        }
    }
}

proof fn lemma_reached_certified(
    p: MovementPolicy,
    list: Seq<(i32, i32)>,
    dist: Map<u64, i64>,
    done: Set<u64>,
    prev: Map<u64, (i32, i32)>,
    rank: Map<u64, nat>,
    start: (i32, i32),
    goal: (i32, i32),
    cc: i64,
    cd: i64,
    m: int,
    tkeys: Set<u64>,
)
    requires
        search_ok(p, list, dist, done, prev, rank, start, goal, cc, cd, m, tkeys),
        closed_ok(p, list, dist, done, cc, cd, None),
        settled(dist, goal),
        forall|t: (i32, i32)| #[trigger] settled(dist, t) && !is_done(done, t) ==> dist_at(dist, goal) <= dist_at(dist, t),
    ensures
        certified(p, list, dist, done, start, goal, cc, cd),
{
    reveal(search_ok);
    reveal(closed_ok);
    assert forall|u: (i32, i32)| #[trigger] done.contains(tile_key(u.0, u.1)) implies settled(dist, u) by {
        assert(is_done(done, u));
    }
    assert forall|u: (i32, i32), v: (i32, i32)|
        #![trigger done.contains(tile_key(u.0, u.1)), policy_step(p, u, v)]
        done.contains(tile_key(u.0, u.1)) && list.contains(v) && policy_step(p, u, v) implies settled(dist, v) && dist_at(dist, v)
            <= dist_at(dist, u) + step_cost(u, v, cc, cd) by {
        assert(is_done(done, u));
    }
    assert forall|v: (i32, i32)| #[trigger] settled(dist, v) && !done.contains(tile_key(v.0, v.1)) implies dist_at(dist, goal) <= dist_at(dist, v) by {
        assert(!is_done(done, v));
    }
}

proof fn lemma_pred_facts(
    p: MovementPolicy,
    list: Seq<(i32, i32)>,
    dist: Map<u64, i64>,
    done: Set<u64>,
    prev: Map<u64, (i32, i32)>,
    rank: Map<u64, nat>,
    start: (i32, i32),
    goal: (i32, i32),
    cc: i64,
    cd: i64,
    m: int,
    tkeys: Set<u64>,
    cur: (i32, i32),
)
    requires
        search_ok(p, list, dist, done, prev, rank, start, goal, cc, cd, m, tkeys),
        settled(dist, cur),
        cur != start,
    ensures
        pred_ok(p, dist, done, prev, rank, cur, cc, cd),
        settled(dist, pred_of(prev, cur)),
        list.contains(pred_of(prev, cur)),
        rank_of(rank, pred_of(prev, cur)) < done.len(),
        !is_done(done, goal),
        list.contains(goal) || !settled(dist, goal),
{
    reveal(search_ok);
}

/// `d` is the least cost of a walk from `start` to `t`, and some walk has it.
pub open spec fn shortest_to(p: MovementPolicy, tiles: Seq<(i32, i32)>, start: (i32, i32), t: (i32, i32), d: int, cc: i64, cd: i64) -> bool {
    (exists|w: Seq<(i32, i32)>| valid_walk(p, tiles, w, start, t) && walk_cost(w, cc, cd) == d) && (forall|w: Seq<(i32, i32)>|
        valid_walk(p, tiles, w, start, t) ==> d <= walk_cost(w, cc, cd))
}

/// Tile `a` is an optimal predecessor of `b`: one step of the policy before
/// `b`, with the shortest distance of `a` plus the step equal to that of `b`.
pub open spec fn optimal_pred(p: MovementPolicy, tiles: Seq<(i32, i32)>, start: (i32, i32), a: (i32, i32), b: (i32, i32), cc: i64, cd: i64) -> bool {
    tiles.contains(a) && policy_step(p, a, b) && exists|da: int, db: int|
        #![trigger shortest_to(p, tiles, start, a, da, cc, cd), shortest_to(p, tiles, start, b, db, cc, cd)]
        shortest_to(p, tiles, start, a, da, cc, cd) && shortest_to(p, tiles, start, b, db, cc, cd) && da + step_cost(a, b, cc, cd) == db
}

/// The tie-broken shortest walk: each tile after the first is reached from its
/// optimal predecessor with the smallest `(x, y)`.
pub open spec fn canonical_walk(p: MovementPolicy, tiles: Seq<(i32, i32)>, start: (i32, i32), goal: (i32, i32), w: Seq<(i32, i32)>, cc: i64, cd: i64) -> bool {
    &&& valid_walk(p, tiles, w, start, goal)
    &&& forall|i: int| 1 <= i < w.len() ==> optimal_pred(p, tiles, start, #[trigger] w[i - 1], w[i], cc, cd)
    &&& forall|i: int, a: (i32, i32)|
        1 <= i < w.len() && #[trigger] optimal_pred(p, tiles, start, a, w[i], cc, cd) ==> !tile_lt(a, w[i - 1])
}

/// With positive step costs the tie-broken shortest walk is unique: the path
/// returned is a function of the start, the goal, the tile set and the policy.
pub proof fn lemma_canonical_unique(
    p: MovementPolicy,
    tiles: Seq<(i32, i32)>,
    start: (i32, i32),
    goal: (i32, i32),
    w1: Seq<(i32, i32)>,
    w2: Seq<(i32, i32)>,
    cc: i64,
    cd: i64,
)
    requires
        cc > 0,
        cd > 0,
        canonical_walk(p, tiles, start, goal, w1, cc, cd),
        canonical_walk(p, tiles, start, goal, w2, cc, cd),
    ensures
        w1 == w2,
    decreases w1.len() + w2.len(),
{
    if w1.len() == 1 || w2.len() == 1 {
        if w1.len() == 1 && w2.len() > 1 {
            lemma_no_pred_of_start(p, tiles, start, w2, cc, cd);
        } else if w2.len() == 1 && w1.len() > 1 {
            lemma_no_pred_of_start(p, tiles, start, w1, cc, cd);
        } else {
            assert(w1 =~= w2);
        }
    } else {
        let n1 = w1.len() - 1;
        let n2 = w2.len() - 1;
        assert(optimal_pred(p, tiles, start, w1[n1 - 1], w1[n1], cc, cd));
        assert(optimal_pred(p, tiles, start, w2[n2 - 1], w2[n2], cc, cd));
        assert(w1[n1] == w2[n2]);
        assert(!tile_lt(w2[n2 - 1], w1[n1 - 1]));
        assert(!tile_lt(w1[n1 - 1], w2[n2 - 1]));
        let a = w1[n1 - 1];
        let v1 = w1.drop_last();
        let v2 = w2.drop_last();
        lemma_canonical_prefix(p, tiles, start, goal, w1, cc, cd);
        lemma_canonical_prefix(p, tiles, start, goal, w2, cc, cd);
        lemma_canonical_unique(p, tiles, start, a, v1, v2, cc, cd);
        assert(w1 =~= v1.push(w1[n1]));
        assert(w2 =~= v2.push(w2[n2]));
    }
}

proof fn lemma_canonical_prefix(p: MovementPolicy, tiles: Seq<(i32, i32)>, start: (i32, i32), goal: (i32, i32), w: Seq<(i32, i32)>, cc: i64, cd: i64)
    requires
        canonical_walk(p, tiles, start, goal, w, cc, cd),
        w.len() > 1,
    ensures
        canonical_walk(p, tiles, start, w[w.len() - 2], w.drop_last(), cc, cd),
{
    let v = w.drop_last();
    assert forall|k: int| 0 <= k < v.len() implies tiles.contains(#[trigger] v[k]) by {
        assert(v[k] == w[k]);
    }
    assert forall|k: int| 0 <= k < v.len() - 1 implies policy_step(p, #[trigger] v[k], v[k + 1]) by {
        assert(v[k] == w[k] && v[k + 1] == w[k + 1]);
    }
    assert forall|i: int| 1 <= i < v.len() implies optimal_pred(p, tiles, start, #[trigger] v[i - 1], v[i], cc, cd) by {
        assert(v[i - 1] == w[i - 1] && v[i] == w[i]);
    }
    assert forall|i: int, a: (i32, i32)| 1 <= i < v.len() && #[trigger] optimal_pred(p, tiles, start, a, v[i], cc, cd) implies !tile_lt(a, v[i - 1]) by {
        assert(v[i - 1] == w[i - 1] && v[i] == w[i]);
    }
}

/// Under positive step costs the start has no optimal predecessor, so a
/// tie-broken walk that ends at the start is the start alone.
proof fn lemma_no_pred_of_start(p: MovementPolicy, tiles: Seq<(i32, i32)>, start: (i32, i32), w: Seq<(i32, i32)>, cc: i64, cd: i64)
    requires
        cc > 0,
        cd > 0,
        canonical_walk(p, tiles, start, start, w, cc, cd),
    ensures
        w.len() == 1,
{
    if w.len() > 1 {
        let n = w.len() - 1;
        assert(optimal_pred(p, tiles, start, w[n - 1], w[n], cc, cd));
        let (da, db) = choose|da: int, db: int|
            #![trigger shortest_to(p, tiles, start, w[n - 1], da, cc, cd), shortest_to(p, tiles, start, w[n], db, cc, cd)]
            shortest_to(p, tiles, start, w[n - 1], da, cc, cd) && shortest_to(p, tiles, start, w[n], db, cc, cd)
                && da + step_cost(w[n - 1], w[n], cc, cd) == db;
        assert(valid_walk(p, tiles, seq![start], start, start));
        assert(walk_cost(seq![start], cc, cd) == 0);
        let wa = choose|x: Seq<(i32, i32)>| valid_walk(p, tiles, x, start, w[n - 1]) && walk_cost(x, cc, cd) == da;
        lemma_walk_cost_nonneg(wa, cc, cd);
    }
}

/// Follows the predecessors back from `goal` to `start`, and returns the walk
/// they trace, which costs the distance of `goal`.
#[verifier::rlimit(100)]
fn trace_back(
    p: &MovementPolicy,
    prev: &HashMap<u64, (i32, i32)>,
    start: (i32, i32),
    goal: (i32, i32),
    cost_card: i64,
    cost_diag: i64,
    Ghost(list): Ghost<Seq<(i32, i32)>>,
    Ghost(dist): Ghost<Map<u64, i64>>,
    Ghost(done): Ghost<Set<u64>>,
    Ghost(rank): Ghost<Map<u64, nat>>,
    Ghost(m): Ghost<int>,
    Ghost(tkeys): Ghost<Set<u64>>,
) -> (w: Vec<(i32, i32)>)
    requires
        search_ok(*p, list, dist, done, prev@, rank, start, goal, cost_card, cost_diag, m, tkeys),
        settled(dist, goal),
        start != goal,
    ensures
        valid_walk(*p, list, w@, start, goal),
        walk_cost(w@, cost_card, cost_diag) == dist_at(dist, goal),
        no_repeat(w@),
{
    proof {
        reveal(search_ok);
    }
    let mut back: Vec<(i32, i32)> = Vec::new();
    let mut cur = goal;
    back.push(cur);
    proof {
        assert(rev(back@) =~= seq![goal]);
        assert(list.contains(goal));
    }
    while !same_tile(cur, start)
        invariant
            search_ok(*p, list, dist, done, prev@, rank, start, goal, cost_card, cost_diag, m, tkeys),
            start != goal,
            settled(dist, goal),
            settled(dist, cur),
            back@.len() >= 1,
            back@[0] == goal,
            back@.last() == cur,
            cur != goal ==> is_done(done, cur),
            forall|k: int| 0 <= k < back@.len() ==> list.contains(#[trigger] back@[k]),
            valid_walk(*p, list, rev(back@), cur, goal),
            walk_cost(rev(back@), cost_card, cost_diag) == dist_at(dist, goal) - dist_at(dist, cur),
            cur == goal <==> back@.len() == 1,
            forall|k: int| 1 <= k < back@.len() ==> is_done(done, #[trigger] back@[k]),
            forall|a: int, b: int| 1 <= a < b < back@.len() ==> rank_of(rank, #[trigger] back@[a]) > rank_of(rank, #[trigger] back@[b]),
            !is_done(done, goal),
        decreases (if cur == goal { done.len() as int + 1 } else { rank_of(rank, cur) as int }),
    {
        proof {
            lemma_pred_facts(*p, list, dist, done, prev@, rank, start, goal, cost_card, cost_diag, m, tkeys, cur);
        }
        let q = match prev.get(&pack_tile(cur.0, cur.1)) {
            Some(q) => *q,
            None => {
                assert(false);
                cur
            },
        };
        let ghost b0 = back@;
        proof {
            assert(q == pred_of(prev@, cur));
        }
        back.push(q);
        proof {
            let r0 = rev(b0);
            assert(rev(back@) =~= seq![q] + r0);
            lemma_prepend_cost(q, r0, cost_card, cost_diag);
            assert(r0[0] == cur);
            let w1 = seq![q] + r0;
            assert forall|k: int| 0 <= k < w1.len() implies list.contains(#[trigger] w1[k]) by {
                if k > 0 {
                    assert(w1[k] == b0[b0.len() - k]);
                }
            }
            assert forall|k: int| 0 <= k < w1.len() - 1 implies policy_step(*p, #[trigger] w1[k], w1[k + 1]) by {
                if k > 0 {
                    assert(w1[k] == r0[k - 1] && w1[k + 1] == r0[k]);
                }
            }
            assert(w1.last() == goal);
            assert(is_done(done, q));
            assert(settled(dist, q));
            assert(list.contains(q));
            if cur != goal {
                assert(rank_of(rank, q) < rank_of(rank, cur));
            } else {
                assert(rank_of(rank, q) < done.len());
            }
            assert(back@[back@.len() - 1] == q);
            assert forall|a: int, b: int| 1 <= a < b < back@.len() implies rank_of(rank, #[trigger] back@[a]) > rank_of(rank, #[trigger] back@[b]) by {
                assert(back@[a] == b0[a]);
                if b < back@.len() - 1 {
                    assert(back@[b] == b0[b]);
                } else if a < b0.len() - 1 {
                    assert(rank_of(rank, b0[a]) > rank_of(rank, b0[b0.len() - 1]));
                }
            }
            assert forall|k: int| 1 <= k < back@.len() implies is_done(done, #[trigger] back@[k]) by {
                if k < b0.len() {
                    assert(back@[k] == b0[k]);
                }
            }
        }
        cur = q;
    }
    let w = reverse_tiles(&back);
    proof {
        assert(w@ =~= rev(back@));
        assert forall|i: int, j: int| 0 <= i < j < w@.len() implies w@[i] != w@[j] by {
            let a = back@.len() - 1 - j;
            let b = back@.len() - 1 - i;
            assert(w@[i] == back@[b] && w@[j] == back@[a]);
            if a == 0 {
                assert(is_done(done, back@[b]));
            } else {
                assert(rank_of(rank, back@[a]) > rank_of(rank, back@[b]));
            }
        }
    }
    w
}

/// The goal once it leads the frontier, and every expanded tile, is at its
/// shortest distance.
proof fn lemma_shortest_at(
    p: MovementPolicy,
    list: Seq<(i32, i32)>,
    dist: Map<u64, i64>,
    done: Set<u64>,
    prev: Map<u64, (i32, i32)>,
    rank: Map<u64, nat>,
    start: (i32, i32),
    goal: (i32, i32),
    cc: i64,
    cd: i64,
    m: int,
    tkeys: Set<u64>,
    t: (i32, i32),
)
    requires
        cc >= 0,
        cd >= 0,
        search_ok(p, list, dist, done, prev, rank, start, goal, cc, cd, m, tkeys),
        closed_ok(p, list, dist, done, cc, cd, None),
        opt_ok(p, list, dist, done, start, cc, cd),
        settled(dist, goal),
        forall|x: (i32, i32)| #[trigger] settled(dist, x) && !is_done(done, x) ==> dist_at(dist, goal) <= dist_at(dist, x),
        t == goal || is_done(done, t),
    ensures
        settled(dist, t),
        shortest_to(p, list, start, t, dist_at(dist, t), cc, cd),
        dist_at(dist, t) <= dist_at(dist, goal),
{
    reveal(search_ok);
    reveal(opt_ok);
    assert(settled(dist, t));
    let w = lemma_settled_walk(p, list, dist, done, prev, rank, start, goal, cc, cd, m, tkeys, t);
    if t == goal {
        lemma_extracted_lower(p, list, dist, done, prev, rank, start, goal, cc, cd, m, tkeys, goal);
    } else {
        assert(dist_at(dist, t) <= dist_at(dist, goal));
        assert forall|w2: Seq<(i32, i32)>| valid_walk(p, list, w2, start, t) implies dist_at(dist, t) <= walk_cost(w2, cc, cd) by {
            assert(is_done(done, t));
        }
    }
}

/// Under positive step costs, an optimal predecessor of a tile on the traced
/// walk is an expanded tile one step back at exactly the step's cost.
proof fn lemma_opt_pred_expanded(
    p: MovementPolicy,
    list: Seq<(i32, i32)>,
    dist: Map<u64, i64>,
    done: Set<u64>,
    prev: Map<u64, (i32, i32)>,
    rank: Map<u64, nat>,
    start: (i32, i32),
    goal: (i32, i32),
    cc: i64,
    cd: i64,
    m: int,
    tkeys: Set<u64>,
    a: (i32, i32),
    cur: (i32, i32),
)
    requires
        cc > 0,
        cd > 0,
        search_ok(p, list, dist, done, prev, rank, start, goal, cc, cd, m, tkeys),
        closed_ok(p, list, dist, done, cc, cd, None),
        opt_ok(p, list, dist, done, start, cc, cd),
        settled(dist, goal),
        forall|x: (i32, i32)| #[trigger] settled(dist, x) && !is_done(done, x) ==> dist_at(dist, goal) <= dist_at(dist, x),
        cur == goal || is_done(done, cur),
        optimal_pred(p, list, start, a, cur, cc, cd),
    ensures
        is_done(done, a),
        settled(dist, a),
        dist_at(dist, a) + step_cost(a, cur, cc, cd) == dist_at(dist, cur),
{
    let (da, db) = choose|da: int, db: int|
        #![trigger shortest_to(p, list, start, a, da, cc, cd), shortest_to(p, list, start, cur, db, cc, cd)]
        shortest_to(p, list, start, a, da, cc, cd) && shortest_to(p, list, start, cur, db, cc, cd) && da + step_cost(a, cur, cc, cd) == db;
    lemma_shortest_at(p, list, dist, done, prev, rank, start, goal, cc, cd, m, tkeys, cur);
    let w1 = choose|w: Seq<(i32, i32)>| valid_walk(p, list, w, start, cur) && walk_cost(w, cc, cd) == db;
    let w2 = choose|w: Seq<(i32, i32)>| valid_walk(p, list, w, start, cur) && walk_cost(w, cc, cd) == dist_at(dist, cur);
    assert(db == dist_at(dist, cur));
    let wa = choose|w: Seq<(i32, i32)>| valid_walk(p, list, w, start, a) && walk_cost(w, cc, cd) == da;
    assert(da < dist_at(dist, goal));
    lemma_cheaper_done(p, list, dist, done, prev, rank, start, goal, cc, cd, m, tkeys, wa, a);
    lemma_shortest_at(p, list, dist, done, prev, rank, start, goal, cc, cd, m, tkeys, a);
    let wb = choose|w: Seq<(i32, i32)>| valid_walk(p, list, w, start, a) && walk_cost(w, cc, cd) == dist_at(dist, a);
    assert(dist_at(dist, a) == da);
}

/// The expanded neighbour one policy step before `cur` with the smallest
/// `(x, y)` whose distance plus the step equals that of `cur`.
#[verifier::rlimit(100)]
fn pick_pred(
    p: &MovementPolicy,
    tiles: &TileSet,
    dist: &HashMap<u64, i64>,
    done: &HashSet<u64>,
    cur: (i32, i32),
    dcur: i64,
    offs: &Vec<Offset>,
    cost_card: i64,
    cost_diag: i64,
    Ghost(list): Ghost<Seq<(i32, i32)>>,
    Ghost(q): Ghost<(i32, i32)>,
) -> (r: ((i32, i32), i64))
    requires
        offs@ == p.offsets(),
        forall|t: (i32, i32)| #[trigger] tiles.has(t) <==> list.contains(t),
        dcur == dist_at(dist@, cur),
        list.contains(q) && is_done(done@, q) && settled(dist@, q) && policy_step(*p, q, cur)
            && dist_at(dist@, q) + step_cost(q, cur, cost_card, cost_diag) == dist_at(dist@, cur),
    ensures
        list.contains(r.0) && is_done(done@, r.0) && settled(dist@, r.0) && policy_step(*p, r.0, cur) && r.1 == dist_at(dist@, r.0)
            && dist_at(dist@, r.0) + step_cost(r.0, cur, cost_card, cost_diag) == dist_at(dist@, cur),
        forall|a: (i32, i32)|
            list.contains(a) && is_done(done@, a) && settled(dist@, a) && #[trigger] policy_step(*p, a, cur)
                && dist_at(dist@, a) + step_cost(a, cur, cost_card, cost_diag) == dist_at(dist@, cur) ==> !tile_lt(a, r.0),
{
    let mut best: Option<(i32, i32)> = None;
    let mut bd: i64 = 0;
    let mut k: usize = 0;
    while k < offs.len()
        invariant
            0 <= k <= offs@.len(),
            offs@ == p.offsets(),
            forall|t: (i32, i32)| #[trigger] tiles.has(t) <==> list.contains(t),
            dcur == dist_at(dist@, cur),
            match best {
                Some(b) => list.contains(b) && is_done(done@, b) && settled(dist@, b) && policy_step(*p, b, cur) && bd == dist_at(dist@, b)
                    && dist_at(dist@, b) + step_cost(b, cur, cost_card, cost_diag) == dist_at(dist@, cur),
                None => true,
            },
            forall|i: int, a: (i32, i32)|
                0 <= i < k && a.0 == cur.0 - offs@[i].0 && a.1 == cur.1 - offs@[i].1 && list.contains(a) && is_done(done@, a) && settled(dist@, a)
                    && dist_at(dist@, a) + step_cost(a, cur, cost_card, cost_diag) == dist_at(dist@, cur)
                    ==> (best matches Some(b) && !tile_lt(a, b)),
        decreases offs@.len() - k,
    {
        let o = offs[k];
        let ax = cur.0 as i64 - o.0 as i64;
        let ay = cur.1 as i64 - o.1 as i64;
        if ax >= i32::MIN as i64 && ax <= i32::MAX as i64 && ay >= i32::MIN as i64 && ay <= i32::MAX as i64 {
            let a = (ax as i32, ay as i32);
            let akey = pack_tile(a.0, a.1);
            if tiles.contains(a) && done.contains(&akey) {
                match dist.get(&akey) {
                    Some(da) => {
                        let step = if a.0 == cur.0 || a.1 == cur.1 { cost_card } else { cost_diag };
                        if *da as i128 + step as i128 == dcur as i128 {
                            proof {
                                lemma_offset_is_policy_step(*p, offs@, k as int, a, cur);
                            }
                            let better = match best {
                                Some(b) => tile_less(a, b),
                                None => true,
                            };
                            if better {
                                best = Some(a);
                                bd = *da;
                            }
                        }
                    },
                    None => {},
                }
            }
        }
        k = k + 1;
    }
    proof {
        assert forall|a: (i32, i32)|
            list.contains(a) && is_done(done@, a) && settled(dist@, a) && #[trigger] policy_step(*p, a, cur)
                && dist_at(dist@, a) + step_cost(a, cur, cost_card, cost_diag) == dist_at(dist@, cur) implies (best matches Some(b) && !tile_lt(a, b)) by {
            lemma_policy_step_offset(*p, a, cur);
            let i = choose|i: int| 0 <= i < offs@.len() && offs@[i] == Offset((cur.0 - a.0) as i32, (cur.1 - a.1) as i32);
            assert(a.0 == cur.0 - offs@[i].0 && a.1 == cur.1 - offs@[i].1);
        }
        assert(policy_step(*p, q, cur));
    }
    match best {
        Some(b) => (b, bd),
        None => {
            assert(false);
            (cur, 0)
        },
    }
}

/// The neighbour `pick_pred` returns is the tie-broken optimal predecessor.
#[verifier::rlimit(100)]
proof fn lemma_pick_canonical(
    p: MovementPolicy,
    list: Seq<(i32, i32)>,
    dist: Map<u64, i64>,
    done: Set<u64>,
    prev: Map<u64, (i32, i32)>,
    rank: Map<u64, nat>,
    start: (i32, i32),
    goal: (i32, i32),
    cc: i64,
    cd: i64,
    m: int,
    tkeys: Set<u64>,
    mv: (i32, i32),
    cur: (i32, i32),
)
    requires
        cc > 0,
        cd > 0,
        search_ok(p, list, dist, done, prev, rank, start, goal, cc, cd, m, tkeys),
        closed_ok(p, list, dist, done, cc, cd, None),
        opt_ok(p, list, dist, done, start, cc, cd),
        settled(dist, goal),
        forall|x: (i32, i32)| #[trigger] settled(dist, x) && !is_done(done, x) ==> dist_at(dist, goal) <= dist_at(dist, x),
        cur == goal || is_done(done, cur),
        list.contains(mv) && is_done(done, mv) && settled(dist, mv) && policy_step(p, mv, cur)
            && dist_at(dist, mv) + step_cost(mv, cur, cc, cd) == dist_at(dist, cur),
        forall|a: (i32, i32)|
            list.contains(a) && is_done(done, a) && settled(dist, a) && #[trigger] policy_step(p, a, cur)
                && dist_at(dist, a) + step_cost(a, cur, cc, cd) == dist_at(dist, cur) ==> !tile_lt(a, mv),
    ensures
        optimal_pred(p, list, start, mv, cur, cc, cd),
        forall|a: (i32, i32)| #[trigger] optimal_pred(p, list, start, a, cur, cc, cd) ==> !tile_lt(a, mv),
        0 <= dist_at(dist, mv) < dist_at(dist, cur),
{
    lemma_shortest_at(p, list, dist, done, prev, rank, start, goal, cc, cd, m, tkeys, mv);
    lemma_shortest_at(p, list, dist, done, prev, rank, start, goal, cc, cd, m, tkeys, cur);
    assert(shortest_to(p, list, start, mv, dist_at(dist, mv), cc, cd));
    assert(shortest_to(p, list, start, cur, dist_at(dist, cur), cc, cd));
    assert forall|a: (i32, i32)| #[trigger] optimal_pred(p, list, start, a, cur, cc, cd) implies !tile_lt(a, mv) by {
        lemma_opt_pred_expanded(p, list, dist, done, prev, rank, start, goal, cc, cd, m, tkeys, a, cur);
    }
    reveal(search_ok);
}

/// One more step of the tie-broken trace keeps its invariants.
#[verifier::rlimit(100)]
proof fn lemma_extend_trace(
    p: MovementPolicy,
    list: Seq<(i32, i32)>,
    start: (i32, i32),
    goal: (i32, i32),
    dist: Map<u64, i64>,
    b0: Seq<(i32, i32)>,
    mv: (i32, i32),
    cur: (i32, i32),
    cost_card: i64,
    cost_diag: i64,
)
    requires
        cost_card > 0,
        cost_diag > 0,
        b0.len() >= 1,
        b0[0] == goal,
        b0.last() == cur,
        forall|k: int| 0 <= k < b0.len() ==> list.contains(#[trigger] b0[k]),
        forall|a: int, b: int| 0 <= a < b < b0.len() ==> dist_at(dist, #[trigger] b0[a]) > dist_at(dist, #[trigger] b0[b]),
        valid_walk(p, list, rev(b0), cur, goal),
        walk_cost(rev(b0), cost_card, cost_diag) == dist_at(dist, goal) - dist_at(dist, cur),
        forall|i: int| 1 <= i < rev(b0).len() ==> optimal_pred(p, list, start, #[trigger] rev(b0)[i - 1], rev(b0)[i], cost_card, cost_diag),
        forall|i: int, a: (i32, i32)|
            1 <= i < rev(b0).len() && #[trigger] optimal_pred(p, list, start, a, rev(b0)[i], cost_card, cost_diag) ==> !tile_lt(a, rev(b0)[i - 1]),
        list.contains(mv),
        policy_step(p, mv, cur),
        dist_at(dist, mv) + step_cost(mv, cur, cost_card, cost_diag) == dist_at(dist, cur),
        optimal_pred(p, list, start, mv, cur, cost_card, cost_diag),
        forall|a: (i32, i32)| #[trigger] optimal_pred(p, list, start, a, cur, cost_card, cost_diag) ==> !tile_lt(a, mv),
    ensures
        ({
            let b1 = b0.push(mv);
            &&& b1.len() >= 1
            &&& b1[0] == goal
            &&& b1.last() == mv
            &&& forall|k: int| 0 <= k < b1.len() ==> list.contains(#[trigger] b1[k])
            &&& forall|a: int, b: int| 0 <= a < b < b1.len() ==> dist_at(dist, #[trigger] b1[a]) > dist_at(dist, #[trigger] b1[b])
            &&& valid_walk(p, list, rev(b1), mv, goal)
            &&& walk_cost(rev(b1), cost_card, cost_diag) == dist_at(dist, goal) - dist_at(dist, mv)
            &&& forall|i: int| 1 <= i < rev(b1).len() ==> optimal_pred(p, list, start, #[trigger] rev(b1)[i - 1], rev(b1)[i], cost_card, cost_diag)
            &&& forall|i: int, a: (i32, i32)|
                1 <= i < rev(b1).len() && #[trigger] optimal_pred(p, list, start, a, rev(b1)[i], cost_card, cost_diag) ==> !tile_lt(a, rev(b1)[i - 1])
        }),
{
    let b1 = b0.push(mv);
    let r0 = rev(b0);
    let w1 = seq![mv] + r0;
    assert(rev(b1) =~= w1);
    lemma_prepend_cost(mv, r0, cost_card, cost_diag);
    assert(r0[0] == cur);
    assert forall|kk: int| 0 <= kk < w1.len() implies list.contains(#[trigger] w1[kk]) by {
        if kk > 0 {
            assert(w1[kk] == b0[b0.len() - kk]);
        }
    }
    assert forall|kk: int| 0 <= kk < w1.len() - 1 implies policy_step(p, #[trigger] w1[kk], w1[kk + 1]) by {
        if kk > 0 {
            assert(w1[kk] == r0[kk - 1] && w1[kk + 1] == r0[kk]);
        }
    }
    assert(w1.last() == goal);
    assert forall|i: int| 1 <= i < w1.len() implies optimal_pred(p, list, start, #[trigger] w1[i - 1], w1[i], cost_card, cost_diag) by {
        if i > 1 {
            assert(w1[i - 1] == r0[i - 2] && w1[i] == r0[i - 1]);
        }
    }
    assert forall|i: int, a: (i32, i32)|
        1 <= i < w1.len() && #[trigger] optimal_pred(p, list, start, a, w1[i], cost_card, cost_diag) implies !tile_lt(a, w1[i - 1]) by {
        if i > 1 {
            assert(w1[i - 1] == r0[i - 2] && w1[i] == r0[i - 1]);
        }
    }
    assert(step_cost(mv, cur, cost_card, cost_diag) > 0);
    assert forall|a: int, b: int| 0 <= a < b < b1.len() implies dist_at(dist, #[trigger] b1[a]) > dist_at(dist, #[trigger] b1[b]) by {
        assert(b1[a] == b0[a]);
        if b < b0.len() {
            assert(b1[b] == b0[b]);
        } else if a < b0.len() - 1 {
            assert(dist_at(dist, b0[a]) > dist_at(dist, b0[b0.len() - 1]));
        }
    }
    assert forall|k: int| 0 <= k < b1.len() implies list.contains(#[trigger] b1[k]) by {
        if k < b0.len() {
            assert(b1[k] == b0[k]);
        }
    }
}

/// Traces the tie-broken shortest walk back from `goal`: from each tile, the
/// expanded neighbour with the smallest `(x, y)` whose distance plus the step
/// equals the tile's.
#[verifier::rlimit(100)]
fn trace_canonical(
    p: &MovementPolicy,
    tiles: &TileSet,
    dist: &HashMap<u64, i64>,
    done: &HashSet<u64>,
    prev: &HashMap<u64, (i32, i32)>,
    start: (i32, i32),
    goal: (i32, i32),
    cost_card: i64,
    cost_diag: i64,
    Ghost(list): Ghost<Seq<(i32, i32)>>,
    Ghost(rank): Ghost<Map<u64, nat>>,
    Ghost(m): Ghost<int>,
    Ghost(tkeys): Ghost<Set<u64>>,
) -> (w: Vec<(i32, i32)>)
    requires
        cost_card > 0,
        cost_diag > 0,
        forall|t: (i32, i32)| #[trigger] tiles.has(t) <==> list.contains(t),
        search_ok(*p, list, dist@, done@, prev@, rank, start, goal, cost_card, cost_diag, m, tkeys),
        closed_ok(*p, list, dist@, done@, cost_card, cost_diag, None),
        opt_ok(*p, list, dist@, done@, start, cost_card, cost_diag),
        settled(dist@, goal),
        forall|x: (i32, i32)| #[trigger] settled(dist@, x) && !is_done(done@, x) ==> dist_at(dist@, goal) <= dist_at(dist@, x),
        start != goal,
    ensures
        canonical_walk(*p, list, start, goal, w@, cost_card, cost_diag),
        walk_cost(w@, cost_card, cost_diag) == dist_at(dist@, goal),
        no_repeat(w@),
{
    let offs = p.neighbor_offsets();
    let dgoal = match dist.get(&pack_tile(goal.0, goal.1)) {
        Some(v) => *v,
        None => {
            assert(false);
            0
        },
    };
    let mut back: Vec<(i32, i32)> = Vec::new();
    let mut cur = goal;
    let mut dcur = dgoal;
    back.push(cur);
    proof {
        lemma_pred_facts(*p, list, dist@, done@, prev@, rank, start, goal, cost_card, cost_diag, m, tkeys, goal);
        assert(rev(back@) =~= seq![goal]);
        reveal(search_ok);
        assert(dgoal >= 0);
    }
    while !same_tile(cur, start)
        invariant
            cost_card > 0,
            cost_diag > 0,
            offs@ == p.offsets(),
            forall|t: (i32, i32)| #[trigger] tiles.has(t) <==> list.contains(t),
            search_ok(*p, list, dist@, done@, prev@, rank, start, goal, cost_card, cost_diag, m, tkeys),
            closed_ok(*p, list, dist@, done@, cost_card, cost_diag, None),
            opt_ok(*p, list, dist@, done@, start, cost_card, cost_diag),
            settled(dist@, goal),
            forall|x: (i32, i32)| #[trigger] settled(dist@, x) && !is_done(done@, x) ==> dist_at(dist@, goal) <= dist_at(dist@, x),
            start != goal,
            settled(dist@, cur),
            cur == goal || is_done(done@, cur),
            dcur == dist_at(dist@, cur),
            dcur >= 0,
            back@.len() >= 1,
            back@[0] == goal,
            back@.last() == cur,
            forall|k: int| 0 <= k < back@.len() ==> list.contains(#[trigger] back@[k]),
            forall|a: int, b: int| 0 <= a < b < back@.len() ==> dist_at(dist@, #[trigger] back@[a]) > dist_at(dist@, #[trigger] back@[b]),
            valid_walk(*p, list, rev(back@), cur, goal),
            walk_cost(rev(back@), cost_card, cost_diag) == dist_at(dist@, goal) - dist_at(dist@, cur),
            forall|i: int| 1 <= i < rev(back@).len() ==> optimal_pred(*p, list, start, #[trigger] rev(back@)[i - 1], rev(back@)[i], cost_card, cost_diag),
            forall|i: int, a: (i32, i32)|
                1 <= i < rev(back@).len() && #[trigger] optimal_pred(*p, list, start, a, rev(back@)[i], cost_card, cost_diag)
                    ==> !tile_lt(a, rev(back@)[i - 1]),
        decreases dcur,
    {
        proof {
            lemma_pred_facts(*p, list, dist@, done@, prev@, rank, start, goal, cost_card, cost_diag, m, tkeys, cur);
        }
        let ghost q = pred_of(prev@, cur);
        let (mv, bd) = pick_pred(p, tiles, dist, done, cur, dcur, &offs, cost_card, cost_diag, Ghost(list), Ghost(q));
        let ghost b0 = back@;
        let ghost r0 = rev(b0);
        proof {
            lemma_pick_canonical(*p, list, dist@, done@, prev@, rank, start, goal, cost_card, cost_diag, m, tkeys, mv, cur);
        }
        back.push(mv);
        proof {
            assert(back@ == b0.push(mv));
            lemma_extend_trace(*p, list, start, goal, dist@, b0, mv, cur, cost_card, cost_diag);
        }
        cur = mv;
        dcur = bd;
    }
    let w = reverse_tiles(&back);
    proof {
        assert(w@ =~= rev(back@));
        assert forall|i: int, j: int| 0 <= i < j < w@.len() implies w@[i] != w@[j] by {
            let a = back@.len() - 1 - j;
            let b = back@.len() - 1 - i;
            assert(w@[i] == back@[b] && w@[j] == back@[a]);
            assert(dist_at(dist@, back@[a]) > dist_at(dist@, back@[b]));
        }
    }
    w
}

/// Shortest path from `start` to `goal` through the tiles of the set, by
/// Dijkstra's algorithm with a frontier ordered by `(cost, x, y)` and ties
/// between equal-cost predecessors settled towards the smaller coordinate.
/// It finds a walk exactly when one exists, and its cost is the least of any.
#[verifier::rlimit(100)]
pub fn shortest_path_in_set(
    start: (i32, i32),
    goal: (i32, i32),
    cluster_tiles: &Vec<(i32, i32)>,
    p: &MovementPolicy,
    cost_card: i64,
    cost_diag: i64,
) -> (r: (Option<i64>, Option<Vec<(i32, i32)>>))
    requires
        cost_card >= 0,
        cost_diag >= 0,
        (cluster_tiles@.len() + 1) * (cost_card + cost_diag) <= i64::MAX,
    ensures
        match r {
            (Some(c), Some(w)) => valid_walk(*p, cluster_tiles@, w@, start, goal) && c == walk_cost(w@, cost_card, cost_diag) && c >= 0
                && no_repeat(w@)
                && forall|w2: Seq<(i32, i32)>| valid_walk(*p, cluster_tiles@, w2, start, goal) ==> c <= walk_cost(w2, cost_card, cost_diag),
            (None, None) => start != goal && forall|w2: Seq<(i32, i32)>| !valid_walk(*p, cluster_tiles@, w2, start, goal),
            _ => false,
        },
        start == goal ==> r.0 == Some(0i64) && (r.1 matches Some(w) && w@ == seq![start]),
        cost_card > 0 && cost_diag > 0 ==> (r.1 matches Some(w) ==> canonical_walk(*p, cluster_tiles@, start, goal, w@, cost_card, cost_diag)),
{
    if same_tile(start, goal) {
        let mut w: Vec<(i32, i32)> = Vec::new();
        w.push(start);
        proof {
            assert(w@ =~= seq![start]);
            assert forall|w2: Seq<(i32, i32)>| valid_walk(*p, cluster_tiles@, w2, start, goal) implies 0 <= walk_cost(w2, cost_card, cost_diag) by {
                lemma_walk_cost_nonneg(w2, cost_card, cost_diag);
            }
        }
        return (Some(0), Some(w));
    }
    let tiles = TileSet::from_tiles(cluster_tiles);
    if !tiles.contains(start) || !tiles.contains(goal) {
        proof {
            assert forall|w2: Seq<(i32, i32)>| !valid_walk(*p, cluster_tiles@, w2, start, goal) by {
                if valid_walk(*p, cluster_tiles@, w2, start, goal) {
                    assert(w2.len() > 1);
                    assert(cluster_tiles@.contains(w2[0]));
                    assert(cluster_tiles@.contains(w2[w2.len() - 1]));
                }
            }
        }
        return (None, None);
    }
    let ghost list = cluster_tiles@;
    let ghost m: int = cost_card + cost_diag;
    let ghost kf = |t: (i32, i32)| tile_key(t.0, t.1);
    let ghost tkeys = list.map_values(kf).to_set();
    proof {
        list.map_values(kf).lemma_cardinality_of_set();
    }
    let offsets = p.neighbor_offsets();
    let mut frontier: Vec<(i64, i32, i32)> = Vec::new();
    let mut dist: HashMap<u64, i64> = HashMap::new();
    let mut prev: HashMap<u64, (i32, i32)> = HashMap::new();
    let mut done: HashSet<u64> = HashSet::new();
    let ghost mut rank: Map<u64, nat> = Map::empty();
    dist.insert(pack_tile(start.0, start.1), 0);
    frontier.push((0, start.0, start.1));
    let mut reached = false;
    proof {
        reveal(search_ok);
        reveal(frontier_ok);
        reveal(closed_ok);
        reveal(opt_ok);
        assert forall|t: (i32, i32)| #[trigger] settled(dist@, t) implies t == start by {
            lemma_tile_key_injective(t.0, t.1, start.0, start.1);
        }
        assert(frontier@[0] == (0i64, start.0, start.1));
        assert(node(frontier@[0]) == start);
        assert(list.contains(start));
        assert(done@.subset_of(tkeys));
    }
    while frontier.len() > 0 && !reached
        invariant
            offsets@ == p.offsets(),
            forall|k: int| 0 <= k < offsets@.len() ==> is_unit_step(#[trigger] offsets@[k]),
            forall|t: (i32, i32)| #[trigger] tiles.has(t) <==> list.contains(t),
            list == cluster_tiles@,
            cost_card >= 0,
            cost_diag >= 0,
            m == cost_card + cost_diag,
            (list.len() + 1) * m <= i64::MAX,
            tkeys == list.map_values(kf).to_set(),
            forall|t: (i32, i32)| #[trigger] kf(t) == tile_key(t.0, t.1),
            tkeys.len() <= list.len(),
            start != goal,
            search_ok(*p, list, dist@, done@, prev@, rank, start, goal, cost_card, cost_diag, m, tkeys),
            frontier_ok(frontier@, dist@, done@),
            closed_ok(*p, list, dist@, done@, cost_card, cost_diag, None),
            opt_ok(*p, list, dist@, done@, start, cost_card, cost_diag),
            reached ==> settled(dist@, goal) && forall|t: (i32, i32)|
                #[trigger] settled(dist@, t) && !is_done(done@, t) ==> dist_at(dist@, goal) <= dist_at(dist@, t),
        decreases tkeys.len() - done@.len() + (if reached { 0int } else { 1int }),
    {
        proof {
            lemma_done_bound(*p, list, dist@, done@, prev@, rank, start, goal, cost_card, cost_diag, m, tkeys);
        }
        let mut best: usize = 0;
        let mut j: usize = 1;
        while j < frontier.len()
            invariant
                0 <= best < frontier@.len(),
                1 <= j <= frontier@.len(),
                forall|i: int| 0 <= i < j ==> frontier@[best as int].0 <= #[trigger] frontier@[i].0,
            decreases frontier.len() - j,
        {
            if key_less(frontier[j], frontier[best]) {
                best = j;
            }
            j = j + 1;
        }
        let (d, x, y) = frontier[best];
        let u = (x, y);
        proof {
            reveal(frontier_ok);
            assert(node(frontier@[best as int]) == u);
            assert(settled(dist@, u) && !is_done(done@, u) && d == dist_at(dist@, u));
            assert forall|t: (i32, i32)| #[trigger] settled(dist@, t) && !is_done(done@, t) implies d <= dist_at(dist@, t) by {
                let k = choose|k: int| 0 <= k < frontier@.len() && node(#[trigger] frontier@[k]) == t;
                assert(frontier@[best as int].0 <= frontier@[k].0);
            }
        }
        if x == goal.0 && y == goal.1 {
            reached = true;
            continue;
        }
        let ghost done_before = done@;
        proof {
            lemma_extracted_lower(*p, list, dist@, done@, prev@, rank, start, goal, cost_card, cost_diag, m, tkeys, u);
        }
        let ghost dist_before = dist@;
        let ghost done_before = done@;
        let new_rank = expand_tile(p, &tiles, &offsets, &mut frontier, &mut dist, &mut prev, &mut done, u, d,
            cost_card, cost_diag, Ghost(list), Ghost(rank), Ghost(start), Ghost(goal), Ghost(m), Ghost(tkeys), Ghost(kf));
        proof {
            rank = new_rank@;
            reveal(opt_ok);
            assert forall|f: (i32, i32), w: Seq<(i32, i32)>|
                #![trigger is_done(done@, f), valid_walk(*p, list, w, start, f)]
                is_done(done@, f) && valid_walk(*p, list, w, start, f) implies dist_at(dist@, f) <= walk_cost(w, cost_card, cost_diag) by {
                assert(dist_at(dist@, f) == dist_at(dist_before, f));
                if f != u {
                    assert(is_done(done_before, f));
                }
            }
        }
    }
    if !reached {
        proof {
            lemma_unreached_no_walk(*p, list, dist@, done@, prev@, rank, frontier@, start, goal, cost_card, cost_diag, m, tkeys);
        }
        return (None, None);
    }
    let total = match dist.get(&pack_tile(goal.0, goal.1)) {
        Some(v) => *v,
        None => {
            assert(false);
            0
        },
    };
    let w = if cost_card > 0 && cost_diag > 0 {
        trace_canonical(p, &tiles, &dist, &done, &prev, start, goal, cost_card, cost_diag, Ghost(list), Ghost(rank), Ghost(m), Ghost(tkeys))
    } else {
        trace_back(p, &prev, start, goal, cost_card, cost_diag, Ghost(list), Ghost(dist@), Ghost(done@), Ghost(rank), Ghost(m), Ghost(tkeys))
    };
    proof {
        lemma_reached_certified(*p, list, dist@, done@, prev@, rank, start, goal, cost_card, cost_diag, m, tkeys);
        assert forall|w2: Seq<(i32, i32)>| valid_walk(*p, cluster_tiles@, w2, start, goal) implies total <= walk_cost(w2, cost_card, cost_diag) by {
            lemma_certified_optimal(*p, list, dist@, done@, start, goal, cost_card, cost_diag, w2);
        }
    }
    (Some(total), Some(w))
}

proof fn lemma_mark_done(
    p: MovementPolicy,
    list: Seq<(i32, i32)>,
    dist: Map<u64, i64>,
    done0: Set<u64>,
    done: Set<u64>,
    prev: Map<u64, (i32, i32)>,
    rank0: Map<u64, nat>,
    rank: Map<u64, nat>,
    fr0: Seq<(i64, i32, i32)>,
    fr: Seq<(i64, i32, i32)>,
    start: (i32, i32),
    goal: (i32, i32),
    cost_card: i64,
    cost_diag: i64,
    m: int,
    tkeys: Set<u64>,
    u: (i32, i32),
    d: i64,
)
    requires
        cost_card >= 0,
        cost_diag >= 0,
        m == cost_card + cost_diag,
        u != goal,
        search_ok(p, list, dist, done0, prev, rank0, start, goal, cost_card, cost_diag, m, tkeys),
        frontier_ok(fr0, dist, done0),
        closed_ok(p, list, dist, done0, cost_card, cost_diag, None),
        settled(dist, u),
        !is_done(done0, u),
        d == dist_at(dist, u),
        forall|t: (i32, i32)| #[trigger] settled(dist, t) && !is_done(done0, t) ==> d <= dist_at(dist, t),
        tkeys.contains(tile_key(u.0, u.1)),
        u != start ==> done0.len() >= 1,
        done == done0.insert(tile_key(u.0, u.1)),
        rank == rank0.insert(tile_key(u.0, u.1), done0.len()),
        forall|k: int| 0 <= k < fr.len() ==> fr0.contains(#[trigger] fr[k]) && node(fr[k]) != u,
        forall|k: int| 0 <= k < fr0.len() && node(#[trigger] fr0[k]) != u ==> fr.contains(fr0[k]),
    ensures
        search_ok(p, list, dist, done, prev, rank, start, goal, cost_card, cost_diag, m, tkeys),
        frontier_ok(fr, dist, done),
        closed_ok(p, list, dist, done, cost_card, cost_diag, Some(u)),
        forall|f: (i32, i32)| #[trigger] is_done(done, f) ==> dist_at(dist, f) <= d,
        0 <= d <= (done.len() - 1) * m,
        is_done(done, u),
        done.len() == done0.len() + 1,
{
    reveal(search_ok);
    reveal(frontier_ok);
    reveal(closed_ok);
    let (x, y) = u;
    let ukey = tile_key(x, y);
    let frontier = fr;
    vstd::set_lib::lemma_len_subset(done0, tkeys);
    assert forall|f: (i32, i32)| #[trigger] is_done(done, f) implies dist_at(dist, f) <= d by {
        lemma_tile_key_injective(f.0, f.1, x, y);
        if f != u {
            assert(is_done(done0, f));
        }
    }
        assert(done == done0.insert(ukey));
        assert(done.len() == done0.len() + 1);
        assert forall|t: (i32, i32)| #[trigger] is_done(done, t) implies t == u || is_done(done0, t) by {
            lemma_tile_key_injective(t.0, t.1, x, y);
        }
        assert(done0.len() * m + m == done.len() * m) by (nonlinear_arith)
            requires
                done.len() == done0.len() + 1,
        ;
        assert(done0.len() * m <= done.len() * m) by (nonlinear_arith)
            requires
                done.len() == done0.len() + 1,
                m >= 0,
        ;
        // The state after the expansion of `u`, before its steps are relaxed.
        assert forall|t: (i32, i32)| #[trigger] settled(dist, t) implies list.contains(t) && 0 <= dist_at(dist, t) <= done.len() * m by {}
        assert forall|t: (i32, i32)|
            #[trigger] is_done(done, t) implies settled(dist, t) && rank.contains_key(tile_key(t.0, t.1)) && rank_of(rank, t) < done.len()
                && (t != start ==> rank_of(rank, t) >= 1) by {
            lemma_tile_key_injective(t.0, t.1, x, y);
        }
        assert forall|f: (i32, i32), t: (i32, i32)|
            #![trigger is_done(done, f), settled(dist, t)]
            is_done(done, f) && settled(dist, t) && !is_done(done, t) implies dist_at(dist, f) <= dist_at(dist, t) by {
            lemma_tile_key_injective(f.0, f.1, x, y);
            lemma_tile_key_injective(t.0, t.1, x, y);
        }
        assert forall|n: (i32, i32)| #[trigger] settled(dist, n) && n != start implies pred_ok(p, dist, done, prev, rank, n, cost_card, cost_diag) by {
            assert(pred_ok(p, dist, done0, prev, rank0, n, cost_card, cost_diag));
            lemma_tile_key_injective(n.0, n.1, x, y);
            let q = pred_of(prev, n);
            lemma_tile_key_injective(q.0, q.1, x, y);
            if is_done(done, n) && n == u {
                assert(rank_of(rank0, q) < done0.len());
            }
        }
        assert forall|k: int| 0 <= k < frontier.len() implies settled(dist, node(#[trigger] frontier[k])) && !is_done(done, node(frontier[k]))
            && frontier[k].0 == dist_at(dist, node(frontier[k])) by {
            let e = frontier[k];
            let i = choose|i: int| 0 <= i < fr0.len() && fr0[i] == e;
            lemma_tile_key_injective(e.1, e.2, x, y);
        }
        assert forall|t: (i32, i32)| #[trigger] settled(dist, t) && !is_done(done, t) implies exists|k: int| 0 <= k < frontier.len() && node(#[trigger] frontier[k]) == t by {
            lemma_tile_key_injective(t.0, t.1, x, y);
            let i = choose|i: int| 0 <= i < fr0.len() && node(#[trigger] fr0[i]) == t;
            assert(node(fr0[i]) != (x, y));
            assert(frontier.contains(fr0[i]));
            let k = choose|k: int| 0 <= k < frontier.len() && frontier[k] == fr0[i];
            assert(node(frontier[k]) == t);
        }
        assert forall|u2: (i32, i32), v: (i32, i32)|
            #![trigger is_done(done, u2), policy_step(p, u2, v)]
            is_done(done, u2) && Some(u) != Some(u2) && list.contains(v) && policy_step(p, u2, v) implies settled(dist, v) && dist_at(dist, v)
                <= dist_at(dist, u2) + step_cost(u2, v, cost_card, cost_diag) by {
            lemma_tile_key_injective(u2.0, u2.1, x, y);
            assert(is_done(done0, u2));
        }
    
}

/// Expands the tile `u` just taken off the frontier: marks it expanded and
/// relaxes every step out of it.
#[verifier::rlimit(100)]
fn expand_tile(
    p: &MovementPolicy,
    tiles: &TileSet,
    offsets: &Vec<Offset>,
    frontier: &mut Vec<(i64, i32, i32)>,
    dist: &mut HashMap<u64, i64>,
    prev: &mut HashMap<u64, (i32, i32)>,
    done: &mut HashSet<u64>,
    u: (i32, i32),
    d: i64,
    cost_card: i64,
    cost_diag: i64,
    Ghost(list): Ghost<Seq<(i32, i32)>>,
    Ghost(rank0): Ghost<Map<u64, nat>>,
    Ghost(start): Ghost<(i32, i32)>,
    Ghost(goal): Ghost<(i32, i32)>,
    Ghost(m): Ghost<int>,
    Ghost(tkeys): Ghost<Set<u64>>,
    Ghost(kf): Ghost<spec_fn((i32, i32)) -> u64>,
) -> (rank: Ghost<Map<u64, nat>>)
    requires
        offsets@ == p.offsets(),
        forall|k: int| 0 <= k < offsets@.len() ==> is_unit_step(#[trigger] offsets@[k]),
        forall|t: (i32, i32)| #[trigger] tiles.has(t) <==> list.contains(t),
        cost_card >= 0,
        cost_diag >= 0,
        m == cost_card + cost_diag,
        (list.len() + 1) * m <= i64::MAX,
        tkeys == list.map_values(kf).to_set(),
        forall|t: (i32, i32)| #[trigger] kf(t) == tile_key(t.0, t.1),
        tkeys.len() <= list.len(),
        start != goal,
        u != goal,
        search_ok(*p, list, old(dist)@, old(done)@, old(prev)@, rank0, start, goal, cost_card, cost_diag, m, tkeys),
        frontier_ok(old(frontier)@, old(dist)@, old(done)@),
        closed_ok(*p, list, old(dist)@, old(done)@, cost_card, cost_diag, None),
        settled(old(dist)@, u),
        !is_done(old(done)@, u),
        d == dist_at(old(dist)@, u),
        forall|t: (i32, i32)| #[trigger] settled(old(dist)@, t) && !is_done(old(done)@, t) ==> d <= dist_at(old(dist)@, t),
    ensures
        search_ok(*p, list, final(dist)@, final(done)@, final(prev)@, rank@, start, goal, cost_card, cost_diag, m, tkeys),
        frontier_ok(final(frontier)@, final(dist)@, final(done)@),
        closed_ok(*p, list, final(dist)@, final(done)@, cost_card, cost_diag, None),
        final(done)@.len() == old(done)@.len() + 1,
        is_done(final(done)@, u),
        forall|f: (i32, i32)| #[trigger] is_done(final(done)@, f) ==> is_done(old(done)@, f) || f == u,
        forall|f: (i32, i32)| (is_done(old(done)@, f) || f == u) ==> #[trigger] dist_at(final(dist)@, f) == dist_at(old(dist)@, f),
{
    let ghost dist_in = dist@;
    let x = u.0;
    let y = u.1;
    let ghost rank = rank0;
    proof {
        lemma_done_bound(*p, list, dist@, done@, prev@, rank0, start, goal, cost_card, cost_diag, m, tkeys);
    }
    let ukey = pack_tile(x, y);
    let ghost done0 = done@;
    let ghost rank0 = rank;
    let ghost fr0 = frontier@;
    remove_node(frontier, x, y);
    proof {
        reveal(search_ok);
        assert(list.contains(u));
        assert(tkeys.contains(ukey)) by {
            let k = choose|k: int| 0 <= k < list.len() && list[k] == u;
            assert(list.map_values(kf)[k] == ukey);
        }
        if u != start {
            assert(pred_ok(*p, dist@, done0, prev@, rank0, u, cost_card, cost_diag));
            assert(done0.contains(tile_key(pred_of(prev@, u).0, pred_of(prev@, u).1)));
            vstd::set_lib::lemma_len_subset(done0, tkeys);
            assert(done0.len() >= 1) by {
                if done0.len() == 0 {
                    assert(done0 =~= Set::empty());
                }
            }
        }
        rank = rank0.insert(ukey, done0.len());
    }
    proof {
        rank = rank0.insert(ukey, done0.len());
    }
    done.insert(ukey);
    proof {
        lemma_mark_done(*p, list, dist@, done0, done@, prev@, rank0, rank, fr0, frontier@, start, goal, cost_card, cost_diag, m, tkeys, u, d);
        lemma_done_bound(*p, list, dist@, done@, prev@, rank, start, goal, cost_card, cost_diag, m, tkeys);
        assert forall|f: (i32, i32)| #[trigger] is_done(done@, f) implies is_done(done0, f) || f == u by {
            lemma_tile_key_injective(f.0, f.1, u.0, u.1);
        }
    }
    let ghost done_mid = done@;
    let mut k: usize = 0;
    while k < offsets.len()
        invariant
            0 <= k <= offsets@.len(),
            offsets@ == p.offsets(),
            forall|i: int| 0 <= i < offsets@.len() ==> is_unit_step(#[trigger] offsets@[i]),
            forall|t: (i32, i32)| #[trigger] tiles.has(t) <==> list.contains(t),
            cost_card >= 0,
            cost_diag >= 0,
            m == cost_card + cost_diag,
            (list.len() + 1) * m <= i64::MAX,
            tkeys.len() <= list.len(),
            done@.len() <= tkeys.len(),
            start != goal,
            u == (x, y),
            u != goal,
            is_done(done@, u),
            settled(dist@, u),
            d == dist_at(dist@, u),
            done@ == done_mid,
            done_mid == done0.insert(tile_key(u.0, u.1)),
            forall|f: (i32, i32)| #[trigger] is_done(done_mid, f) ==> is_done(done0, f) || f == u,
            forall|f: (i32, i32)| (is_done(done0, f) || f == u) ==> #[trigger] dist_at(dist@, f) == dist_at(dist_in, f),
            0 <= d <= (done@.len() - 1) * m,
            forall|f: (i32, i32)| #[trigger] is_done(done@, f) ==> dist_at(dist@, f) <= d,
            search_ok(*p, list, dist@, done@, prev@, rank, start, goal, cost_card, cost_diag, m, tkeys),
            frontier_ok(frontier@, dist@, done@),
            closed_ok(*p, list, dist@, done@, cost_card, cost_diag, Some(u)),
            forall|i: int, v: (i32, i32)|
                0 <= i < k && v.0 == x + offsets@[i].0 && v.1 == y + offsets@[i].1 && list.contains(v) ==> settled(dist@, v) && dist_at(
                    dist@,
                    v,
                ) <= d + step_cost(u, v, cost_card, cost_diag),
        decreases offsets@.len() - k,
    {
        let o = offsets[k];
        proof {
            assert(is_unit_step(offsets@[k as int]));
        }
        let ghost dist_k = dist@;
        let nx64 = x as i64 + o.0 as i64;
        let ny64 = y as i64 + o.1 as i64;
        if nx64 >= i32::MIN as i64 && nx64 <= i32::MAX as i64 && ny64 >= i32::MIN as i64 && ny64 <= i32::MAX as i64 {
            let v = (nx64 as i32, ny64 as i32);
            if tiles.contains(v) {
                relax(p, frontier, dist, prev, done, u, d, v, offsets[k], cost_card, cost_diag,
                    Ghost(list), Ghost(rank), Ghost(start), Ghost(goal), Ghost(m), Ghost(tkeys), Ghost(k as int));
            }
        }
        proof {
            assert forall|f: (i32, i32)| (is_done(done0, f) || f == u) implies #[trigger] dist_at(dist@, f) == dist_at(dist_in, f) by {
                assert(is_done(done@, f)) by {
                    lemma_tile_key_injective(f.0, f.1, u.0, u.1);
                }
                assert(dist_at(dist_k, f) == dist_at(dist_in, f));
            }
            assert forall|i: int, v: (i32, i32)|
                0 <= i < k + 1 && v.0 == x + offsets@[i].0 && v.1 == y + offsets@[i].1 && list.contains(v) implies settled(dist@, v) && dist_at(
                    dist@,
                    v,
                ) <= d + step_cost(u, v, cost_card, cost_diag) by {
                if i == k {
                    assert(tiles.has(v));
                }
            }
        }
        k = k + 1;
    }
    proof {
        reveal(closed_ok);
        assert forall|u2: (i32, i32), v: (i32, i32)|
            #![trigger is_done(done@, u2), policy_step(*p, u2, v)]
            is_done(done@, u2) && list.contains(v) && policy_step(*p, u2, v) implies settled(dist@, v) && dist_at(dist@, v)
                <= dist_at(dist@, u2) + step_cost(u2, v, cost_card, cost_diag) by {
            if u2 == u {
                lemma_policy_step_offset(*p, u, v);
                let i = choose|i: int| 0 <= i < offsets@.len() && offsets@[i] == Offset((v.0 - u.0) as i32, (v.1 - u.1) as i32);
            }
        }
    }
    Ghost(rank)
}

/// Relaxes the step from the expanded tile `u` to `v`.
#[verifier::rlimit(100)]
fn relax(
    p: &MovementPolicy,
    frontier: &mut Vec<(i64, i32, i32)>,
    dist: &mut HashMap<u64, i64>,
    prev: &mut HashMap<u64, (i32, i32)>,
    done: &HashSet<u64>,
    u: (i32, i32),
    d: i64,
    v: (i32, i32),
    o: Offset,
    cost_card: i64,
    cost_diag: i64,
    Ghost(list): Ghost<Seq<(i32, i32)>>,
    Ghost(rank): Ghost<Map<u64, nat>>,
    Ghost(start): Ghost<(i32, i32)>,
    Ghost(goal): Ghost<(i32, i32)>,
    Ghost(m): Ghost<int>,
    Ghost(tkeys): Ghost<Set<u64>>,
    Ghost(ko): Ghost<int>,
)
    requires
        p.offsets().contains(o),
        p.offsets()[ko] == o,
        0 <= ko < p.offsets().len(),
        v.0 == u.0 + o.0,
        v.1 == u.1 + o.1,
        list.contains(v),
        cost_card >= 0,
        cost_diag >= 0,
        m == cost_card + cost_diag,
        (list.len() + 1) * m <= i64::MAX,
        tkeys.len() <= list.len(),
        done@.len() <= tkeys.len(),
        is_done(done@, u),
        settled(old(dist)@, u),
        d == dist_at(old(dist)@, u),
        0 <= d <= (done@.len() - 1) * m,
        forall|f: (i32, i32)| #[trigger] is_done(done@, f) ==> dist_at(old(dist)@, f) <= d,
        search_ok(*p, list, old(dist)@, done@, old(prev)@, rank, start, goal, cost_card, cost_diag, m, tkeys),
        frontier_ok(old(frontier)@, old(dist)@, done@),
        closed_ok(*p, list, old(dist)@, done@, cost_card, cost_diag, Some(u)),
    ensures
        search_ok(*p, list, final(dist)@, done@, final(prev)@, rank, start, goal, cost_card, cost_diag, m, tkeys),
        frontier_ok(final(frontier)@, final(dist)@, done@),
        closed_ok(*p, list, final(dist)@, done@, cost_card, cost_diag, Some(u)),
        settled(final(dist)@, u),
        d == dist_at(final(dist)@, u),
        forall|f: (i32, i32)| #[trigger] is_done(done@, f) ==> dist_at(final(dist)@, f) == dist_at(old(dist)@, f),
        forall|t: (i32, i32)| settled(old(dist)@, t) ==> settled(final(dist)@, t) && dist_at(final(dist)@, t) <= dist_at(old(dist)@, t),
        settled(final(dist)@, v),
        dist_at(final(dist)@, v) <= d + step_cost(u, v, cost_card, cost_diag),
{
    reveal(search_ok);
    reveal(frontier_ok);
    reveal(closed_ok);
    proof {
        lemma_offset_is_policy_step(*p, p.offsets(), ko, u, v);
    }
    let vkey = pack_tile(v.0, v.1);
    if done.contains(&vkey) {
        proof {
            assert(is_done(done@, v));
            assert(settled(dist@, v));
            assert(dist_at(dist@, v) <= d);
        }
        return;
    }
    let step = if u.0 == v.0 || u.1 == v.1 { cost_card } else { cost_diag };
    proof {
        assert((done@.len() - 1) * m + m <= (list.len() + 1) * m) by (nonlinear_arith)
            requires
                done@.len() <= list.len(),
                m >= 0,
        ;
    }
    let nd = d + step;
    let known = match dist.get(&vkey) {
        Some(q) => Some(*q),
        None => None,
    };
    match known {
        Some(ov) => {
            if ov < nd {
                return;
            }
            if ov == nd {
                let cur = match prev.get(&vkey) {
                    Some(q) => *q,
                    None => (i32::MAX, i32::MAX),
                };
                if v.0 < cur.0 || (v.0 == cur.0 && v.1 < cur.1) {
                    let ghost prev0 = prev@;
                    prev.insert(vkey, u);
                    proof {
                        assert forall|n: (i32, i32)| #[trigger] settled(dist@, n) && n != start implies pred_ok(*p, dist@, done@, prev@, rank, n, cost_card, cost_diag) by {
                            lemma_tile_key_injective(n.0, n.1, v.0, v.1);
                            if n != v {
                                assert(pred_ok(*p, dist@, done@, prev0, rank, n, cost_card, cost_diag));
                            }
                        }
                    }
                }
                return;
            }
        },
        None => {},
    }
    let ghost dist0 = dist@;
    let ghost prev0 = prev@;
    let ghost fr0 = frontier@;
    remove_node(frontier, v.0, v.1);
    dist.insert(vkey, nd);
    prev.insert(vkey, u);
    let ghost fr1 = frontier@;
    frontier.push((nd, v.0, v.1));
    proof {
        assert(!is_done(done@, v));
        assert forall|t: (i32, i32)| #[trigger] settled(dist@, t) <==> settled(dist0, t) || t == v by {
            lemma_tile_key_injective(t.0, t.1, v.0, v.1);
        }
        assert forall|t: (i32, i32)| t != v implies #[trigger] dist_at(dist@, t) == dist_at(dist0, t) by {
            lemma_tile_key_injective(t.0, t.1, v.0, v.1);
        }
        assert(dist_at(dist@, v) == nd);
        assert(nd <= done@.len() * m) by (nonlinear_arith)
            requires
                nd == d + step,
                d <= (done@.len() - 1) * m,
                step <= m,
        ;
        // search_ok
        assert forall|t: (i32, i32)| #[trigger] settled(dist@, t) implies list.contains(t) && 0 <= dist_at(dist@, t) <= done@.len() * m by {
            if t != v {
                assert(settled(dist0, t));
            }
        }
        assert forall|t: (i32, i32)|
            #[trigger] is_done(done@, t) implies settled(dist@, t) && rank.contains_key(tile_key(t.0, t.1)) && rank_of(rank, t) < done@.len()
                && (t != start ==> rank_of(rank, t) >= 1) by {
            assert(settled(dist0, t));
        }
        assert forall|f: (i32, i32), t: (i32, i32)|
            #![trigger is_done(done@, f), settled(dist@, t)]
            is_done(done@, f) && settled(dist@, t) && !is_done(done@, t) implies dist_at(dist@, f) <= dist_at(dist@, t) by {
            assert(dist_at(dist@, f) == dist_at(dist0, f));
            if t != v {
                assert(settled(dist0, t));
            } else {
                assert(dist_at(dist0, f) <= d);
            }
        }
        assert forall|n: (i32, i32)| #[trigger] settled(dist@, n) && n != start implies pred_ok(*p, dist@, done@, prev@, rank, n, cost_card, cost_diag) by {
            lemma_tile_key_injective(n.0, n.1, v.0, v.1);
            if n != v {
                assert(settled(dist0, n));
                assert(pred_ok(*p, dist0, done@, prev0, rank, n, cost_card, cost_diag));
                let q = pred_of(prev0, n);
                assert(is_done(done@, q));
                assert(q != v);
                assert(dist_at(dist@, q) == dist_at(dist0, q));
            } else {
                assert(pred_of(prev@, n) == u);
                assert(u != v);
                assert(dist_at(dist@, u) == d);
            }
        }
        if settled(dist0, v) {
            assert(dist_at(dist0, v) > nd);
        }
        assert(settled(dist@, start));
        // frontier_ok
        assert forall|k: int| 0 <= k < frontier@.len() implies settled(dist@, node(#[trigger] frontier@[k])) && !is_done(done@, node(frontier@[k]))
            && frontier@[k].0 == dist_at(dist@, node(frontier@[k])) by {
            if k < fr1.len() {
                let e = frontier@[k];
                assert(e == fr1[k]);
                let i = choose|i: int| 0 <= i < fr0.len() && fr0[i] == e;
                assert(node(fr0[i]) != v);
            }
        }
        assert forall|t: (i32, i32)| #[trigger] settled(dist@, t) && !is_done(done@, t) implies exists|k: int| 0 <= k < frontier@.len() && node(#[trigger] frontier@[k]) == t by {
            if t == v {
                assert(node(frontier@[frontier@.len() - 1]) == t);
            } else {
                assert(settled(dist0, t));
                let i = choose|i: int| 0 <= i < fr0.len() && node(#[trigger] fr0[i]) == t;
                assert(fr1.contains(fr0[i]));
                let k = choose|k: int| 0 <= k < fr1.len() && fr1[k] == fr0[i];
                assert(frontier@[k] == fr1[k]);
                assert(node(frontier@[k]) == t);
            }
        }
        // closed_ok
        assert forall|u2: (i32, i32), w: (i32, i32)|
            #![trigger is_done(done@, u2), policy_step(*p, u2, w)]
            is_done(done@, u2) && Some(u) != Some(u2) && list.contains(w) && policy_step(*p, u2, w) implies settled(dist@, w) && dist_at(dist@, w)
                <= dist_at(dist@, u2) + step_cost(u2, w, cost_card, cost_diag) by {
            assert(settled(dist0, w));
            assert(dist_at(dist@, u2) == dist_at(dist0, u2));
        }
        assert forall|t: (i32, i32)| settled(dist0, t) implies settled(dist@, t) && dist_at(dist@, t) <= dist_at(dist0, t) by {}
    }
}

/// A directed intra edge; the blob holds the breakpoints of its path when paths are stored.
#[derive(Clone, Debug)]
pub struct IntraEdgeRow {
    pub from: i64,
    pub to: i64,
    pub cost: i64,
    pub path_blob: Option<Vec<u8>>,
}

/// The cluster an entrance leads out to: the owner of the tile on its side,
/// when that is another cluster.
pub open spec fn exit_of(owners: &OwnerMap, cluster_id: i64, e: EntranceRow) -> Option<i64> {
    let (dx, dy) = delta_of(e.dir);
    if e.dir == Dir::TP {
        None
    } else {
        match owners.lookup(e.x + dx, e.y + dy) {
            Some(c) => if c != cluster_id { Some(c) } else { None },
            None => None,
        }
    }
}

/// The exit cluster of each entrance of a cluster.
pub fn exit_clusters(owners: &OwnerMap, cluster_id: i64, es: &Vec<EntranceRow>) -> (r: Vec<Option<i64>>)
    ensures
        r@.len() == es@.len(),
        forall|k: int| 0 <= k < es@.len() ==> #[trigger] r@[k] == exit_of(owners, cluster_id, es@[k]),
{
    let mut r: Vec<Option<i64>> = Vec::new();
    let mut i: usize = 0;
    while i < es.len()
        invariant
            0 <= i <= es.len(),
            r@.len() == i,
            forall|k: int| 0 <= k < i ==> #[trigger] r@[k] == exit_of(owners, cluster_id, es@[k]),
        decreases es.len() - i,
    {
        let e = es[i];
        let v = if e.dir == Dir::TP {
            None
        } else {
            let (dx, dy) = dir_delta(e.dir);
            match owners.get(e.x as i64 + dx as i64, e.y as i64 + dy as i64) {
                Some(c) => if c != cluster_id { Some(c) } else { None },
                None => None,
            }
        };
        r.push(v);
        i = i + 1;
    }
    r
}

/// Two entrances that lead out to the same cluster.
pub open spec fn redundant(a: Option<i64>, b: Option<i64>) -> bool {
    a is Some && a == b
}

pub open spec fn entrance_tile(e: EntranceRow) -> (i32, i32) {
    (e.x, e.y)
}

/// Some walk runs from `a` to `b` through the tiles.
pub open spec fn walk_exists(p: MovementPolicy, tiles: Seq<(i32, i32)>, a: (i32, i32), b: (i32, i32)) -> bool {
    exists|w: Seq<(i32, i32)>| valid_walk(p, tiles, w, a, b)
}

/// The rows hold an edge from `from` to `to`.
pub open spec fn has_row(rows: Seq<IntraEdgeRow>, from: i64, to: i64) -> bool {
    exists|k: int| 0 <= k < rows.len() && rows[k].from == from && rows[k].to == to
}

/// An intra edge of the cluster: between entrances `i` and `j`, `i != j`, that
/// do not lead out to the same cluster, with the cost of a walk between them
/// inside the cluster that no other such walk undercuts (the shortest
/// distance), repeating no tile and, under positive step costs, the
/// tie-broken one, and that walk's breakpoints when paths are stored.
pub open spec fn intra_row_ok(
    p: MovementPolicy,
    tiles: Seq<(i32, i32)>,
    es: Seq<EntranceRow>,
    exits: Seq<Option<i64>>,
    plane: i32,
    cost_card: i64,
    cost_diag: i64,
    store_paths: bool,
    row: IntraEdgeRow,
) -> bool {
    exists|i: int, j: int, w: Seq<(i32, i32)>|
        0 <= i < es.len() && 0 <= j < es.len() && i != j && !redundant(exits[i], exits[j])
            && row.from == es[i].entrance_id && row.to == es[j].entrance_id
            && #[trigger] valid_walk(p, tiles, w, entrance_tile(es[i]), entrance_tile(es[j]))
            && row.cost == walk_cost(w, cost_card, cost_diag) && row.cost >= 0
            && no_repeat(w)
            && (cost_card > 0 && cost_diag > 0 ==> canonical_walk(p, tiles, entrance_tile(es[i]), entrance_tile(es[j]), w, cost_card, cost_diag))
            && (forall|w2: Seq<(i32, i32)>| valid_walk(p, tiles, w2, entrance_tile(es[i]), entrance_tile(es[j]))
                ==> row.cost <= walk_cost(w2, cost_card, cost_diag))
            && match row.path_blob {
                Some(b) => store_paths && b@ == blob_of(breakpoints(w), plane),
                None => !store_paths,
            }
}

/// The intra edges of one cluster, or `None` when it is skipped: fewer than
/// two entrances, or an entrance outside the cluster's tiles.
pub fn intra_edges_for_cluster(
    p: &MovementPolicy,
    plane: i32,
    cluster_tiles: &Vec<(i32, i32)>,
    es: &Vec<EntranceRow>,
    exits: &Vec<Option<i64>>,
    cost_card: i64,
    cost_diag: i64,
    store_paths: bool,
) -> (r: Option<Vec<IntraEdgeRow>>)
    requires
        exits@.len() == es@.len(),
        cost_card >= 0,
        cost_diag >= 0,
        (cluster_tiles@.len() + 1) * (cost_card + cost_diag) <= i64::MAX,
    ensures
        r is None <==> (es@.len() < 2 || exists|k: int| 0 <= k < es@.len() && !cluster_tiles@.contains(entrance_tile(#[trigger] es@[k]))),
        r matches Some(rows) ==> forall|k: int| 0 <= k < rows@.len() ==>
            intra_row_ok(*p, cluster_tiles@, es@, exits@, plane, cost_card, cost_diag, store_paths, #[trigger] rows@[k]),
        r matches Some(rows) ==> forall|i: int, j: int|
            0 <= i < es@.len() && 0 <= j < es@.len() && i != j && !redundant(exits@[i], exits@[j])
                && walk_exists(*p, cluster_tiles@, entrance_tile(es@[i]), entrance_tile(es@[j]))
                ==> #[trigger] has_row(rows@, es@[i].entrance_id, es@[j].entrance_id),
        r matches Some(rows) ==> ((forall|a: int, b: int| 0 <= a < b < es@.len() ==> es@[a].entrance_id != es@[b].entrance_id)
            ==> forall|a: int, b: int| 0 <= a < b < rows@.len() ==> (#[trigger] rows@[a].from, rows@[a].to) != (#[trigger] rows@[b].from, rows@[b].to)),
{
    if es.len() < 2 {
        return None;
    }
    let tiles = TileSet::from_tiles(cluster_tiles);
    let mut k: usize = 0;
    while k < es.len()
        invariant
            0 <= k <= es.len(),
            forall|t: (i32, i32)| #[trigger] tiles.has(t) <==> cluster_tiles@.contains(t),
            forall|j: int| 0 <= j < k ==> cluster_tiles@.contains(entrance_tile(#[trigger] es@[j])),
        decreases es.len() - k,
    {
        if !tiles.contains((es[k].x, es[k].y)) {
            return None;
        }
        k = k + 1;
    }
    let mut rows: Vec<IntraEdgeRow> = Vec::new();
    let ghost mut pairs: Seq<(int, int)> = seq![];
    let n = es.len();
    let mut i: usize = 0;
    while i < n
        invariant
            n == es@.len(),
            exits@.len() == n,
            0 <= i <= n,
            cost_card >= 0,
            cost_diag >= 0,
            (cluster_tiles@.len() + 1) * (cost_card + cost_diag) <= i64::MAX,
            pairs.len() == rows@.len(),
            forall|k: int| 0 <= k < pairs.len() ==> 0 <= (#[trigger] pairs[k]).0 < i && 0 <= pairs[k].1 < n && rows@[k].from == es@[pairs[k].0].entrance_id && rows@[k].to == es@[pairs[k].1].entrance_id,
            forall|a: int, b: int| 0 <= a < b < pairs.len() ==> (#[trigger] pairs[a]).0 < (#[trigger] pairs[b]).0 || (pairs[a].0 == pairs[b].0 && pairs[a].1 < pairs[b].1),
            forall|k: int| 0 <= k < rows@.len() ==> intra_row_ok(*p, cluster_tiles@, es@, exits@, plane, cost_card, cost_diag, store_paths, #[trigger] rows@[k]),
            forall|i2: int, j2: int|
                0 <= i2 < i && 0 <= j2 < n && i2 != j2 && !redundant(exits@[i2], exits@[j2])
                    && walk_exists(*p, cluster_tiles@, entrance_tile(es@[i2]), entrance_tile(es@[j2]))
                    ==> #[trigger] has_row(rows@, es@[i2].entrance_id, es@[j2].entrance_id),
        decreases n - i,
    {
        let mut j: usize = 0;
        while j < n
            invariant
                n == es@.len(),
                exits@.len() == n,
                0 <= i < n,
                0 <= j <= n,
                cost_card >= 0,
                cost_diag >= 0,
                (cluster_tiles@.len() + 1) * (cost_card + cost_diag) <= i64::MAX,
                pairs.len() == rows@.len(),
                forall|k: int| 0 <= k < pairs.len() ==> ((#[trigger] pairs[k]).0 < i || (pairs[k].0 == i && pairs[k].1 < j)) && 0 <= pairs[k].0 && 0 <= pairs[k].1 < n && rows@[k].from == es@[pairs[k].0].entrance_id && rows@[k].to == es@[pairs[k].1].entrance_id,
                forall|a: int, b: int| 0 <= a < b < pairs.len() ==> (#[trigger] pairs[a]).0 < (#[trigger] pairs[b]).0 || (pairs[a].0 == pairs[b].0 && pairs[a].1 < pairs[b].1),
                forall|k: int| 0 <= k < rows@.len() ==> intra_row_ok(*p, cluster_tiles@, es@, exits@, plane, cost_card, cost_diag, store_paths, #[trigger] rows@[k]),
                forall|i2: int, j2: int|
                    ((0 <= i2 < i && 0 <= j2 < n) || (i2 == i && 0 <= j2 < j)) && i2 != j2 && !redundant(exits@[i2], exits@[j2])
                        && walk_exists(*p, cluster_tiles@, entrance_tile(es@[i2]), entrance_tile(es@[j2]))
                        ==> #[trigger] has_row(rows@, es@[i2].entrance_id, es@[j2].entrance_id),
            decreases n - j,
        {
            if i == j {
                j = j + 1;
                continue;
            }
            let skip = match (exits[i], exits[j]) {
                (Some(ci), Some(cj)) => ci == cj,
                _ => false,
            };
            if skip {
                j = j + 1;
                continue;
            }
            let a = es[i];
            let b = es[j];
            let (cost, path) = shortest_path_in_set((a.x, a.y), (b.x, b.y), cluster_tiles, p, cost_card, cost_diag);
            match (cost, path) {
                (Some(total), Some(w)) => {
                    let ghost wv = w@;
                    let blob = if store_paths { Some(encode_path_blob(w, plane)) } else { None };
                    let row = IntraEdgeRow { from: a.entrance_id, to: b.entrance_id, cost: total, path_blob: blob };
                    proof {
                        assert(!redundant(exits@[i as int], exits@[j as int]));
                        assert(intra_row_ok(*p, cluster_tiles@, es@, exits@, plane, cost_card, cost_diag, store_paths, row)) by {
                            assert(valid_walk(*p, cluster_tiles@, wv, entrance_tile(es@[i as int]), entrance_tile(es@[j as int])));
                        }
                    }
                    let ghost r0 = rows@;
                    let ghost pairs0 = pairs;
                    rows.push(row);
                    proof {
                        pairs = pairs0.push((i as int, j as int));
                        assert forall|a: int, b: int| 0 <= a < b < pairs.len() implies (#[trigger] pairs[a]).0 < (#[trigger] pairs[b]).0 || (pairs[a].0 == pairs[b].0 && pairs[a].1 < pairs[b].1) by {
                            if b == pairs.len() - 1 {
                                assert(pairs[a] == pairs0[a]);
                            } else {
                                assert(pairs[a] == pairs0[a] && pairs[b] == pairs0[b]);
                            }
                        }
                        assert forall|k: int| 0 <= k < pairs.len() implies ((#[trigger] pairs[k]).0 < i || (pairs[k].0 == i && pairs[k].1 < j + 1)) && 0 <= pairs[k].0 && 0 <= pairs[k].1 < n && rows@[k].from == es@[pairs[k].0].entrance_id && rows@[k].to == es@[pairs[k].1].entrance_id by {
                            if k < pairs0.len() {
                                assert(pairs[k] == pairs0[k]);
                                assert(rows@[k] == r0[k]);
                            }
                        }
                        assert forall|k: int| 0 <= k < rows@.len() implies intra_row_ok(*p, cluster_tiles@, es@, exits@, plane, cost_card, cost_diag, store_paths, #[trigger] rows@[k]) by {
                            if k < r0.len() {
                                assert(rows@[k] == r0[k]);
                            }
                        }
                        assert(rows@[rows@.len() - 1] == row);
                        assert forall|i2: int, j2: int|
                            ((0 <= i2 < i && 0 <= j2 < n) || (i2 == i && 0 <= j2 < j + 1)) && i2 != j2 && !redundant(exits@[i2], exits@[j2])
                                && walk_exists(*p, cluster_tiles@, entrance_tile(es@[i2]), entrance_tile(es@[j2]))
                                implies #[trigger] has_row(rows@, es@[i2].entrance_id, es@[j2].entrance_id) by {
                            if !(i2 == i && j2 == j) {
                                assert(has_row(r0, es@[i2].entrance_id, es@[j2].entrance_id));
                                let k = choose|k: int| 0 <= k < r0.len() && r0[k].from == es@[i2].entrance_id && r0[k].to == es@[j2].entrance_id;
                                assert(rows@[k] == r0[k]);
                            }
                        }
                    }
                },
                _ => {
                    proof {
                        assert(!walk_exists(*p, cluster_tiles@, entrance_tile(es@[i as int]), entrance_tile(es@[j as int])));
                    }
                },
            }
            j = j + 1;
        }
        i = i + 1;
    }
    proof {
        if forall|a: int, b: int| 0 <= a < b < es@.len() ==> es@[a].entrance_id != es@[b].entrance_id {
            assert forall|a: int, b: int| 0 <= a < b < rows@.len() implies (#[trigger] rows@[a].from, rows@[a].to) != (#[trigger] rows@[b].from, rows@[b].to) by {
                let (pa, pb) = (pairs[a], pairs[b]);
                if pa.0 != pb.0 {
                    if pa.0 < pb.0 {
                        assert(es@[pa.0].entrance_id != es@[pb.0].entrance_id);
                    } else {
                        assert(es@[pb.0].entrance_id != es@[pa.0].entrance_id);
                    }
                } else {
                    assert(pa.1 < pb.1);
                    assert(es@[pa.1].entrance_id != es@[pb.1].entrance_id);
                }
            }
        }
    }
    Some(rows)
}

} // verus!
