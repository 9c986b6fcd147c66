use std::collections::HashSet;
use vstd::prelude::*;
use vstd::set_lib::lemma_len_subset;
use crate::grid::{pack_tile, tile_key, lemma_tile_key_injective, WalkGrid};
use crate::neighbor_policy::{MovementPolicy, Offset, is_unit_step, lemma_policy_step_offset, policy_step};
use crate::passability::{can_step, step_allowed, lemma_step_symmetric};
use crate::tile_order::{copy_tiles, sorted_unique_tiles, strictly_sorted, tile_lt};

verus! {

broadcast use {
    vstd::std_specs::hash::group_hash_axioms,
    vstd::seq_lib::group_seq_properties,
    vstd::seq_lib::seq_to_set_is_finite,
};

/// Largest extent of a cluster along either axis, in tiles.
pub const CLUSTER_SPAN: i64 = 64;

/// Every two tiles of `c` lie less than `CLUSTER_SPAN` apart on both axes, so the
/// bounding box fits within `CLUSTER_SPAN` by `CLUSTER_SPAN`.
pub open spec fn within_span(c: Seq<(i32, i32)>) -> bool {
    forall|a: (i32, i32), b: (i32, i32)|
        c.contains(a) && c.contains(b) ==> b.0 - a.0 < CLUSTER_SPAN && b.1 - a.1 < CLUSTER_SPAN
}

/// Unless `t` is alone in `c`, the oracle admits a step from `t` to another tile of `c`.
pub open spec fn has_partner(p: MovementPolicy, g: &WalkGrid, c: Seq<(i32, i32)>, t: (i32, i32)) -> bool {
    (forall|u: (i32, i32)| c.contains(u) ==> u == t) || exists|w: (i32, i32)|
        #[trigger] c.contains(w) && w != t && step_allowed(p, g, t.0 as int, t.1 as int, w.0 as int, w.1 as int)
}

pub open spec fn partnered(p: MovementPolicy, g: &WalkGrid, c: Seq<(i32, i32)>) -> bool {
    forall|t: (i32, i32)| c.contains(t) ==> has_partner(p, g, c, t)
}

/// What holds of one component built from the given tiles.
pub open spec fn component_ok(p: MovementPolicy, g: &WalkGrid, tiles: Seq<(i32, i32)>, c: Seq<(i32, i32)>) -> bool {
    &&& c.len() >= 1
    &&& strictly_sorted(c)
    &&& within_span(c)
    &&& partnered(p, g, c)
    &&& forall|t: (i32, i32)| c.contains(t) ==> tiles.contains(t)
}

/// The partition of a plane's tiles into components.
pub open spec fn partition_ok(
    p: MovementPolicy,
    g: &WalkGrid,
    tiles: Seq<(i32, i32)>,
    comps: Seq<Vec<(i32, i32)>>,
) -> bool {
    &&& forall|a: int| 0 <= a < comps.len() ==> component_ok(p, g, tiles, #[trigger] comps[a]@)
    &&& forall|a: int, b: int, t: (i32, i32)|
        0 <= a < b < comps.len() ==> !(#[trigger] comps[a]@.contains(t) && #[trigger] comps[b]@.contains(t))
    &&& forall|a: int, b: int|
        0 <= a < b < comps.len() ==> tile_lt(#[trigger] comps[a]@[0], #[trigger] comps[b]@[0])
}

/// Tile `n` lies `CLUSTER_SPAN` or more away from some tile of `c` on an axis,
/// so `c` could not take it in.
pub open spec fn breaks_span(c: Seq<(i32, i32)>, n: (i32, i32)) -> bool {
    exists|a: (i32, i32)|
        #[trigger] c.contains(a) && (n.0 - a.0 >= CLUSTER_SPAN || a.0 - n.0 >= CLUSTER_SPAN || n.1 - a.1 >= CLUSTER_SPAN || a.1
            - n.1 >= CLUSTER_SPAN)
}

/// No component could have grown further: a tile of the set that the oracle
/// admits a step to, by the policy's neighbourhood, from a tile of component
/// `a` is in component `a`, in an earlier component, or too far away for `a`.
pub open spec fn maximal(p: MovementPolicy, g: &WalkGrid, tiles: Seq<(i32, i32)>, comps: Seq<Vec<(i32, i32)>>) -> bool {
    forall|a: int, t: (i32, i32), n: (i32, i32)|
        #![trigger comps[a]@.contains(t), policy_step(p, t, n)]
        0 <= a < comps.len() && comps[a]@.contains(t) && tiles.contains(n) && policy_step(p, t, n) && step_allowed(
            p,
            g,
            t.0 as int,
            t.1 as int,
            n.0 as int,
            n.1 as int,
        ) ==> comps[a]@.contains(n) || (exists|b: int| 0 <= b < a && #[trigger] comps[b]@.contains(n)) || breaks_span(
            comps[a]@,
            n,
        )
}

/// The flood's bounding box is reached by its tiles and fits the span.
spec fn box_attained(q: Seq<(i32, i32)>, bx: (i64, i64), by: (i64, i64)) -> bool {
    &&& exists|t: (i32, i32)| #[trigger] q.contains(t) && t.0 == bx.0
    &&& exists|t: (i32, i32)| #[trigger] q.contains(t) && t.0 == bx.1
    &&& exists|t: (i32, i32)| #[trigger] q.contains(t) && t.1 == by.0
    &&& exists|t: (i32, i32)| #[trigger] q.contains(t) && t.1 == by.1
    &&& bx.1 - bx.0 < CLUSTER_SPAN
    &&& by.1 - by.0 < CLUSTER_SPAN
}

/// Every admitted step out of the first `h` flood tiles was taken or is out of reach.
spec fn expanded_ok(p: MovementPolicy, g: &WalkGrid, seeds: Seq<(i32, i32)>, visited: Set<u64>, q: Seq<(i32, i32)>, h: int) -> bool {
    forall|j: int, n: (i32, i32)|
        #![trigger policy_step(p, q[j], n)]
        0 <= j < h && seeds.contains(n) && policy_step(p, q[j], n) && step_allowed(
            p,
            g,
            q[j].0 as int,
            q[j].1 as int,
            n.0 as int,
            n.1 as int,
        ) ==> visited.contains(key_of(n)) || breaks_span(q, n)
}

proof fn lemma_breaks_grow(q0: Seq<(i32, i32)>, q1: Seq<(i32, i32)>, n: (i32, i32))
    requires
        q0.len() <= q1.len(),
        q1.subrange(0, q0.len() as int) == q0,
        breaks_span(q0, n),
    ensures
        breaks_span(q1, n),
{
    let a = choose|a: (i32, i32)|
        #[trigger] q0.contains(a) && (n.0 - a.0 >= CLUSTER_SPAN || a.0 - n.0 >= CLUSTER_SPAN || n.1 - a.1 >= CLUSTER_SPAN || a.1
            - n.1 >= CLUSTER_SPAN);
    let k = choose|k: int| 0 <= k < q0.len() && q0[k] == a;
    assert(q1[k] == q1.subrange(0, q0.len() as int)[k]);
    assert(q1.contains(a));
}

spec fn key_of(t: (i32, i32)) -> u64 {
    tile_key(t.0, t.1)
}

/// The state of one bounded flood fill grown from `seed`.
#[verifier::opaque]
spec fn flood_ok(
    p: MovementPolicy,
    g: &WalkGrid,
    seeds: Seq<(i32, i32)>,
    prior: Set<u64>,
    visited: Set<u64>,
    q: Seq<(i32, i32)>,
    seed: (i32, i32),
    bx: (i64, i64),
    by: (i64, i64),
) -> bool {
    &&& q.len() >= 1
    &&& q[0] == seed
    &&& forall|t: (i32, i32)|
        #[trigger] q.contains(t) ==> {
            &&& seeds.contains(t)
            &&& visited.contains(key_of(t))
            &&& !prior.contains(key_of(t))
            &&& !tile_lt(t, seed)
            &&& bx.0 <= t.0 <= bx.1
            &&& by.0 <= t.1 <= by.1
        }
    &&& bx.1 - bx.0 < CLUSTER_SPAN
    &&& by.1 - by.0 < CLUSTER_SPAN
    &&& partnered(p, g, q)
    &&& prior.subset_of(visited)
    &&& forall|t: (i32, i32)| #[trigger] visited.contains(key_of(t)) ==> prior.contains(key_of(t)) || q.contains(t)
}

proof fn lemma_push_partner(
    p: MovementPolicy,
    g: &WalkGrid,
    q: Seq<(i32, i32)>,
    s: (i32, i32),
    n: (i32, i32),
)
    requires
        partnered(p, g, q),
        q.contains(s),
        !q.contains(n),
        step_allowed(p, g, s.0 as int, s.1 as int, n.0 as int, n.1 as int),
    ensures
        partnered(p, g, q.push(n)),
{
    let q2 = q.push(n);
    lemma_step_symmetric(p, g, s.0 as int, s.1 as int, n.0 as int, n.1 as int);
    assert forall|t: (i32, i32)| q2.contains(t) implies has_partner(p, g, q2, t) by {
        if t == n {
            assert(q2.contains(s) && s != t);
        } else if t == s {
            assert(q2.contains(n) && n != t);
        } else {
            assert(q.contains(t));
            assert(q.contains(s) && s != t);
            assert(!(forall|u: (i32, i32)| q.contains(u) ==> u == t));
            let w = choose|w: (i32, i32)|
                #[trigger] q.contains(w) && w != t && step_allowed(p, g, t.0 as int, t.1 as int, w.0 as int, w.1 as int);
            assert(q2.contains(w));
        }
    }
}

/// Facts about the plane's seeds and walk set that hold throughout the build.
spec fn seeds_ok(seeds: Seq<(i32, i32)>, walkset: Set<u64>, wk: Set<u64>) -> bool {
    &&& strictly_sorted(seeds)
    &&& forall|t: (i32, i32)| walkset.contains(key_of(t)) <==> seeds.contains(t)
    &&& walkset == wk
    &&& wk.finite()
}

fn build_walkset(seeds: &Vec<(i32, i32)>) -> (r: HashSet<u64>)
    ensures
        forall|t: (i32, i32)| r@.contains(key_of(t)) <==> seeds@.contains(t),
        r@ == seeds@.map_values(|t: (i32, i32)| key_of(t)).to_set(),
{
    let ghost skeys = seeds@.map_values(|t: (i32, i32)| key_of(t));
    let mut walkset: HashSet<u64> = HashSet::new();
    let mut i: usize = 0;
    while i < seeds.len()
        invariant
            0 <= i <= seeds.len(),
            skeys == seeds@.map_values(|t: (i32, i32)| key_of(t)),
            forall|u: u64| walkset@.contains(u) <==> exists|j: int| 0 <= j < i && skeys[j] == u,
        decreases seeds.len() - i,
    {
        walkset.insert(pack_tile(seeds[i].0, seeds[i].1));
        proof {
            assert forall|u: u64| walkset@.contains(u) implies exists|j: int| 0 <= j < i + 1 && skeys[j] == u by {
                if u == skeys[i as int] {
                    assert(0 <= i < i + 1);
                }
            }
        }
        i = i + 1;
    }
    proof {
        assert forall|t: (i32, i32)| walkset@.contains(key_of(t)) <==> seeds@.contains(t) by {
            if walkset@.contains(key_of(t)) {
                let j = choose|j: int| 0 <= j < seeds.len() && skeys[j] == key_of(t);
                lemma_tile_key_injective(seeds@[j].0, seeds@[j].1, t.0, t.1);
                assert(seeds@[j] == t);
            }
            if seeds@.contains(t) {
                let j = choose|j: int| 0 <= j < seeds.len() && seeds@[j] == t;
                assert(skeys[j] == key_of(t));
            }
        }
        assert(walkset@ =~= skeys.to_set()) by {
            assert forall|u: u64| skeys.to_set().contains(u) implies walkset@.contains(u) by {
                let j = choose|j: int| 0 <= j < skeys.len() && skeys[j] == u;
            }
        }
    }
    walkset
}

/// Grows the flood by the neighbour of `s` at offset `o` when that neighbour is
/// an unvisited tile of the walk set, the oracle admits the step and the
/// bounding box stays within `CLUSTER_SPAN`.
#[verifier::rlimit(100)]
fn try_extend(
    p: &MovementPolicy,
    g: &WalkGrid,
    walkset: &HashSet<u64>,
    visited: &mut HashSet<u64>,
    queue: &mut Vec<(i32, i32)>,
    bx: &mut (i64, i64),
    by: &mut (i64, i64),
    s: (i32, i32),
    o: Offset,
    Ghost(seeds): Ghost<Seq<(i32, i32)>>,
    Ghost(wk): Ghost<Set<u64>>,
    Ghost(prior): Ghost<Set<u64>>,
    Ghost(i): Ghost<int>,
)
    requires
        seeds_ok(seeds, walkset@, wk),
        0 <= i < seeds.len(),
        old(queue)@.contains(s),
        is_unit_step(o),
        old(visited)@.subset_of(wk),
        forall|j: int| 0 <= j < i ==> #[trigger] old(visited)@.contains(key_of(seeds[j])),
        flood_ok(*p, g, seeds, prior, old(visited)@, old(queue)@, seeds[i], *old(bx), *old(by)),
        box_attained(old(queue)@, *old(bx), *old(by)),
        i32::MIN <= old(bx).0 && old(bx).1 <= i32::MAX,
        i32::MIN <= old(by).0 && old(by).1 <= i32::MAX,
    ensures
        box_attained(final(queue)@, *final(bx), *final(by)),
        final(queue)@.len() >= old(queue)@.len(),
        final(queue)@.subrange(0, old(queue)@.len() as int) == old(queue)@,
        forall|n: (i32, i32)|
            n.0 == s.0 + o.0 && n.1 == s.1 + o.1 && seeds.contains(n) && step_allowed(*p, g, s.0 as int, s.1 as int, n.0 as int, n.1 as int)
                ==> final(visited)@.contains(key_of(n)) || breaks_span(final(queue)@, n),
        i32::MIN <= final(bx).0 && final(bx).1 <= i32::MAX,
        i32::MIN <= final(by).0 && final(by).1 <= i32::MAX,
        final(visited)@.subset_of(wk),
        old(visited)@.subset_of(final(visited)@),
        flood_ok(*p, g, seeds, prior, final(visited)@, final(queue)@, seeds[i], *final(bx), *final(by)),
        final(queue)@.len() >= old(queue)@.len(),
        old(queue)@.contains(s) ==> final(queue)@.contains(s),
        2 * (wk.len() - final(visited)@.len()) + final(queue)@.len() <= 2 * (wk.len() - old(visited)@.len()) + old(queue)@.len(),
{
    proof {
        assert(queue@.subrange(0, queue@.len() as int) =~= queue@);
    }
    let nx64 = s.0 as i64 + o.0 as i64;
    let ny64 = s.1 as i64 + o.1 as i64;
    if nx64 < i32::MIN as i64 || nx64 > i32::MAX as i64 || ny64 < i32::MIN as i64 || ny64 > i32::MAX as i64 {
        return;
    }
    let n: (i32, i32) = (nx64 as i32, ny64 as i32);
    let nk = pack_tile(n.0, n.1);
    if visited.contains(&nk) || !walkset.contains(&nk) {
        return;
    }
    if !can_step(p, g, s.0, s.1, n.0, n.1) {
        return;
    }
    let nb_x: (i64, i64) = (if nx64 < bx.0 { nx64 } else { bx.0 }, if nx64 > bx.1 { nx64 } else { bx.1 });
    let nb_y: (i64, i64) = (if ny64 < by.0 { ny64 } else { by.0 }, if ny64 > by.1 { ny64 } else { by.1 });
    if nb_x.1 - nb_x.0 + 1 > CLUSTER_SPAN || nb_y.1 - nb_y.0 + 1 > CLUSTER_SPAN {
        proof {
            let a0 = choose|t: (i32, i32)| #[trigger] queue@.contains(t) && t.0 == bx.0;
            let a1 = choose|t: (i32, i32)| #[trigger] queue@.contains(t) && t.0 == bx.1;
            let b0 = choose|t: (i32, i32)| #[trigger] queue@.contains(t) && t.1 == by.0;
            let b1 = choose|t: (i32, i32)| #[trigger] queue@.contains(t) && t.1 == by.1;
            assert(breaks_span(queue@, n));
            assert(queue@.subrange(0, queue@.len() as int) =~= queue@);
        }
        return;
    }
    proof {
        lemma_len_subset(visited@, wk);
        lemma_flood_push(*p, g, seeds, prior, visited@, queue@, seeds[i], *bx, *by, s, n, nb_x, nb_y, i);
    }
    let ghost q0 = queue@;
    let ghost (bx0, by0) = (*bx, *by);
    visited.insert(nk);
    queue.push(n);
    *bx = nb_x;
    *by = nb_y;
    proof {
        assert(queue@ == q0.push(n));
        assert(queue@.subrange(0, q0.len() as int) =~= q0);
        assert(queue@.contains(n));
        let a0 = choose|t: (i32, i32)| #[trigger] q0.contains(t) && t.0 == bx0.0;
        let a1 = choose|t: (i32, i32)| #[trigger] q0.contains(t) && t.0 == bx0.1;
        let b0 = choose|t: (i32, i32)| #[trigger] q0.contains(t) && t.1 == by0.0;
        let b1 = choose|t: (i32, i32)| #[trigger] q0.contains(t) && t.1 == by0.1;
        assert(queue@.contains(a0) && queue@.contains(a1) && queue@.contains(b0) && queue@.contains(b1));
    }
}

proof fn lemma_flood_push(
    p: MovementPolicy,
    g: &WalkGrid,
    seeds: Seq<(i32, i32)>,
    prior: Set<u64>,
    v: Set<u64>,
    q: Seq<(i32, i32)>,
    seed: (i32, i32),
    bx: (i64, i64),
    by: (i64, i64),
    s: (i32, i32),
    n: (i32, i32),
    nbx: (i64, i64),
    nby: (i64, i64),
    i: int,
)
    requires
        flood_ok(p, g, seeds, prior, v, q, seed, bx, by),
        strictly_sorted(seeds),
        0 <= i < seeds.len(),
        seed == seeds[i],
        forall|j: int| 0 <= j < i ==> #[trigger] v.contains(key_of(seeds[j])),
        q.contains(s),
        !v.contains(key_of(n)),
        seeds.contains(n),
        step_allowed(p, g, s.0 as int, s.1 as int, n.0 as int, n.1 as int),
        nbx.0 == if n.0 < bx.0 { n.0 as i64 } else { bx.0 },
        nbx.1 == if n.0 > bx.1 { n.0 as i64 } else { bx.1 },
        nby.0 == if n.1 < by.0 { n.1 as i64 } else { by.0 },
        nby.1 == if n.1 > by.1 { n.1 as i64 } else { by.1 },
        nbx.1 - nbx.0 + 1 <= CLUSTER_SPAN,
        nby.1 - nby.0 + 1 <= CLUSTER_SPAN,
    ensures
        flood_ok(p, g, seeds, prior, v.insert(key_of(n)), q.push(n), seed, nbx, nby),
{
    reveal(flood_ok);
    let q2 = q.push(n);
    let v2 = v.insert(key_of(n));
    assert(!q.contains(n));
    lemma_push_partner(p, g, q, s, n);
    if tile_lt(n, seed) {
        let j = choose|j: int| 0 <= j < seeds.len() && seeds[j] == n;
        if j > i {
            assert(tile_lt(seeds[i], seeds[j]));
        }
        assert(v.contains(key_of(seeds[j])));
    }
    assert(q2[0] == seed);
    assert forall|t: (i32, i32)| #[trigger] v2.contains(key_of(t)) implies prior.contains(key_of(t)) || q2.contains(t) by {
        if t != n {
            lemma_tile_key_injective(t.0, t.1, n.0, n.1);
            assert(v.contains(key_of(t)));
        }
    }
    assert forall|t: (i32, i32)| #[trigger] q2.contains(t) implies {
        &&& seeds.contains(t)
        &&& v2.contains(key_of(t))
        &&& !prior.contains(key_of(t))
        &&& !tile_lt(t, seed)
        &&& nbx.0 <= t.0 <= nbx.1
        &&& nby.0 <= t.1 <= nby.1
    } by {
        if t != n {
            assert(q.contains(t));
        }
    }
}

/// The bounded flood from the `i`-th seed, which no earlier flood reached.
#[verifier::rlimit(40)]
fn flood(
    p: &MovementPolicy,
    g: &WalkGrid,
    seeds: &Vec<(i32, i32)>,
    walkset: &HashSet<u64>,
    offs: &Vec<Offset>,
    visited: &mut HashSet<u64>,
    i: usize,
    Ghost(wk): Ghost<Set<u64>>,
) -> (queue: Vec<(i32, i32)>)
    requires
        seeds_ok(seeds@, walkset@, wk),
        0 <= i < seeds.len(),
        offs@ == p.offsets(),
        forall|k: int| 0 <= k < offs@.len() ==> is_unit_step(#[trigger] offs@[k]),
        old(visited)@.subset_of(wk),
        !old(visited)@.contains(key_of(seeds@[i as int])),
        forall|j: int| 0 <= j < i ==> #[trigger] old(visited)@.contains(key_of(seeds@[j])),
    ensures
        final(visited)@.subset_of(wk),
        forall|j: int| 0 <= j <= i ==> #[trigger] final(visited)@.contains(key_of(seeds@[j])),
        exists|bx: (i64, i64), by: (i64, i64)|
            flood_ok(*p, g, seeds@, old(visited)@, final(visited)@, queue@, seeds@[i as int], bx, by),
        expanded_ok(*p, g, seeds@, final(visited)@, queue@, queue@.len() as int),
{
    let ghost prior = visited@;
    let seed = seeds[i];
    let sk = pack_tile(seed.0, seed.1);
    proof {
        assert(seeds@.contains(seed));
    }
    visited.insert(sk);
    let mut queue: Vec<(i32, i32)> = Vec::new();
    queue.push(seed);
    let mut head: usize = 0;
    let mut bx: (i64, i64) = (seed.0 as i64, seed.0 as i64);
    let mut by: (i64, i64) = (seed.1 as i64, seed.1 as i64);
    proof {
        reveal(flood_ok);
        assert(queue@ == seq![seed]);
        assert(queue@.contains(seed));
        assert forall|t: (i32, i32)| queue@.contains(t) implies has_partner(*p, g, queue@, t) by {
            assert(forall|u: (i32, i32)| queue@.contains(u) ==> u == t);
        }
        assert forall|t: (i32, i32)| #[trigger] visited@.contains(key_of(t)) implies prior.contains(key_of(t)) || queue@.contains(t) by {
            if !prior.contains(key_of(t)) {
                lemma_tile_key_injective(t.0, t.1, seed.0, seed.1);
                assert(queue@[0] == seed);
            }
        }
        lemma_len_subset(visited@, wk);
    }
    while head < queue.len()
        invariant
            0 <= head <= queue.len(),
            seeds_ok(seeds@, walkset@, wk),
            0 <= i < seeds.len(),
            seed == seeds@[i as int],
            offs@ == p.offsets(),
            forall|k: int| 0 <= k < offs@.len() ==> is_unit_step(#[trigger] offs@[k]),
            visited@.subset_of(wk),
            forall|j: int| 0 <= j <= i ==> #[trigger] visited@.contains(key_of(seeds@[j])),
            flood_ok(*p, g, seeds@, prior, visited@, queue@, seed, bx, by),
            box_attained(queue@, bx, by),
            expanded_ok(*p, g, seeds@, visited@, queue@, head as int),
            i32::MIN <= bx.0 && bx.1 <= i32::MAX,
            i32::MIN <= by.0 && by.1 <= i32::MAX,
        decreases 2 * (wk.len() - visited@.len()) + (queue.len() - head),
    {
        proof {
            lemma_len_subset(visited@, wk);
        }
        let s = queue[head];
        head = head + 1;
        let ghost bound = 2 * (wk.len() - visited@.len()) + (queue.len() - head);
        let mut k: usize = 0;
        while k < offs.len()
            invariant
                0 <= k <= offs.len(),
                0 < head <= queue.len(),
                queue@[head - 1] == s,
                queue@.contains(s),
                seeds_ok(seeds@, walkset@, wk),
                0 <= i < seeds.len(),
                seed == seeds@[i as int],
                offs@ == p.offsets(),
                forall|k: int| 0 <= k < offs@.len() ==> is_unit_step(#[trigger] offs@[k]),
                visited@.subset_of(wk),
                forall|j: int| 0 <= j <= i ==> #[trigger] visited@.contains(key_of(seeds@[j])),
                flood_ok(*p, g, seeds@, prior, visited@, queue@, seed, bx, by),
                box_attained(queue@, bx, by),
                expanded_ok(*p, g, seeds@, visited@, queue@, head - 1),
                forall|ii: int, n: (i32, i32)|
                    0 <= ii < k && n.0 == s.0 + offs@[ii].0 && n.1 == s.1 + offs@[ii].1 && seeds@.contains(n)
                        && step_allowed(*p, g, s.0 as int, s.1 as int, n.0 as int, n.1 as int)
                        ==> visited@.contains(key_of(n)) || breaks_span(queue@, n),
                i32::MIN <= bx.0 && bx.1 <= i32::MAX,
                i32::MIN <= by.0 && by.1 <= i32::MAX,
                2 * (wk.len() - visited@.len()) + (queue.len() - head) <= bound,
            decreases offs.len() - k,
        {
            proof {
                assert(is_unit_step(offs@[k as int]));
            }
            let ghost q0 = queue@;
            let ghost v0 = visited@;
            try_extend(p, g, walkset, visited, &mut queue, &mut bx, &mut by, s, offs[k],
                Ghost(seeds@), Ghost(wk), Ghost(prior), Ghost(i as int));
            proof {
                lemma_len_subset(visited@, wk);
                assert(queue@[head - 1] == queue@.subrange(0, q0.len() as int)[head - 1]);
                assert forall|j: int, n: (i32, i32)|
                    #![trigger policy_step(*p, queue@[j], n)]
                    0 <= j < head - 1 && seeds@.contains(n) && policy_step(*p, queue@[j], n) && step_allowed(
                        *p,
                        g,
                        queue@[j].0 as int,
                        queue@[j].1 as int,
                        n.0 as int,
                        n.1 as int,
                    ) implies visited@.contains(key_of(n)) || breaks_span(queue@, n) by {
                    assert(queue@[j] == queue@.subrange(0, q0.len() as int)[j]);
                    assert(q0[j] == queue@[j]);
                    assert(policy_step(*p, q0[j], n));
                    if !visited@.contains(key_of(n)) {
                        lemma_breaks_grow(q0, queue@, n);
                    }
                }
                assert forall|ii: int, n: (i32, i32)|
                    0 <= ii < k + 1 && n.0 == s.0 + offs@[ii].0 && n.1 == s.1 + offs@[ii].1 && seeds@.contains(n)
                        && step_allowed(*p, g, s.0 as int, s.1 as int, n.0 as int, n.1 as int)
                        implies visited@.contains(key_of(n)) || breaks_span(queue@, n) by {
                    if ii < k && !visited@.contains(key_of(n)) {
                        lemma_breaks_grow(q0, queue@, n);
                    }
                }
            }
            k = k + 1;
        }
        proof {
            lemma_len_subset(visited@, wk);
            assert forall|j: int, n: (i32, i32)|
                #![trigger policy_step(*p, queue@[j], n)]
                0 <= j < head && seeds@.contains(n) && policy_step(*p, queue@[j], n) && step_allowed(
                    *p,
                    g,
                    queue@[j].0 as int,
                    queue@[j].1 as int,
                    n.0 as int,
                    n.1 as int,
                ) implies visited@.contains(key_of(n)) || breaks_span(queue@, n) by {
                if j == head - 1 {
                    lemma_policy_step_offset(*p, s, n);
                    let ii = choose|ii: int| 0 <= ii < offs@.len() && offs@[ii] == Offset((n.0 - s.0) as i32, (n.1 - s.1) as i32);
                }
            }
        }
    }
    queue
}

/// The finished component: the flood's tiles in lexicographic order, led by its seed.
fn finish_component(
    p: &MovementPolicy,
    g: &WalkGrid,
    queue: &Vec<(i32, i32)>,
    Ghost(seeds): Ghost<Seq<(i32, i32)>>,
    Ghost(prior): Ghost<Set<u64>>,
    Ghost(visited): Ghost<Set<u64>>,
    Ghost(seed): Ghost<(i32, i32)>,
) -> (comp: Vec<(i32, i32)>)
    requires
        exists|bx: (i64, i64), by: (i64, i64)| flood_ok(*p, g, seeds, prior, visited, queue@, seed, bx, by),
        expanded_ok(*p, g, seeds, visited, queue@, queue@.len() as int),
    ensures
        component_ok(*p, g, seeds, comp@),
        comp@[0] == seed,
        forall|t: (i32, i32)| comp@.contains(t) <==> queue@.contains(t),
        forall|t: (i32, i32), n: (i32, i32)|
            #![trigger comp@.contains(t), policy_step(*p, t, n)]
            comp@.contains(t) && seeds.contains(n) && policy_step(*p, t, n) && step_allowed(*p, g, t.0 as int, t.1 as int, n.0 as int, n.1 as int)
                ==> visited.contains(key_of(n)) || breaks_span(comp@, n),
{
    let ghost (bx, by) = choose|bx: (i64, i64), by: (i64, i64)| flood_ok(*p, g, seeds, prior, visited, queue@, seed, bx, by);
    proof {
        reveal(flood_ok);
        assert(queue@.contains(queue@[0]));
    }
    let comp = sorted_unique_tiles(queue);
    proof {
        let c = comp@;
        assert(c.contains(seed));
        let ks = choose|ks: int| 0 <= ks < c.len() && c[ks] == seed;
        assert(c.contains(c[0]));
        if ks > 0 {
            assert(tile_lt(c[0], c[ks]));
        }
        assert(c[0] == seed);
        assert forall|t: (i32, i32)| c.contains(t) implies has_partner(*p, g, c, t) by {
            assert(queue@.contains(t));
            assert(has_partner(*p, g, queue@, t));
            if !(forall|u: (i32, i32)| c.contains(u) ==> u == t) {
                assert(!(forall|u: (i32, i32)| queue@.contains(u) ==> u == t));
                let w = choose|w: (i32, i32)|
                    #[trigger] queue@.contains(w) && w != t && step_allowed(*p, g, t.0 as int, t.1 as int, w.0 as int, w.1 as int);
                assert(c.contains(w));
            }
        }
        assert(within_span(c));
        assert forall|t: (i32, i32), n: (i32, i32)|
            #![trigger c.contains(t), policy_step(*p, t, n)]
            c.contains(t) && seeds.contains(n) && policy_step(*p, t, n) && step_allowed(*p, g, t.0 as int, t.1 as int, n.0 as int, n.1 as int)
                implies visited.contains(key_of(n)) || breaks_span(c, n) by {
            assert(queue@.contains(t));
            let j = choose|j: int| 0 <= j < queue@.len() && queue@[j] == t;
            assert(policy_step(*p, queue@[j], n));
            if !visited.contains(key_of(n)) {
                assert(breaks_span(queue@, n));
                let a = choose|a: (i32, i32)|
                    #[trigger] queue@.contains(a) && (n.0 - a.0 >= CLUSTER_SPAN || a.0 - n.0 >= CLUSTER_SPAN || n.1 - a.1 >= CLUSTER_SPAN
                        || a.1 - n.1 >= CLUSTER_SPAN);
                assert(c.contains(a));
            }
        }
    }
    comp
}

/// Partitions the given walkable tiles of one plane into components: a
/// breadth-first flood from each unvisited tile in lexicographic order, through
/// steps that the oracle admits, to tiles of the set, keeping the bounding box
/// within `CLUSTER_SPAN` on both axes. Each component is in lexicographic order,
/// and the components are ordered by their first tile.
#[verifier::rlimit(60)]
pub fn cluster_components(p: &MovementPolicy, g: &WalkGrid, tiles: &Vec<(i32, i32)>) -> (comps: Vec<Vec<(i32, i32)>>)
    ensures
        partition_ok(*p, g, tiles@, comps@),
        forall|t: (i32, i32)| tiles@.contains(t) ==> exists|a: int| 0 <= a < comps@.len() && #[trigger] comps@[a]@.contains(t),
        maximal(*p, g, tiles@, comps@),
        comps@.len() <= tiles@.len(),
{
    let seeds = sorted_unique_tiles(tiles);
    let offs = p.neighbor_offsets();
    let walkset = build_walkset(&seeds);
    let ghost wk = walkset@;
    let mut visited: HashSet<u64> = HashSet::new();
    let mut comps: Vec<Vec<(i32, i32)>> = Vec::new();
    let mut i: usize = 0;
    while i < seeds.len()
        invariant
            0 <= i <= seeds.len(),
            comps@.len() <= i,
            seeds@.len() <= tiles@.len(),
            seeds_ok(seeds@, walkset@, wk),
            forall|t: (i32, i32)| seeds@.contains(t) <==> tiles@.contains(t),
            forall|k: int| 0 <= k < offs@.len() ==> is_unit_step(#[trigger] offs@[k]),
            offs@ == p.offsets(),
            visited@.subset_of(wk),
            partition_ok(*p, g, seeds@, comps@),
            maximal(*p, g, seeds@, comps@),
            forall|a: int, t: (i32, i32)|
                0 <= a < comps@.len() && #[trigger] comps@[a]@.contains(t) ==> visited@.contains(key_of(t)),
            forall|t: (i32, i32)|
                #[trigger] visited@.contains(key_of(t)) ==> exists|a: int| 0 <= a < comps@.len() && #[trigger] comps@[a]@.contains(t),
            forall|j: int| 0 <= j < i ==> #[trigger] visited@.contains(key_of(seeds@[j])),
            i < seeds.len() ==> forall|a: int| 0 <= a < comps@.len() ==> tile_lt(#[trigger] comps@[a]@[0], seeds@[i as int]),
        decreases seeds.len() - i,
    {
        let seed = seeds[i];
        let sk = pack_tile(seed.0, seed.1);
        if !visited.contains(&sk) {
            let ghost prior = visited@;
            let queue = flood(p, g, &seeds, &walkset, &offs, &mut visited, i, Ghost(wk));
            let comp = finish_component(p, g, &queue, Ghost(seeds@), Ghost(prior), Ghost(visited@), Ghost(seed));
            let ghost old_comps = comps@;
            comps.push(comp);
            proof {
                let (bx, by) = choose|bx: (i64, i64), by: (i64, i64)| flood_ok(*p, g, seeds@, prior, visited@, queue@, seed, bx, by);
                reveal(flood_ok);
                assert(comps@ == old_comps.push(comp));
                assert forall|a: int, b: int, t: (i32, i32)|
                    0 <= a < b < comps@.len() implies !(#[trigger] comps@[a]@.contains(t) && #[trigger] comps@[b]@.contains(t)) by {
                    if b == comps@.len() - 1 && comps@[a]@.contains(t) {
                        assert(old_comps[a]@.contains(t));
                        assert(prior.contains(key_of(t)));
                    }
                }
                assert forall|t: (i32, i32)| #[trigger] visited@.contains(key_of(t)) implies exists|a: int|
                    0 <= a < comps@.len() && #[trigger] comps@[a]@.contains(t) by {
                    if prior.contains(key_of(t)) {
                        let a = choose|a: int| 0 <= a < old_comps.len() && #[trigger] old_comps[a]@.contains(t);
                        assert(comps@[a] == old_comps[a]);
                    } else {
                        assert(comps@[comps@.len() - 1]@.contains(t));
                    }
                }
                assert forall|a: int, t: (i32, i32)|
                    0 <= a < comps@.len() && #[trigger] comps@[a]@.contains(t) implies visited@.contains(key_of(t)) by {
                    if a < old_comps.len() {
                        assert(old_comps[a]@.contains(t));
                    }
                }
                assert forall|a: int, b: int|
                    0 <= a < b < comps@.len() implies tile_lt(#[trigger] comps@[a]@[0], #[trigger] comps@[b]@[0]) by {
                    if b == comps@.len() - 1 {
                        assert(tile_lt(old_comps[a]@[0], seeds@[i as int]));
                    }
                }
                assert forall|a: int| 0 <= a < comps@.len() implies component_ok(*p, g, seeds@, #[trigger] comps@[a]@) by {
                    if a < old_comps.len() {
                        assert(comps@[a] == old_comps[a]);
                    }
                }
                assert forall|a: int, t: (i32, i32), n: (i32, i32)|
                    #![trigger comps@[a]@.contains(t), policy_step(*p, t, n)]
                    0 <= a < comps@.len() && comps@[a]@.contains(t) && seeds@.contains(n) && policy_step(*p, t, n) && step_allowed(
                        *p,
                        g,
                        t.0 as int,
                        t.1 as int,
                        n.0 as int,
                        n.1 as int,
                    ) implies comps@[a]@.contains(n) || (exists|b: int| 0 <= b < a && #[trigger] comps@[b]@.contains(n)) || breaks_span(
                        comps@[a]@,
                        n,
                    ) by {
                    if a < old_comps.len() {
                        assert(comps@[a] == old_comps[a]);
                        assert(old_comps[a]@.contains(t));
                        if exists|b: int| 0 <= b < a && #[trigger] old_comps[b]@.contains(n) {
                            let b = choose|b: int| 0 <= b < a && #[trigger] old_comps[b]@.contains(n);
                            assert(comps@[b] == old_comps[b]);
                        }
                    } else {
                        assert(comps@[a]@ == comp@);
                        if visited@.contains(key_of(n)) && !breaks_span(comp@, n) {
                            if prior.contains(key_of(n)) {
                                let b = choose|b: int| 0 <= b < old_comps.len() && #[trigger] old_comps[b]@.contains(n);
                                assert(comps@[b] == old_comps[b]);
                                assert(comps@[b]@.contains(n));
                            } else {
                                assert(queue@.contains(n));
                                assert(comp@.contains(n));
                            }
                        }
                    }
                }
            }
        }
        proof {
            if i + 1 < seeds.len() {
                assert(tile_lt(seeds@[i as int], seeds@[i + 1]));
                assert forall|a: int| 0 <= a < comps@.len() implies tile_lt(#[trigger] comps@[a]@[0], seeds@[i + 1]) by {
                    if comps@[a]@[0] != seed {
                        assert(tile_lt(comps@[a]@[0], seeds@[i as int]));
                    }
                }
            }
        }
        i = i + 1;
    }
    proof {
        assert forall|t: (i32, i32)| tiles@.contains(t) implies exists|a: int|
            0 <= a < comps@.len() && #[trigger] comps@[a]@.contains(t) by {
            let j = choose|j: int| 0 <= j < seeds@.len() && seeds@[j] == t;
            assert(visited@.contains(key_of(seeds@[j])));
        }
        assert forall|a: int| 0 <= a < comps@.len() implies component_ok(*p, g, tiles@, #[trigger] comps@[a]@) by {
            assert(component_ok(*p, g, seeds@, comps@[a]@));
        }
        assert forall|a: int, t: (i32, i32), n: (i32, i32)|
            #![trigger comps@[a]@.contains(t), policy_step(*p, t, n)]
            0 <= a < comps@.len() && comps@[a]@.contains(t) && tiles@.contains(n) && policy_step(*p, t, n) && step_allowed(
                *p,
                g,
                t.0 as int,
                t.1 as int,
                n.0 as int,
                n.1 as int,
            ) implies comps@[a]@.contains(n) || (exists|b: int| 0 <= b < a && #[trigger] comps@[b]@.contains(n)) || breaks_span(
                comps@[a]@,
                n,
            ) by {
            assert(seeds@.contains(n));
        }
    }
    comps
}

/// Totals reported by a cluster build.
#[derive(Clone, Debug, Default)]
pub struct BuildStats {
    pub chunks_processed: usize,
    pub clusters_created: usize,
}

/// Low 56 bits of a cluster id: the index within the plane.
pub const LOCAL_INDEX_MASK: i64 = 0x00FF_FFFF_FFFF_FFFF;

/// A cluster id: the plane in the top 8 bits, the local index in the low 56.
pub open spec fn cluster_id_of(plane: i64, local_index: i64) -> i64 {
    ((plane & 0xFF) << 56i64) | (local_index & LOCAL_INDEX_MASK)
}

pub fn deterministic_cluster_id_plane(plane: i64, local_index: i64) -> (r: i64)
    ensures
        r == cluster_id_of(plane, local_index),
{
    ((plane & 0xFF) << 56i64) | (local_index & LOCAL_INDEX_MASK)
}

/// A cluster id is a function of `(plane, local_index)` alone, and it gives
/// both back: equal ids come from the same plane byte and the same local index.
pub proof fn lemma_cluster_id_stable(plane: i64, local_index: i64, plane2: i64, local_index2: i64)
    ensures
        (cluster_id_of(plane, local_index) >> 56i64) & 0xFF == plane & 0xFF,
        cluster_id_of(plane, local_index) & LOCAL_INDEX_MASK == local_index & LOCAL_INDEX_MASK,
        cluster_id_of(plane, local_index) == cluster_id_of(plane2, local_index2) <==> (plane & 0xFF
            == plane2 & 0xFF && local_index & LOCAL_INDEX_MASK == local_index2 & LOCAL_INDEX_MASK),
{
    assert((((plane & 0xFF) << 56i64) | (local_index & 0x00FF_FFFF_FFFF_FFFFi64)) >> 56i64 & 0xFF
        == plane & 0xFF) by (bit_vector);
    assert((((plane & 0xFF) << 56i64) | (local_index & 0x00FF_FFFF_FFFF_FFFFi64)) & 0x00FF_FFFF_FFFF_FFFFi64
        == local_index & 0x00FF_FFFF_FFFF_FFFFi64) by (bit_vector);
    assert((((plane2 & 0xFF) << 56i64) | (local_index2 & 0x00FF_FFFF_FFFF_FFFFi64)) >> 56i64 & 0xFF
        == plane2 & 0xFF) by (bit_vector);
    assert((((plane2 & 0xFF) << 56i64) | (local_index2 & 0x00FF_FFFF_FFFF_FFFFi64)) & 0x00FF_FFFF_FFFF_FFFFi64
        == local_index2 & 0x00FF_FFFF_FFFF_FFFFi64) by (bit_vector);
}

/// One cluster of a plane, with its id, its label (the local index) and its tiles
/// in lexicographic order.
#[derive(Clone, Debug)]
pub struct ClusterRecord {
    pub cluster_id: i64,
    pub plane: i32,
    pub label: i64,
    pub tiles: Vec<(i32, i32)>,
}

pub open spec fn record_tiles(r: ClusterRecord) -> Vec<(i32, i32)> {
    r.tiles
}

/// The clusters of one plane: the components of `cluster_components`, the
/// `k`-th of which gets label `k` and id `cluster_id_of(plane, k)`.
pub fn build_plane_clusters(p: &MovementPolicy, g: &WalkGrid, plane: i32, tiles: &Vec<(i32, i32)>) -> (r: Vec<ClusterRecord>)
    requires
        tiles@.len() <= i64::MAX,
    ensures
        partition_ok(*p, g, tiles@, r@.map_values(|c: ClusterRecord| record_tiles(c))),
        maximal(*p, g, tiles@, r@.map_values(|c: ClusterRecord| record_tiles(c))),
        forall|t: (i32, i32)| tiles@.contains(t) ==> exists|a: int| 0 <= a < r@.len() && #[trigger] r@[a].tiles@.contains(t),
        forall|k: int| 0 <= k < r@.len() ==> {
            &&& (#[trigger] r@[k]).label == k
            &&& r@[k].plane == plane
            &&& r@[k].cluster_id == cluster_id_of(plane as i64, k as i64)
        },
{
    let comps = cluster_components(p, g, tiles);
    let mut out: Vec<ClusterRecord> = Vec::new();
    let mut k: usize = 0;
    while k < comps.len()
        invariant
            0 <= k <= comps.len(),
            comps.len() <= i64::MAX,
            out@.len() == k,
            forall|j: int| 0 <= j < k ==> {
                &&& (#[trigger] out@[j]).tiles@ == comps@[j]@
                &&& out@[j].label == j
                &&& out@[j].plane == plane
                &&& out@[j].cluster_id == cluster_id_of(plane as i64, j as i64)
            },
        decreases comps.len() - k,
    {
        let label = k as i64;
        let c = copy_tiles(&comps[k]);
        let id = deterministic_cluster_id_plane(plane as i64, label);
        let ghost old_out = out@;
        out.push(ClusterRecord { cluster_id: id, plane, label, tiles: c });
        proof {
            assert(out@ == old_out.push(ClusterRecord { cluster_id: id, plane, label, tiles: c }));
            assert(out@[k as int].tiles@ == comps@[k as int]@);
            assert(out@[k as int].cluster_id == cluster_id_of(plane as i64, k as i64));
        }
        k = k + 1;
    }
    proof {
        let m = out@.map_values(|c: ClusterRecord| record_tiles(c));
        assert(m.len() == comps@.len());
        assert forall|a: int| 0 <= a < m.len() implies (#[trigger] m[a])@ == comps@[a]@ by {
            assert(out@[a].tiles@ == comps@[a]@);
        }
        assert forall|a: int| 0 <= a < m.len() implies component_ok(*p, g, tiles@, #[trigger] m[a]@) by {
            assert(m[a]@ == comps@[a]@);
            assert(component_ok(*p, g, tiles@, comps@[a]@));
        }
        assert forall|a: int, b: int, t: (i32, i32)|
            0 <= a < b < m.len() implies !(#[trigger] m[a]@.contains(t) && #[trigger] m[b]@.contains(t)) by {
            assert(m[a]@ == comps@[a]@);
            assert(m[b]@ == comps@[b]@);
        }
        assert forall|a: int, b: int| 0 <= a < b < m.len() implies tile_lt(#[trigger] m[a]@[0], #[trigger] m[b]@[0]) by {
            assert(m[a]@ == comps@[a]@);
            assert(m[b]@ == comps@[b]@);
        }
        assert forall|a: int, t: (i32, i32), n: (i32, i32)|
            #![trigger m[a]@.contains(t), policy_step(*p, t, n)]
            0 <= a < m.len() && m[a]@.contains(t) && tiles@.contains(n) && policy_step(*p, t, n) && step_allowed(
                *p,
                g,
                t.0 as int,
                t.1 as int,
                n.0 as int,
                n.1 as int,
            ) implies m[a]@.contains(n) || (exists|b: int| 0 <= b < a && #[trigger] m[b]@.contains(n)) || breaks_span(m[a]@, n) by {
            assert(m[a]@ == comps@[a]@);
            assert(comps@[a]@.contains(t));
            if exists|b: int| 0 <= b < a && #[trigger] comps@[b]@.contains(n) {
                let b = choose|b: int| 0 <= b < a && #[trigger] comps@[b]@.contains(n);
                assert(m[b]@ == comps@[b]@);
            }
        }
        assert forall|t: (i32, i32)| tiles@.contains(t) implies exists|a: int| 0 <= a < out@.len() && #[trigger] out@[a].tiles@.contains(t) by {
            let a = choose|a: int| 0 <= a < comps@.len() && #[trigger] comps@[a]@.contains(t);
            assert(out@[a].tiles@ == comps@[a]@);
        }
    }
    out
}

} // verus!
