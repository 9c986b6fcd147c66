use vstd::prelude::*;
use crate::config::chars_of;
use crate::models::{Dir, EdgeRow, EntranceKey, EntranceRow};
use crate::owner_map::OwnerMap;

verus! {

/// Totals reported by the teleport connector.
#[derive(Clone, Debug, Default)]
pub struct TeleportStats {
    pub entrances_created: usize,
    pub edges_created: usize,
}

#[derive(Clone, Copy, Debug, PartialEq, Eq, Structural)]
pub enum TeleportKind {
    Door,
    Npc,
    Object,
    Lodestone,
    Item,
    Ifslot,
}

/// The kind named by a stored label.
pub open spec fn kind_of(s: Seq<char>) -> Option<TeleportKind> {
    if s == seq!['d', 'o', 'o', 'r'] {
        Some(TeleportKind::Door)
    } else if s == seq!['n', 'p', 'c'] {
        Some(TeleportKind::Npc)
    } else if s == seq!['o', 'b', 'j', 'e', 'c', 't'] {
        Some(TeleportKind::Object)
    } else if s == seq!['l', 'o', 'd', 'e', 's', 't', 'o', 'n', 'e'] {
        Some(TeleportKind::Lodestone)
    } else if s == seq!['i', 't', 'e', 'm'] {
        Some(TeleportKind::Item)
    } else if s == seq!['i', 'f', 's', 'l', 'o', 't'] {
        Some(TeleportKind::Ifslot)
    } else {
        None
    }
}

fn same_chars(a: &Vec<char>, b: &Vec<char>) -> (r: bool)
    ensures
        r == (a@ == b@),
{
    if a.len() != b.len() {
        return false;
    }
    let mut i: usize = 0;
    while i < a.len()
        invariant
            a@.len() == b@.len(),
            0 <= i <= a@.len(),
            forall|k: int| 0 <= k < i ==> a@[k] == b@[k],
        decreases a.len() - i,
    {
        if a[i] != b[i] {
            return false;
        }
        i = i + 1;
    }
    assert(a@ =~= b@);
    true
}

impl TeleportKind {
    /// Reads a stored kind label.
    pub fn parse(s: &str) -> (r: Option<TeleportKind>)
        ensures
            r == kind_of(s@),
    {
        let cs = chars_of(s);
        if same_chars(&cs, &vec!['d', 'o', 'o', 'r']) {
            Some(TeleportKind::Door)
        } else if same_chars(&cs, &vec!['n', 'p', 'c']) {
            Some(TeleportKind::Npc)
        } else if same_chars(&cs, &vec!['o', 'b', 'j', 'e', 'c', 't']) {
            Some(TeleportKind::Object)
        } else if same_chars(&cs, &vec!['l', 'o', 'd', 'e', 's', 't', 'o', 'n', 'e']) {
            Some(TeleportKind::Lodestone)
        } else if same_chars(&cs, &vec!['i', 't', 'e', 'm']) {
            Some(TeleportKind::Item)
        } else if same_chars(&cs, &vec!['i', 'f', 's', 'l', 'o', 't']) {
            Some(TeleportKind::Ifslot)
        } else {
            None
        }
    }
}

/// A tile with its plane.
#[derive(Clone, Copy, Debug, PartialEq, Eq, Structural)]
pub struct TilePos {
    pub x: i32,
    pub y: i32,
    pub plane: i32,
}

/// An abstract teleport edge; the source is absent for lodestone-like edges.
#[derive(Clone, Copy, Debug, PartialEq, Eq, Structural)]
pub struct TeleportEdge {
    pub edge_id: i64,
    pub kind: TeleportKind,
    pub src: Option<TilePos>,
    pub dst: Option<TilePos>,
    pub cost: i64,
}

/// The label a teleport entrance takes at a tile: `TP`, else the first free
/// cardinal of N, E, S, W; none when all five are taken there.
pub open spec fn first_free(used: Seq<EntranceKey>, cid: i64, x: i32, y: i32, plane: i32) -> Option<Dir> {
    let k = |d: Dir| EntranceKey { cluster_id: cid, x, y, plane, dir: d };
    if !used.contains(k(Dir::TP)) {
        Some(Dir::TP)
    } else if !used.contains(k(Dir::N)) {
        Some(Dir::N)
    } else if !used.contains(k(Dir::E)) {
        Some(Dir::E)
    } else if !used.contains(k(Dir::S)) {
        Some(Dir::S)
    } else if !used.contains(k(Dir::W)) {
        Some(Dir::W)
    } else {
        None
    }
}

/// The teleport entrance for one endpoint of edge `edge_id` on `plane`, if the
/// endpoint is on that plane, lies in a cluster, and a label is free there.
pub open spec fn endpoint_entry(
    used: Seq<EntranceKey>,
    owners: &OwnerMap,
    plane: i32,
    edge_id: i64,
    ep: Option<TilePos>,
) -> Option<(EntranceKey, i64)> {
    match ep {
        Some(t) => if t.plane != plane {
            None
        } else {
            match owners.lookup(t.x as int, t.y as int) {
                Some(cid) => match first_free(used, cid, t.x, t.y, plane) {
                    Some(d) => Some((EntranceKey { cluster_id: cid, x: t.x, y: t.y, plane, dir: d }, edge_id)),
                    None => None,
                },
                None => None,
            }
        },
        None => None,
    }
}

pub open spec fn keys_of(r: Seq<(EntranceKey, i64)>) -> Seq<EntranceKey> {
    r.map_values(|p: (EntranceKey, i64)| p.0)
}

pub open spec fn with_entry(r: Seq<(EntranceKey, i64)>, e: Option<(EntranceKey, i64)>) -> Seq<(EntranceKey, i64)> {
    match e {
        Some(v) => r.push(v),
        None => r,
    }
}

/// The teleport entrances planned for the first `n` edges: source, then
/// destination, each taking a label not used by the existing entrances or by
/// those planned before it.
pub open spec fn tp_plan(
    existing: Seq<EntranceKey>,
    owners: &OwnerMap,
    plane: i32,
    edges: Seq<TeleportEdge>,
    n: int,
) -> Seq<(EntranceKey, i64)>
    decreases n,
{
    if n <= 0 {
        seq![]
    } else {
        let r = tp_plan(existing, owners, plane, edges, n - 1);
        let e = edges[n - 1];
        let r1 = with_entry(r, endpoint_entry(existing + keys_of(r), owners, plane, e.edge_id, e.src));
        with_entry(r1, endpoint_entry(existing + keys_of(r1), owners, plane, e.edge_id, e.dst))
    }
}

/// The entrance key sits on the source or the destination of the edge.
pub open spec fn on_endpoint(e: TeleportEdge, k: EntranceKey) -> bool {
    e.src == Some(TilePos { x: k.x, y: k.y, plane: k.plane }) || e.dst == Some(TilePos { x: k.x, y: k.y, plane: k.plane })
}

/// Every planned teleport entrance names an edge of the input and sits on
/// one of that edge's endpoints.
pub proof fn lemma_plan_edges_exist(
    existing: Seq<EntranceKey>,
    owners: &OwnerMap,
    plane: i32,
    edges: Seq<TeleportEdge>,
    n: int,
    k: int,
)
    requires
        0 <= n <= edges.len(),
        0 <= k < tp_plan(existing, owners, plane, edges, n).len(),
    ensures
        exists|m: int|
            0 <= m < n && #[trigger] edges[m].edge_id == tp_plan(existing, owners, plane, edges, n)[k].1 && on_endpoint(
                edges[m],
                tp_plan(existing, owners, plane, edges, n)[k].0,
            ),
    decreases n,
{
    let r = tp_plan(existing, owners, plane, edges, n - 1);
    if k < r.len() {
        lemma_plan_edges_exist(existing, owners, plane, edges, n - 1, k);
        let m = choose|m: int| 0 <= m < n - 1 && #[trigger] edges[m].edge_id == r[k].1 && on_endpoint(edges[m], r[k].0);
        let e = edges[n - 1];
        let r1 = with_entry(r, endpoint_entry(existing + keys_of(r), owners, plane, e.edge_id, e.src));
        assert(r1[k] == r[k]);
        assert(tp_plan(existing, owners, plane, edges, n)[k] == r[k]);
    } else {
        assert(edges[n - 1].edge_id == tp_plan(existing, owners, plane, edges, n)[k].1);
    }
}

fn has_key(v: &Vec<EntranceKey>, k: EntranceKey) -> (r: bool)
    ensures
        r == v@.contains(k),
{
    let mut i: usize = 0;
    while i < v.len()
        invariant
            0 <= i <= v.len(),
            forall|j: int| 0 <= j < i ==> v@[j] != k,
        decreases v.len() - i,
    {
        if v[i] == k {
            return true;
        }
        i = i + 1;
    }
    false
}

fn choose_slot(used: &Vec<EntranceKey>, cid: i64, x: i32, y: i32, plane: i32) -> (r: Option<Dir>)
    ensures
        r == first_free(used@, cid, x, y, plane),
{
    if !has_key(used, EntranceKey { cluster_id: cid, x, y, plane, dir: Dir::TP }) {
        Some(Dir::TP)
    } else if !has_key(used, EntranceKey { cluster_id: cid, x, y, plane, dir: Dir::N }) {
        Some(Dir::N)
    } else if !has_key(used, EntranceKey { cluster_id: cid, x, y, plane, dir: Dir::E }) {
        Some(Dir::E)
    } else if !has_key(used, EntranceKey { cluster_id: cid, x, y, plane, dir: Dir::S }) {
        Some(Dir::S)
    } else if !has_key(used, EntranceKey { cluster_id: cid, x, y, plane, dir: Dir::W }) {
        Some(Dir::W)
    } else {
        None
    }
}

fn plan_endpoint(
    used: &Vec<EntranceKey>,
    owners: &OwnerMap,
    plane: i32,
    edge_id: i64,
    ep: Option<TilePos>,
) -> (r: Option<(EntranceKey, i64)>)
    ensures
        r == endpoint_entry(used@, owners, plane, edge_id, ep),
{
    match ep {
        Some(t) => {
            if t.plane != plane {
                return None;
            }
            match owners.get(t.x as i64, t.y as i64) {
                Some(cid) => match choose_slot(used, cid, t.x, t.y, plane) {
                    Some(d) => Some((EntranceKey { cluster_id: cid, x: t.x, y: t.y, plane, dir: d }, edge_id)),
                    None => None,
                },
                None => None,
            }
        },
        None => None,
    }
}

/// Phase A on one plane: the teleport entrances to create, each with the edge
/// it belongs to, given the entrances that already exist.
pub fn plan_teleport_entrances(
    owners: &OwnerMap,
    plane: i32,
    edges: &Vec<TeleportEdge>,
    existing: &Vec<EntranceKey>,
) -> (r: Vec<(EntranceKey, i64)>)
    ensures
        r@ == tp_plan(existing@, owners, plane, edges@, edges@.len() as int),
{
    let mut used: Vec<EntranceKey> = Vec::new();
    let mut i: usize = 0;
    while i < existing.len()
        invariant
            0 <= i <= existing.len(),
            used@ == existing@.subrange(0, i as int),
        decreases existing.len() - i,
    {
        used.push(existing[i]);
        i = i + 1;
        assert(used@ =~= existing@.subrange(0, i as int));
    }
    assert(existing@.subrange(0, existing@.len() as int) =~= existing@);
    let mut out: Vec<(EntranceKey, i64)> = Vec::new();
    let mut i: usize = 0;
    while i < edges.len()
        invariant
            0 <= i <= edges.len(),
            out@ == tp_plan(existing@, owners, plane, edges@, i as int),
            used@ == existing@ + keys_of(out@),
        decreases edges.len() - i,
    {
        let e = edges[i];
        let a = plan_endpoint(&used, owners, plane, e.edge_id, e.src);
        match a {
            Some(v) => {
                let ghost o = out@;
                out.push(v);
                used.push(v.0);
                assert(keys_of(out@) =~= keys_of(o).push(v.0));
                assert(used@ =~= existing@ + keys_of(out@));
            },
            None => {},
        }
        let b = plan_endpoint(&used, owners, plane, e.edge_id, e.dst);
        match b {
            Some(v) => {
                let ghost o = out@;
                out.push(v);
                used.push(v.0);
                assert(keys_of(out@) =~= keys_of(o).push(v.0));
                assert(used@ =~= existing@ + keys_of(out@));
            },
            None => {},
        }
        i = i + 1;
    }
    out
}

/// The last teleport entrance of edge `edge_id` at `ep`, by entrance id.
pub open spec fn endpoint_entrance(ents: Seq<EntranceRow>, edge_id: i64, ep: Option<TilePos>) -> Option<i64>
    decreases ents.len(),
{
    match ep {
        None => None,
        Some(t) => if ents.len() == 0 {
            None
        } else {
            let e = ents.last();
            if e.teleport_edge_id == Some(edge_id) && e.x == t.x && e.y == t.y && e.plane == t.plane {
                Some(e.entrance_id)
            } else {
                endpoint_entrance(ents.drop_last(), edge_id, ep)
            }
        },
    }
}

/// The teleport interconnections of the first `n` edges: for an edge with both
/// endpoints materialised, source to destination at its cost, and back again
/// for a door.
pub open spec fn tp_links(edges: Seq<TeleportEdge>, ents: Seq<EntranceRow>, n: int) -> Seq<EdgeRow>
    decreases n,
{
    if n <= 0 {
        seq![]
    } else {
        let r = tp_links(edges, ents, n - 1);
        let e = edges[n - 1];
        match (endpoint_entrance(ents, e.edge_id, e.src), endpoint_entrance(ents, e.edge_id, e.dst)) {
            (Some(a), Some(b)) => if e.kind == TeleportKind::Door {
                r.push(EdgeRow { from: a, to: b, cost: e.cost }).push(EdgeRow { from: b, to: a, cost: e.cost })
            } else {
                r.push(EdgeRow { from: a, to: b, cost: e.cost })
            },
            _ => r,
        }
    }
}

fn find_endpoint(ents: &Vec<EntranceRow>, edge_id: i64, ep: Option<TilePos>) -> (r: Option<i64>)
    ensures
        r == endpoint_entrance(ents@, edge_id, ep),
{
    let (x, y, pl) = match ep {
        Some(t) => (t.x, t.y, t.plane),
        None => {
            return None;
        },
    };
    let ghost t = ep.unwrap();
    assert(ents@.subrange(0, ents@.len() as int) =~= ents@);
    let mut i: usize = ents.len();
    while i > 0
        invariant
            0 <= i <= ents@.len(),
            ep == Some(t),
            x == t.x && y == t.y && pl == t.plane,
            endpoint_entrance(ents@, edge_id, ep) == endpoint_entrance(ents@.subrange(0, i as int), edge_id, ep),
        decreases i,
    {
        let e = ents[i - 1];
        proof {
            assert(ents@.subrange(0, i as int).drop_last() =~= ents@.subrange(0, i - 1));
            assert(ents@.subrange(0, i as int).last() == e);
        }
        let hit = match e.teleport_edge_id {
            Some(t) => t == edge_id,
            None => false,
        };
        if hit && e.x == x && e.y == y && e.plane == pl {
            return Some(e.entrance_id);
        }
        i = i - 1;
    }
    None
}

/// Phase C: the directed teleport interconnections, in the order of the edges.
pub fn teleport_links(edges: &Vec<TeleportEdge>, ents: &Vec<EntranceRow>) -> (r: Vec<EdgeRow>)
    ensures
        r@ == tp_links(edges@, ents@, edges@.len() as int),
{
    assert(ents@.subrange(0, ents@.len() as int) =~= ents@);
    let mut out: Vec<EdgeRow> = Vec::new();
    let mut i: usize = 0;
    while i < edges.len()
        invariant
            0 <= i <= edges.len(),
            out@ == tp_links(edges@, ents@, i as int),
        decreases edges.len() - i,
    {
        let e = edges[i];
        let a = find_endpoint(ents, e.edge_id, e.src);
        let b = find_endpoint(ents, e.edge_id, e.dst);
        match (a, b) {
            (Some(a), Some(b)) => {
                out.push(EdgeRow { from: a, to: b, cost: e.cost });
                if e.kind == TeleportKind::Door {
                    out.push(EdgeRow { from: b, to: a, cost: e.cost });
                }
            },
            _ => {},
        }
        i = i + 1;
    }
    out
}

/// A teleport endpoint queued during entrance discovery: the entrance key
/// (labelled `TP`), its edge, and whether it is the edge's source.
#[derive(Clone, Copy, Debug, PartialEq, Eq, Structural)]
pub struct QueuedEndpoint {
    pub key: EntranceKey,
    pub edge_id: i64,
    pub is_src: bool,
}

/// The endpoint of `ep` on `plane` that lies in a cluster, as a queued entrance.
pub open spec fn queued_of(owners: &OwnerMap, plane: i32, edge_id: i64, ep: Option<TilePos>, is_src: bool) -> Option<QueuedEndpoint> {
    match ep {
        Some(t) => if t.plane != plane {
            None
        } else {
            match owners.lookup(t.x as int, t.y as int) {
                Some(cid) => Some(QueuedEndpoint { key: EntranceKey { cluster_id: cid, x: t.x, y: t.y, plane, dir: Dir::TP }, edge_id, is_src }),
                None => None,
            }
        },
        None => None,
    }
}

pub open spec fn with_queued(r: Seq<QueuedEndpoint>, q: Option<QueuedEndpoint>) -> Seq<QueuedEndpoint> {
    match q {
        Some(v) => r.push(v),
        None => r,
    }
}

/// The endpoints queued for the first `n` edges: source, then destination.
pub open spec fn queued_endpoints(owners: &OwnerMap, plane: i32, edges: Seq<TeleportEdge>, n: int) -> Seq<QueuedEndpoint>
    decreases n,
{
    if n <= 0 {
        seq![]
    } else {
        let e = edges[n - 1];
        let r = queued_endpoints(owners, plane, edges, n - 1);
        with_queued(with_queued(r, queued_of(owners, plane, e.edge_id, e.src, true)), queued_of(owners, plane, e.edge_id, e.dst, false))
    }
}

/// Every queued teleport endpoint names an edge of the input.
pub proof fn lemma_queued_edges_exist(owners: &OwnerMap, plane: i32, edges: Seq<TeleportEdge>, n: int, k: int)
    requires
        0 <= n <= edges.len(),
        0 <= k < queued_endpoints(owners, plane, edges, n).len(),
    ensures
        exists|m: int| 0 <= m < n && #[trigger] edges[m].edge_id == queued_endpoints(owners, plane, edges, n)[k].edge_id,
    decreases n,
{
    let e = edges[n - 1];
    let r = queued_endpoints(owners, plane, edges, n - 1);
    let r1 = with_queued(r, queued_of(owners, plane, e.edge_id, e.src, true));
    if k < r.len() {
        lemma_queued_edges_exist(owners, plane, edges, n - 1, k);
        let m = choose|m: int| 0 <= m < n - 1 && #[trigger] edges[m].edge_id == r[k].edge_id;
        assert(r1[k] == r[k]);
        assert(queued_endpoints(owners, plane, edges, n)[k] == r[k]);
    } else {
        assert(edges[n - 1].edge_id == queued_endpoints(owners, plane, edges, n)[k].edge_id);
    }
}

fn queue_one(owners: &OwnerMap, plane: i32, edge_id: i64, ep: Option<TilePos>, is_src: bool) -> (r: Option<QueuedEndpoint>)
    ensures
        r == queued_of(owners, plane, edge_id, ep, is_src),
{
    match ep {
        Some(t) => {
            if t.plane != plane {
                return None;
            }
            match owners.get(t.x as i64, t.y as i64) {
                Some(cid) => Some(QueuedEndpoint { key: EntranceKey { cluster_id: cid, x: t.x, y: t.y, plane, dir: Dir::TP }, edge_id, is_src }),
                None => None,
            }
        },
        None => None,
    }
}

/// The teleport endpoints of one plane that lie in a cluster, in edge order.
pub fn teleport_endpoints(owners: &OwnerMap, plane: i32, edges: &Vec<TeleportEdge>) -> (r: Vec<QueuedEndpoint>)
    ensures
        r@ == queued_endpoints(owners, plane, edges@, edges@.len() as int),
{
    let mut out: Vec<QueuedEndpoint> = Vec::new();
    let mut i: usize = 0;
    while i < edges.len()
        invariant
            0 <= i <= edges.len(),
            out@ == queued_endpoints(owners, plane, edges@, i as int),
        decreases edges.len() - i,
    {
        let e = edges[i];
        match queue_one(owners, plane, e.edge_id, e.src, true) {
            Some(q) => out.push(q),
            None => {},
        }
        match queue_one(owners, plane, e.edge_id, e.dst, false) {
            Some(q) => out.push(q),
            None => {},
        }
        i = i + 1;
    }
    out
}

} // verus!
