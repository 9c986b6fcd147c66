use vstd::prelude::*;

verus! {

#[derive(Clone, Copy, Debug, PartialEq, Eq, Hash, Structural)]
pub struct ChunkId {
    pub x: i32,
    pub z: i32,
}

#[derive(Clone, Copy, Debug, PartialEq, Eq, Hash, Structural)]
pub struct PlaneId(pub i32);

#[derive(Clone, Copy, Debug, PartialEq, Eq, Hash, Structural)]
pub struct TileId(pub u64);

#[derive(Clone, Copy, Debug, PartialEq, Eq, Hash, Structural)]
pub struct ClusterId(pub u64);

#[derive(Clone, Copy, Debug, PartialEq, Eq, Structural)]
pub enum EdgeKind {
    Intra,
    Inter,
}

#[derive(Clone, Copy, Debug, PartialEq, Eq, Structural)]
pub struct Entrance {
    pub id: u64,
    pub from_cluster: ClusterId,
    pub to_cluster: ClusterId,
    pub from_tile: TileId,
    pub to_tile: TileId,
    pub cost: i32,
}

#[derive(Clone, Copy, Debug, PartialEq, Eq, Structural)]
pub struct Edge {
    pub id: u64,
    pub a: TileId,
    pub b: TileId,
    pub weight: i32,
    pub kind: EdgeKind,
}

/// The direction label of an entrance: the side of the tile it leaves by, or a
/// teleport endpoint.
#[derive(Clone, Copy, Debug, PartialEq, Eq, Hash, Structural)]
pub enum Dir {
    N,
    S,
    E,
    W,
    TP,
}

/// The step a label stands for: north is `y + 1`; a teleport label has none.
pub open spec fn delta_of(d: Dir) -> (int, int) {
    match d {
        Dir::N => (0, 1),
        Dir::S => (0, -1),
        Dir::E => (1, 0),
        Dir::W => (-1, 0),
        Dir::TP => (0, 0),
    }
}

pub open spec fn is_cardinal(d: Dir) -> bool {
    d != Dir::TP
}

pub open spec fn opposite_of(d: Dir) -> Dir {
    match d {
        Dir::N => Dir::S,
        Dir::S => Dir::N,
        Dir::E => Dir::W,
        Dir::W => Dir::E,
        Dir::TP => Dir::TP,
    }
}

pub fn dir_delta(d: Dir) -> (r: (i32, i32))
    ensures
        (r.0 as int, r.1 as int) == delta_of(d),
{
    match d {
        Dir::N => (0, 1),
        Dir::S => (0, -1),
        Dir::E => (1, 0),
        Dir::W => (-1, 0),
        Dir::TP => (0, 0),
    }
}

pub fn opposite(d: Dir) -> (r: Dir)
    ensures
        r == opposite_of(d),
        delta_of(r) == (-delta_of(d).0, -delta_of(d).1),
{
    match d {
        Dir::N => Dir::S,
        Dir::S => Dir::N,
        Dir::E => Dir::W,
        Dir::W => Dir::E,
        Dir::TP => Dir::TP,
    }
}

impl Dir {
    /// The label as stored: `"N"`, `"S"`, `"E"`, `"W"` or `"TP"`.
    pub fn as_str(&self) -> (r: &'static str)
        ensures
            *self == Dir::N ==> r@ == "N"@,
            *self == Dir::S ==> r@ == "S"@,
            *self == Dir::E ==> r@ == "E"@,
            *self == Dir::W ==> r@ == "W"@,
            *self == Dir::TP ==> r@ == "TP"@,
    {
        match self {
            Dir::N => "N",
            Dir::S => "S",
            Dir::E => "E",
            Dir::W => "W",
            Dir::TP => "TP",
        }
    }
}

/// The natural key of an entrance.
#[derive(Clone, Copy, Debug, PartialEq, Eq, Structural)]
pub struct EntranceKey {
    pub cluster_id: i64,
    pub x: i32,
    pub y: i32,
    pub plane: i32,
    pub dir: Dir,
}

/// One tile of a cluster.
#[derive(Clone, Copy, Debug, PartialEq, Eq, Structural)]
pub struct ClusterTile {
    pub cluster_id: i64,
    pub x: i32,
    pub y: i32,
}

/// A stored entrance.
#[derive(Clone, Copy, Debug, PartialEq, Eq, Structural)]
pub struct EntranceRow {
    pub entrance_id: i64,
    pub cluster_id: i64,
    pub x: i32,
    pub y: i32,
    pub plane: i32,
    pub dir: Dir,
    pub teleport_edge_id: Option<i64>,
}

/// A directed edge between two entrances.
#[derive(Clone, Copy, Debug, PartialEq, Eq, Structural)]
pub struct EdgeRow {
    pub from: i64,
    pub to: i64,
    pub cost: i64,
}

} // verus!
