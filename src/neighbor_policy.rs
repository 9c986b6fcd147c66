use vstd::prelude::*;

verus! {

/// How a unit may move between tiles.
#[derive(Clone, Copy, Debug, PartialEq, Eq, Structural)]
pub struct MovementPolicy {
    pub allow_diagonals: bool,
    pub allow_corner_cut: bool,
    pub unit_radius_tiles: i32,
}

impl Default for MovementPolicy {
    fn default() -> (r: Self)
        ensures
            r.allow_diagonals,
            !r.allow_corner_cut,
            r.unit_radius_tiles == 1,
    {
        MovementPolicy { allow_diagonals: true, allow_corner_cut: false, unit_radius_tiles: 1 }
    }
}

/// A step `(dx, dy)` from one tile to a neighbour.
#[derive(Clone, Copy, Debug, PartialEq, Eq, Hash, Structural)]
pub struct Offset(pub i32, pub i32);

/// The four cardinal steps, east, west, north, south.
pub open spec fn cardinal_offsets() -> Seq<Offset> {
    seq![Offset(1i32, 0i32), Offset(-1i32, 0i32), Offset(0i32, 1i32), Offset(0i32, -1i32)]
}

/// The four diagonal steps, north-east, south-east, north-west, south-west.
pub open spec fn diagonal_offsets() -> Seq<Offset> {
    seq![Offset(1i32, 1i32), Offset(1i32, -1i32), Offset(-1i32, 1i32), Offset(-1i32, -1i32)]
}

/// Cardinals always; diagonals appended when the policy allows them.
pub open spec fn policy_offsets(allow_diagonals: bool) -> Seq<Offset> {
    if allow_diagonals {
        cardinal_offsets() + diagonal_offsets()
    } else {
        cardinal_offsets()
    }
}

/// An offset is one of the eight unit steps.
pub open spec fn is_unit_step(o: Offset) -> bool {
    -1 <= o.0 <= 1 && -1 <= o.1 <= 1 && !(o.0 == 0 && o.1 == 0)
}

impl MovementPolicy {
    pub open spec fn offsets(self) -> Seq<Offset> {
        policy_offsets(self.allow_diagonals)
    }

    /// The neighbourhood of a tile under this policy.
    pub fn neighbor_offsets(&self) -> (r: Vec<Offset>)
        ensures
            r@ == self.offsets(),
            forall|i: int| 0 <= i < r@.len() ==> is_unit_step(#[trigger] r@[i]),
    {
        let mut v: Vec<Offset> = vec![Offset(1, 0), Offset(-1, 0), Offset(0, 1), Offset(0, -1)];
        if self.allow_diagonals {
            v.push(Offset(1, 1));
            v.push(Offset(1, -1));
            v.push(Offset(-1, 1));
            v.push(Offset(-1, -1));
        }
        assert(v@ =~= self.offsets());
        v
    }
}

/// One step from `a` to `b` that the policy's neighbourhood offers: a unit
/// step, diagonal only where the policy allows diagonals.
pub open spec fn policy_step(p: MovementPolicy, a: (i32, i32), b: (i32, i32)) -> bool {
    let dx = b.0 - a.0;
    let dy = b.1 - a.1;
    -1 <= dx <= 1 && -1 <= dy <= 1 && !(dx == 0 && dy == 0) && (dx == 0 || dy == 0 || p.allow_diagonals)
}

/// Every policy step is one of the policy's offsets.
pub proof fn lemma_policy_step_offset(p: MovementPolicy, u: (i32, i32), v: (i32, i32))
    requires
        policy_step(p, u, v),
    ensures
        p.offsets().contains(Offset((v.0 - u.0) as i32, (v.1 - u.1) as i32)),
{
    let o = Offset((v.0 - u.0) as i32, (v.1 - u.1) as i32);
    let offs = p.offsets();
    if o == Offset(1i32, 0i32) {
        assert(offs[0] == o);
    } else if o == Offset(-1i32, 0i32) {
        assert(offs[1] == o);
    } else if o == Offset(0i32, 1i32) {
        assert(offs[2] == o);
    } else if o == Offset(0i32, -1i32) {
        assert(offs[3] == o);
    } else if o == Offset(1i32, 1i32) {
        assert(offs[4] == o);
    } else if o == Offset(1i32, -1i32) {
        assert(offs[5] == o);
    } else if o == Offset(-1i32, 1i32) {
        assert(offs[6] == o);
    } else {
        assert(offs[7] == o);
    }
}

} // verus!
