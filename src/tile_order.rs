use vstd::prelude::*;

verus! {

broadcast use vstd::seq_lib::group_seq_properties;

/// Lexicographic order on `(x, y)`.
pub open spec fn tile_lt(a: (i32, i32), b: (i32, i32)) -> bool {
    a.0 < b.0 || (a.0 == b.0 && a.1 < b.1)
}

/// Strictly increasing in lexicographic order (so also free of duplicates).
pub open spec fn strictly_sorted(s: Seq<(i32, i32)>) -> bool {
    forall|i: int, j: int| 0 <= i < j < s.len() ==> tile_lt(#[trigger] s[i], #[trigger] s[j])
}

pub fn tile_less(a: (i32, i32), b: (i32, i32)) -> (r: bool)
    ensures
        r == tile_lt(a, b),
{
    a.0 < b.0 || (a.0 == b.0 && a.1 < b.1)
}

fn merge_tiles(a: &Vec<(i32, i32)>, b: &Vec<(i32, i32)>) -> (r: Vec<(i32, i32)>)
    requires
        strictly_sorted(a@),
        strictly_sorted(b@),
    ensures
        strictly_sorted(r@),
        forall|t: (i32, i32)| r@.contains(t) <==> (a@.contains(t) || b@.contains(t)),
        r@.len() <= a@.len() + b@.len(),
{
    let mut r: Vec<(i32, i32)> = Vec::new();
    let mut i: usize = 0;
    let mut j: usize = 0;
    while i < a.len() || j < b.len()
        invariant
            0 <= i <= a.len(),
            0 <= j <= b.len(),
            r@.len() <= i + j,
            strictly_sorted(a@),
            strictly_sorted(b@),
            strictly_sorted(r@),
            forall|t: (i32, i32)|
                r@.contains(t) <==> (a@.subrange(0, i as int).contains(t) || b@.subrange(
                    0,
                    j as int,
                ).contains(t)),
            r@.len() > 0 && i < a.len() ==> tile_lt(r@.last(), a@[i as int]),
            r@.len() > 0 && j < b.len() ==> tile_lt(r@.last(), b@[j as int]),
        decreases a.len() + b.len() - i - j,
    {
        let ghost r0 = r@;
        let ghost (i0, j0) = (i as int, j as int);
        let x: (i32, i32);
        if j >= b.len() || (i < a.len() && tile_less(a[i], b[j])) {
            x = a[i];
            i = i + 1;
        } else if i >= a.len() || tile_less(b[j], a[i]) {
            x = b[j];
            j = j + 1;
        } else {
            x = a[i];
            i = i + 1;
            j = j + 1;
        }
        r.push(x);
        assert(a@.subrange(0, i as int) == a@.subrange(0, i0).push(a@[i0]) || i == i0);
        assert(b@.subrange(0, j as int) == b@.subrange(0, j0).push(b@[j0]) || j == j0);
        assert(strictly_sorted(r@)) by {
            assert forall|p: int, q: int| 0 <= p < q < r@.len() implies tile_lt(
                #[trigger] r@[p],
                #[trigger] r@[q],
            ) by {
                if q == r@.len() - 1 && p < q - 1 {
                    assert(tile_lt(r0[p], r0.last()));
                }
            }
        }
    }
    assert(a@.subrange(0, a@.len() as int) == a@);
    assert(b@.subrange(0, b@.len() as int) == b@);
    r
}

fn sort_range(v: &Vec<(i32, i32)>, lo: usize, hi: usize) -> (r: Vec<(i32, i32)>)
    requires
        lo <= hi <= v.len(),
    ensures
        strictly_sorted(r@),
        forall|t: (i32, i32)| r@.contains(t) <==> v@.subrange(lo as int, hi as int).contains(t),
        r@.len() <= hi - lo,
    decreases hi - lo,
{
    if hi - lo == 0 {
        return Vec::new();
    }
    if hi - lo == 1 {
        let mut r: Vec<(i32, i32)> = Vec::new();
        r.push(v[lo]);
        assert(v@.subrange(lo as int, hi as int) == seq![v@[lo as int]]);
        assert(r@ == seq![v@[lo as int]]);
        return r;
    }
    let mid = lo + (hi - lo) / 2;
    let left = sort_range(v, lo, mid);
    let right = sort_range(v, mid, hi);
    let r = merge_tiles(&left, &right);
    assert(v@.subrange(lo as int, hi as int) == v@.subrange(lo as int, mid as int) + v@.subrange(
        mid as int,
        hi as int,
    ));
    r
}

/// The distinct tiles of `v`, in increasing lexicographic order.
pub fn sorted_unique_tiles(v: &Vec<(i32, i32)>) -> (r: Vec<(i32, i32)>)
    ensures
        strictly_sorted(r@),
        forall|t: (i32, i32)| r@.contains(t) <==> v@.contains(t),
        r@.len() <= v@.len(),
{
    let r = sort_range(v, 0, v.len());
    assert(v@.subrange(0, v@.len() as int) == v@);
    r
}

/// An element-for-element copy.
pub fn copy_tiles(v: &Vec<(i32, i32)>) -> (r: Vec<(i32, i32)>)
    ensures
        r@ == v@,
{
    let mut r: Vec<(i32, i32)> = Vec::new();
    let mut i: usize = 0;
    while i < v.len()
        invariant
            0 <= i <= v.len(),
            r@ == v@.subrange(0, i as int),
        decreases v.len() - i,
    {
        r.push(v[i]);
        i = i + 1;
        assert(r@ =~= v@.subrange(0, i as int));
    }
    assert(v@.subrange(0, v@.len() as int) =~= v@);
    r
}

} // verus!
