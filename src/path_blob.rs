use vstd::prelude::*;

verus! {

pub open spec fn sign(v: int) -> i32 {
    if v > 0 {
        1i32
    } else if v < 0 {
        -1i32
    } else {
        0i32
    }
}

/// The direction of travel from `a` to `b` as a pair of signs; `None` when they coincide.
pub open spec fn dir_between(a: (i32, i32), b: (i32, i32)) -> Option<(i32, i32)> {
    if a == b {
        None
    } else {
        Some((sign(b.0 - a.0), sign(b.1 - a.1)))
    }
}

/// The breakpoints chosen among the interior tiles `1 .. i` of the path: each
/// tile where the direction changes, unless it repeats the last one chosen.
pub open spec fn breakpoints_upto(p: Seq<(i32, i32)>, i: int) -> Seq<(i32, i32)>
    decreases i,
{
    if i <= 1 {
        seq![p[0]]
    } else {
        let r = breakpoints_upto(p, i - 1);
        let k = i - 1;
        if dir_between(p[k - 1], p[k]) != dir_between(p[k], p[k + 1]) && r.last() != p[k] {
            r.push(p[k])
        } else {
            r
        }
    }
}

/// A path reduced to its breakpoints: the first tile, each tile where the
/// direction of travel changes, and the last tile.
pub open spec fn breakpoints(p: Seq<(i32, i32)>) -> Seq<(i32, i32)> {
    if p.len() == 0 {
        seq![]
    } else if p.len() == 1 {
        p
    } else {
        let r = breakpoints_upto(p, p.len() - 1);
        if r.last() != p.last() {
            r.push(p.last())
        } else {
            r
        }
    }
}

proof fn lemma_breakpoints_upto_nonempty(p: Seq<(i32, i32)>, i: int)
    ensures
        breakpoints_upto(p, i).len() >= 1,
        breakpoints_upto(p, i).len() <= if i <= 1 { 1 } else { i },
    decreases i,
{
    if i > 1 {
        lemma_breakpoints_upto_nonempty(p, i - 1);
    }
}

pub fn movement_dir(from: (i32, i32), to: (i32, i32)) -> (r: Option<(i32, i32)>)
    ensures
        r == dir_between(from, to),
{
    let dx = to.0 as i64 - from.0 as i64;
    let dy = to.1 as i64 - from.1 as i64;
    if dx == 0 && dy == 0 {
        None
    } else {
        let sx: i32 = if dx > 0 { 1 } else if dx < 0 { -1 } else { 0 };
        let sy: i32 = if dy > 0 { 1 } else if dy < 0 { -1 } else { 0 };
        Some((sx, sy))
    }
}

fn same_dir(a: Option<(i32, i32)>, b: Option<(i32, i32)>) -> (r: bool)
    ensures
        r == (a == b),
{
    match (a, b) {
        (None, None) => true,
        (Some(u), Some(v)) => u.0 == v.0 && u.1 == v.1,
        _ => false,
    }
}

pub fn reduce_path_to_breakpoints(path: &Vec<(i32, i32)>) -> (r: Vec<(i32, i32)>)
    ensures
        r@ == breakpoints(path@),
{
    let n = path.len();
    if n == 0 {
        return Vec::new();
    }
    if n == 1 {
        let mut r: Vec<(i32, i32)> = Vec::new();
        r.push(path[0]);
        assert(r@ =~= path@);
        return r;
    }
    let mut r: Vec<(i32, i32)> = Vec::new();
    r.push(path[0]);
    let mut i: usize = 1;
    while i + 1 < n
        invariant
            n == path@.len(),
            n >= 2,
            1 <= i <= n - 1,
            r@ == breakpoints_upto(path@, i as int),
        decreases n - i,
    {
        proof {
            lemma_breakpoints_upto_nonempty(path@, i as int);
        }
        let prev = path[i - 1];
        let cur = path[i];
        let next = path[i + 1];
        let last = r[r.len() - 1];
        if !same_dir(movement_dir(prev, cur), movement_dir(cur, next)) && !(last.0 == cur.0 && last.1 == cur.1) {
            r.push(cur);
        }
        i = i + 1;
    }
    proof {
        lemma_breakpoints_upto_nonempty(path@, i as int);
    }
    let last = r[r.len() - 1];
    let end = path[n - 1];
    if !(last.0 == end.0 && last.1 == end.1) {
        r.push(end);
    }
    r
}

/// The four bytes of `v`, least significant first.
pub open spec fn le_bytes(v: i32) -> Seq<u8> {
    let u = v as u32;
    seq![(u & 0xff) as u8, ((u >> 8u32) & 0xff) as u8, ((u >> 16u32) & 0xff) as u8, ((u >> 24u32) & 0xff) as u8]
}

/// Twelve bytes per breakpoint: `x`, `y` and the plane, each little-endian.
pub open spec fn blob_of(bp: Seq<(i32, i32)>, plane: i32) -> Seq<u8>
    decreases bp.len(),
{
    if bp.len() == 0 {
        seq![]
    } else {
        blob_of(bp.drop_last(), plane) + le_bytes(bp.last().0) + le_bytes(bp.last().1) + le_bytes(plane)
    }
}

fn push_le(out: &mut Vec<u8>, v: i32)
    ensures
        final(out)@ == old(out)@ + le_bytes(v),
{
    let u = v as u32;
    out.push((u & 0xff) as u8);
    out.push(((u >> 8u32) & 0xff) as u8);
    out.push(((u >> 16u32) & 0xff) as u8);
    out.push(((u >> 24u32) & 0xff) as u8);
    assert(out@ =~= old(out)@ + le_bytes(v));
}

/// The path reduced to breakpoints, packed as little-endian `(x, y, plane)`
/// triples of `i32`, twelve bytes each.
pub fn encode_path_blob(path: Vec<(i32, i32)>, plane: i32) -> (r: Vec<u8>)
    ensures
        r@ == blob_of(breakpoints(path@), plane),
        r@.len() == 12 * breakpoints(path@).len(),
{
    let reduced = reduce_path_to_breakpoints(&path);
    let mut out: Vec<u8> = Vec::new();
    let mut i: usize = 0;
    while i < reduced.len()
        invariant
            0 <= i <= reduced.len(),
            out@ == blob_of(reduced@.subrange(0, i as int), plane),
        decreases reduced.len() - i,
    {
        let (x, y) = reduced[i];
        push_le(&mut out, x);
        push_le(&mut out, y);
        push_le(&mut out, plane);
        proof {
            let s = reduced@.subrange(0, i + 1);
            assert(s.drop_last() =~= reduced@.subrange(0, i as int));
        }
        i = i + 1;
    }
    assert(reduced@.subrange(0, reduced@.len() as int) =~= reduced@);
    proof {
        lemma_blob_len(reduced@, plane);
    }
    out
}

/// A blob holds twelve bytes per breakpoint.
pub proof fn lemma_blob_len(bp: Seq<(i32, i32)>, plane: i32)
    ensures
        blob_of(bp, plane).len() == 12 * bp.len(),
    decreases bp.len(),
{
    if bp.len() > 0 {
        lemma_blob_len(bp.drop_last(), plane);
    }
}

} // verus!
