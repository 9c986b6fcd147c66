use vstd::prelude::*;
use vstd::set_lib::{lemma_int_range, lemma_len_subset, lemma_map_size, set_int_range};

verus! {

/// Totals reported by the trimmer.
#[derive(Clone, Debug, Default)]
pub struct TrimStats {
    pub rows_before: i64,
    pub rows_to_delete: i64,
    pub rows_after: i64,
}

/// How many intra edges each (from-entrance, exit cluster) group keeps.
pub const TRIM_K: usize = 5;

/// An intra edge with the cluster its target entrance leads out to.
#[derive(Clone, Copy, Debug, PartialEq, Eq, Structural)]
pub struct TrimRow {
    pub from: i64,
    pub to: i64,
    pub cost: i64,
    pub ext: Option<i64>,
}

pub open spec fn same_group(a: TrimRow, b: TrimRow) -> bool {
    a.from == b.from && a.ext == b.ext
}

/// Row `a` at index `i` comes before row `b` at index `j`: by cost, then by
/// target entrance, then by position.
pub open spec fn before(a: TrimRow, i: int, b: TrimRow, j: int) -> bool {
    a.cost < b.cost || (a.cost == b.cost && (a.to < b.to || (a.to == b.to && i < j)))
}

/// How many of the first `n` rows come before row `i` in its group.
pub open spec fn rank_upto(s: Seq<TrimRow>, i: int, n: int) -> nat
    decreases n,
{
    if n <= 0 {
        0
    } else {
        rank_upto(s, i, n - 1) + if same_group(s[n - 1], s[i]) && before(s[n - 1], n - 1, s[i], i) {
            1nat
        } else {
            0nat
        }
    }
}

/// The position of row `i` within its group.
pub open spec fn rank(s: Seq<TrimRow>, i: int) -> nat {
    rank_upto(s, i, s.len() as int)
}

/// A row survives trimming when its target leads nowhere outside, or when
/// fewer than `TRIM_K` rows of its group come before it.
pub open spec fn kept(s: Seq<TrimRow>, i: int) -> bool {
    s[i].ext is None || rank(s, i) < TRIM_K
}

/// Which rows survive trimming.
pub fn trim_flags(rows: &Vec<TrimRow>) -> (keep: Vec<bool>)
    ensures
        keep@.len() == rows@.len(),
        forall|i: int| 0 <= i < rows@.len() ==> #[trigger] keep@[i] == kept(rows@, i),
{
    let n = rows.len();
    let mut keep: Vec<bool> = Vec::new();
    let mut i: usize = 0;
    while i < n
        invariant
            n == rows@.len(),
            0 <= i <= n,
            keep@.len() == i,
            forall|k: int| 0 <= k < i ==> #[trigger] keep@[k] == kept(rows@, k),
        decreases n - i,
    {
        let r = rows[i];
        if r.ext.is_none() {
            keep.push(true);
        } else {
            let mut count: usize = 0;
            let mut j: usize = 0;
            while j < n
                invariant
                    n == rows@.len(),
                    0 <= i < n,
                    0 <= j <= n,
                    r == rows@[i as int],
                    count == rank_upto(rows@, i as int, j as int),
                    count <= j,
                decreases n - j,
            {
                let q = rows[j];
                let same = q.from == r.from && match (q.ext, r.ext) {
                    (Some(a), Some(b)) => a == b,
                    (None, None) => true,
                    _ => false,
                };
                let earlier = q.cost < r.cost || (q.cost == r.cost && (q.to < r.to || (q.to == r.to && j < i)));
                if same && earlier {
                    count = count + 1;
                }
                j = j + 1;
            }
            keep.push(count < TRIM_K);
        }
        i = i + 1;
    }
    keep
}

/// The rows that survive trimming, in their order.
pub fn trim_rows(rows: &Vec<TrimRow>) -> (r: Vec<TrimRow>)
    ensures
        r@ == keep_filter(rows@, rows@.len() as int),
{
    let keep = trim_flags(rows);
    let mut out: Vec<TrimRow> = Vec::new();
    let mut i: usize = 0;
    while i < rows.len()
        invariant
            0 <= i <= rows@.len(),
            keep@.len() == rows@.len(),
            forall|k: int| 0 <= k < rows@.len() ==> #[trigger] keep@[k] == kept(rows@, k),
            out@ == keep_filter(rows@, i as int),
        decreases rows.len() - i,
    {
        if keep[i] {
            out.push(rows[i]);
        }
        i = i + 1;
    }
    out
}

/// The surviving rows among the first `n`.
pub open spec fn keep_filter(s: Seq<TrimRow>, n: int) -> Seq<TrimRow>
    decreases n,
{
    if n <= 0 {
        seq![]
    } else if kept(s, n - 1) {
        keep_filter(s, n - 1).push(s[n - 1])
    } else {
        keep_filter(s, n - 1)
    }
}

proof fn lemma_rank_dominates(s: Seq<TrimRow>, i: int, j: int, n: int)
    requires
        0 <= i < s.len(),
        0 <= j < s.len(),
        0 <= n <= s.len(),
        same_group(s[i], s[j]),
        before(s[j], j, s[i], i),
    ensures
        rank_upto(s, i, n) >= rank_upto(s, j, n) + if j < n { 1nat } else { 0nat },
    decreases n,
{
    if n > 0 {
        lemma_rank_dominates(s, i, j, n - 1);
    }
}

/// Trimming keeps the cheapest rows of each group: within a group whose
/// target leads out to a cluster, every surviving row comes before every
/// dropped one (by cost, then target entrance), and no two rows of a group
/// share a position, so at most `TRIM_K` positions survive.
pub proof fn lemma_trim_keeps_cheapest(s: Seq<TrimRow>, i: int, j: int)
    requires
        0 <= i < s.len(),
        0 <= j < s.len(),
        i != j,
        same_group(s[i], s[j]),
        s[i].ext is Some,
    ensures
        rank(s, i) != rank(s, j),
        kept(s, i) && !kept(s, j) ==> before(s[i], i, s[j], j),
{
    if before(s[j], j, s[i], i) {
        lemma_rank_dominates(s, i, j, s.len() as int);
    } else {
        assert(before(s[i], i, s[j], j));
        lemma_rank_dominates(s, j, i, s.len() as int);
    }
}

/// The positions of the surviving rows from entrance `from` whose targets lead
/// out to cluster `ext`.
pub open spec fn survivors(s: Seq<TrimRow>, from: i64, ext: i64) -> Set<int> {
    Set::new(|i: int| 0 <= i < s.len() && s[i].from == from && s[i].ext == Some(ext) && kept(s, i))
}

/// At most `TRIM_K` rows survive in each (from-entrance, exit cluster) group.
pub proof fn lemma_trim_cap(s: Seq<TrimRow>, from: i64, ext: i64)
    ensures
        survivors(s, from, ext).finite(),
        survivors(s, from, ext).len() <= TRIM_K,
{
    let sv = survivors(s, from, ext);
    lemma_int_range(0, s.len() as int);
    assert(sv.subset_of(set_int_range(0, s.len() as int)));
    lemma_len_subset(sv, set_int_range(0, s.len() as int));
    let f = |i: int| rank(s, i) as int;
    assert(vstd::relations::injective_on(f, sv)) by {
        assert forall|i: int, j: int| sv.contains(i) && sv.contains(j) && #[trigger] f(i) == #[trigger] f(j) implies i == j by {
            if i != j {
                lemma_trim_keeps_cheapest(s, i, j);
            }
        }
    }
    let img = sv.map(f);
    lemma_map_size(sv, img, f);
    lemma_int_range(0, TRIM_K as int);
    assert(img.subset_of(set_int_range(0, TRIM_K as int))) by {
        assert forall|r: int| img.contains(r) implies set_int_range(0, TRIM_K as int).contains(r) by {
            let i = choose|i: int| sv.contains(i) && f(i) == r;
        }
    }
    lemma_len_subset(img, set_int_range(0, TRIM_K as int));
}

} // verus!
