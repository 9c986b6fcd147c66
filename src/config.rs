use vstd::prelude::*;

verus! {

/// Settings shared by every stage.
#[derive(Clone, Debug, Default)]
pub struct Config {
    pub tiles_db: Option<String>,
    pub out_db: Option<String>,
    pub planes: Option<Vec<i32>>,
    pub chunk_range: Option<(i32, i32, i32, i32)>,
    pub threads: Option<usize>,
    pub dry_run: bool,
    pub store_paths: bool,
    pub log_level: Option<String>,
}

/// White space as `char::is_whitespace` has it (Unicode `White_Space`).
pub open spec fn is_ws(c: char) -> bool {
    let u = c as u32;
    (0x9 <= u <= 0xd) || u == 0x20 || u == 0x85 || u == 0xa0 || u == 0x1680 || (0x2000 <= u <= 0x200a)
        || u == 0x2028 || u == 0x2029 || u == 0x202f || u == 0x205f || u == 0x3000
}

pub open spec fn trim_start(s: Seq<char>) -> Seq<char>
    decreases s.len(),
{
    if s.len() > 0 && is_ws(s[0]) {
        trim_start(s.drop_first())
    } else {
        s
    }
}

pub open spec fn trim_end(s: Seq<char>) -> Seq<char>
    decreases s.len(),
{
    if s.len() > 0 && is_ws(s.last()) {
        trim_end(s.drop_last())
    } else {
        s
    }
}

/// `s` without leading and trailing white space.
pub open spec fn trim(s: Seq<char>) -> Seq<char> {
    trim_end(trim_start(s))
}

/// The pieces of `s` between occurrences of `sep` (one more than there are separators).
pub open spec fn split(s: Seq<char>, sep: char) -> Seq<Seq<char>>
    decreases s.len(),
{
    if s.len() == 0 {
        seq![seq![]]
    } else {
        let r = split(s.drop_last(), sep);
        if s.last() == sep {
            r.push(seq![])
        } else {
            r.update(r.len() - 1, r.last().push(s.last()))
        }
    }
}

pub open spec fn is_digit(c: char) -> bool {
    '0' <= c <= '9'
}

pub open spec fn digits_value(s: Seq<char>) -> int
    decreases s.len(),
{
    if s.len() == 0 {
        0
    } else {
        digits_value(s.drop_last()) * 10 + (s.last() as int - '0' as int)
    }
}

pub open spec fn all_digits(s: Seq<char>) -> bool {
    forall|i: int| 0 <= i < s.len() ==> is_digit(#[trigger] s[i])
}

/// What follows an optional leading sign.
pub open spec fn unsigned_part(s: Seq<char>) -> Seq<char> {
    if s.len() > 0 && (s[0] == '-' || s[0] == '+') {
        s.drop_first()
    } else {
        s
    }
}

/// A decimal `i32` as `str::parse` reads it: an optional sign, then at least
/// one ASCII digit, nothing else, and a value in range.
pub open spec fn parse_i32_spec(s: Seq<char>) -> Option<i32> {
    let body = unsigned_part(s);
    let v = if s.len() > 0 && s[0] == '-' {
        -digits_value(body)
    } else {
        digits_value(body)
    };
    if body.len() == 0 || !all_digits(body) {
        None
    } else if i32::MIN <= v <= i32::MAX {
        Some(v as i32)
    } else {
        None
    }
}

proof fn lemma_digits_monotone(s: Seq<char>, i: int)
    requires
        0 <= i <= s.len(),
        forall|k: int| 0 <= k < s.len() ==> is_digit(#[trigger] s[k]),
    ensures
        digits_value(s.subrange(0, i)) <= digits_value(s),
        0 <= digits_value(s.subrange(0, i)),
    decreases s.len() - i,
{
    if i < s.len() {
        lemma_digits_monotone(s, i + 1);
        assert(s.subrange(0, i + 1).drop_last() =~= s.subrange(0, i));
        assert(s.subrange(0, i + 1).last() == s[i]);
    } else {
        assert(s.subrange(0, i) =~= s);
        lemma_digits_nonneg(s);
    }
}

proof fn lemma_digits_nonneg(s: Seq<char>)
    requires
        forall|k: int| 0 <= k < s.len() ==> is_digit(#[trigger] s[k]),
    ensures
        0 <= digits_value(s),
    decreases s.len(),
{
    if s.len() > 0 {
        lemma_digits_nonneg(s.drop_last());
    }
}

/// The characters of `s`.
pub fn chars_of(s: &str) -> (r: Vec<char>)
    ensures
        r@ == s@,
{
    let n = s.unicode_len();
    let mut r: Vec<char> = Vec::new();
    let mut i: usize = 0;
    while i < n
        invariant
            n == s@.len(),
            0 <= i <= n,
            r@ == s@.subrange(0, i as int),
        decreases n - i,
    {
        r.push(s.get_char(i));
        i = i + 1;
        assert(r@ =~= s@.subrange(0, i as int));
    }
    assert(s@.subrange(0, n as int) =~= s@);
    r
}

fn is_ws_char(c: char) -> (r: bool)
    ensures
        r == is_ws(c),
{
    let u = c as u32;
    (0x9 <= u && u <= 0xd) || u == 0x20 || u == 0x85 || u == 0xa0 || u == 0x1680 || (0x2000 <= u && u <= 0x200a)
        || u == 0x2028 || u == 0x2029 || u == 0x202f || u == 0x205f || u == 0x3000
}

proof fn lemma_trim_start_skip(s: Seq<char>, a: int)
    requires
        0 <= a <= s.len(),
        forall|k: int| 0 <= k < a ==> is_ws(#[trigger] s[k]),
    ensures
        trim_start(s) == trim_start(s.subrange(a, s.len() as int)),
    decreases a,
{
    if a > 0 {
        assert(s.drop_first().subrange(a - 1, s.drop_first().len() as int) =~= s.subrange(a, s.len() as int));
        assert forall|k: int| 0 <= k < a - 1 implies is_ws(#[trigger] s.drop_first()[k]) by {
            assert(s.drop_first()[k] == s[k + 1]);
        }
        assert(is_ws(s[0]));
        lemma_trim_start_skip(s.drop_first(), a - 1);
    } else {
        assert(s.subrange(a, s.len() as int) =~= s);
    }
}

proof fn lemma_trim_end_skip(s: Seq<char>, b: int)
    requires
        0 <= b <= s.len(),
        forall|k: int| b <= k < s.len() ==> is_ws(#[trigger] s[k]),
    ensures
        trim_end(s) == trim_end(s.subrange(0, b)),
    decreases s.len() - b,
{
    if b < s.len() {
        assert(s.drop_last().subrange(0, b) =~= s.subrange(0, b));
        lemma_trim_end_skip(s.drop_last(), b);
    } else {
        assert(s.subrange(0, b) =~= s);
    }
}

/// `s` without leading and trailing white space.
pub fn trim_chars(s: &Vec<char>) -> (r: Vec<char>)
    ensures
        r@ == trim(s@),
{
    let n = s.len();
    let mut a: usize = 0;
    while a < n && is_ws_char(s[a])
        invariant
            n == s@.len(),
            0 <= a <= n,
            forall|k: int| 0 <= k < a ==> is_ws(#[trigger] s@[k]),
        decreases n - a,
    {
        a = a + 1;
    }
    proof {
        lemma_trim_start_skip(s@, a as int);
    }
    let mut b: usize = n;
    while b > a && is_ws_char(s[b - 1])
        invariant
            n == s@.len(),
            0 <= a <= b <= n,
            forall|k: int| b <= k < n ==> is_ws(#[trigger] s@[k]),
        decreases b,
    {
        b = b - 1;
    }
    let ghost t = s@.subrange(a as int, n as int);
    proof {
        assert(trim_start(t) == t);
        lemma_trim_end_skip(t, b - a);
        assert(t.subrange(0, b - a) =~= s@.subrange(a as int, b as int));
        let u = s@.subrange(a as int, b as int);
        if u.len() > 0 {
            assert(!is_ws(u.last()));
        }
    }
    let mut r: Vec<char> = Vec::new();
    let mut i: usize = a;
    while i < b
        invariant
            0 <= a <= i <= b <= n,
            n == s@.len(),
            r@ == s@.subrange(a as int, i as int),
        decreases b - i,
    {
        r.push(s[i]);
        i = i + 1;
        assert(r@ =~= s@.subrange(a as int, i as int));
    }
    r
}

/// The pieces of `s` between occurrences of `sep`.
pub fn split_chars(s: &Vec<char>, sep: char) -> (r: Vec<Vec<char>>)
    ensures
        r@.map_values(|v: Vec<char>| v@) == split(s@, sep),
        r@.len() >= 1,
{
    let mut done: Vec<Vec<char>> = Vec::new();
    let mut cur: Vec<char> = Vec::new();
    let mut i: usize = 0;
    while i < s.len()
        invariant
            0 <= i <= s.len(),
            done@.map_values(|v: Vec<char>| v@).push(cur@) == split(s@.subrange(0, i as int), sep),
        decreases s.len() - i,
    {
        let c = s[i];
        let ghost prev = split(s@.subrange(0, i as int), sep);
        proof {
            assert(s@.subrange(0, i + 1).drop_last() =~= s@.subrange(0, i as int));
        }
        if c == sep {
            let ghost d0 = done@;
            done.push(cur);
            cur = Vec::new();
            proof {
                assert(done@.map_values(|v: Vec<char>| v@) =~= d0.map_values(|v: Vec<char>| v@).push(prev.last()));
                assert(done@.map_values(|v: Vec<char>| v@).push(cur@) =~= prev.push(seq![]));
            }
        } else {
            cur.push(c);
            proof {
                assert(done@.map_values(|v: Vec<char>| v@).push(cur@) =~= prev.update(prev.len() - 1, prev.last().push(c)));
            }
        }
        i = i + 1;
    }
    assert(s@.subrange(0, s@.len() as int) =~= s@);
    let ghost d0 = done@;
    done.push(cur);
    assert(done@.map_values(|v: Vec<char>| v@) =~= d0.map_values(|v: Vec<char>| v@).push(cur@));
    done
}

fn digit_of(c: char) -> (r: i64)
    requires
        is_digit(c),
    ensures
        r == c as int - '0' as int,
        0 <= r <= 9,
{
    (c as u32 - '0' as u32) as i64
}

/// Reads a decimal `i32` as `str::parse` does.
pub fn parse_i32(s: &Vec<char>) -> (r: Option<i32>)
    ensures
        r == parse_i32_spec(s@),
{
    let n = s.len();
    let neg = n > 0 && s[0] == '-';
    let start: usize = if n > 0 && (s[0] == '-' || s[0] == '+') { 1 } else { 0 };
    let ghost body = unsigned_part(s@);
    proof {
        assert(body =~= s@.subrange(start as int, n as int));
    }
    if start == n {
        return None;
    }
    let mut acc: i64 = 0;
    let mut i: usize = start;
    while i < n
        invariant
            start <= i <= n,
            n == s@.len(),
            body == s@.subrange(start as int, n as int),
            body == unsigned_part(s@),
            forall|k: int| start <= k < i ==> is_digit(#[trigger] s@[k]),
            acc == digits_value(s@.subrange(start as int, i as int)),
            0 <= acc <= 0x8000_0000,
        decreases n - i,
    {
        let c = s[i];
        if !('0' <= c && c <= '9') {
            proof {
                assert(body[i - start] == c);
                assert(!is_digit(c));
                assert(!all_digits(body));
            }
            return None;
        }
        let v = acc * 10 + digit_of(c);
        proof {
            assert(s@.subrange(start as int, i + 1).drop_last() =~= s@.subrange(start as int, i as int));
        }
        if v > 0x8000_0000 {
            proof {
                let pre = s@.subrange(start as int, i + 1);
                assert(pre.last() == c);
                assert(digits_value(pre) == v);
                assert forall|k: int| 0 <= k < pre.len() implies is_digit(#[trigger] pre[k]) by {
                    assert(pre[k] == s@[start + k]);
                }
                if all_digits(body) {
                    lemma_digits_monotone(body, i + 1 - start);
                    assert(body.subrange(0, i + 1 - start) =~= pre);
                    assert(digits_value(body) > 0x8000_0000);
                }
            }
            return None;
        }
        acc = v;
        i = i + 1;
    }
    proof {
        assert(s@.subrange(start as int, n as int) == body);
        assert forall|k: int| 0 <= k < body.len() implies is_digit(#[trigger] body[k]) by {
            assert(body[k] == s@[start + k]);
        }
    }
    if neg {
        Some((-acc) as i32)
    } else if acc > 0x7fff_ffff {
        None
    } else {
        Some(acc as i32)
    }
}

/// The planes listed in `input`: comma-separated, each trimmed; empty pieces
/// and pieces that are not an `i32` are left out.
pub open spec fn planes_of(pieces: Seq<Seq<char>>) -> Seq<i32>
    decreases pieces.len(),
{
    if pieces.len() == 0 {
        seq![]
    } else {
        let rest = planes_of(pieces.drop_last());
        let t = trim(pieces.last());
        match parse_i32_spec(t) {
            Some(v) => if t.len() == 0 { rest } else { rest.push(v) },
            None => rest,
        }
    }
}

pub fn parse_planes(input: &str) -> (r: Option<Vec<i32>>)
    ensures
        ({
            let v = planes_of(split(input@, ','));
            match r {
                Some(out) => out@ == v && v.len() > 0,
                None => v.len() == 0,
            }
        }),
{
    let chars = chars_of(input);
    let pieces = split_chars(&chars, ',');
    let ghost ps = pieces@.map_values(|v: Vec<char>| v@);
    let mut out: Vec<i32> = Vec::new();
    let mut i: usize = 0;
    while i < pieces.len()
        invariant
            0 <= i <= pieces.len(),
            ps == pieces@.map_values(|v: Vec<char>| v@),
            out@ == planes_of(ps.subrange(0, i as int)),
        decreases pieces.len() - i,
    {
        let t = trim_chars(&pieces[i]);
        proof {
            assert(ps.subrange(0, i + 1).drop_last() =~= ps.subrange(0, i as int));
            assert(ps.subrange(0, i + 1).last() == pieces@[i as int]@);
        }
        if t.len() > 0 {
            match parse_i32(&t) {
                Some(v) => out.push(v),
                None => {},
            }
        }
        i = i + 1;
    }
    assert(ps.subrange(0, ps.len() as int) =~= ps);
    if out.len() == 0 {
        None
    } else {
        Some(out)
    }
}

/// A chunk range written `x_min:x_max,z_min:z_max`, each bound trimmed.
pub open spec fn chunk_range_of(s: Seq<char>) -> Option<(i32, i32, i32, i32)> {
    let parts = split(s, ',');
    if parts.len() != 2 {
        None
    } else {
        let x = split(parts[0], ':');
        let z = split(parts[1], ':');
        if x.len() != 2 || z.len() != 2 {
            None
        } else {
            match (parse_i32_spec(trim(x[0])), parse_i32_spec(trim(x[1])), parse_i32_spec(trim(z[0])), parse_i32_spec(trim(z[1]))) {
                (Some(a), Some(b), Some(c), Some(d)) => Some((a, b, c, d)),
                _ => None,
            }
        }
    }
}

fn parse_bound(s: &Vec<char>) -> (r: Option<i32>)
    ensures
        r == parse_i32_spec(trim(s@)),
{
    parse_i32(&trim_chars(s))
}

pub fn parse_chunk_range(input: &str) -> (r: Option<(i32, i32, i32, i32)>)
    ensures
        r == chunk_range_of(input@),
{
    let chars = chars_of(input);
    let parts = split_chars(&chars, ',');
    proof {
        assert(parts@.map_values(|v: Vec<char>| v@).len() == parts@.len());
    }
    if parts.len() != 2 {
        return None;
    }
    let x = split_chars(&parts[0], ':');
    let z = split_chars(&parts[1], ':');
    proof {
        assert(parts@.map_values(|v: Vec<char>| v@)[0] == parts@[0]@);
        assert(parts@.map_values(|v: Vec<char>| v@)[1] == parts@[1]@);
        assert(x@.map_values(|v: Vec<char>| v@).len() == x@.len());
        assert(z@.map_values(|v: Vec<char>| v@).len() == z@.len());
    }
    if x.len() != 2 || z.len() != 2 {
        return None;
    }
    proof {
        assert(x@.map_values(|v: Vec<char>| v@)[0] == x@[0]@);
        assert(x@.map_values(|v: Vec<char>| v@)[1] == x@[1]@);
        assert(z@.map_values(|v: Vec<char>| v@)[0] == z@[0]@);
        assert(z@.map_values(|v: Vec<char>| v@)[1] == z@[1]@);
    }
    let a = parse_bound(&x[0]);
    let b = parse_bound(&x[1]);
    let c = parse_bound(&z[0]);
    let d = parse_bound(&z[1]);
    match (a, b, c, d) {
        (Some(a), Some(b), Some(c), Some(d)) => Some((a, b, c, d)),
        _ => None,
    }
}

/// The same reading of a chunk range, as the command line takes it.
pub fn parse_chunk_range_cli(s: &str) -> (r: Option<(i32, i32, i32, i32)>)
    ensures
        r == chunk_range_of(s@),
{
    parse_chunk_range(s)
}

/// The chunk index of a coordinate: `v >> 6`, rounding down.
pub open spec fn chunk_of(v: i32) -> int {
    (v as int + 0x8000_0000) / 64 - 0x200_0000
}

pub fn chunk_index(v: i32) -> (r: i32)
    ensures
        r == chunk_of(v),
        r as int * 64 <= v < r as int * 64 + 64,
{
    let u: i64 = v as i64 + 0x8000_0000;
    let q: i64 = u / 64;
    (q - 0x200_0000) as i32
}

/// Whether a tile lies in the configured scope: its plane is listed (when a
/// list is given) and its chunk lies in the range (when one is given).
pub open spec fn in_scope_spec(planes: Option<Seq<i32>>, range: Option<(i32, i32, i32, i32)>, plane: i32, x: i32, y: i32) -> bool {
    &&& match planes {
        Some(ps) => ps.contains(plane),
        None => true,
    }
    &&& match range {
        Some((xmin, xmax, zmin, zmax)) => xmin <= chunk_of(x) <= xmax && zmin <= chunk_of(y) <= zmax,
        None => true,
    }
}

impl Config {
    pub open spec fn planes_view(&self) -> Option<Seq<i32>> {
        match self.planes {
            Some(v) => Some(v@),
            None => None,
        }
    }

    /// Whether a tile of `plane` at `(x, y)` is in scope.
    pub fn in_scope(&self, plane: i32, x: i32, y: i32) -> (r: bool)
        ensures
            r == in_scope_spec(self.planes_view(), self.chunk_range, plane, x, y),
    {
        match &self.planes {
            Some(ps) => {
                let mut found = false;
                let mut i: usize = 0;
                while i < ps.len()
                    invariant
                        0 <= i <= ps@.len(),
                        found == ps@.subrange(0, i as int).contains(plane),
                    decreases ps.len() - i,
                {
                    proof {
                        assert(ps@.subrange(0, i + 1) =~= ps@.subrange(0, i as int).push(ps@[i as int]));
                        vstd::seq_lib::lemma_seq_contains_after_push(ps@.subrange(0, i as int), ps@[i as int], plane);
                    }
                    if ps[i] == plane {
                        found = true;
                    }
                    i = i + 1;
                }
                assert(ps@.subrange(0, ps@.len() as int) =~= ps@);
                if !found {
                    return false;
                }
            },
            None => {},
        }
        match self.chunk_range {
            Some((xmin, xmax, zmin, zmax)) => {
                let cx = chunk_index(x);
                let cz = chunk_index(y);
                xmin <= cx && cx <= xmax && zmin <= cz && cz <= zmax
            },
            None => true,
        }
    }
}

/// The tile bounds `(x0, x1, y0, y1)` of a chunk range.
pub fn tile_bounds_for_range(range: (i32, i32, i32, i32)) -> (r: (i64, i64, i64, i64))
    ensures
        r.0 == range.0 * 64 && r.1 == range.1 * 64 + 63,
        r.2 == range.2 * 64 && r.3 == range.3 * 64 + 63,
{
    (range.0 as i64 * 64, range.1 as i64 * 64 + 63, range.2 as i64 * 64, range.3 as i64 * 64 + 63)
}

/// A flag value turns the option on when it is `1` or `true` in any case.
pub open spec fn flag_on(s: Seq<char>) -> bool {
    s == seq!['1'] || (s.len() == 4 && lower(s[0]) == 't' && lower(s[1]) == 'r' && lower(s[2]) == 'u' && lower(s[3]) == 'e')
}

pub open spec fn lower(c: char) -> char {
    if 'A' <= c <= 'Z' {
        (((c as u32) + 32) as u8) as char
    } else {
        c
    }
}

fn lower_char(c: char) -> (r: char)
    ensures
        r == lower(c),
{
    if 'A' <= c && c <= 'Z' {
        (((c as u32) + 32) as u8) as char
    } else {
        c
    }
}

pub fn parse_flag(s: &str) -> (r: bool)
    ensures
        r == flag_on(s@),
{
    let cs = chars_of(s);
    if cs.len() == 1 && cs[0] == '1' {
        assert(cs@ =~= seq!['1']);
        return true;
    }
    proof {
        if cs@ == seq!['1'] {
            assert(cs@.len() == 1 && cs@[0] == '1');
        }
    }
    if cs.len() != 4 {
        return false;
    }
    lower_char(cs[0]) == 't' && lower_char(cs[1]) == 'r' && lower_char(cs[2]) == 'u' && lower_char(cs[3]) == 'e'
}

/// The value of a decimal `usize` as `str::parse` reads it: an optional `+`,
/// then at least one ASCII digit and nothing else, within range.
pub open spec fn parse_usize_spec(s: Seq<char>) -> Option<usize> {
    let body = if s.len() > 0 && s[0] == '+' { s.drop_first() } else { s };
    if body.len() == 0 || !all_digits(body) || digits_value(body) > usize::MAX {
        None
    } else {
        Some(digits_value(body) as usize)
    }
}

pub fn parse_usize(s: &str) -> (r: Option<usize>)
    ensures
        r == parse_usize_spec(s@),
{
    let cs = chars_of(s);
    let n = cs.len();
    let start: usize = if n > 0 && cs[0] == '+' { 1 } else { 0 };
    let ghost body = if s@.len() > 0 && s@[0] == '+' { s@.drop_first() } else { s@ };
    proof {
        assert(body =~= cs@.subrange(start as int, n as int));
    }
    if start == n {
        return None;
    }
    let mut acc: u128 = 0;
    let mut i: usize = start;
    while i < n
        invariant
            start <= i <= n,
            n == cs@.len(),
            cs@ == s@,
            body == cs@.subrange(start as int, n as int),
            body == (if s@.len() > 0 && s@[0] == '+' { s@.drop_first() } else { s@ }),
            forall|k: int| start <= k < i ==> is_digit(#[trigger] cs@[k]),
            acc == digits_value(cs@.subrange(start as int, i as int)),
            0 <= acc <= usize::MAX,
        decreases n - i,
    {
        let c = cs[i];
        if !('0' <= c && c <= '9') {
            proof {
                assert(body[i - start] == c);
                assert(!all_digits(body));
            }
            return None;
        }
        let v = acc * 10 + (c as u32 - '0' as u32) as u128;
        proof {
            assert(cs@.subrange(start as int, i + 1).drop_last() =~= cs@.subrange(start as int, i as int));
        }
        if v > usize::MAX as u128 {
            proof {
                let pre = cs@.subrange(start as int, i + 1);
                assert(pre.last() == c);
                assert(digits_value(pre) == v);
                assert forall|k: int| 0 <= k < pre.len() implies is_digit(#[trigger] pre[k]) by {
                    assert(pre[k] == cs@[start + k]);
                }
                if all_digits(body) {
                    lemma_digits_monotone(body, i + 1 - start);
                    assert(body.subrange(0, i + 1 - start) =~= pre);
                }
            }
            return None;
        }
        acc = v;
        i = i + 1;
    }
    proof {
        assert forall|k: int| 0 <= k < body.len() implies is_digit(#[trigger] body[k]) by {
            assert(body[k] == cs@[start + k]);
        }
    }
    Some(acc as usize)
}

/// The raw settings as read from the environment, before parsing.
#[derive(Clone, Debug, Default)]
pub struct EnvValues {
    pub tiles_db: Option<String>,
    pub out_db: Option<String>,
    pub planes: Option<String>,
    pub chunk_range: Option<String>,
    pub threads: Option<String>,
    pub dry_run: Option<String>,
    pub store_paths: Option<String>,
    pub log_level: Option<String>,
}

impl Config {
    /// The configuration that the environment values give: lists and ranges
    /// parsed (unparsable ones left unset), flags on for `1` or `true`.
    pub fn from_env_defaults(env: EnvValues) -> (r: Config)
        ensures
            r.tiles_db == env.tiles_db,
            r.out_db == env.out_db,
            r.log_level == env.log_level,
            match env.planes {
                Some(s) => match r.planes {
                    Some(v) => v@ == planes_of(split(s@, ',')) && v@.len() > 0,
                    None => planes_of(split(s@, ',')).len() == 0,
                },
                None => r.planes is None,
            },
            r.chunk_range == match env.chunk_range {
                Some(s) => chunk_range_of(s@),
                None => None,
            },
            r.threads == match env.threads {
                Some(s) => parse_usize_spec(s@),
                None => None,
            },
            r.dry_run == match env.dry_run {
                Some(s) => flag_on(s@),
                None => false,
            },
            r.store_paths == match env.store_paths {
                Some(s) => flag_on(s@),
                None => false,
            },
    {
        let planes = match &env.planes {
            Some(s) => parse_planes(s.as_str()),
            None => None,
        };
        let chunk_range = match &env.chunk_range {
            Some(s) => parse_chunk_range(s.as_str()),
            None => None,
        };
        let threads = match &env.threads {
            Some(s) => parse_usize(s.as_str()),
            None => None,
        };
        let dry_run = match &env.dry_run {
            Some(s) => parse_flag(s.as_str()),
            None => false,
        };
        let store_paths = match &env.store_paths {
            Some(s) => parse_flag(s.as_str()),
            None => false,
        };
        Config {
            tiles_db: env.tiles_db,
            out_db: env.out_db,
            planes,
            chunk_range,
            threads,
            dry_run,
            store_paths,
            log_level: env.log_level,
        }
    }
}

} // verus!
