//! Map coordinates: how they are read and written, the quadrant of one
//! point seen from another, and the distance between two points.

use vstd::prelude::*;

use crate::text::{
    chars_of, delimited, is_digit, is_first, is_white, lemma_parse_int_digits, lemma_split_at_first,
    lemma_split_none, lemma_trim_lead, lemma_trim_plain, delimited_range, int_digits, parse_i32, parse_i32_range, push_i32_digits,
    split_once, split_range, string_of_chars, trim, trim_range,
};

verus! {

/// A point on the map, as (easting, northing) in metres.
#[derive(Debug, Default, Clone, Copy, PartialEq, Eq)]
pub struct Coords(pub (i32, i32));

/// A distance in metres.
#[derive(Debug, Default, Clone, Copy, PartialEq, Eq, Structural)]
pub struct Distance(pub i32);

/// The quarter of the compass in which a target lies from an origin.
#[derive(Debug, Clone, Copy, PartialEq, Eq, Structural)]
pub enum Quadrant {
    NE,
    SE,
    SW,
    NW,
}

/// `v` fits in an `i32`.
pub open spec fn fits_i32(v: int) -> bool {
    i32::MIN <= v <= i32::MAX
}

/// The differences of coordinates between `a` and `b` fit in an `i32`, as the
/// arithmetic on them needs.
pub open spec fn deltas_fit(a: Coords, b: Coords) -> bool {
    fits_i32(b.0.0 - a.0.0) && fits_i32(b.0.1 - a.0.1)
}

/// The quadrant of a displacement: east takes in a zero easting, north a zero
/// northing.
pub open spec fn quadrant_of(dx: int, dy: int) -> Quadrant {
    if dx >= 0 {
        if dy >= 0 {
            Quadrant::NE
        } else {
            Quadrant::SE
        }
    } else {
        if dy >= 0 {
            Quadrant::NW
        } else {
            Quadrant::SW
        }
    }
}

/// The quadrant in which `target` lies seen from `origin`.
pub fn quadrant(origin: Coords, target: Coords) -> (q: Quadrant)
    requires
        deltas_fit(origin, target),
    ensures
        q == quadrant_of(target.0.0 - origin.0.0, target.0.1 - origin.0.1),
{
    let (x1, y1) = origin.0;
    let (x2, y2) = target.0;
    match (x2 - x1 >= 0, y2 - y1 >= 0) {
        (true, true) => Quadrant::NE,
        (true, false) => Quadrant::SE,
        (false, false) => Quadrant::SW,
        (false, true) => Quadrant::NW,
    }
}

impl Quadrant {
    /// What a bearing measured from north, clockwise, with `atan2` (in
    /// -180..180 degrees) needs added to land in this quadrant's part of
    /// 0..360: nothing to the east, a full turn to the west.
    pub fn bearing_offset(&self) -> (d: u16)
        ensures
            d == (if *self == Quadrant::NE || *self == Quadrant::SE {
                0u16
            } else {
                360u16
            }),
    {
        match self {
            Quadrant::NE | Quadrant::SE => 0,
            Quadrant::NW | Quadrant::SW => 360,
        }
    }
}

/// The square of the straight-line distance from `a` to `b`.
pub open spec fn dist_sq(a: Coords, b: Coords) -> int {
    let dx = b.0.0 - a.0.0;
    let dy = b.0.1 - a.0.1;
    dx * dx + dy * dy
}

/// `r` is the whole part of the distance whose square is `n`, or `i32::MAX`
/// where that part is larger than an `i32` holds.
pub open spec fn is_whole_root(r: int, n: int) -> bool {
    &&& 0 <= r <= i32::MAX
    &&& r * r <= n
    &&& (r == i32::MAX || n < (r + 1) * (r + 1))
}

/// The largest `r` with `r * r <= n`.
fn whole_root(n: u64) -> (r: u64)
    ensures
        r * r <= n < (r + 1) * (r + 1),
        r < 0x1_0000_0000,
{
    let mut lo: u64 = 0;
    let mut hi: u64 = 0x1_0000_0000;
    assert(n < hi * hi) by (nonlinear_arith)
        requires
            hi == 0x1_0000_0000,
            n <= u64::MAX,
    ;
    while hi - lo > 1
        invariant
            lo < hi <= 0x1_0000_0000,
            lo * lo <= n < hi * hi,
        decreases hi - lo,
    {
        let mid = lo + (hi - lo) / 2;
        assert(mid * mid <= 0xffff_ffff * 0xffff_ffff) by (nonlinear_arith)
            requires
                mid < 0x1_0000_0000,
        ;
        if (mid as u128) * (mid as u128) <= n as u128 {
            lo = mid;
        } else {
            hi = mid;
        }
    }
    assert(hi == lo + 1);
    lo
}

/// The distance from `a` to `b`, in whole metres: the whole part of the
/// straight-line distance, or `i32::MAX` where that does not fit.
///
/// The result is the exact integer square root of `dist_sq(a, b)`; computed
/// in `f64` with `sqrt` and `as i32`, as a float-based version would, it is
/// the same wherever `dist_sq(a, b)` is below 2^52.
pub fn distance(a: Coords, b: Coords) -> (d: Distance)
    requires
        deltas_fit(a, b),
    ensures
        is_whole_root(d.0 as int, dist_sq(a, b)),
{
    let dx = (b.0.0 - a.0.0) as i64;
    let dy = (b.0.1 - a.0.1) as i64;
    assert(0 <= dx * dx <= 0x4000_0000_0000_0000) by (nonlinear_arith)
        requires
            -0x8000_0000 <= dx <= 0x7fff_ffff,
    ;
    assert(0 <= dy * dy <= 0x4000_0000_0000_0000) by (nonlinear_arith)
        requires
            -0x8000_0000 <= dy <= 0x7fff_ffff,
    ;
    let n = (dx * dx) as u64 + (dy * dy) as u64;
    let r = whole_root(n);
    if r > 0x7fff_ffff {
        assert(0x7fff_ffff * 0x7fff_ffff <= r * r) by (nonlinear_arith)
            requires
                r > 0x7fff_ffff,
        ;
        Distance(0x7fff_ffff)
    } else {
        Distance(r as i32)
    }
}

/// The distance from `a` to `b` is the distance from `b` to `a`, and a point
/// is at distance zero from itself.
pub proof fn lemma_distance_symmetric(a: Coords, b: Coords, d1: Distance, d2: Distance)
    requires
        is_whole_root(d1.0 as int, dist_sq(a, b)),
        is_whole_root(d2.0 as int, dist_sq(b, a)),
    ensures
        d1 == d2,
        a == b ==> d1.0 == 0,
{
    assert(dist_sq(a, b) == dist_sq(b, a)) by (nonlinear_arith);
    let n = dist_sq(a, b);
    let r1 = d1.0 as int;
    let r2 = d2.0 as int;
    if r1 < r2 {
        assert((r1 + 1) * (r1 + 1) <= r2 * r2) by (nonlinear_arith)
            requires
                0 <= r1 < r2,
        ;
    }
    if r2 < r1 {
        assert((r2 + 1) * (r2 + 1) <= r1 * r1) by (nonlinear_arith)
            requires
                0 <= r2 < r1,
        ;
    }
    if a == b {
        assert(b.0.0 - a.0.0 == 0 && b.0.1 - a.0.1 == 0);
        assert(n == 0) by (nonlinear_arith)
            requires
                b.0.0 - a.0.0 == 0 && b.0.1 - a.0.1 == 0,
                n == dist_sq(a, b),
        ;
        assert(r1 * r1 >= r1) by (nonlinear_arith)
            requires
                r1 >= 0,
        ;
    }
}

/// Coordinates as the user types them: two integers separated by a comma or,
/// failing a comma, by the first space, each with whitespace around it
/// allowed; the pair may be wrapped in parentheses, in which case the text up
/// to the first closing parenthesis counts and what follows it is ignored.
pub open spec fn coords_spec(s: Seq<char>) -> Option<(i32, i32)> {
    let inner = match delimited(s, '(', ')') {
        Some((_rest, inner)) => inner,
        None => s,
    };
    let parts = match split_once(inner, ',') {
        Some(p) => Some(p),
        None => split_once(inner, ' '),
    };
    match parts {
        Some((a, b)) => match (parse_i32(trim(a)), parse_i32(trim(b))) {
            (Some(x), Some(y)) => Some((x, y)),
            _ => None,
        },
        None => None,
    }
}

/// `coords_spec` as the `Result` that `coords` gives.
pub open spec fn coords_result(s: Seq<char>) -> Result<Coords, ()> {
    match coords_spec(s) {
        Some(xy) => Ok(Coords(xy)),
        None => Err(()),
    }
}

/// `coords` on `s[lo..hi]`.
pub fn coords_range(s: &Vec<char>, lo: usize, hi: usize) -> (r: Result<Coords, ()>)
    requires
        lo <= hi <= s@.len(),
    ensures
        r == coords_result(s@.subrange(lo as int, hi as int)),
{
    let (ilo, ihi) = match delimited_range(s, lo, hi, '(', ')') {
        Some((_rest, inner)) => inner,
        None => (lo, hi),
    };
    let k = match split_range(s, ilo, ihi, ',') {
        Some(k) => k,
        None => match split_range(s, ilo, ihi, ' ') {
            Some(k) => k,
            None => {
                return Err(());
            },
        },
    };
    let (a0, a1) = trim_range(s, ilo, k);
    let x = match parse_i32_range(s, a0, a1) {
        Some(x) => x,
        None => {
            return Err(());
        },
    };
    let (b0, b1) = trim_range(s, k + 1, ihi);
    let y = match parse_i32_range(s, b0, b1) {
        Some(y) => y,
        None => {
            return Err(());
        },
    };
    Ok(Coords((x, y)))
}

/// Reads coordinates typed by the user (see `coords_spec`).
pub fn coords(input: &str) -> (r: Result<Coords, ()>)
    ensures
        r == coords_result(input@),
{
    let s = chars_of(input);
    let r = coords_range(&s, 0, s.len());
    assert(s@.subrange(0, s@.len() as int) =~= input@);
    r
}

/// How `Coords` are written: `(x, y)`.
pub open spec fn coords_text(c: Coords) -> Seq<char> {
    seq!['('] + int_digits(c.0.0 as int) + seq![',', ' '] + int_digits(c.0.1 as int) + seq![')']
}

/// How a `Distance` is written: the number of metres followed by `m`.
pub open spec fn distance_text(d: Distance) -> Seq<char> {
    int_digits(d.0 as int) + seq!['m']
}

impl Coords {
    /// The coordinates written as `(x, y)`.
    pub fn to_string(&self) -> (r: String)
        ensures
            r@ == coords_text(*self),
    {
        let mut v: Vec<char> = Vec::new();
        v.push('(');
        push_i32_digits(&mut v, self.0.0);
        v.push(',');
        v.push(' ');
        push_i32_digits(&mut v, self.0.1);
        v.push(')');
        assert(v@ =~= coords_text(*self));
        string_of_chars(&v)
    }
}

impl Distance {
    /// The distance written as a number of metres followed by `m`.
    pub fn to_string(&self) -> (r: String)
        ensures
            r@ == distance_text(*self),
    {
        let mut v: Vec<char> = Vec::new();
        push_i32_digits(&mut v, self.0);
        v.push('m');
        assert(v@ =~= distance_text(*self));
        string_of_chars(&v)
    }
}


/// The separators between the two numbers of coordinates that the README
/// names: a space, a comma, or a comma and a space.
pub open spec fn is_listed_separator(sep: Seq<char>) -> bool {
    sep == seq![' '] || sep == seq![','] || sep == seq![',', ' ']
}

/// `x` and `y` written in decimal with `sep` between them, wrapped in
/// parentheses when `parenthesized` holds.
pub open spec fn coords_form(x: i32, y: i32, sep: Seq<char>, parenthesized: bool) -> Seq<char> {
    let body = int_digits(x as int) + sep + int_digits(y as int);
    if parenthesized {
        seq!['('] + body + seq![')']
    } else {
        body
    }
}

/// What the decimal writing of an `i32` is made of: a sign and digits, so no
/// whitespace, comma or parenthesis, and something other than whitespace at
/// both ends.
proof fn lemma_digits_plain(x: i32)
    ensures
        int_digits(x as int).len() > 0,
        forall|i: int|
            0 <= i < int_digits(x as int).len() ==> {
                let c = #[trigger] int_digits(x as int)[i];
                &&& !is_white(c)
                &&& c != ','
                &&& c != ' '
                &&& c != ')'
                &&& c != '('
            },
        trim(int_digits(x as int)) == int_digits(x as int),
        parse_i32(int_digits(x as int)) == Some(x),
{
    lemma_parse_int_digits(x);
    let d = int_digits(x as int);
    assert forall|i: int| 0 <= i < d.len() implies {
        let c = #[trigger] d[i];
        &&& !is_white(c)
        &&& c != ','
        &&& c != ' '
        &&& c != ')'
        &&& c != '('
    } by {
        assert(d[i] == '-' || is_digit(d[i]));
    }
    assert(!is_white(d[0]));
    assert(!is_white(d[d.len() - 1]));
    lemma_trim_plain(d);
}

/// The coordinates that the README lists as valid read as the numbers they
/// hold: for every pair of `i32`, `x y`, `x,y`, `x, y`, `(x y)`, `(x,y)` and
/// `(x, y)` all give `(x, y)`.
pub proof fn lemma_coords_forms(x: i32, y: i32, sep: Seq<char>, parenthesized: bool)
    requires
        is_listed_separator(sep),
    ensures
        coords_spec(coords_form(x, y, sep, parenthesized)) == Some((x, y)),
{
    lemma_digits_plain(x);
    lemma_digits_plain(y);
    let dx = int_digits(x as int);
    let dy = int_digits(y as int);
    let body = dx + sep + dy;
    let n = dx.len() as int;
    assert(forall|i: int| 0 <= i < n ==> body[i] == #[trigger] dx[i]);
    assert(forall|i: int|
        0 <= i < dy.len() ==> body[n + sep.len() + i] == #[trigger] dy[i]);
    assert forall|i: int| 0 <= i < body.len() implies body[i] != ')' by {
        if i < n {
            assert(body[i] == dx[i]);
        } else if i >= n + sep.len() {
            assert(body[i] == dy[i - n - sep.len()]);
        }
    }
    let s = coords_form(x, y, sep, parenthesized);
    if parenthesized {
        let rest = s.drop_first();
        assert(rest =~= body + seq![')']);
        assert(is_first(rest, ')', body.len() as int));
        lemma_split_at_first(rest, ')', body.len() as int);
        assert(rest.take(body.len() as int) =~= body);
        assert(delimited(s, '(', ')') == Some((rest.skip(body.len() as int + 1), body)));
    } else {
        assert(s[0] == dx[0]);
        assert(delimited(s, '(', ')') is None);
    }
    if sep == seq![' '] {
        assert forall|j: int| 0 <= j < body.len() implies body[j] != ',' by {
            if j < n {
                assert(body[j] == dx[j]);
            } else if j > n {
                assert(body[j] == dy[j - n - 1]);
            }
        }
        lemma_split_none(body, ',');
        assert(is_first(body, ' ', n));
        lemma_split_at_first(body, ' ', n);
        assert(body.take(n) =~= dx);
        assert(body.skip(n + 1) =~= dy);
    } else {
        assert(is_first(body, ',', n));
        lemma_split_at_first(body, ',', n);
        assert(body.take(n) =~= dx);
        if sep == seq![','] {
            assert(body.skip(n + 1) =~= dy);
        } else {
            assert(body.skip(n + 1) =~= seq![' '] + dy);
            lemma_trim_lead(' ', dy);
        }
    }
}

/// What `Coords::to_string` writes, `coords` reads back.
pub proof fn lemma_coords_text_roundtrip(c: Coords)
    ensures
        coords_result(coords_text(c)) == Ok::<Coords, ()>(c),
{
    lemma_coords_forms(c.0.0, c.0.1, seq![',', ' '], true);
    assert(coords_text(c) =~= coords_form(c.0.0, c.0.1, seq![',', ' '], true));
}


/// Coordinates as the README lists them start and end with something other
/// than whitespace.
pub(crate) proof fn lemma_coords_form_plain(x: i32, y: i32, sep: Seq<char>, parenthesized: bool)
    requires
        is_listed_separator(sep),
    ensures
        coords_form(x, y, sep, parenthesized).len() > 0,
        !is_white(coords_form(x, y, sep, parenthesized)[0]),
        !is_white(coords_form(x, y, sep, parenthesized).last()),
        coords_form(x, y, sep, parenthesized)[0] != '"',
{
    lemma_digits_plain(x);
    lemma_digits_plain(y);
    lemma_parse_int_digits(x);
    lemma_parse_int_digits(y);
    let dx = int_digits(x as int);
    let dy = int_digits(y as int);
    let body = dx + sep + dy;
    assert(body[0] == dx[0]);
    assert(body.last() == dy.last());
    assert(!is_white(dx[0]));
    assert(!is_white(dy[dy.len() - 1]));
}

} // verus!
