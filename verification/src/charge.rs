//! Propellant charges, their quadratic elevation fits, and their firing
//! tables with linear and three-point (Lagrange) interpolation.
//!
//! The firing tables give elevations in milliradians and times of flight in
//! tenths of a second, both exactly as whole numbers; interpolated values come
//! out as exact fractions, and the fit coefficients as exact decimals in units
//! of 10^-10.

use vstd::prelude::*;

use crate::geometry::Distance;

verus! {

/// The propellant charge fired.
#[derive(Debug, Clone, Copy, PartialEq, Eq, Structural)]
pub enum Charge {
    One,
    Two,
    Three,
    Four,
    Five,
}

/// The charge that the distance `d` (metres) calls for: charge 1 from 950 m
/// up to 1500 m, charge 2 up to 2500 m, charge 4 up to 4500 m, charge 5 up to
/// 5300 m, none outside 950..=5300 m. Charge 3 is never chosen.
pub open spec fn charge_for(d: int) -> Option<Charge> {
    if d < 950 {
        None
    } else if d < 1500 {
        Some(Charge::One)
    } else if d <= 2500 {
        Some(Charge::Two)
    } else if d <= 4500 {
        Some(Charge::Four)
    } else if d <= 5300 {
        Some(Charge::Five)
    } else {
        None
    }
}

/// A quadratic `a x^2 + b x + c` giving the elevation for a distance `x`; the
/// coefficients are exact decimals in units of 10^-10.
#[derive(Debug, Default, Clone, Copy, PartialEq, Eq, Structural)]
pub struct Quadratic {
    pub a: i64,
    pub b: i64,
    pub c: i64,
}

impl Quadratic {
    /// The value of the quadratic at `x`, in units of 10^-10.
    pub fn solve(&self, x: i32) -> (v: i128)
        ensures
            v == self.a * x * x + self.b * x + self.c,
    {
        let a = self.a as i128;
        let b = self.b as i128;
        let c = self.c as i128;
        let x = x as i128;
        assert(0 <= x * x <= 0x4000_0000_0000_0000) by (nonlinear_arith)
            requires
                -0x8000_0000 <= x <= 0x7fff_ffff,
        ;
        let xx = x * x;
        assert(-0x2000_0000_0000_0000_0000_0000_0000_0000 <= a * xx
            <= 0x2000_0000_0000_0000_0000_0000_0000_0000) by (nonlinear_arith)
            requires
                -0x8000_0000_0000_0000 <= a <= 0x7fff_ffff_ffff_ffff,
                0 <= xx <= 0x4000_0000_0000_0000,
        ;
        assert(-0x4000_0000_0000_0000_0000_0000 <= b * x <= 0x4000_0000_0000_0000_0000_0000)
            by (nonlinear_arith)
            requires
                -0x8000_0000_0000_0000 <= b <= 0x7fff_ffff_ffff_ffff,
                -0x8000_0000 <= x <= 0x7fff_ffff,
        ;
        assert(a * xx == self.a * x * x) by (nonlinear_arith)
            requires
                xx == x * x,
                a == self.a,
        ;
        a * xx + b * x + c
    }
}

/// One row of a firing table: a range in metres, the elevation for it in
/// milliradians and the time of flight in tenths of a second.
#[derive(Debug, Default, Clone, Copy, PartialEq, Eq, Structural)]
pub struct ChargeInfo {
    pub range: i32,
    pub elevation: i32,
    pub time_of_flight: u32,
}

/// An exact fraction `num / den`.
#[derive(Debug, Default, Clone, Copy, PartialEq, Eq, Structural)]
pub struct Fraction {
    pub num: i64,
    pub den: i64,
}

/// A fraction as the pair of integers it holds.
pub open spec fn frac_view(f: Option<Fraction>) -> Option<(int, int)> {
    match f {
        Some(f) => Some((f.num as int, f.den as int)),
        None => None,
    }
}

/// A firing table: its rows, and the step between the ranges of consecutive
/// rows.
pub struct Lut {
    points: Vec<ChargeInfo>,
    range_inc: i32,
}

impl View for Lut {
    type V = (Seq<ChargeInfo>, int);

    closed spec fn view(&self) -> (Seq<ChargeInfo>, int) {
        (self.points@, self.range_inc as int)
    }
}

impl Lut {
    /// Every firing table is well formed (see `table_wf`).
    #[verifier::type_invariant]
    spec fn inv(&self) -> bool {
        table_wf(self.points@, self.range_inc as int)
    }
}

/// The rows of a firing table whose ranges start at `first` and go up by
/// `inc`, with the elevations `elev` and the times of flight `tof`.
pub open spec fn table_rows(first: int, inc: int, elev: Seq<i32>, tof: Seq<u32>) -> Seq<ChargeInfo> {
    Seq::new(
        elev.len(),
        |i: int|
            ChargeInfo { range: (first + i * inc) as i32, elevation: elev[i], time_of_flight: tof[i] },
    )
}

/// What every firing table here is like, and what the interpolation needs:
/// at least two rows whose ranges go up by a step of at most 100 m from a
/// positive multiple of the step, ending below 10 km.
pub open spec fn table_wf(pts: Seq<ChargeInfo>, inc: int) -> bool {
    &&& 0 < inc <= 100
    &&& pts.len() >= 2
    &&& pts[0].range > 0
    &&& (pts[0].range as int) % inc == 0
    &&& pts[0].range + pts.len() * inc <= 10000
    &&& forall|i: int| 0 <= i < pts.len() ==> #[trigger] pts[i].range == pts[0].range + i * inc
}

/// The elevations of a charge's firing table, row by row.
pub open spec fn table_elevations(c: Charge) -> Seq<i32> {
    match c {
        Charge::One => seq![1245, 1221, 1197, 1171, 1149, 1115, 1084, 1050, 1011, 965, 907, 800],
        Charge::Two => seq![
            1270, 1257, 1243, 1229, 1214, 1200, 1185, 1169, 1153, 1136, 1119,
            1101, 1082, 1062, 1041, 1018, 995, 967, 938, 904, 860,
        ],
        Charge::Four => seq![
            1271, 1255, 1240, 1224, 1207, 1190, 1172, 1154, 1135, 1116,
            1095, 1074, 1052, 1028, 1003, 976, 946, 912, 874, 828,
        ],
        _ => seq![
            1271, 1258, 1244, 1230, 1216, 1202, 1187, 1172, 1156, 1140, 1024, 1107,
            1089, 1071, 1052, 1032, 1011, 989, 966, 941, 913, 883, 850, 809,
        ],
    }
}

/// The times of flight of a charge's firing table, in tenths of a second.
pub open spec fn table_flight_times(c: Charge) -> Seq<u32> {
    match c {
        Charge::One => seq![244, 242, 240, 237, 234, 231, 227, 223, 218, 212, 203, 186],
        Charge::Two => seq![
            311, 330, 329, 327, 325, 324, 321, 319, 317, 315, 312,
            310, 307, 303, 300, 296, 292, 287, 281, 275, 265,
        ],
        Charge::Four => seq![
            472, 470, 467, 465, 462, 459, 456, 452, 449, 445,
            440, 436, 431, 425, 419, 413, 405, 396, 385, 372,
        ],
        _ => Seq::new(24, |i: int| 0u32),
    }
}

/// The range of the first row of a charge's firing table.
pub open spec fn table_first_range(c: Charge) -> int {
    match c {
        Charge::One => 950,
        Charge::Two => 1500,
        Charge::Four => 2600,
        _ => 3000,
    }
}

/// The step between the ranges of a charge's firing table.
pub open spec fn table_step(c: Charge) -> int {
    match c {
        Charge::One | Charge::Two => 50,
        _ => 100,
    }
}

/// A charge's firing table.
pub open spec fn charge_table(c: Charge) -> (Seq<ChargeInfo>, int) {
    (
        table_rows(
            table_first_range(c),
            table_step(c),
            table_elevations(c),
            table_flight_times(c),
        ),
        table_step(c),
    )
}

impl Charge {
    /// The charge for a distance (see `charge_for`).
    pub fn for_distance(distance: Distance) -> (c: Option<Charge>)
        ensures
            c == charge_for(distance.0 as int),
    {
        if distance.0 < 950 {
            None
        } else if distance.0 < 1500 {
            Some(Charge::One)
        } else if distance.0 <= 2500 {
            Some(Charge::Two)
        } else if distance.0 <= 4500 {
            Some(Charge::Four)
        } else if distance.0 <= 5300 {
            Some(Charge::Five)
        } else {
            None
        }
    }
}


/// The fit coefficients of a charge, in units of 10^-10.
pub open spec fn charge_quadratic(c: Charge) -> Quadratic {
    match c {
        Charge::One => Quadratic { a: -9_840_000i64, b: 16_800_000_000, c: 5_250_000_000_000 },
        Charge::Two => Quadratic { a: -2_050_000i64, b: 4_350_000_000, c: 10_720_000_000_000 },
        Charge::Three => Quadratic { a: -1_040_000i64, b: 3_130_000_000, c: 10_650_000_000_000 },
        Charge::Four => Quadratic { a: -601_618i64, b: 2_062_910_000, c: 11_334_579_600_000 },
        Charge::Five => Quadratic { a: -420_000i64, b: 1_590_000_000, c: 11_650_000_000_000 },
    }
}

/// How a charge is named: `Charge` and its number.
pub open spec fn charge_label(c: Charge) -> Seq<char> {
    match c {
        Charge::One => "Charge 1"@,
        Charge::Two => "Charge 2"@,
        Charge::Three => "Charge 3"@,
        Charge::Four => "Charge 4"@,
        Charge::Five => "Charge 5"@,
    }
}

/// A firing table built from its first range, its step and its columns.
fn build_table(first: i32, inc: i32, elev: Vec<i32>, tof: Vec<u32>) -> (l: Lut)
    requires
        0 < inc <= 100,
        0 < first,
        elev@.len() == tof@.len(),
        elev@.len() >= 2,
        first + elev@.len() * inc <= 10000,
        first % inc == 0,
    ensures
        l@ == (table_rows(first as int, inc as int, elev@, tof@), inc as int),
{
    let mut points: Vec<ChargeInfo> = Vec::new();
    let n = elev.len();
    let mut i: usize = 0;
    while i < n
        invariant
            0 <= i <= n,
            n == elev@.len(),
            n == tof@.len(),
            0 < inc <= 100,
            0 < first,
            first + n * inc <= 10000,
            points@ =~= table_rows(first as int, inc as int, elev@, tof@).take(i as int),
        decreases n - i,
    {
        assert(first + i * inc <= 10000) by (nonlinear_arith)
            requires
                first + n * inc <= 10000,
                i < n,
                0 < inc,
        ;
        assert(i * inc <= 10000 && i <= 10000) by (nonlinear_arith)
            requires
                first + i * inc <= 10000,
                0 < first,
                1 <= inc,
                0 <= i,
        ;
        let range = first + (i as i32) * inc;
        let row = ChargeInfo { range, elevation: elev[i], time_of_flight: tof[i] };
        assert(row == table_rows(first as int, inc as int, elev@, tof@)[i as int]);
        points.push(row);
        i = i + 1;
    }
    proof {
        lemma_table_rows_wf(first as int, inc as int, elev@, tof@);
    }
    Lut { points, range_inc: inc }
}

/// A table built from a positive first range that is a multiple of a step of
/// at most 100, with at least two rows, ending below 10 km, is well formed.
proof fn lemma_table_rows_wf(first: int, inc: int, elev: Seq<i32>, tof: Seq<u32>)
    requires
        0 < inc <= 100,
        0 < first,
        elev.len() == tof.len(),
        elev.len() >= 2,
        first + elev.len() * inc <= 10000,
        first % inc == 0,
    ensures
        table_wf(table_rows(first, inc, elev, tof), inc),
{
    let pts = table_rows(first, inc, elev, tof);
    assert(pts[0].range == first);
    assert forall|i: int| 0 <= i < pts.len() implies #[trigger] pts[i].range == pts[0].range + i
        * inc by {
        assert(0 <= i * inc <= elev.len() * inc) by (nonlinear_arith)
            requires
                0 <= i < elev.len(),
                inc > 0,
        ;
    }
}

impl Charge {
    /// The quadratic fit of elevation against distance for this charge.
    pub fn quadratic(&self) -> (q: Quadratic)
        ensures
            q == charge_quadratic(*self),
    {
        match self {
            Charge::One => Quadratic { a: -9_840_000, b: 16_800_000_000, c: 5_250_000_000_000 },
            Charge::Two => Quadratic { a: -2_050_000, b: 4_350_000_000, c: 10_720_000_000_000 },
            Charge::Three => Quadratic { a: -1_040_000, b: 3_130_000_000, c: 10_650_000_000_000 },
            Charge::Four => Quadratic { a: -601_618, b: 2_062_910_000, c: 11_334_579_600_000 },
            Charge::Five => Quadratic { a: -420_000, b: 1_590_000_000, c: 11_650_000_000_000 },
        }
    }

    /// The firing table of this charge. Charge 3 has none.
    pub fn lut(&self) -> (l: Lut)
        requires
            *self != Charge::Three,
        ensures
            l@ == charge_table(*self),
            table_wf(l@.0, l@.1),
    {
        let l = match self {
            Charge::One => build_table(
                950,
                50,
                vec![1245, 1221, 1197, 1171, 1149, 1115, 1084, 1050, 1011, 965, 907, 800],
                vec![244, 242, 240, 237, 234, 231, 227, 223, 218, 212, 203, 186],
            ),
            Charge::Two => build_table(
                1500,
                50,
                vec![
                    1270, 1257, 1243, 1229, 1214, 1200, 1185, 1169, 1153, 1136, 1119,
                    1101, 1082, 1062, 1041, 1018, 995, 967, 938, 904, 860,
                ],
                vec![
                    311, 330, 329, 327, 325, 324, 321, 319, 317, 315, 312,
                    310, 307, 303, 300, 296, 292, 287, 281, 275, 265,
                ],
            ),
            Charge::Four => build_table(
                2600,
                100,
                vec![
                    1271, 1255, 1240, 1224, 1207, 1190, 1172, 1154, 1135, 1116,
                    1095, 1074, 1052, 1028, 1003, 976, 946, 912, 874, 828,
                ],
                vec![
                    472, 470, 467, 465, 462, 459, 456, 452, 449, 445,
                    440, 436, 431, 425, 419, 413, 405, 396, 385, 372,
                ],
            ),
            _ => build_table(
                3000,
                100,
                vec![
                    1271, 1258, 1244, 1230, 1216, 1202, 1187, 1172, 1156, 1140, 1024, 1107,
                    1089, 1071, 1052, 1032, 1011, 989, 966, 941, 913, 883, 850, 809,
                ],
                vec![0, 0, 0, 0, 0, 0, 0, 0, 0, 0, 0, 0, 0, 0, 0, 0, 0, 0, 0, 0, 0, 0, 0, 0],
            ),
        };
        proof {
            lemma_charge_table_wf(*self);
        }
        l
    }

    /// The name of this charge, `Charge` and its number.
    pub fn label(&self) -> (s: String)
        ensures
            s@ == charge_label(*self),
    {
        match self {
            Charge::One => "Charge 1".to_owned(),
            Charge::Two => "Charge 2".to_owned(),
            Charge::Three => "Charge 3".to_owned(),
            Charge::Four => "Charge 4".to_owned(),
            Charge::Five => "Charge 5".to_owned(),
        }
    }
}


/// `i` is the first row of `pts` at range `r`.
pub open spec fn is_first_row(pts: Seq<ChargeInfo>, r: int, i: int) -> bool {
    &&& 0 <= i < pts.len()
    &&& pts[i].range == r
    &&& forall|j: int| 0 <= j < i ==> pts[j].range != r
}

/// The first row of `pts` at range `r`, as `iter().find` finds it.
pub open spec fn find_row(pts: Seq<ChargeInfo>, r: int) -> Option<ChargeInfo> {
    if exists|i: int| #[trigger] is_first_row(pts, r, i) {
        Some(pts[choose|i: int| #[trigger] is_first_row(pts, r, i)])
    } else {
        None
    }
}

/// A distance rounded toward zero to a multiple of `inc`, as `(d / inc) *
/// inc` rounds it on integers.
pub open spec fn round_down(d: int, inc: int) -> int {
    if d >= 0 {
        (d / inc) * inc
    } else {
        -(((-d) / inc) * inc)
    }
}

/// Linear interpolation of the elevation at distance `d` between the row at
/// `d` rounded down to the step and the row one step further, as the fraction
/// `(num, den)`; none when either row is missing.
pub open spec fn linear_spec(pts: Seq<ChargeInfo>, inc: int, d: int) -> Option<(int, int)> {
    let rounded = round_down(d, inc);
    let rem = d - rounded;
    match (find_row(pts, rounded), find_row(pts, rounded + inc)) {
        (Some(low), Some(high)) => {
            let meters = high.range - low.range;
            let mils = low.elevation - high.elevation;
            Some((low.elevation * meters - rem * mils, meters))
        },
        _ => None,
    }
}

/// Linear interpolation of the time of flight at distance `d`, in seconds, as
/// the fraction `(num, den)`; none when either row is missing.
pub open spec fn flight_spec(pts: Seq<ChargeInfo>, inc: int, d: int) -> Option<(int, int)> {
    let rounded = round_down(d, inc);
    let rem = d - rounded;
    match (find_row(pts, rounded), find_row(pts, rounded + inc)) {
        (Some(low), Some(high)) => {
            let meters = high.range - low.range;
            let tenths = low.time_of_flight - high.time_of_flight;
            Some((low.time_of_flight * meters - rem * tenths, 10 * meters))
        },
        _ => None,
    }
}

/// The Lagrange polynomial through the rows `a`, `b`, `c` at `d`, over the
/// common denominator of its three terms, with the denominator made positive.
pub open spec fn lagrange3(d: int, a: ChargeInfo, b: ChargeInfo, c: ChargeInfo) -> (int, int) {
    let (ra, rb, rc) = (a.range as int, b.range as int, c.range as int);
    let v = (ra - rb) * (ra - rc) * (rb - rc);
    let n = a.elevation * (d - rb) * (d - rc) * (rb - rc) - b.elevation * (d - ra) * (d - rc) * (
    ra - rc) + c.elevation * (d - ra) * (d - rb) * (ra - rb);
    if v < 0 {
        (-n, -v)
    } else {
        (n, v)
    }
}

/// Three-point interpolation of the elevation at distance `d`, through the
/// row at `d` rounded down to the step, the next row, and the row after that
/// when `d` is past the middle of its step or else the row before; none when
/// one of the three is missing.
pub open spec fn quadratic_spec(pts: Seq<ChargeInfo>, inc: int, d: int) -> Option<(int, int)> {
    let rounded = round_down(d, inc);
    let rem = d - rounded;
    let third = if rem > inc / 2 {
        rounded + inc * 2
    } else {
        rounded - inc
    };
    match (find_row(pts, rounded), find_row(pts, rounded + inc), find_row(pts, third)) {
        (Some(a), Some(b), Some(c)) => Some(lagrange3(d, a, b, c)),
        _ => None,
    }
}

proof fn lemma_find_row_at(pts: Seq<ChargeInfo>, r: int, i: int)
    requires
        is_first_row(pts, r, i),
    ensures
        find_row(pts, r) == Some(pts[i]),
{
    let k = choose|k: int| #[trigger] is_first_row(pts, r, k);
    assert(is_first_row(pts, r, k));
    if k < i {
        assert(pts[k].range != r);
    }
    if i < k {
        assert(pts[i].range != r);
    }
}

proof fn lemma_find_row_none(pts: Seq<ChargeInfo>, r: int)
    requires
        forall|j: int| 0 <= j < pts.len() ==> pts[j].range != r,
    ensures
        find_row(pts, r) is None,
{
    if exists|i: int| #[trigger] is_first_row(pts, r, i) {
        let k = choose|k: int| #[trigger] is_first_row(pts, r, k);
        assert(pts[k].range == r);
    }
}

/// A row that is found lies in the table, at the range asked for.
proof fn lemma_find_row_found(pts: Seq<ChargeInfo>, inc: int, r: int)
    requires
        table_wf(pts, inc),
        find_row(pts, r) is Some,
    ensures
        find_row(pts, r).unwrap().range == r,
        pts[0].range <= r <= pts[0].range + (pts.len() - 1) * inc,
{
    let k = choose|k: int| #[trigger] is_first_row(pts, r, k);
    assert(is_first_row(pts, r, k));
    assert(pts[k].range == pts[0].range + k * inc);
    assert(0 <= k * inc <= (pts.len() - 1) * inc) by (nonlinear_arith)
        requires
            0 <= k < pts.len(),
            inc > 0,
    ;
}

/// In a well-formed table, the row at each range is found.
proof fn lemma_find_row_wf(pts: Seq<ChargeInfo>, inc: int, i: int)
    requires
        table_wf(pts, inc),
        0 <= i < pts.len(),
    ensures
        find_row(pts, pts[0].range + i * inc) == Some(pts[i]),
{
    assert(pts[i].range == pts[0].range + i * inc);
    assert forall|j: int| 0 <= j < i implies #[trigger] pts[j].range != pts[0].range + i * inc by {
        assert(pts[j].range == pts[0].range + j * inc);
        assert(j * inc < i * inc) by (nonlinear_arith)
            requires
                j < i,
                inc > 0,
        ;
    }
    lemma_find_row_at(pts, pts[0].range + i * inc, i);
}

proof fn lemma_mul_bound(x: int, y: int, bx: int, by_: int)
    by (nonlinear_arith)
    requires
        -bx <= x <= bx,
        -by_ <= y <= by_,
    ensures
        -(bx * by_) <= x * y <= bx * by_,
{
}

/// `d` rounded down to the step leaves a remainder within the step.
pub(crate) proof fn lemma_round_down(d: int, inc: int)
    requires
        inc > 0,
    ensures
        d >= 0 ==> 0 <= d - round_down(d, inc) < inc && round_down(d, inc) >= 0,
        d < 0 ==> round_down(d, inc) <= 0,
{
    if d >= 0 {
        assert(0 <= d - (d / inc) * inc < inc && (d / inc) * inc >= 0) by (nonlinear_arith)
            requires
                d >= 0,
                inc > 0,
        ;
    } else {
        assert(((-d) / inc) * inc >= 0) by (nonlinear_arith)
            requires
                d < 0,
                inc > 0,
        ;
    }
}

/// `round_down` on the `i32` distance `d`, computed without overflow.
fn round_down_exec(d: i32, inc: i32) -> (r: i64)
    requires
        0 < inc,
    ensures
        r == round_down(d as int, inc as int),
        i32::MIN <= r <= i32::MAX,
{
    let d = d as i64;
    let inc = inc as i64;
    if d >= 0 {
        assert(0 <= (d / inc) * inc <= d) by (nonlinear_arith)
            requires
                d >= 0,
                inc > 0,
        ;
        (d / inc) * inc
    } else {
        let nd: i64 = 0 - d;
        assert(0 <= (nd / inc) * inc <= nd) by (nonlinear_arith)
            requires
                nd > 0,
                inc > 0,
        ;
        0 - (nd / inc) * inc
    }
}

impl Lut {
    /// The first row at range `r`.
    fn find(&self, r: i64) -> (p: Option<ChargeInfo>)
        ensures
            p == find_row(self@.0, r as int),
    {
        let n = self.points.len();
        let mut i: usize = 0;
        while i < n
            invariant
                0 <= i <= n,
                n == self.points@.len(),
                forall|j: int| 0 <= j < i ==> self.points@[j].range != r,
            decreases n - i,
        {
            if self.points[i].range as i64 == r {
                proof {
                    lemma_find_row_at(self.points@, r as int, i as int);
                }
                return Some(self.points[i]);
            }
            i = i + 1;
        }
        proof {
            lemma_find_row_none(self.points@, r as int);
        }
        None
    }

    /// The step between the ranges of consecutive rows.
    pub fn range_inc(&self) -> (inc: i32)
        ensures
            inc == self@.1,
    {
        self.range_inc
    }

    /// The elevation at `distance`, interpolated linearly between the two rows
    /// around it (see `linear_spec`), in milliradians.
    pub fn mils_linear(&self, distance: Distance) -> (m: Option<Fraction>)
        requires
            round_down(distance.0 as int, self@.1) + self@.1 <= i32::MAX,
        ensures
            frac_view(m) == linear_spec(self@.0, self@.1, distance.0 as int),
            m matches Some(f) ==> f.den > 0,
    {
        proof {
            use_type_invariant(self);
        }
        let ghost (pts, ginc) = self@;
        let d = distance.0 as i64;
        let inc = self.range_inc as i64;
        let rounded = round_down_exec(distance.0, self.range_inc);
        let rem = d - rounded;
        let next = rounded + inc;
        let low = match self.find(rounded) {
            Some(p) => p,
            None => {
                return None;
            },
        };
        let high = match self.find(next) {
            Some(p) => p,
            None => {
                return None;
            },
        };
        proof {
            lemma_find_row_found(pts, ginc, rounded as int);
            lemma_find_row_found(pts, ginc, next as int);
            lemma_round_down(d as int, inc as int);
            lemma_mul_bound(rem as int, low.elevation - high.elevation, 100, 0x1_0000_0000);
            lemma_mul_bound(low.elevation as int, inc as int, 0x8000_0000, 100);
        }
        let meters = high.range as i64 - low.range as i64;
        let mils = low.elevation as i64 - high.elevation as i64;
        Some(Fraction { num: (low.elevation as i64) * meters - rem * mils, den: meters })
    }

    /// The elevation at `distance`, interpolated through three rows around
    /// it (see `quadratic_spec`), in milliradians.
    pub fn mils_quadratic(&self, distance: Distance) -> (m: Option<Fraction>)
        requires
            round_down(distance.0 as int, self@.1) + 2 * self@.1 <= i32::MAX,
            round_down(distance.0 as int, self@.1) - self@.1 >= i32::MIN,
        ensures
            frac_view(m) == quadratic_spec(self@.0, self@.1, distance.0 as int),
            m matches Some(f) ==> f.den > 0,
    {
        proof {
            use_type_invariant(self);
        }
        let ghost (pts, ginc) = self@;
        let d = distance.0 as i64;
        let inc = self.range_inc as i64;
        let rounded = round_down_exec(distance.0, self.range_inc);
        let rem = d - rounded;
        let next = rounded + inc;
        let next2 = rounded + inc * 2;
        let prev = rounded - inc;
        let third = if rem > inc / 2 {
            next2
        } else {
            prev
        };
        let a = match self.find(rounded) {
            Some(p) => p,
            None => {
                return None;
            },
        };
        let b = match self.find(next) {
            Some(p) => p,
            None => {
                return None;
            },
        };
        let c = match self.find(third) {
            Some(p) => p,
            None => {
                return None;
            },
        };
        let ra = a.range as i64;
        let rb = b.range as i64;
        let rc = c.range as i64;
        let ea = a.elevation as i64;
        let eb = b.elevation as i64;
        let ec = c.elevation as i64;
        proof {
            lemma_find_row_found(pts, ginc, rounded as int);
            lemma_find_row_found(pts, ginc, next as int);
            lemma_find_row_found(pts, ginc, third as int);
            lemma_round_down(d as int, inc as int);
            assert(0 <= d - ra < inc);
            assert(-200 <= d - rc <= 200);
            lemma_mul_bound(ea as int, d - rb, 0x8000_0000, 200);
            lemma_mul_bound(ea * (d - rb), d - rc, 429_496_729_600, 200);
            lemma_mul_bound(ea * (d - rb) * (d - rc), rb - rc, 85_899_345_920_000, 200);
            lemma_mul_bound(eb as int, d - ra, 0x8000_0000, 200);
            lemma_mul_bound(eb * (d - ra), d - rc, 429_496_729_600, 200);
            lemma_mul_bound(eb * (d - ra) * (d - rc), ra - rc, 85_899_345_920_000, 200);
            lemma_mul_bound(ec as int, d - ra, 0x8000_0000, 200);
            lemma_mul_bound(ec * (d - ra), d - rb, 429_496_729_600, 200);
            lemma_mul_bound(ec * (d - ra) * (d - rb), ra - rb, 85_899_345_920_000, 200);
            lemma_mul_bound(ra - rb, ra - rc, 200, 200);
            lemma_mul_bound((ra - rb) * (ra - rc), rb - rc, 40000, 200);
            assert((ra - rb) * (ra - rc) * (rb - rc) == -2 * inc * inc * inc) by (nonlinear_arith)
                requires
                    rb == ra + inc,
                    rc == ra - inc || rc == ra + 2 * inc,
            ;
            assert((ra - rb) * (ra - rc) * (rb - rc) < 0) by (nonlinear_arith)
                requires
                    rb == ra + inc,
                    rc == ra - inc || rc == ra + 2 * inc,
                    inc > 0,
            ;
        }
        let v = (ra - rb) * (ra - rc) * (rb - rc);
        let n = ea * (d - rb) * (d - rc) * (rb - rc) - eb * (d - ra) * (d - rc) * (ra - rc) + ec * (d
            - ra) * (d - rb) * (ra - rb);
        if v < 0 {
            Some(Fraction { num: 0 - n, den: 0 - v })
        } else {
            Some(Fraction { num: n, den: v })
        }
    }

    /// The time of flight at `distance`, interpolated linearly between the two
    /// rows around it (see `flight_spec`), in seconds.
    pub fn time_of_flight(&self, distance: Distance) -> (t: Option<Fraction>)
        requires
            round_down(distance.0 as int, self@.1) + self@.1 <= i32::MAX,
        ensures
            frac_view(t) == flight_spec(self@.0, self@.1, distance.0 as int),
            t matches Some(f) ==> f.den > 0,
    {
        proof {
            use_type_invariant(self);
        }
        let ghost (pts, ginc) = self@;
        let d = distance.0 as i64;
        let inc = self.range_inc as i64;
        let rounded = round_down_exec(distance.0, self.range_inc);
        let rem = d - rounded;
        let next = rounded + inc;
        let low = match self.find(rounded) {
            Some(p) => p,
            None => {
                return None;
            },
        };
        let high = match self.find(next) {
            Some(p) => p,
            None => {
                return None;
            },
        };
        proof {
            lemma_find_row_found(pts, ginc, rounded as int);
            lemma_find_row_found(pts, ginc, next as int);
            lemma_round_down(d as int, inc as int);
            lemma_mul_bound(
                rem as int,
                low.time_of_flight - high.time_of_flight,
                100,
                0x1_0000_0000,
            );
            lemma_mul_bound(low.time_of_flight as int, inc as int, 0x1_0000_0000, 100);
        }
        let meters = high.range as i64 - low.range as i64;
        let tenths = low.time_of_flight as i64 - high.time_of_flight as i64;
        Some(
            Fraction {
                num: (low.time_of_flight as i64) * meters - rem * tenths,
                den: 10 * meters,
            },
        )
    }
}


/// The range of every row of a well-formed table is a multiple of its step,
/// so it rounds down to itself.
proof fn lemma_row_round_down(pts: Seq<ChargeInfo>, inc: int, i: int)
    requires
        table_wf(pts, inc),
        0 <= i < pts.len(),
    ensures
        round_down(pts[i].range as int, inc) == pts[i].range,
        pts[i].range == pts[0].range + i * inc,
        pts[i].range > 0,
{
    let first = pts[0].range as int;
    assert(pts[i].range == first + i * inc);
    vstd::arithmetic::div_mod::lemma_fundamental_div_mod(first, inc);
    let k = first / inc;
    assert(first == inc * k);
    assert(first + i * inc == inc * (k + i)) by (nonlinear_arith)
        requires
            first == inc * k,
    ;
    assert(i * inc >= 0) by (nonlinear_arith)
        requires
            i >= 0,
            inc > 0,
    ;
    vstd::arithmetic::div_mod::lemma_div_multiples_vanish(k + i, inc);
    assert((inc * (k + i)) / inc * inc == inc * (k + i)) by (nonlinear_arith)
        requires
            (inc * (k + i)) / inc == k + i,
    ;
}

/// At the range of a row that has a row after it, linear interpolation of
/// the elevation gives that row's elevation exactly.
pub proof fn lemma_linear_exact_at_rows(pts: Seq<ChargeInfo>, inc: int, i: int)
    requires
        table_wf(pts, inc),
        0 <= i < pts.len() - 1,
    ensures
        linear_spec(pts, inc, pts[i].range as int) == Some((pts[i].elevation * inc, inc)),
{
    lemma_row_round_down(pts, inc, i);
    lemma_row_round_down(pts, inc, i + 1);
    lemma_find_row_wf(pts, inc, i);
    lemma_find_row_wf(pts, inc, i + 1);
    assert(pts[0].range + (i + 1) * inc == pts[i].range + inc) by (nonlinear_arith)
        requires
            pts[i].range == pts[0].range + i * inc,
    ;
}

/// At the range of a row that has a row after it, linear interpolation of
/// the time of flight gives that row's time exactly.
pub proof fn lemma_flight_exact_at_rows(pts: Seq<ChargeInfo>, inc: int, i: int)
    requires
        table_wf(pts, inc),
        0 <= i < pts.len() - 1,
    ensures
        flight_spec(pts, inc, pts[i].range as int) == Some(
            (pts[i].time_of_flight * inc, 10 * inc),
        ),
{
    lemma_row_round_down(pts, inc, i);
    lemma_row_round_down(pts, inc, i + 1);
    lemma_find_row_wf(pts, inc, i);
    lemma_find_row_wf(pts, inc, i + 1);
    assert(pts[0].range + (i + 1) * inc == pts[i].range + inc) by (nonlinear_arith)
        requires
            pts[i].range == pts[0].range + i * inc,
    ;
}

/// At the range of a row that has rows on both sides, three-point
/// interpolation gives that row's elevation exactly (over the denominator
/// `2 inc^3`).
pub proof fn lemma_quadratic_exact_at_rows(pts: Seq<ChargeInfo>, inc: int, i: int)
    requires
        table_wf(pts, inc),
        1 <= i < pts.len() - 1,
    ensures
        quadratic_spec(pts, inc, pts[i].range as int) == Some(
            (pts[i].elevation * (2 * inc * inc * inc), 2 * inc * inc * inc),
        ),
{
    lemma_row_round_down(pts, inc, i);
    lemma_row_round_down(pts, inc, i - 1);
    lemma_row_round_down(pts, inc, i + 1);
    lemma_find_row_wf(pts, inc, i - 1);
    lemma_find_row_wf(pts, inc, i);
    lemma_find_row_wf(pts, inc, i + 1);
    let ra = pts[i].range as int;
    assert(pts[0].range + (i + 1) * inc == ra + inc) by (nonlinear_arith)
        requires
            ra == pts[0].range + i * inc,
    ;
    assert(pts[0].range + (i - 1) * inc == ra - inc) by (nonlinear_arith)
        requires
            ra == pts[0].range + i * inc,
    ;
    assert(!(0 > inc / 2));
    let (a, b, c) = (pts[i], pts[i + 1], pts[i - 1]);
    let (rb, rc) = (b.range as int, c.range as int);
    let v = (ra - rb) * (ra - rc) * (rb - rc);
    let n = a.elevation * (ra - rb) * (ra - rc) * (rb - rc) - b.elevation * (ra - ra) * (ra - rc) * (
    ra - rc) + c.elevation * (ra - ra) * (ra - rb) * (ra - rb);
    assert(v == -(2 * inc * inc * inc) && n == -(a.elevation * (2 * inc * inc * inc)))
        by (nonlinear_arith)
        requires
            rb == ra + inc,
            rc == ra - inc,
            v == (ra - rb) * (ra - rc) * (rb - rc),
            n == a.elevation * (ra - rb) * (ra - rc) * (rb - rc) - b.elevation * (ra - ra) * (ra
                - rc) * (ra - rc) + c.elevation * (ra - ra) * (ra - rb) * (ra - rb),
    ;
    assert(v < 0) by (nonlinear_arith)
        requires
            v == -(2 * inc * inc * inc),
            inc > 0,
    ;
    assert(lagrange3(ra, a, b, c) == (-n, -v));
}


/// The firing table of every charge that has one is well formed.
pub proof fn lemma_charge_table_wf(c: Charge)
    requires
        c != Charge::Three,
    ensures
        table_wf(charge_table(c).0, charge_table(c).1),
        charge_table(c).0.len() == table_elevations(c).len(),
        charge_table(c).0[0].range == table_first_range(c),
{
    let (pts, inc) = charge_table(c);
    assert(table_flight_times(c).len() == table_elevations(c).len());
    assert(pts[0].range == table_first_range(c));
    assert forall|i: int| 0 <= i < pts.len() implies #[trigger] pts[i].range == pts[0].range + i
        * inc by {}
}

/// A distance from the first row of a well-formed table up to, but not
/// including, its last row has a row on each side of it, so linear
/// interpolation of the elevation and of the time of flight both give a
/// value.
pub proof fn lemma_bracketed(pts: Seq<ChargeInfo>, inc: int, d: int)
    requires
        table_wf(pts, inc),
        pts[0].range <= d < pts[0].range + (pts.len() - 1) * inc,
    ensures
        linear_spec(pts, inc, d) is Some,
        flight_spec(pts, inc, d) is Some,
{
    let first = pts[0].range as int;
    vstd::arithmetic::div_mod::lemma_fundamental_div_mod(first, inc);
    let k = first / inc;
    let q = d / inc;
    vstd::arithmetic::div_mod::lemma_fundamental_div_mod(d, inc);
    assert(first == inc * k);
    assert(0 <= d % inc < inc);
    assert(k <= q) by (nonlinear_arith)
        requires
            first == inc * k,
            d == inc * q + d % inc,
            0 <= d % inc < inc,
            first <= d,
            inc > 0,
    ;
    let i = q - k;
    assert(i <= pts.len() - 2) by (nonlinear_arith)
        requires
            first == inc * k,
            d == inc * q + d % inc,
            0 <= d % inc,
            d < first + (pts.len() - 1) * inc,
            i == q - k,
            inc > 0,
    ;
    assert(round_down(d, inc) == first + i * inc) by (nonlinear_arith)
        requires
            first == inc * k,
            i == q - k,
            q == d / inc,
            d >= 0,
            round_down(d, inc) == q * inc,
    ;
    assert(round_down(d, inc) + inc == first + (i + 1) * inc) by (nonlinear_arith)
        requires
            round_down(d, inc) == first + i * inc,
    ;
    lemma_find_row_wf(pts, inc, i);
    lemma_find_row_wf(pts, inc, i + 1);
}

/// The charge picked for a distance has rows of its firing table on both
/// sides of it, so the table gives an elevation and a time of flight, except
/// at the top of the bands of charges 2, 4 and 5 (2500, 4500 and 5300 m) and
/// in the part of charge 4's band below its first row (2500 to 2600 m).
pub proof fn lemma_charge_covers(d: int)
    requires
        charge_for(d) is Some,
        d != 2500 && d != 4500 && d != 5300,
        !(2500 < d < 2600),
    ensures
        linear_spec(charge_table(charge_for(d).unwrap()).0, charge_table(charge_for(d).unwrap()).1, d)
            is Some,
        flight_spec(charge_table(charge_for(d).unwrap()).0, charge_table(charge_for(d).unwrap()).1, d)
            is Some,
{
    let c = charge_for(d).unwrap();
    lemma_charge_table_wf(c);
    let (pts, inc) = charge_table(c);
    match c {
        Charge::One => assert(pts.len() == 12 && inc == 50 && pts[0].range == 950),
        Charge::Two => assert(pts.len() == 21 && inc == 50 && pts[0].range == 1500),
        Charge::Four => assert(pts.len() == 20 && inc == 100 && pts[0].range == 2600),
        _ => assert(pts.len() == 24 && inc == 100 && pts[0].range == 3000),
    }
    lemma_bracketed(pts, inc, d);
}


/// Linear interpolation never leaves the range between the elevations of the
/// two rows it interpolates between.
pub proof fn lemma_linear_between(pts: Seq<ChargeInfo>, inc: int, d: int)
    requires
        table_wf(pts, inc),
        linear_spec(pts, inc, d) is Some,
    ensures
        ({
            let (num, den) = linear_spec(pts, inc, d).unwrap();
            let lo = find_row(pts, round_down(d, inc)).unwrap().elevation as int;
            let hi = find_row(pts, round_down(d, inc) + inc).unwrap().elevation as int;
            &&& den == inc
            &&& (if lo <= hi {
                lo * den <= num <= hi * den
            } else {
                hi * den <= num <= lo * den
            })
        }),
{
    let rounded = round_down(d, inc);
    lemma_find_row_found(pts, inc, rounded);
    lemma_find_row_found(pts, inc, rounded + inc);
    lemma_round_down(d, inc);
    let rem = d - rounded;
    let lo = find_row(pts, rounded).unwrap().elevation as int;
    let hi = find_row(pts, rounded + inc).unwrap().elevation as int;
    assert(d >= 0);
    assert(0 <= rem < inc);
    let num = lo * inc - rem * (lo - hi);
    assert(num == lo * (inc - rem) + hi * rem) by (nonlinear_arith)
        requires
            num == lo * inc - rem * (lo - hi),
    ;
    assert(lo <= hi ==> lo * inc <= num <= hi * inc) by (nonlinear_arith)
        requires
            num == lo * (inc - rem) + hi * rem,
            0 <= rem < inc,
    ;
    assert(hi < lo ==> hi * inc <= num <= lo * inc) by (nonlinear_arith)
        requires
            num == lo * (inc - rem) + hi * rem,
            0 <= rem < inc,
    ;
}

/// The rows of the firing table of charge one as published:
/// range (m), elevation (mrad), time of flight (0.1 s).
pub open spec fn charge_1_rows() -> Seq<ChargeInfo> {
    seq![
        ChargeInfo { range: 950, elevation: 1245, time_of_flight: 244 },
        ChargeInfo { range: 1000, elevation: 1221, time_of_flight: 242 },
        ChargeInfo { range: 1050, elevation: 1197, time_of_flight: 240 },
        ChargeInfo { range: 1100, elevation: 1171, time_of_flight: 237 },
        ChargeInfo { range: 1150, elevation: 1149, time_of_flight: 234 },
        ChargeInfo { range: 1200, elevation: 1115, time_of_flight: 231 },
        ChargeInfo { range: 1250, elevation: 1084, time_of_flight: 227 },
        ChargeInfo { range: 1300, elevation: 1050, time_of_flight: 223 },
        ChargeInfo { range: 1350, elevation: 1011, time_of_flight: 218 },
        ChargeInfo { range: 1400, elevation: 965, time_of_flight: 212 },
        ChargeInfo { range: 1450, elevation: 907, time_of_flight: 203 },
        ChargeInfo { range: 1500, elevation: 800, time_of_flight: 186 },
    ]
}

/// The rows of the firing table of charge two as published:
/// range (m), elevation (mrad), time of flight (0.1 s).
pub open spec fn charge_2_rows() -> Seq<ChargeInfo> {
    seq![
        ChargeInfo { range: 1500, elevation: 1270, time_of_flight: 311 },
        ChargeInfo { range: 1550, elevation: 1257, time_of_flight: 330 },
        ChargeInfo { range: 1600, elevation: 1243, time_of_flight: 329 },
        ChargeInfo { range: 1650, elevation: 1229, time_of_flight: 327 },
        ChargeInfo { range: 1700, elevation: 1214, time_of_flight: 325 },
        ChargeInfo { range: 1750, elevation: 1200, time_of_flight: 324 },
        ChargeInfo { range: 1800, elevation: 1185, time_of_flight: 321 },
        ChargeInfo { range: 1850, elevation: 1169, time_of_flight: 319 },
        ChargeInfo { range: 1900, elevation: 1153, time_of_flight: 317 },
        ChargeInfo { range: 1950, elevation: 1136, time_of_flight: 315 },
        ChargeInfo { range: 2000, elevation: 1119, time_of_flight: 312 },
        ChargeInfo { range: 2050, elevation: 1101, time_of_flight: 310 },
        ChargeInfo { range: 2100, elevation: 1082, time_of_flight: 307 },
        ChargeInfo { range: 2150, elevation: 1062, time_of_flight: 303 },
        ChargeInfo { range: 2200, elevation: 1041, time_of_flight: 300 },
        ChargeInfo { range: 2250, elevation: 1018, time_of_flight: 296 },
        ChargeInfo { range: 2300, elevation: 995, time_of_flight: 292 },
        ChargeInfo { range: 2350, elevation: 967, time_of_flight: 287 },
        ChargeInfo { range: 2400, elevation: 938, time_of_flight: 281 },
        ChargeInfo { range: 2450, elevation: 904, time_of_flight: 275 },
        ChargeInfo { range: 2500, elevation: 860, time_of_flight: 265 },
    ]
}

/// The rows of the firing table of charge four as published:
/// range (m), elevation (mrad), time of flight (0.1 s).
pub open spec fn charge_4_rows() -> Seq<ChargeInfo> {
    seq![
        ChargeInfo { range: 2600, elevation: 1271, time_of_flight: 472 },
        ChargeInfo { range: 2700, elevation: 1255, time_of_flight: 470 },
        ChargeInfo { range: 2800, elevation: 1240, time_of_flight: 467 },
        ChargeInfo { range: 2900, elevation: 1224, time_of_flight: 465 },
        ChargeInfo { range: 3000, elevation: 1207, time_of_flight: 462 },
        ChargeInfo { range: 3100, elevation: 1190, time_of_flight: 459 },
        ChargeInfo { range: 3200, elevation: 1172, time_of_flight: 456 },
        ChargeInfo { range: 3300, elevation: 1154, time_of_flight: 452 },
        ChargeInfo { range: 3400, elevation: 1135, time_of_flight: 449 },
        ChargeInfo { range: 3500, elevation: 1116, time_of_flight: 445 },
        ChargeInfo { range: 3600, elevation: 1095, time_of_flight: 440 },
        ChargeInfo { range: 3700, elevation: 1074, time_of_flight: 436 },
        ChargeInfo { range: 3800, elevation: 1052, time_of_flight: 431 },
        ChargeInfo { range: 3900, elevation: 1028, time_of_flight: 425 },
        ChargeInfo { range: 4000, elevation: 1003, time_of_flight: 419 },
        ChargeInfo { range: 4100, elevation: 976, time_of_flight: 413 },
        ChargeInfo { range: 4200, elevation: 946, time_of_flight: 405 },
        ChargeInfo { range: 4300, elevation: 912, time_of_flight: 396 },
        ChargeInfo { range: 4400, elevation: 874, time_of_flight: 385 },
        ChargeInfo { range: 4500, elevation: 828, time_of_flight: 372 },
    ]
}

/// The rows of the firing table of charge five as published:
/// range (m), elevation (mrad), time of flight (0.1 s).
pub open spec fn charge_5_rows() -> Seq<ChargeInfo> {
    seq![
        ChargeInfo { range: 3000, elevation: 1271, time_of_flight: 0 },
        ChargeInfo { range: 3100, elevation: 1258, time_of_flight: 0 },
        ChargeInfo { range: 3200, elevation: 1244, time_of_flight: 0 },
        ChargeInfo { range: 3300, elevation: 1230, time_of_flight: 0 },
        ChargeInfo { range: 3400, elevation: 1216, time_of_flight: 0 },
        ChargeInfo { range: 3500, elevation: 1202, time_of_flight: 0 },
        ChargeInfo { range: 3600, elevation: 1187, time_of_flight: 0 },
        ChargeInfo { range: 3700, elevation: 1172, time_of_flight: 0 },
        ChargeInfo { range: 3800, elevation: 1156, time_of_flight: 0 },
        ChargeInfo { range: 3900, elevation: 1140, time_of_flight: 0 },
        ChargeInfo { range: 4000, elevation: 1024, time_of_flight: 0 },
        ChargeInfo { range: 4100, elevation: 1107, time_of_flight: 0 },
        ChargeInfo { range: 4200, elevation: 1089, time_of_flight: 0 },
        ChargeInfo { range: 4300, elevation: 1071, time_of_flight: 0 },
        ChargeInfo { range: 4400, elevation: 1052, time_of_flight: 0 },
        ChargeInfo { range: 4500, elevation: 1032, time_of_flight: 0 },
        ChargeInfo { range: 4600, elevation: 1011, time_of_flight: 0 },
        ChargeInfo { range: 4700, elevation: 989, time_of_flight: 0 },
        ChargeInfo { range: 4800, elevation: 966, time_of_flight: 0 },
        ChargeInfo { range: 4900, elevation: 941, time_of_flight: 0 },
        ChargeInfo { range: 5000, elevation: 913, time_of_flight: 0 },
        ChargeInfo { range: 5100, elevation: 883, time_of_flight: 0 },
        ChargeInfo { range: 5200, elevation: 850, time_of_flight: 0 },
        ChargeInfo { range: 5300, elevation: 809, time_of_flight: 0 },
    ]
}

/// Each charge's firing table is exactly its published rows, with the step
/// between their ranges; charge 3 has none.
pub proof fn lemma_charge_tables()
    ensures
        charge_table(Charge::One) == (charge_1_rows(), 50int),
        charge_table(Charge::Two) == (charge_2_rows(), 50int),
        charge_table(Charge::Four) == (charge_4_rows(), 100int),
        charge_table(Charge::Five) == (charge_5_rows(), 100int),
{
    assert(charge_table(Charge::One).0 =~= charge_1_rows());
    assert(charge_table(Charge::Two).0 =~= charge_2_rows());
    assert(charge_table(Charge::Four).0 =~= charge_4_rows());
    assert(charge_table(Charge::Five).0 =~= charge_5_rows());
}

/// The bands of the charges: 950 m up to 1500 m is charge 1, 1500 m to
/// 2500 m charge 2, above that to 4500 m charge 4, above that to 5300 m
/// charge 5; nothing below 950 m or above 5300 m, and never charge 3.
pub proof fn lemma_charge_bands(d: int)
    ensures
        950 <= d < 1500 ==> charge_for(d) == Some(Charge::One),
        1500 <= d <= 2500 ==> charge_for(d) == Some(Charge::Two),
        2500 < d <= 4500 ==> charge_for(d) == Some(Charge::Four),
        4500 < d <= 5300 ==> charge_for(d) == Some(Charge::Five),
        d < 950 || d > 5300 ==> charge_for(d) is None,
        charge_for(d) != Some(Charge::Three),
{
}

/// A distance within step `i` of a well-formed table (from row `i` up to,
/// not including, row `i + 1`) rounds down to row `i`'s range, and the rows
/// found at and one step past it are rows `i` and `i + 1`.
proof fn lemma_in_step(pts: Seq<ChargeInfo>, inc: int, i: int, d: int)
    requires
        table_wf(pts, inc),
        0 <= i < pts.len() - 1,
        pts[i].range <= d < pts[i + 1].range,
    ensures
        d > 0,
        pts[i + 1].range == pts[i].range + inc,
        round_down(d, inc) == pts[i].range,
        find_row(pts, round_down(d, inc)) == Some(pts[i]),
        find_row(pts, round_down(d, inc) + inc) == Some(pts[i + 1]),
{
    lemma_row_round_down(pts, inc, i);
    lemma_row_round_down(pts, inc, i + 1);
    lemma_find_row_wf(pts, inc, i);
    lemma_find_row_wf(pts, inc, i + 1);
    let first = pts[0].range as int;
    let ri = pts[i].range as int;
    assert(first + (i + 1) * inc == ri + inc) by (nonlinear_arith)
        requires
            ri == first + i * inc,
    ;
    vstd::arithmetic::div_mod::lemma_fundamental_div_mod(ri, inc);
    vstd::arithmetic::div_mod::lemma_fundamental_div_mod(first, inc);
    let k = ri / inc;
    assert(ri == k * inc) by (nonlinear_arith)
        requires
            ri == inc * (ri / inc) + ri % inc,
            k == ri / inc,
            first == inc * (first / inc),
            ri == first + i * inc,
            inc > 0,
    {
        assert(ri % inc == 0) by {
            vstd::arithmetic::div_mod::lemma_mod_multiples_vanish(first / inc + i, 0, inc);
        }
    }
    vstd::arithmetic::div_mod::lemma_fundamental_div_mod_converse(d, inc, k, d - ri);
    assert(d / inc * inc == ri);
}

/// Linear interpolation within a step of the table: the elevation at `d`,
/// times the step, is the weighted sum of the elevations of the two rows
/// around it, each weighted by the distance from `d` to the other row.
pub proof fn lemma_linear_in_step(pts: Seq<ChargeInfo>, inc: int, i: int, d: int)
    requires
        table_wf(pts, inc),
        0 <= i < pts.len() - 1,
        pts[i].range <= d < pts[i + 1].range,
    ensures
        linear_spec(pts, inc, d) == Some(
            (
                pts[i].elevation * (pts[i + 1].range - d) + pts[i + 1].elevation * (d
                    - pts[i].range),
                inc,
            ),
        ),
{
    lemma_in_step(pts, inc, i, d);
    let (el, eh) = (pts[i].elevation as int, pts[i + 1].elevation as int);
    let rem = d - pts[i].range;
    assert(el * inc - rem * (el - eh) == el * (pts[i + 1].range - d) + eh * rem) by (nonlinear_arith)
        requires
            pts[i + 1].range == pts[i].range + inc,
            rem == d - pts[i].range,
    ;
}

/// Time of flight within a step of the table: the time at `d`, in tenths of
/// a second times the step, is the weighted sum of the times of the two rows
/// around it, each weighted by the distance from `d` to the other row.
pub proof fn lemma_flight_in_step(pts: Seq<ChargeInfo>, inc: int, i: int, d: int)
    requires
        table_wf(pts, inc),
        0 <= i < pts.len() - 1,
        pts[i].range <= d < pts[i + 1].range,
    ensures
        flight_spec(pts, inc, d) == Some(
            (
                pts[i].time_of_flight * (pts[i + 1].range - d) + pts[i + 1].time_of_flight * (d
                    - pts[i].range),
                10 * inc,
            ),
        ),
{
    lemma_in_step(pts, inc, i, d);
    let (tl, th) = (pts[i].time_of_flight as int, pts[i + 1].time_of_flight as int);
    let rem = d - pts[i].range;
    assert(tl * inc - rem * (tl - th) == tl * (pts[i + 1].range - d) + th * rem) by (nonlinear_arith)
        requires
            pts[i + 1].range == pts[i].range + inc,
            rem == d - pts[i].range,
    ;
}

/// Outside the table, from its last row on or before its first, neither the
/// elevation nor the time of flight is interpolated.
pub proof fn lemma_linear_outside(pts: Seq<ChargeInfo>, inc: int, d: int)
    requires
        table_wf(pts, inc),
        d < pts[0].range || d >= pts[pts.len() - 1].range,
    ensures
        linear_spec(pts, inc, d) is None,
        flight_spec(pts, inc, d) is None,
{
    let rounded = round_down(d, inc);
    lemma_round_down(d, inc);
    let last = pts.len() - 1;
    assert(pts[last].range == pts[0].range + last * inc);
    if find_row(pts, rounded) is Some && find_row(pts, rounded + inc) is Some {
        lemma_find_row_found(pts, inc, rounded);
        lemma_find_row_found(pts, inc, rounded + inc);
        assert(false);
    }
}

/// `delta * e == alpha r^2 + beta r + gamma`: the row lies on the quadratic
/// `(alpha x^2 + beta x + gamma) / delta`.
pub open spec fn row_on_quadratic(row: ChargeInfo, alpha: int, beta: int, gamma: int, delta: int) -> bool {
    delta * row.elevation == alpha * row.range * row.range + beta * row.range + gamma
}

/// The third row that three-point interpolation uses for a distance `d` in
/// step `i`: the row after next when `d` is past the middle of the step, else
/// the row before.
pub open spec fn third_row(pts: Seq<ChargeInfo>, inc: int, i: int, d: int) -> int {
    if d - pts[i].range > inc / 2 {
        i + 2
    } else {
        i - 1
    }
}

proof fn lemma_basis_prev(p: int, h: int)
    ensures
        (p - h) * (p + h) * (2 * h) - p * (p + h) * h + p * (p - h) * (0 - h) == -2 * h * h * h,
        0 - h * (p * (p + h) * h) + (0 - h) * (p * (p - h) * (0 - h)) == -2 * h * h * h * p,
        0 - h * h * (p * (p + h) * h) + h * h * (p * (p - h) * (0 - h)) == -2 * h * h * h * (p * p),
{
    assert((p - h) * (p + h) == p * p - h * h) by (nonlinear_arith);
    assert(p * (p + h) == p * p + p * h) by (nonlinear_arith);
    assert(p * (p - h) == p * p - p * h) by (nonlinear_arith);
    assert((p - h) * (p + h) * (2 * h) - p * (p + h) * h + p * (p - h) * (0 - h) == -2 * h * h * h)
        by (nonlinear_arith)
        requires
            (p - h) * (p + h) == p * p - h * h,
            p * (p + h) == p * p + p * h,
            p * (p - h) == p * p - p * h,
    ;
    assert(0 - h * (p * (p + h) * h) + (0 - h) * (p * (p - h) * (0 - h)) == -2 * h * h * h * p)
        by (nonlinear_arith)
        requires
            p * (p + h) == p * p + p * h,
            p * (p - h) == p * p - p * h,
    ;
    assert(0 - h * h * (p * (p + h) * h) + h * h * (p * (p - h) * (0 - h)) == -2 * h * h * h * (p
        * p)) by (nonlinear_arith)
        requires
            p * (p + h) == p * p + p * h,
            p * (p - h) == p * p - p * h,
    ;
}

proof fn lemma_basis_next(p: int, h: int)
    ensures
        (p - h) * (p - 2 * h) * (0 - h) - p * (p - 2 * h) * (0 - 2 * h) + p * (p - h) * (0 - h) == -2
            * h * h * h,
        0 - h * (p * (p - 2 * h) * (0 - 2 * h)) + 2 * h * (p * (p - h) * (0 - h)) == -2 * h * h * h
            * p,
        0 - h * h * (p * (p - 2 * h) * (0 - 2 * h)) + (2 * h) * (2 * h) * (p * (p - h) * (0 - h))
            == -2 * h * h * h * (p * p),
{
    assert((p - h) * (p - 2 * h) == p * p - 3 * p * h + 2 * h * h) by (nonlinear_arith);
    assert(p * (p - 2 * h) == p * p - 2 * p * h) by (nonlinear_arith);
    assert(p * (p - h) == p * p - p * h) by (nonlinear_arith);
    assert((p - h) * (p - 2 * h) * (0 - h) - p * (p - 2 * h) * (0 - 2 * h) + p * (p - h) * (0 - h)
        == -2 * h * h * h) by (nonlinear_arith)
        requires
            (p - h) * (p - 2 * h) == p * p - 3 * p * h + 2 * h * h,
            p * (p - 2 * h) == p * p - 2 * p * h,
            p * (p - h) == p * p - p * h,
    ;
    assert(0 - h * (p * (p - 2 * h) * (0 - 2 * h)) + 2 * h * (p * (p - h) * (0 - h)) == -2 * h * h
        * h * p) by (nonlinear_arith)
        requires
            p * (p - 2 * h) == p * p - 2 * p * h,
            p * (p - h) == p * p - p * h,
    ;
    assert(0 - h * h * (p * (p - 2 * h) * (0 - 2 * h)) + (2 * h) * (2 * h) * (p * (p - h) * (0 - h))
        == -2 * h * h * h * (p * p)) by (nonlinear_arith)
        requires
            p * (p - 2 * h) == p * p - 2 * p * h,
            p * (p - h) == p * p - p * h,
    ;
}

/// A quadratic read about the point `r0`: `alpha (r0 + t)^2 + beta (r0 + t)
/// + gamma` in powers of `t`.
proof fn lemma_shift(alpha: int, beta: int, gamma: int, r0: int, t: int)
    ensures
        alpha * (r0 + t) * (r0 + t) + beta * (r0 + t) + gamma == alpha * (t * t) + (2 * alpha * r0
            + beta) * t + (alpha * r0 * r0 + beta * r0 + gamma),
{
    assert(alpha * (r0 + t) * (r0 + t) == alpha * (t * t) + 2 * alpha * r0 * t + alpha * r0 * r0)
        by (nonlinear_arith);
    assert(beta * (r0 + t) == beta * t + beta * r0) by (nonlinear_arith);
    assert((2 * alpha * r0 + beta) * t == 2 * alpha * r0 * t + beta * t) by (nonlinear_arith);
}

proof fn lemma_combine(
    n: int,
    delta: int,
    ea: int,
    eb: int,
    ec: int,
    x: int,
    y: int,
    z: int,
    a0: int,
    a1: int,
    a2: int,
    h: int,
    tc: int,
    p: int,
    v: int,
)
    requires
        n == ea * x - eb * y + ec * z,
        delta * ea == a0,
        delta * eb == a2 * (h * h) + a1 * h + a0,
        delta * ec == a2 * (tc * tc) + a1 * tc + a0,
        x - y + z == v,
        0 - h * y + tc * z == v * p,
        0 - h * h * y + tc * tc * z == v * (p * p),
    ensures
        n * delta == v * (a2 * (p * p) + a1 * p + a0),
{
    let (u, w, q) = (ea * x, eb * y, ec * z);
    lemma_dist_sub_add(u, w, q, delta);
    lemma_swap_factor(ea, x, delta);
    lemma_swap_factor(eb, y, delta);
    lemma_swap_factor(ec, z, delta);
    assert(n * delta == a0 * x - (a2 * (h * h) + a1 * h + a0) * y + (a2 * (tc * tc) + a1 * tc
        + a0) * z);
    lemma_dist3(a2, a1, a0, h * h, h, y);
    lemma_dist3(a2, a1, a0, tc * tc, tc, z);
    lemma_factor_out(a0, x, y, z);
    lemma_factor_out2(a1, h * y, tc * z);
    lemma_factor_out2(a2, h * h * y, tc * tc * z);
    assert(n * delta == a0 * (x - y + z) + a1 * (tc * z - h * y) + a2 * (tc * tc * z - h * h * y));
    assert(tc * z - h * y == v * p);
    assert(tc * tc * z - h * h * y == v * (p * p));
    lemma_collect(a0, a1, a2, v, p);
}

proof fn lemma_dist_sub_add(u: int, w: int, q: int, k: int)
    ensures
        (u - w + q) * k == u * k - w * k + q * k,
{
    assert((u - w + q) * k == u * k - w * k + q * k) by (nonlinear_arith);
}

proof fn lemma_dist3(c2: int, c1: int, c0: int, s2: int, s1: int, y: int)
    ensures
        (c2 * s2 + c1 * s1 + c0) * y == c2 * (s2 * y) + c1 * (s1 * y) + c0 * y,
{
    assert((c2 * s2 + c1 * s1 + c0) * y == c2 * (s2 * y) + c1 * (s1 * y) + c0 * y)
        by (nonlinear_arith);
}

proof fn lemma_factor_out(k: int, x: int, y: int, z: int)
    ensures
        k * x - k * y + k * z == k * (x - y + z),
{
    assert(k * x - k * y + k * z == k * (x - y + z)) by (nonlinear_arith);
}

proof fn lemma_factor_out2(k: int, y: int, z: int)
    ensures
        k * z - k * y == k * (z - y),
{
    assert(k * z - k * y == k * (z - y)) by (nonlinear_arith);
}

proof fn lemma_collect(a0: int, a1: int, a2: int, v: int, p: int)
    ensures
        a0 * v + a1 * (v * p) + a2 * (v * (p * p)) == v * (a2 * (p * p) + a1 * p + a0),
{
    assert(a0 * v + a1 * (v * p) + a2 * (v * (p * p)) == v * (a2 * (p * p) + a1 * p + a0))
        by (nonlinear_arith);
}

proof fn lemma_assoc4(e: int, f: int, g: int, k: int)
    ensures
        e * f * g * k == e * (f * g * k),
{
    assert(e * f * g * k == e * (f * g * k)) by (nonlinear_arith);
}

proof fn lemma_swap_factor(e: int, x: int, delta: int)
    ensures
        e * x * delta == delta * e * x,
{
    assert(e * x * delta == delta * e * x) by (nonlinear_arith);
}

/// Three-point interpolation at a distance `d` in step `i` of a well-formed
/// table gives a value exactly where its third row (see `third_row`) is in
/// the table.
pub proof fn lemma_quadratic_defined(pts: Seq<ChargeInfo>, inc: int, i: int, d: int)
    requires
        table_wf(pts, inc),
        0 <= i < pts.len() - 1,
        pts[i].range <= d < pts[i + 1].range,
    ensures
        quadratic_spec(pts, inc, d) is Some <==> 0 <= third_row(pts, inc, i, d) < pts.len(),
{
    lemma_in_step(pts, inc, i, d);
    let t = third_row(pts, inc, i, d);
    let ri = pts[i].range as int;
    let third = if d - ri > inc / 2 {
        ri + inc * 2
    } else {
        ri - inc
    };
    assert(third == pts[0].range + t * inc) by (nonlinear_arith)
        requires
            ri == pts[0].range + i * inc,
            t == i + 2 || t == i - 1,
            t == i + 2 ==> third == ri + inc * 2,
            t == i - 1 ==> third == ri - inc,
    ;
    if 0 <= t < pts.len() {
        lemma_find_row_wf(pts, inc, t);
    } else {
        if find_row(pts, third) is Some {
            lemma_find_row_found(pts, inc, third);
            assert(pts[0].range <= pts[0].range + t * inc <= pts[0].range + (pts.len() - 1) * inc);
            assert(0 <= t < pts.len()) by (nonlinear_arith)
                requires
                    0 <= t * inc <= (pts.len() - 1) * inc,
                    inc > 0,
            ;
        }
    }
}

/// Three-point interpolation at a distance `d` in step `i` evaluates the
/// quadratic through its three rows (rows `i`, `i + 1` and `third_row`): for
/// every quadratic `(alpha x^2 + beta x + gamma) / delta` on which the three
/// rows lie, the value `num / den` (with `den > 0`) is the quadratic at `d`.
pub proof fn lemma_quadratic_through_rows(
    pts: Seq<ChargeInfo>,
    inc: int,
    i: int,
    d: int,
    alpha: int,
    beta: int,
    gamma: int,
    delta: int,
)
    requires
        table_wf(pts, inc),
        0 <= i < pts.len() - 1,
        pts[i].range <= d < pts[i + 1].range,
        0 <= third_row(pts, inc, i, d) < pts.len(),
        row_on_quadratic(pts[i], alpha, beta, gamma, delta),
        row_on_quadratic(pts[i + 1], alpha, beta, gamma, delta),
        row_on_quadratic(pts[third_row(pts, inc, i, d)], alpha, beta, gamma, delta),
    ensures
        quadratic_spec(pts, inc, d) matches Some((num, den)) && den > 0 && num * delta == den * (
        alpha * d * d + beta * d + gamma),
{
    lemma_quadratic_defined(pts, inc, i, d);
    lemma_in_step(pts, inc, i, d);
    let t = third_row(pts, inc, i, d);
    let (a, b, c) = (pts[i], pts[i + 1], pts[t]);
    let ra = a.range as int;
    let rb = b.range as int;
    let rc = c.range as int;
    let h = inc;
    let p = d - ra;
    assert(rc == pts[0].range + t * inc);
    assert(ra == pts[0].range + i * inc);
    let tc = rc - ra;
    assert(tc == (t - i) * inc) by (nonlinear_arith)
        requires
            rc == pts[0].range + t * inc,
            ra == pts[0].range + i * inc,
            tc == rc - ra,
    ;
    let third = if d - ra > inc / 2 {
        ra + inc * 2
    } else {
        ra - inc
    };
    if t == i + 2 {
        assert(pts[0].range + t * inc == ra + inc * 2) by (nonlinear_arith)
            requires
                ra == pts[0].range + i * inc,
                t == i + 2,
        ;
    } else {
        assert(pts[0].range + t * inc == ra - inc) by (nonlinear_arith)
            requires
                ra == pts[0].range + i * inc,
                t == i - 1,
        ;
    }
    assert(third == rc);
    lemma_find_row_wf(pts, inc, t);
    assert(quadratic_spec(pts, inc, d) == Some(lagrange3(d, a, b, c)));
    let (ea, eb, ec) = (a.elevation as int, b.elevation as int, c.elevation as int);
    let x = (d - rb) * (d - rc) * (rb - rc);
    let y = (d - ra) * (d - rc) * (ra - rc);
    let z = (d - ra) * (d - rb) * (ra - rb);
    let v = (ra - rb) * (ra - rc) * (rb - rc);
    let n = ea * (d - rb) * (d - rc) * (rb - rc) - eb * (d - ra) * (d - rc) * (ra - rc) + ec * (d
        - ra) * (d - rb) * (ra - rb);
    lemma_assoc4(ea, d - rb, d - rc, rb - rc);
    lemma_assoc4(eb, d - ra, d - rc, ra - rc);
    lemma_assoc4(ec, d - ra, d - rb, ra - rb);
    assert(n == ea * x - eb * y + ec * z);
    // the quadratic read about `ra`
    let a0 = alpha * ra * ra + beta * ra + gamma;
    let a1 = 2 * alpha * ra + beta;
    let a2 = alpha;
    lemma_shift(alpha, beta, gamma, ra, 0);
    lemma_shift(alpha, beta, gamma, ra, h);
    lemma_shift(alpha, beta, gamma, ra, tc);
    lemma_shift(alpha, beta, gamma, ra, p);
    assert(ra + 0 == ra && ra + h == rb && ra + tc == rc && ra + p == d);
    assert(alpha * (0 * 0) + a1 * 0 + a0 == a0) by (nonlinear_arith);
    if t == i - 1 {
        assert(tc == 0 - h) by (nonlinear_arith)
            requires
                tc == (t - i) * inc,
                t == i - 1,
                h == inc,
        ;
        lemma_basis_prev(p, h);
        assert(d - rb == p - h && d - rc == p + h && rb - rc == 2 * h && d - ra == p && ra - rc
            == h && ra - rb == 0 - h);
        assert(x == (p - h) * (p + h) * (2 * h));
        assert(y == p * (p + h) * h);
        assert(z == p * (p - h) * (0 - h));
        assert(v == -2 * h * h * h) by (nonlinear_arith)
            requires
                v == (ra - rb) * (ra - rc) * (rb - rc),
                ra - rb == 0 - h,
                ra - rc == h,
                rb - rc == 2 * h,
        ;
        assert(tc * tc == h * h) by (nonlinear_arith)
            requires
                tc == 0 - h,
        ;
        assert(0 - h * y + tc * z == v * p);
        assert(0 - h * h * y + tc * tc * z == v * (p * p));
        lemma_combine(n, delta, ea, eb, ec, x, y, z, a0, a1, a2, h, tc, p, v);
    } else {
        assert(tc == 2 * h) by (nonlinear_arith)
            requires
                tc == (t - i) * inc,
                t == i + 2,
                h == inc,
        ;
        lemma_basis_next(p, h);
        assert(d - rb == p - h && d - rc == p - 2 * h && rb - rc == 0 - h && d - ra == p && ra - rc
            == 0 - 2 * h && ra - rb == 0 - h);
        assert(x == (p - h) * (p - 2 * h) * (0 - h));
        assert(y == p * (p - 2 * h) * (0 - 2 * h));
        assert(z == p * (p - h) * (0 - h));
        assert(v == -2 * h * h * h) by (nonlinear_arith)
            requires
                v == (ra - rb) * (ra - rc) * (rb - rc),
                ra - rb == 0 - h,
                ra - rc == 0 - 2 * h,
                rb - rc == 0 - h,
        ;
        assert(0 - h * y + tc * z == v * p);
        assert(0 - h * h * y + tc * tc * z == v * (p * p));
        lemma_combine(n, delta, ea, eb, ec, x, y, z, a0, a1, a2, h, tc, p, v);
    }
    assert(v < 0) by (nonlinear_arith)
        requires
            v == -2 * h * h * h,
            h > 0,
    ;
    assert(alpha * d * d == alpha * (p * p) + 2 * alpha * ra * p + alpha * ra * ra)
        by (nonlinear_arith)
        requires
            d == ra + p,
    ;
    assert(a2 * (p * p) + a1 * p + a0 == alpha * d * d + beta * d + gamma) by (nonlinear_arith)
        requires
            alpha * d * d == alpha * (p * p) + 2 * alpha * ra * p + alpha * ra * ra,
            d == ra + p,
            a2 == alpha,
            a1 == 2 * alpha * ra + beta,
            a0 == alpha * ra * ra + beta * ra + gamma,
    ;
    assert(lagrange3(d, a, b, c) == (-n, -v));
    assert((-n) * delta == (-v) * (alpha * d * d + beta * d + gamma)) by (nonlinear_arith)
        requires
            n * delta == v * (alpha * d * d + beta * d + gamma),
    ;
}

} // verus!
