//! The session's state: named firing positions and fire missions, the
//! commands that change them, and the firing solution from a position to a
//! mission.

use vstd::prelude::*;

use crate::charge::{
    charge_for, charge_quadratic, charge_table, flight_spec, frac_view, linear_spec,
    quadratic_spec, round_down, table_step, Charge, Fraction,
};
use crate::geometry::{
    coords_form, is_listed_separator, lemma_coords_form_plain, lemma_coords_forms, coords_range, coords_spec, deltas_fit, dist_sq, distance, is_whole_root, quadrant, quadrant_of,
    Coords, Distance, Quadrant,
};
use crate::names::NameMap;
use crate::text::{
    is_first, is_white, lemma_split_at_first, lemma_trim_keeps_out, lemma_trim_lead,
    lemma_trim_plain, chars_of, delimited, delimited_range, split_once, split_range, string_of_range, trim,
    trim_range,
};

verus! {

/// A target to fire at.
#[derive(Debug, Default, Clone, Copy, PartialEq, Eq)]
pub struct FireMission {
    pub coords: Coords,
}

/// The firing positions and fire missions of a session, by name.
pub struct State {
    pub firing_positions: NameMap<Coords>,
    pub fire_missions: NameMap<FireMission>,
}

impl State {
    /// A session with no firing position and no fire mission.
    pub fn new() -> (s: Self)
        ensures
            s.firing_positions@ == Map::<Seq<char>, Coords>::empty(),
            s.fire_missions@ == Map::<Seq<char>, FireMission>::empty(),
    {
        Self { firing_positions: NameMap::new(), fire_missions: NameMap::new() }
    }
}

/// The name at the front of the arguments of a command, trimmed, and the text
/// after it: a name in double quotes runs to the closing quote, any other
/// name to the first space. None when the name has no end.
pub open spec fn split_name(s: Seq<char>) -> Option<(Seq<char>, Seq<char>)> {
    let (body, delim) = if s.len() > 0 && s[0] == '"' {
        (s.drop_first(), '"')
    } else {
        (s, ' ')
    };
    match split_once(body, delim) {
        Some((name, rest)) => Some((trim(name), rest)),
        None => None,
    }
}

/// A name with one pair of double quotes around it taken off, as the quoted
/// text of `delimited` gives it; any other name as it is.
pub open spec fn unquote(name: Seq<char>) -> Seq<char> {
    match delimited(name, '"', '"') {
        Some((_rest, inner)) => inner,
        None => name,
    }
}

/// The arguments of `new` and `add`: a name (see `split_name`), without
/// quotes around it, and the coordinates after it, trimmed.
pub open spec fn named_coords(s: Seq<char>) -> Option<(Seq<char>, (i32, i32))> {
    match split_name(s) {
        Some((name, rest)) => match coords_spec(trim(rest)) {
            Some(xy) => Some((unquote(name), xy)),
            None => None,
        },
        None => None,
    }
}

/// `split_name` on `s`: the range of the name and the start of the text after
/// it.
fn split_name_range(s: &Vec<char>) -> (r: Option<(usize, usize, usize)>)
    ensures
        match r {
            Some((a, b, k)) => a <= b <= s@.len() && k <= s@.len() && split_name(s@) == Some(
                (s@.subrange(a as int, b as int), s@.subrange(k as int, s@.len() as int)),
            ),
            None => split_name(s@) is None,
        },
{
    let n = s.len();
    let (lo, delim) = if n > 0 && s[0] == '"' {
        (1, '"')
    } else {
        (0, ' ')
    };
    assert(lo == 1 ==> s@.drop_first() =~= s@.subrange(1, n as int));
    assert(lo == 0 ==> s@ =~= s@.subrange(0, n as int));
    match split_range(s, lo, n, delim) {
        Some(k) => {
            let (a, b) = trim_range(s, lo, k);
            Some((a, b, k + 1))
        },
        None => None,
    }
}

/// `named_coords` on `s`, as the range of the name and the coordinates.
fn named_coords_range(s: &Vec<char>) -> (r: Option<(usize, usize, Coords)>)
    ensures
        match r {
            Some((a, b, c)) => a <= b <= s@.len() && named_coords(s@) == Some(
                (s@.subrange(a as int, b as int), c.0),
            ),
            None => named_coords(s@) is None,
        },
{
    let (a, b, k) = match split_name_range(s) {
        Some(t) => t,
        None => {
            return None;
        },
    };
    let (c0, c1) = trim_range(s, k, s.len());
    let c = match coords_range(s, c0, c1) {
        Ok(c) => c,
        Err(()) => {
            return None;
        },
    };
    match delimited_range(s, a, b, '"', '"') {
        Some((_rest, (qa, qb))) => Some((qa, qb, c)),
        None => Some((a, b, c)),
    }
}

/// Adds a fire mission, or moves one that has the name, from `input`: a name
/// and coordinates (see `named_coords`). Gives the name and the coordinates,
/// or an error, and no change, where `input` does not read.
pub fn new(state: &mut State, input: &str) -> (r: Result<(String, Coords), ()>)
    ensures
        match named_coords(input@) {
            Some((name, xy)) => {
                &&& r matches Ok((n, c)) && n@ == name && c == Coords(xy)
                &&& final(state).fire_missions@ == old(state).fire_missions@.insert(
                    name,
                    FireMission { coords: Coords(xy) },
                )
            },
            None => r is Err && final(state).fire_missions@ == old(state).fire_missions@,
        },
        final(state).firing_positions@ == old(state).firing_positions@,
{
    let s = chars_of(input);
    match named_coords_range(&s) {
        Some((a, b, c)) => {
            let name = string_of_range(&s, a, b);
            let key = string_of_range(&s, a, b);
            state.fire_missions.insert(key, FireMission { coords: c });
            Ok((name, c))
        },
        None => Err(()),
    }
}

/// Adds a firing position, or moves one that has the name, from `input`: a
/// name and coordinates (see `named_coords`). Gives the name and the
/// coordinates, or an error, and no change, where `input` does not read.
pub fn add(state: &mut State, input: &str) -> (r: Result<(String, Coords), ()>)
    ensures
        match named_coords(input@) {
            Some((name, xy)) => {
                &&& r matches Ok((n, c)) && n@ == name && c == Coords(xy)
                &&& final(state).firing_positions@ == old(state).firing_positions@.insert(
                    name,
                    Coords(xy),
                )
            },
            None => r is Err && final(state).firing_positions@ == old(state).firing_positions@,
        },
        final(state).fire_missions@ == old(state).fire_missions@,
{
    let s = chars_of(input);
    match named_coords_range(&s) {
        Some((a, b, c)) => {
            let name = string_of_range(&s, a, b);
            let key = string_of_range(&s, a, b);
            state.firing_positions.insert(key, c);
            Ok((name, c))
        },
        None => Err(()),
    }
}

/// Moves an existing fire mission, from `input`: its name (see `split_name`;
/// quotes are not taken off here) and new coordinates. An error, and no
/// change, where there is no such mission or `input` does not read.
pub fn edit(state: &mut State, input: &str) -> (r: Result<(String, Coords), ()>)
    ensures
        match split_name(input@) {
            Some((name, rest)) => if old(state).fire_missions@.contains_key(name) {
                match coords_spec(trim(rest)) {
                    Some(xy) => {
                        &&& r matches Ok((n, c)) && n@ == name && c == Coords(xy)
                        &&& final(state).fire_missions@ == old(state).fire_missions@.insert(
                            name,
                            FireMission { coords: Coords(xy) },
                        )
                    },
                    None => r is Err && final(state).fire_missions@ == old(state).fire_missions@,
                }
            } else {
                r is Err && final(state).fire_missions@ == old(state).fire_missions@
            },
            None => r is Err && final(state).fire_missions@ == old(state).fire_missions@,
        },
        final(state).firing_positions@ == old(state).firing_positions@,
{
    let s = chars_of(input);
    let (a, b, k) = match split_name_range(&s) {
        Some(t) => t,
        None => {
            return Err(());
        },
    };
    let name = string_of_range(&s, a, b);
    if !state.fire_missions.contains_key(name.as_str()) {
        return Err(());
    }
    let (c0, c1) = trim_range(&s, k, s.len());
    let c = match coords_range(&s, c0, c1) {
        Ok(c) => c,
        Err(()) => {
            return Err(());
        },
    };
    let key = string_of_range(&s, a, b);
    state.fire_missions.insert(key, FireMission { coords: c });
    Ok((name, c))
}

/// Deletes the fire mission named by `input`, trimmed and, where it is in
/// double quotes, without them (see `unquote`), if there is one. Gives that
/// name.
pub fn delete(state: &mut State, input: &str) -> (r: Result<String, ()>)
    ensures
        r matches Ok(n) && n@ == unquote(trim(input@)),
        final(state).fire_missions@ == old(state).fire_missions@.remove(unquote(trim(input@))),
        final(state).firing_positions@ == old(state).firing_positions@,
{
    let s = chars_of(input);
    let (a, b) = trim_range(&s, 0, s.len());
    assert(s@.subrange(0, s@.len() as int) =~= input@);
    let (qa, qb) = match delimited_range(&s, a, b, '"', '"') {
        Some((_rest, inner)) => inner,
        None => (a, b),
    };
    let name = string_of_range(&s, qa, qb);
    state.fire_missions.remove(name.as_str());
    Ok(name)
}


/// The charge that a firing solution uses at distance `d`: the one
/// that `charge_for` picks, or charge 5 where none is picked.
pub open spec fn charge_or_five(d: int) -> Charge {
    match charge_for(d) {
        Some(c) => c,
        None => Charge::Five,
    }
}

/// The rounding of the distance `d` in the firing table of its charge, and
/// the rows two steps on, stay within `i32`, as the interpolation needs.
pub open spec fn table_steps_fit(d: int) -> bool {
    let inc = table_step(charge_or_five(d));
    round_down(d, inc) + 2 * inc <= i32::MAX
}

/// A firing solution can be worked out from `origin` to `target` without
/// overflowing: the coordinate differences fit in `i32`, and so does the
/// table arithmetic at their distance.
pub open spec fn solution_fits(origin: Coords, target: Coords) -> bool {
    &&& deltas_fit(origin, target)
    &&& forall|d: int| #[trigger] is_whole_root(d, dist_sq(origin, target)) ==> table_steps_fit(d)
}

/// What it takes to fire from a position at a mission: the distance, the
/// quadrant (for the bearing), the charge, and the elevation by the charge's
/// quadratic fit (in units of 10^-10 mrad), by linear and by three-point
/// interpolation in its firing table (in mrad), and the time of flight (in
/// seconds).
#[derive(Debug, Clone, Copy, PartialEq, Eq)]
pub struct FireSolution {
    pub origin: Coords,
    pub target: Coords,
    pub distance: Distance,
    pub quadrant: Quadrant,
    pub charge: Charge,
    pub elevation_fit: i128,
    pub mils_linear: Option<Fraction>,
    pub mils_quadratic: Option<Fraction>,
    pub time_of_flight: Option<Fraction>,
}

/// `f` is the firing solution from `origin` to `target`.
pub open spec fn is_solution(f: FireSolution, origin: Coords, target: Coords) -> bool {
    let d = f.distance.0 as int;
    let ch = charge_or_five(d);
    let q = charge_quadratic(ch);
    let (pts, inc) = charge_table(ch);
    &&& f.origin == origin
    &&& f.target == target
    &&& is_whole_root(d, dist_sq(origin, target))
    &&& f.quadrant == quadrant_of(target.0.0 - origin.0.0, target.0.1 - origin.0.1)
    &&& f.charge == ch
    &&& f.elevation_fit == q.a * d * d + q.b * d + q.c
    &&& frac_view(f.mils_linear) == linear_spec(pts, inc, d)
    &&& frac_view(f.mils_quadratic) == quadratic_spec(pts, inc, d)
    &&& frac_view(f.time_of_flight) == flight_spec(pts, inc, d)
}

/// The firing solution from the firing position named `position` to the fire
/// mission named `mission`; an error where either name is unknown.
pub fn fire_mission(state: &State, position: &str, mission: &str) -> (r: Result<FireSolution, ()>)
    requires
        state.firing_positions@.contains_key(position@) && state.fire_missions@.contains_key(
            mission@,
        ) ==> solution_fits(
            state.firing_positions@[position@],
            state.fire_missions@[mission@].coords,
        ),
    ensures
        if state.firing_positions@.contains_key(position@) && state.fire_missions@.contains_key(
            mission@,
        ) {
            r matches Ok(f) && is_solution(
                f,
                state.firing_positions@[position@],
                state.fire_missions@[mission@].coords,
            )
        } else {
            r is Err
        },
{
    let p = match state.firing_positions.get(position) {
        Some(p) => p,
        None => {
            return Err(());
        },
    };
    let c = match state.fire_missions.get(mission) {
        Some(f) => f.coords,
        None => {
            return Err(());
        },
    };
    let dist = distance(p, c);
    let charge = match Charge::for_distance(dist) {
        Some(ch) => ch,
        None => Charge::Five,
    };
    let elevation_fit = charge.quadratic().solve(dist.0);
    let lut = charge.lut();
    proof {
        assert(is_whole_root(dist.0 as int, dist_sq(p, c)));
        assert(table_steps_fit(dist.0 as int));
        crate::charge::lemma_round_down(dist.0 as int, table_step(charge) as int);
    }
    let mils_linear = lut.mils_linear(dist);
    let mils_quadratic = lut.mils_quadratic(dist);
    let time_of_flight = lut.time_of_flight(dist);
    Ok(
        FireSolution {
            origin: p,
            target: c,
            distance: dist,
            quadrant: quadrant(p, c),
            charge,
            elevation_fit,
            mils_linear,
            mils_quadratic,
            time_of_flight,
        },
    )
}


/// A single word: a name of at least one character, with no whitespace in
/// it, that does not start with a double quote.
pub open spec fn is_single_word(w: Seq<char>) -> bool {
    &&& w.len() > 0
    &&& w[0] != '"'
    &&& forall|i: int| 0 <= i < w.len() ==> !is_white(#[trigger] w[i])
}

/// A name that is a single word, followed by a space and coordinates as the
/// README lists them, reads as that name and those coordinates.
pub proof fn lemma_single_word_name(
    w: Seq<char>,
    x: i32,
    y: i32,
    sep: Seq<char>,
    parenthesized: bool,
)
    requires
        is_single_word(w),
        is_listed_separator(sep),
    ensures
        split_name(w + seq![' '] + coords_form(x, y, sep, parenthesized)) == Some(
            (w, coords_form(x, y, sep, parenthesized)),
        ),
        named_coords(w + seq![' '] + coords_form(x, y, sep, parenthesized)) == Some((w, (x, y))),
{
    let f = coords_form(x, y, sep, parenthesized);
    let s = w + seq![' '] + f;
    lemma_coords_form_plain(x, y, sep, parenthesized);
    lemma_coords_forms(x, y, sep, parenthesized);
    assert(s[0] == w[0]);
    assert forall|j: int| 0 <= j < w.len() implies s[j] != ' ' by {
        assert(s[j] == w[j]);
        assert(!is_white(w[j]));
    }
    assert(is_first(s, ' ', w.len() as int));
    lemma_split_at_first(s, ' ', w.len() as int);
    assert(s.take(w.len() as int) =~= w);
    assert(s.skip(w.len() as int + 1) =~= f);
    assert(!is_white(w[w.len() - 1]));
    lemma_trim_plain(w);
    lemma_trim_plain(f);
}

/// A name in double quotes, which may hold spaces but no double quote,
/// followed by a space and coordinates as the README lists them, reads as
/// the name between the quotes, trimmed, and those coordinates.
pub proof fn lemma_quoted_name(n: Seq<char>, x: i32, y: i32, sep: Seq<char>, parenthesized: bool)
    requires
        forall|i: int| 0 <= i < n.len() ==> n[i] != '"',
        is_listed_separator(sep),
    ensures
        split_name(seq!['"'] + n + seq!['"', ' '] + coords_form(x, y, sep, parenthesized))
            == Some((trim(n), seq![' '] + coords_form(x, y, sep, parenthesized))),
        named_coords(seq!['"'] + n + seq!['"', ' '] + coords_form(x, y, sep, parenthesized))
            == Some((trim(n), (x, y))),
{
    let f = coords_form(x, y, sep, parenthesized);
    let s = seq!['"'] + n + seq!['"', ' '] + f;
    lemma_coords_form_plain(x, y, sep, parenthesized);
    lemma_coords_forms(x, y, sep, parenthesized);
    let body = s.drop_first();
    assert(body =~= n + seq!['"', ' '] + f);
    assert forall|j: int| 0 <= j < n.len() implies body[j] != '"' by {
        assert(body[j] == n[j]);
    }
    assert(is_first(body, '"', n.len() as int));
    lemma_split_at_first(body, '"', n.len() as int);
    assert(body.take(n.len() as int) =~= n);
    assert(body.skip(n.len() as int + 1) =~= seq![' '] + f);
    lemma_trim_lead(' ', f);
    lemma_trim_keeps_out(n, '"');
    if trim(n).len() > 0 {
        assert(trim(n)[0] != '"');
    }
}


/// `delete` takes the name as `new` and `add` do: a single word as it is, a
/// name in double quotes (which may hold spaces but no double quote) without
/// its quotes.
pub proof fn lemma_delete_names(w: Seq<char>, n: Seq<char>)
    requires
        is_single_word(w),
        n.len() > 0,
        forall|i: int| 0 <= i < n.len() ==> n[i] != '"',
    ensures
        unquote(trim(w)) == w,
        unquote(trim(seq!['"'] + n + seq!['"'])) == n,
{
    assert(!is_white(w[0]));
    assert(!is_white(w[w.len() - 1]));
    lemma_trim_plain(w);
    let q = seq!['"'] + n + seq!['"'];
    assert(q[0] == '"');
    assert(q.last() == '"');
    lemma_trim_plain(q);
    let body = q.drop_first();
    assert(body =~= n + seq!['"']);
    assert forall|j: int| 0 <= j < n.len() implies body[j] != '"' by {
        assert(body[j] == n[j]);
    }
    assert(is_first(body, '"', n.len() as int));
    lemma_split_at_first(body, '"', n.len() as int);
    assert(body.take(n.len() as int) =~= n);
}

} // verus!
