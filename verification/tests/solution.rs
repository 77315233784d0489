use hcalc::{
    add, delete, distance, edit, fire_mission, new, quadrant, Charge, Coords, Distance, Fraction,
    Quadrant, State,
};

fn value(f: Fraction) -> f64 {
    f.num as f64 / f.den as f64
}

#[test]
fn quadrants() {
    let o = Coords((0, 0));
    assert_eq!(quadrant(o, Coords((1, 1))), Quadrant::NE);
    assert_eq!(quadrant(o, Coords((0, 0))), Quadrant::NE);
    assert_eq!(quadrant(o, Coords((1, -1))), Quadrant::SE);
    assert_eq!(quadrant(o, Coords((-1, -1))), Quadrant::SW);
    assert_eq!(quadrant(o, Coords((-1, 1))), Quadrant::NW);
    assert_eq!(quadrant(o, Coords((0, -5))), Quadrant::SE);
    assert_eq!(Quadrant::NE.bearing_offset(), 0);
    assert_eq!(Quadrant::SE.bearing_offset(), 0);
    assert_eq!(Quadrant::SW.bearing_offset(), 360);
    assert_eq!(Quadrant::NW.bearing_offset(), 360);
}

#[test]
fn distances() {
    assert_eq!(distance(Coords((0, 0)), Coords((3, 4))), Distance(5));
    assert_eq!(distance(Coords((0, 0)), Coords((1, 1))), Distance(1));
    assert_eq!(distance(Coords((10, 10)), Coords((10, 10))), Distance(0));
    assert_eq!(distance(Coords((0, 0)), Coords((i32::MAX, i32::MAX))), Distance(i32::MAX));
    assert_eq!(distance(Coords((0, 0)), Coords((-i32::MAX, 0))), Distance(i32::MAX));
}

#[test]
fn distance_agrees_with_float() {
    let pts = [(0, 0), (3, 4), (-500, 1200), (123456, -654321), (1000000, 1000000), (-7, -7)];
    for a in pts {
        for b in pts {
            let dx = (b.0 - a.0) as f64;
            let dy = (b.1 - a.1) as f64;
            let expected = (dx * dx + dy * dy).sqrt() as i32;
            assert_eq!(distance(Coords(a), Coords(b)), Distance(expected));
            assert_eq!(distance(Coords(a), Coords(b)), distance(Coords(b), Coords(a)));
        }
    }
}

#[test]
fn distance_text() {
    assert_eq!(Distance(1000).to_string(), "1000m");
    assert_eq!(Distance(0).to_string(), "0m");
}

#[test]
fn charge_for_distance() {
    let cases = [
        (0, None),
        (949, None),
        (950, Some(Charge::One)),
        (1499, Some(Charge::One)),
        (1500, Some(Charge::Two)),
        (2500, Some(Charge::Two)),
        (2501, Some(Charge::Four)),
        (4500, Some(Charge::Four)),
        (4501, Some(Charge::Five)),
        (5300, Some(Charge::Five)),
        (5301, None),
        (-10, None),
    ];
    for (d, c) in cases {
        assert_eq!(Charge::for_distance(Distance(d)), c, "distance {}", d);
    }
}

#[test]
fn charge_labels() {
    assert_eq!(Charge::One.label(), "Charge 1");
    assert_eq!(Charge::Three.label(), "Charge 3");
    assert_eq!(Charge::Five.label(), "Charge 5");
}

#[test]
fn quadratic_fit_values() {
    // -9.84e-4 * 1000^2 + 1.68 * 1000 + 525 = 1221
    assert_eq!(Charge::One.quadratic().solve(1000), 12_210_000_000_000);
    let fits = [
        (Charge::One, -9.84E-04, 1.68, 525.0),
        (Charge::Two, -2.05E-04, 0.435, 1072.0),
        (Charge::Three, -1.04E-04, 0.313, 1065.0),
        (Charge::Four, -6.01618E-05, 0.206291, 1133.45796),
        (Charge::Five, -4.2E-05, 0.159, 1165.0),
    ];
    for (c, a, b, k) in fits {
        for x in [0, 950, 1234, 3000, 5300] {
            let xf = x as f64;
            let expected = a * xf * xf + b * xf + k;
            let got = c.quadratic().solve(x) as f64 / 1e10;
            assert!((got - expected).abs() < 1e-6, "{:?} at {}: {} vs {}", c, x, got, expected);
        }
    }
}

#[test]
fn linear_interpolation() {
    let lut = Charge::One.lut();
    let f = lut.mils_linear(Distance(1000)).unwrap();
    assert_eq!(f.num, 1221 * f.den);
    let f = lut.mils_linear(Distance(1025)).unwrap();
    assert_eq!(f, Fraction { num: 1221 * 50 - 25 * 24, den: 50 });
    assert_eq!(value(f), 1209.0);
    assert_eq!(lut.mils_linear(Distance(1500)), None);
    assert_eq!(lut.mils_linear(Distance(949)), None);
    assert_eq!(lut.mils_linear(Distance(-20)), None);
    let f = lut.mils_linear(Distance(1499)).unwrap();
    assert!((value(f) - (907.0 - 49.0 * 107.0 / 50.0)).abs() < 1e-9);
}

#[test]
fn time_of_flight_interpolation() {
    let lut = Charge::One.lut();
    let t = lut.time_of_flight(Distance(1025)).unwrap();
    assert!((value(t) - 24.1).abs() < 1e-9);
    let t = lut.time_of_flight(Distance(950)).unwrap();
    assert!((value(t) - 24.4).abs() < 1e-9);
    let t = Charge::Five.lut().time_of_flight(Distance(4250)).unwrap();
    assert_eq!(t.num, 0);
    assert_eq!(Charge::Four.lut().time_of_flight(Distance(2550)), None);
}

#[test]
fn quadratic_interpolation() {
    let lut = Charge::Two.lut();
    // exact at the rows that have rows on both sides
    let f = lut.mils_quadratic(Distance(2000)).unwrap();
    assert_eq!(f.num, 1119 * f.den);
    // no row before the first one
    assert_eq!(lut.mils_quadratic(Distance(1500)), None);
    assert_eq!(lut.mils_quadratic(Distance(1520)), None);
    // past the middle of the step the row after next is used
    let d = 1530.0;
    let (r, e) = ([1500.0, 1550.0, 1600.0], [1270.0, 1257.0, 1243.0]);
    let mut expected = 0.0;
    for i in 0..3 {
        let mut prod = 1.0;
        for j in 0..3 {
            if i != j {
                prod *= (d - r[j]) / (r[i] - r[j]);
            }
        }
        expected += prod * e[i];
    }
    let got = value(lut.mils_quadratic(Distance(1530)).unwrap());
    assert!((got - expected).abs() < 1e-9, "{} vs {}", got, expected);
}

#[test]
fn interpolation_is_exact_at_rows() {
    for c in [Charge::One, Charge::Two, Charge::Four, Charge::Five] {
        let lut = c.lut();
        let (first, step, rows) = match c {
            Charge::One => (950, 50, 12),
            Charge::Two => (1500, 50, 21),
            Charge::Four => (2600, 100, 20),
            _ => (3000, 100, 24),
        };
        for i in 0..rows - 1 {
            let d = Distance(first + i * step);
            let lin = lut.mils_linear(d).unwrap();
            assert_eq!(lin.den, step as i64);
            if i > 0 {
                let quad = lut.mils_quadratic(d).unwrap();
                assert_eq!(quad.num, lin.num / lin.den * quad.den);
            }
        }
    }
}

#[test]
fn session_commands() {
    let mut s = State::new();
    assert_eq!(add(&mut s, "gun 0 0"), Ok(("gun".to_string(), Coords((0, 0)))));
    assert_eq!(
        add(&mut s, "\"Big Gun\" (100, 200)"),
        Ok(("Big Gun".to_string(), Coords((100, 200))))
    );
    assert_eq!(new(&mut s, "t1 0,1000"), Ok(("t1".to_string(), Coords((0, 1000)))));
    assert_eq!(new(&mut s, "\"far target\" 3000 4000"), Ok(("far target".to_string(), Coords((3000, 4000)))));
    assert_eq!(new(&mut s, "bad"), Err(()));
    assert_eq!(new(&mut s, "bad 1"), Err(()));
    assert_eq!(s.firing_positions.get("gun"), Some(Coords((0, 0))));
    assert_eq!(s.firing_positions.get("Big Gun"), Some(Coords((100, 200))));
    assert_eq!(s.fire_missions.get("t1").map(|m| m.coords), Some(Coords((0, 1000))));
    assert!(!s.fire_missions.contains_key("bad"));

    assert_eq!(edit(&mut s, "t1 5 5"), Ok(("t1".to_string(), Coords((5, 5)))));
    assert_eq!(s.fire_missions.get("t1").map(|m| m.coords), Some(Coords((5, 5))));
    assert_eq!(edit(&mut s, "nothere 5 5"), Err(()));
    assert_eq!(edit(&mut s, "t1 x y"), Err(()));
    assert_eq!(s.fire_missions.get("t1").map(|m| m.coords), Some(Coords((5, 5))));
    assert_eq!(edit(&mut s, "\"far target\" 1 1"), Ok(("far target".to_string(), Coords((1, 1)))));

    assert_eq!(delete(&mut s, "  t1  "), Ok("t1".to_string()));
    assert_eq!(s.fire_missions.get("t1"), None);
    assert_eq!(delete(&mut s, "t1"), Ok("t1".to_string()));
    assert_eq!(s.fire_missions.keys(), vec!["far target".to_string()]);
    assert_eq!(s.firing_positions.keys(), vec!["gun".to_string(), "Big Gun".to_string()]);

    // adding under a name that exists moves it
    assert_eq!(add(&mut s, "gun 7 8"), Ok(("gun".to_string(), Coords((7, 8)))));
    assert_eq!(s.firing_positions.get("gun"), Some(Coords((7, 8))));
    assert_eq!(s.firing_positions.keys().len(), 2);
}

#[test]
fn quoted_name_with_quotes_inside_word() {
    let mut s = State::new();
    // a word that is itself quoted after trimming loses its quotes
    assert_eq!(new(&mut s, "\"\"x\"\" 1 2"), Err(()));
    assert_eq!(add(&mut s, "\"  spaced  \" 1 2"), Ok(("spaced".to_string(), Coords((1, 2)))));
}

#[test]
fn fire_mission_solution() {
    let mut s = State::new();
    add(&mut s, "gun 0 0").unwrap();
    new(&mut s, "t 0 1000").unwrap();
    let f = fire_mission(&s, "gun", "t").unwrap();
    assert_eq!(f.distance, Distance(1000));
    assert_eq!(f.charge, Charge::One);
    assert_eq!(f.quadrant, Quadrant::NE);
    assert_eq!(value(f.mils_linear.unwrap()), 1221.0);
    assert_eq!(value(f.mils_quadratic.unwrap()), 1221.0);
    assert!((value(f.time_of_flight.unwrap()) - 24.2).abs() < 1e-9);
    assert_eq!(f.elevation_fit, 12_210_000_000_000);
    assert_eq!(fire_mission(&s, "nogun", "t"), Err(()));
    assert_eq!(fire_mission(&s, "gun", "none"), Err(()));

    // beyond every band the solution falls back to charge 5, out of its table
    new(&mut s, "far 0 9000").unwrap();
    let f = fire_mission(&s, "gun", "far").unwrap();
    assert_eq!(f.charge, Charge::Five);
    assert_eq!(f.mils_linear, None);
    assert_eq!(f.mils_quadratic, None);
    assert_eq!(f.time_of_flight, None);
}

#[test]
fn picked_charge_table_covers_distance() {
    for d in 900..5400 {
        if let Some(c) = Charge::for_distance(Distance(d)) {
            let lut = c.lut();
            let excluded = d == 2500 || d == 4500 || d == 5300 || (2500 < d && d < 2600);
            let lin = lut.mils_linear(Distance(d));
            let tof = lut.time_of_flight(Distance(d));
            if excluded {
                assert_eq!(lin, None, "distance {}", d);
                assert_eq!(tof, None, "distance {}", d);
            } else {
                assert!(lin.is_some() && tof.is_some(), "distance {}", d);
            }
        }
    }
}

#[test]
fn linear_stays_between_rows() {
    let lut = Charge::Four.lut();
    for d in 2600..4500 {
        let f = lut.mils_linear(Distance(d)).unwrap();
        let low = lut.mils_linear(Distance(d / 100 * 100)).unwrap();
        let high = lut.mils_linear(Distance(d / 100 * 100 + 100));
        let lo = value(low);
        let v = value(f);
        match high {
            Some(h) => {
                let hi = value(h);
                assert!(v <= lo.max(hi) && v >= lo.min(hi), "distance {}", d);
            }
            None => assert!(v <= lo && v >= 828.0, "distance {}", d),
        }
    }
}

#[test]
fn delete_takes_quoted_names() {
    let mut s = State::new();
    new(&mut s, "\"Multiple Words\" 1 2").unwrap();
    new(&mut s, "single 3 4").unwrap();
    assert_eq!(delete(&mut s, "\"Multiple Words\""), Ok("Multiple Words".to_string()));
    assert!(!s.fire_missions.contains_key("Multiple Words"));
    assert_eq!(delete(&mut s, " single "), Ok("single".to_string()));
    assert!(!s.fire_missions.contains_key("single"));
}
