use hcalc::{coords, parens, parse_command, quotes, Command, Coords};

use nom::bytes::complete::is_not;
use nom::character::complete::char;
use nom::sequence::delimited;
use nom::{IResult, Parser};

fn nom_parens(input: &str) -> IResult<&str, &str> {
    delimited(char('('), is_not(")"), char(')')).parse(input)
}

fn nom_quotes(input: &str) -> IResult<&str, &str> {
    delimited(char('"'), is_not("\""), char('"')).parse(input)
}

const SAMPLES: &[&str] = &[
    "",
    "(",
    ")",
    "()",
    "(a)",
    "(a",
    "(a)b",
    "((a)b)",
    "(500, 1000)",
    "(500 1000) trailing",
    " (1,2)",
    "\"\"",
    "\"",
    "\"a\"",
    "\"Multiple Words\" 500 1000",
    "\"unterminated",
    "\"é ü\"x",
    "(ü)",
    "x(1)",
];

#[test]
fn parens_agrees_with_nom() {
    for s in SAMPLES {
        let ours = parens(s);
        let theirs = nom_parens(s).ok().map(|(r, i)| (r.to_string(), i.to_string()));
        assert_eq!(ours, theirs, "input {:?}", s);
    }
}

#[test]
fn quotes_agrees_with_nom() {
    for s in SAMPLES {
        let ours = quotes(s);
        let theirs = nom_quotes(s).ok().map(|(r, i)| (r.to_string(), i.to_string()));
        assert_eq!(ours, theirs, "input {:?}", s);
    }
}

#[test]
fn parens_gives_rest_and_inner() {
    assert_eq!(parens("(1,2)xyz"), Some(("xyz".to_string(), "1,2".to_string())));
    assert_eq!(parens("()"), None);
    assert_eq!(parens("1,2"), None);
}

#[test]
fn readme_coordinate_forms() {
    for s in ["500 1000", "500,1000", "500, 1000", "(500 1000)", "(500,1000)", "(500, 1000)"] {
        assert_eq!(coords(s), Ok(Coords((500, 1000))), "input {:?}", s);
    }
}

#[test]
fn coords_signs_and_whitespace() {
    assert_eq!(coords("-5, +7"), Ok(Coords((-5, 7))));
    assert_eq!(coords("  3 ,  4  "), Ok(Coords((3, 4))));
    assert_eq!(coords("\u{a0}1,\u{3000}2"), Ok(Coords((1, 2))));
    assert_eq!(coords("1\t,2"), Ok(Coords((1, 2))));
    assert_eq!(coords("(1,2)xyz"), Ok(Coords((1, 2))));
}

#[test]
fn coords_limits() {
    assert_eq!(coords("-2147483648 2147483647"), Ok(Coords((i32::MIN, i32::MAX))));
    assert_eq!(coords("2147483648 1"), Err(()));
    assert_eq!(coords("1 -2147483649"), Err(()));
    assert_eq!(coords("000000000000000000000012 7"), Ok(Coords((12, 7))));
}

#[test]
fn coords_errors() {
    assert_eq!(coords(""), Err(()));
    assert_eq!(coords("500"), Err(()));
    assert_eq!(coords("abc def"), Err(()));
    assert_eq!(coords("(500 1000"), Err(()));
    assert_eq!(coords("1 2,3"), Err(()));
    assert_eq!(coords("1,2,3"), Err(()));
    assert_eq!(coords("+ 1"), Err(()));
    assert_eq!(coords("- 1"), Err(()));
    assert_eq!(coords("1 2 3"), Err(()));
    assert_eq!(coords("()"), Err(()));
}

#[test]
fn coords_agree_with_std_parsing() {
    let samples = [
        "1 2", "1,2", " 1 , 2 ", "(1 2)", "(1,2) x", "+1 -2", "1  2", "a b", "1 b", "(1 2", "(x)",
        "99999999999 1", "-0 +0", "1\u{2003},\u{2003}2",
    ];
    for s in samples {
        let inner = match nom_parens(s) {
            Ok((_, i)) => i,
            Err(_) => s,
        };
        let expected = inner
            .split_once(',')
            .or(inner.split_once(' '))
            .ok_or(())
            .and_then(|(x, y)| {
                let x = x.trim().parse::<i32>().map_err(|_| ())?;
                let y = y.trim().parse::<i32>().map_err(|_| ())?;
                Ok(Coords((x, y)))
            });
        assert_eq!(coords(s), expected, "input {:?}", s);
    }
}

#[test]
fn coords_text_reads_back() {
    for c in [Coords((0, 0)), Coords((500, -1000)), Coords((i32::MIN, i32::MAX)), Coords((-7, 12345))] {
        assert_eq!(coords(&c.to_string()), Ok(c));
    }
    assert_eq!(Coords((500, -1000)).to_string(), "(500, -1000)");
}

#[test]
fn commands_by_name_and_letter() {
    let cases = [
        ("new", Command::New),
        ("n", Command::New),
        ("NEW", Command::New),
        ("delete", Command::Delete),
        ("D", Command::Delete),
        ("edit", Command::Edit),
        ("e", Command::Edit),
        ("add", Command::Add),
        ("A", Command::Add),
        ("list", Command::List),
        ("l", Command::List),
        ("Reset", Command::Reset),
        ("r", Command::Reset),
        ("quit", Command::Quit),
        ("q", Command::Quit),
        ("help", Command::Help),
        ("h", Command::Help),
        ("xyz", Command::Unknown),
        ("ne", Command::Unknown),
        ("\u{212a}", Command::Unknown),
    ];
    for (w, c) in cases {
        assert_eq!(parse_command(w), Some((c, w.to_string(), String::new())), "word {:?}", w);
    }
}

#[test]
fn command_arguments() {
    assert_eq!(
        parse_command("  N  target 1 2  "),
        Some((Command::New, "N".to_string(), " target 1 2".to_string()))
    );
    assert_eq!(
        parse_command("a \"Multiple Words\" 500 1000"),
        Some((Command::Add, "a".to_string(), "\"Multiple Words\" 500 1000".to_string()))
    );
    assert_eq!(parse_command("   "), None);
    assert_eq!(parse_command(""), None);
    assert_eq!(
        parse_command("bogus stuff"),
        Some((Command::Unknown, "bogus".to_string(), "stuff".to_string()))
    );
}

fn reference_coords(s: &str) -> Result<Coords, ()> {
    let inner = match nom_parens(s) {
        Ok((_, i)) => i,
        Err(_) => s,
    };
    let (x, y) = inner.split_once(',').or(inner.split_once(' ')).ok_or(())?;
    let x = x.trim().parse::<i32>().map_err(|_| ())?;
    let y = y.trim().parse::<i32>().map_err(|_| ())?;
    Ok(Coords((x, y)))
}

#[test]
fn coords_agree_with_reference_on_short_strings() {
    let alphabet = ['+', '-', '0', '7', ' ', ',', '(', ')', 'a', '\t'];
    let mut strings = vec![String::new()];
    for _ in 0..5 {
        let mut longer = Vec::new();
        for s in &strings {
            for c in alphabet {
                let mut t = s.clone();
                t.push(c);
                longer.push(t);
            }
        }
        for s in &longer {
            assert_eq!(coords(s), reference_coords(s), "input {:?}", s);
        }
        strings = longer;
    }
}

#[test]
fn whitespace_is_unicode_white_space() {
    for u in 0..=0x10ffffu32 {
        if let Some(c) = char::from_u32(u) {
            assert_eq!(hcalc::text::is_white_char(c), c.is_whitespace(), "char {:x}", u);
        }
    }
}
