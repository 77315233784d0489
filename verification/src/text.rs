//! Character-level text handling: whitespace trimming, splitting at a
//! character, delimited fragments and signed decimal integers.
//!
//! Text is handled as sequences of `char`; an exec function that reads part
//! of a buffer takes the buffer and a half-open range `lo..hi` of it.

use vstd::prelude::*;

verus! {

/// The Unicode `White_Space` property, which `char::is_whitespace` and
/// `str::trim` go by.
pub open spec fn is_white(c: char) -> bool {
    let u = c as u32;
    ||| 0x09 <= u <= 0x0d
    ||| u == 0x20
    ||| u == 0x85
    ||| u == 0xa0
    ||| u == 0x1680
    ||| 0x2000 <= u <= 0x200a
    ||| u == 0x2028
    ||| u == 0x2029
    ||| u == 0x202f
    ||| u == 0x205f
    ||| u == 0x3000
}

/// `s` without its leading whitespace.
pub open spec fn trim_start(s: Seq<char>) -> Seq<char>
    decreases s.len(),
{
    if s.len() > 0 && is_white(s[0]) {
        trim_start(s.drop_first())
    } else {
        s
    }
}

/// `s` without its trailing whitespace.
pub open spec fn trim_end(s: Seq<char>) -> Seq<char>
    decreases s.len(),
{
    if s.len() > 0 && is_white(s.last()) {
        trim_end(s.drop_last())
    } else {
        s
    }
}

/// `s` without leading and trailing whitespace, as `str::trim` gives it.
pub open spec fn trim(s: Seq<char>) -> Seq<char> {
    trim_end(trim_start(s))
}

pub fn is_white_char(c: char) -> (b: bool)
    ensures
        b == is_white(c),
{
    let u = c as u32;
    (0x09 <= u && u <= 0x0d) || u == 0x20 || u == 0x85 || u == 0xa0 || u == 0x1680 || (0x2000 <= u
        && u <= 0x200a) || u == 0x2028 || u == 0x2029 || u == 0x202f || u == 0x205f || u == 0x3000
}

/// The range of `s[lo..hi]` that is left once whitespace is trimmed from both
/// of its ends.
pub fn trim_range(s: &Vec<char>, lo: usize, hi: usize) -> (r: (usize, usize))
    requires
        lo <= hi <= s@.len(),
    ensures
        lo <= r.0 <= r.1 <= hi,
        s@.subrange(r.0 as int, r.1 as int) == trim(s@.subrange(lo as int, hi as int)),
{
    let mut i = lo;
    while i < hi && is_white_char(s[i])
        invariant
            lo <= i <= hi <= s@.len(),
            trim_start(s@.subrange(lo as int, hi as int)) == trim_start(
                s@.subrange(i as int, hi as int),
            ),
        decreases hi - i,
    {
        assert(s@.subrange(i as int, hi as int).drop_first() =~= s@.subrange(
            i + 1,
            hi as int,
        ));
        i = i + 1;
    }
    let mut j = hi;
    while j > i && is_white_char(s[j - 1])
        invariant
            i <= j <= hi <= s@.len(),
            trim_end(s@.subrange(i as int, hi as int)) == trim_end(s@.subrange(i as int, j as int)),
        decreases j - i,
    {
        assert(s@.subrange(i as int, j as int).drop_last() =~= s@.subrange(i as int, j - 1));
        j = j - 1;
    }
    (i, j)
}


/// `i` is the position of the first `c` in `s`.
pub open spec fn is_first(s: Seq<char>, c: char, i: int) -> bool {
    &&& 0 <= i < s.len()
    &&& s[i] == c
    &&& forall|j: int| 0 <= j < i ==> s[j] != c
}

/// `s` split around the first `c` in it, as `str::split_once` splits it:
/// the part before it and the part after it.
pub open spec fn split_once(s: Seq<char>, c: char) -> Option<(Seq<char>, Seq<char>)> {
    if exists|i: int| #[trigger] is_first(s, c, i) {
        let i = choose|i: int| #[trigger] is_first(s, c, i);
        Some((s.take(i), s.skip(i + 1)))
    } else {
        None
    }
}

/// Where the first `c` stands, `split_once` splits.
pub proof fn lemma_split_at_first(s: Seq<char>, c: char, i: int)
    requires
        is_first(s, c, i),
    ensures
        split_once(s, c) == Some((s.take(i), s.skip(i + 1))),
{
    let k = choose|k: int| #[trigger] is_first(s, c, k);
    assert(is_first(s, c, k));
    if k < i {
        assert(s[k] != c);
    }
    if i < k {
        assert(s[i] != c);
    }
}

/// With no `c` in `s`, `split_once` finds nothing.
pub proof fn lemma_split_none(s: Seq<char>, c: char)
    requires
        forall|j: int| 0 <= j < s.len() ==> s[j] != c,
    ensures
        split_once(s, c) is None,
{
    if exists|i: int| #[trigger] is_first(s, c, i) {
        let k = choose|k: int| #[trigger] is_first(s, c, k);
        assert(s[k] == c);
    }
}

/// The position of the first `c` in `s[lo..hi]`, if there is one.
pub fn find_char(s: &Vec<char>, lo: usize, hi: usize, c: char) -> (r: Option<usize>)
    requires
        lo <= hi <= s@.len(),
    ensures
        match r {
            Some(k) => lo <= k < hi && is_first(s@.subrange(lo as int, hi as int), c, k - lo),
            None => forall|j: int| lo <= j < hi ==> s@[j] != c,
        },
{
    let mut i = lo;
    while i < hi
        invariant
            lo <= i <= hi <= s@.len(),
            forall|j: int| lo <= j < i ==> s@[j] != c,
        decreases hi - i,
    {
        if s[i] == c {
            return Some(i);
        }
        i = i + 1;
    }
    None
}

/// The split of `s[lo..hi]` at its first `c`, as the position of that `c`,
/// with `split_once` on the same text.
pub fn split_range(s: &Vec<char>, lo: usize, hi: usize, c: char) -> (r: Option<usize>)
    requires
        lo <= hi <= s@.len(),
    ensures
        match r {
            Some(k) => lo <= k < hi && split_once(s@.subrange(lo as int, hi as int), c) == Some(
                (s@.subrange(lo as int, k as int), s@.subrange(k + 1, hi as int)),
            ),
            None => split_once(s@.subrange(lo as int, hi as int), c) is None,
        },
{
    let r = find_char(s, lo, hi, c);
    proof {
        let sub = s@.subrange(lo as int, hi as int);
        match r {
            Some(k) => {
                lemma_split_at_first(sub, c, k - lo);
                assert(sub.take(k - lo) =~= s@.subrange(lo as int, k as int));
                assert(sub.skip(k - lo + 1) =~= s@.subrange(k + 1, hi as int));
            },
            None => {
                assert forall|j: int| 0 <= j < sub.len() implies sub[j] != c by {
                    assert(sub[j] == s@[lo + j]);
                }
                lemma_split_none(sub, c);
            },
        }
    }
    r
}

/// A fragment that opens with `open`, holds at least one character and
/// closes at the first `close` after the opening one, as nom's
/// `delimited(char(open), is_not(close), char(close))` reads it: the text
/// after the closing character, and the text between the two.
pub open spec fn delimited(s: Seq<char>, open: char, close: char) -> Option<(Seq<char>, Seq<char>)> {
    if s.len() > 0 && s[0] == open {
        match split_once(s.drop_first(), close) {
            Some((inner, rest)) => if inner.len() > 0 {
                Some((rest, inner))
            } else {
                None
            },
            None => None,
        }
    } else {
        None
    }
}

/// `delimited` on `s[lo..hi]`, as the ranges of the rest and of the inner
/// text.
pub fn delimited_range(s: &Vec<char>, lo: usize, hi: usize, open: char, close: char) -> (r: Option<
    ((usize, usize), (usize, usize)),
>)
    requires
        lo <= hi <= s@.len(),
    ensures
        match r {
            Some(((a, b), (c, d))) => lo <= a <= b <= hi && lo <= c <= d <= hi && delimited(
                s@.subrange(lo as int, hi as int),
                open,
                close,
            ) == Some(
                (s@.subrange(a as int, b as int), s@.subrange(c as int, d as int)),
            ),
            None => delimited(s@.subrange(lo as int, hi as int), open, close) is None,
        },
{
    let ghost sub = s@.subrange(lo as int, hi as int);
    if lo < hi && s[lo] == open {
        assert(sub.drop_first() =~= s@.subrange(lo + 1, hi as int));
        match split_range(s, lo + 1, hi, close) {
            Some(k) => {
                if k > lo + 1 {
                    Some(((k + 1, hi), (lo + 1, k)))
                } else {
                    None
                }
            },
            None => None,
        }
    } else {
        None
    }
}


pub open spec fn is_digit(c: char) -> bool {
    '0' <= c <= '9'
}

pub open spec fn digit_value(c: char) -> int {
    c as int - '0' as int
}

pub open spec fn all_digits(s: Seq<char>) -> bool {
    forall|i: int| 0 <= i < s.len() ==> #[trigger] is_digit(s[i])
}

/// The number that the decimal digits `s` write, most significant first.
pub open spec fn digits_value(s: Seq<char>) -> int
    decreases s.len(),
{
    if s.len() == 0 {
        0
    } else {
        digits_value(s.drop_last()) * 10 + digit_value(s.last())
    }
}

/// A signed decimal integer as `str::parse` reads one: an optional `+` or
/// `-`, then one or more ASCII digits and nothing else.
pub open spec fn parse_int(s: Seq<char>) -> Option<int> {
    let (neg, body) = if s.len() > 0 && s[0] == '-' {
        (true, s.drop_first())
    } else if s.len() > 0 && s[0] == '+' {
        (false, s.drop_first())
    } else {
        (false, s)
    };
    if body.len() > 0 && all_digits(body) {
        Some(
            if neg {
                -digits_value(body)
            } else {
                digits_value(body)
            },
        )
    } else {
        None
    }
}

/// `s.parse::<i32>()`: a signed decimal integer within the range of `i32`.
pub open spec fn parse_i32(s: Seq<char>) -> Option<i32> {
    match parse_int(s) {
        Some(v) => if i32::MIN <= v <= i32::MAX {
            Some(v as i32)
        } else {
            None
        },
        None => None,
    }
}

/// A longer run of digits never writes a smaller number.
pub proof fn lemma_digits_value_grows(s: Seq<char>, k: int)
    requires
        0 <= k <= s.len(),
        all_digits(s),
    ensures
        digits_value(s) >= digits_value(s.take(k)) >= 0,
    decreases s.len(),
{
    if s.len() > 0 {
        assert(is_digit(s[s.len() - 1]));
        if k < s.len() {
            assert(all_digits(s.drop_last()));
            lemma_digits_value_grows(s.drop_last(), k);
            assert(s.drop_last().take(k) =~= s.take(k));
        } else {
            assert(s.take(k) =~= s);
            assert(all_digits(s.drop_last()));
            lemma_digits_value_grows(s.drop_last(), 0);
        }
    } else {
        assert(s.take(k) =~= s);
    }
}

/// `parse_i32` on `s[lo..hi]`.
pub fn parse_i32_range(s: &Vec<char>, lo: usize, hi: usize) -> (r: Option<i32>)
    requires
        lo <= hi <= s@.len(),
    ensures
        r == parse_i32(s@.subrange(lo as int, hi as int)),
{
    let ghost sub = s@.subrange(lo as int, hi as int);
    let mut start = lo;
    let mut neg = false;
    if lo < hi && s[lo] == '-' {
        neg = true;
        start = lo + 1;
    } else if lo < hi && s[lo] == '+' {
        start = lo + 1;
    }
    let ghost body = s@.subrange(start as int, hi as int);
    assert(start > lo ==> sub.drop_first() =~= body);
    assert(start == lo ==> sub =~= body);
    assert(parse_int(sub) == (if body.len() > 0 && all_digits(body) {
        Some(
            if neg {
                -digits_value(body)
            } else {
                digits_value(body)
            },
        )
    } else {
        None
    }));
    if start == hi {
        return None;
    }
    let mut acc: i64 = 0;
    let mut i = start;
    while i < hi
        invariant
            lo <= start <= i <= hi <= s@.len(),
            body == s@.subrange(start as int, hi as int),
            sub == s@.subrange(lo as int, hi as int),
            parse_int(sub) == (if body.len() > 0 && all_digits(body) {
                Some(
                    if neg {
                        -digits_value(body)
                    } else {
                        digits_value(body)
                    },
                )
            } else {
                None
            }),
            all_digits(body.take(i - start)),
            acc == digits_value(body.take(i - start)),
            0 <= acc <= 2147483648,
        decreases hi - i,
    {
        let c = s[i];
        if !('0' <= c && c <= '9') {
            assert(body[i - start] == c);
            assert(!is_digit(body[i - start]));
            return None;
        }
        let d = (c as u32 - '0' as u32) as i64;
        let ghost pre = body.take(i - start);
        let ghost next = body.take(i - start + 1);
        assert(next.drop_last() =~= pre);
        assert(next.last() == c);
        assert(all_digits(next)) by {
            assert forall|j: int| 0 <= j < next.len() implies #[trigger] is_digit(next[j]) by {
                if j < next.len() - 1 {
                    assert(next[j] == pre[j]);
                }
            }
        }
        acc = acc * 10 + d;
        i = i + 1;
        if acc > 2147483648 {
            proof {
                if all_digits(body) {
                    lemma_digits_value_grows(body, i - start);
                }
            }
            return None;
        }
    }
    assert(body.take(i - start) =~= body);
    if neg {
        Some((0 - acc) as i32)
    } else if acc > 2147483647 {
        None
    } else {
        Some(acc as i32)
    }
}

pub open spec fn digit_char(d: int) -> char {
    (d + '0' as int) as char
}

/// The decimal digits of `n`, most significant first, with no leading
/// zeros.
pub open spec fn nat_digits(n: nat) -> Seq<char>
    decreases n,
{
    if n < 10 {
        seq![digit_char(n as int)]
    } else {
        nat_digits(n / 10).push(digit_char((n % 10) as int))
    }
}

/// `n` written in decimal as `Display` writes an integer: `-` before a
/// negative number, no sign before another.
pub open spec fn int_digits(n: int) -> Seq<char> {
    if n < 0 {
        seq!['-'] + nat_digits((-n) as nat)
    } else {
        nat_digits(n as nat)
    }
}

/// The decimal digits of a number read back as that number.
pub proof fn lemma_nat_digits(n: nat)
    ensures
        nat_digits(n).len() > 0,
        all_digits(nat_digits(n)),
        digits_value(nat_digits(n)) == n,
    decreases n,
{
    if n >= 10 {
        lemma_nat_digits(n / 10);
        let s = nat_digits(n);
        assert(s.drop_last() =~= nat_digits(n / 10));
        assert forall|i: int| 0 <= i < s.len() implies #[trigger] is_digit(s[i]) by {
            if i < s.len() - 1 {
                assert(s[i] == nat_digits(n / 10)[i]);
            }
        }
    } else {
        assert(digits_value(nat_digits(n).drop_last()) == 0);
    }
}

/// `parse_i32` reads back what `int_digits` writes.
pub proof fn lemma_parse_int_digits(x: i32)
    ensures
        parse_i32(int_digits(x as int)) == Some(x),
        int_digits(x as int).len() > 0,
        forall|i: int|
            0 <= i < int_digits(x as int).len() ==> #[trigger] int_digits(x as int)[i] == '-'
                || is_digit(int_digits(x as int)[i]),
        is_digit(int_digits(x as int).last()),
        int_digits(x as int)[0] == '-' || is_digit(int_digits(x as int)[0]),
{
    let s = int_digits(x as int);
    if x < 0 {
        let m = (-x) as nat;
        lemma_nat_digits(m);
        assert(s.drop_first() =~= nat_digits(m));
        assert forall|i: int| 0 <= i < s.len() implies #[trigger] s[i] == '-' || is_digit(s[i]) by {
            if i > 0 {
                assert(s[i] == nat_digits(m)[i - 1]);
            }
        }
        assert(s.last() == nat_digits(m).last());
    } else {
        lemma_nat_digits(x as nat);
        assert(is_digit(s[0]));
    }
}

/// Appends the decimal digits of `n`.
fn push_nat_digits(out: &mut Vec<char>, n: u64)
    ensures
        final(out)@ == old(out)@ + nat_digits(n as nat),
    decreases n,
{
    if n >= 10 {
        push_nat_digits(out, n / 10);
    }
    let d = (n % 10) as u8;
    let c = (48u8 + d) as char;
    assert(c == digit_char((n % 10) as int));
    out.push(c);
    assert(final(out)@ =~= old(out)@ + nat_digits(n as nat));
}

/// Appends `n` written in decimal, as `Display` writes it.
pub fn push_i32_digits(out: &mut Vec<char>, n: i32)
    ensures
        final(out)@ == old(out)@ + int_digits(n as int),
{
    if n < 0 {
        out.push('-');
        let m = (0 - (n as i64)) as u64;
        push_nat_digits(out, m);
        assert(final(out)@ =~= old(out)@ + int_digits(n as int));
    } else {
        push_nat_digits(out, n as u64);
    }
}

/// The characters of `s`, in order.
pub fn chars_of(s: &str) -> (v: Vec<char>)
    ensures
        v@ == s@,
{
    let mut v: Vec<char> = Vec::new();
    for c in it: s.chars()
        invariant
            v@ == it.seq().take(it.index() as int),
    {
        v.push(c);
    }
    v
}


/// The string that holds the characters of `cs` in order.
///
/// Trusted: calls `FromIterator<&char>` for `String` (`cs.iter().collect()`),
/// which std documents as pushing each character in turn.
#[verifier::external_body]
fn string_of(cs: &Vec<char>) -> (r: String)
    ensures
        r@ == cs@,
{
    cs.iter().collect()
}

/// The string that holds `s[lo..hi]`.
pub fn string_of_range(s: &Vec<char>, lo: usize, hi: usize) -> (r: String)
    requires
        lo <= hi <= s@.len(),
    ensures
        r@ == s@.subrange(lo as int, hi as int),
{
    let mut v: Vec<char> = Vec::new();
    let mut i = lo;
    while i < hi
        invariant
            lo <= i <= hi <= s@.len(),
            v@ == s@.subrange(lo as int, i as int),
        decreases hi - i,
    {
        v.push(s[i]);
        i = i + 1;
        assert(v@ =~= s@.subrange(lo as int, i as int));
    }
    string_of(&v)
}

/// The string that holds the characters of `cs`.
pub fn string_of_chars(cs: &Vec<char>) -> (r: String)
    ensures
        r@ == cs@,
{
    string_of(cs)
}

/// A text that starts and ends with something other than whitespace is its
/// own trim.
pub proof fn lemma_trim_plain(t: Seq<char>)
    requires
        t.len() > 0,
        !is_white(t[0]),
        !is_white(t.last()),
    ensures
        trim(t) == t,
{
}

/// Whitespace in front of a text that is its own trim goes away.
pub proof fn lemma_trim_lead(w: char, t: Seq<char>)
    requires
        is_white(w),
        t.len() > 0,
        !is_white(t[0]),
        !is_white(t.last()),
    ensures
        trim(seq![w] + t) == t,
{
    let s = seq![w] + t;
    assert(s[0] == w);
    assert(s.drop_first() =~= t);
    assert(trim_start(t) == t);
    assert(trim_start(s) == t);
    assert(trim_end(t) == t);
}


/// Trimming brings in no character that was not there.
pub proof fn lemma_trim_keeps_out(s: Seq<char>, c: char)
    requires
        forall|i: int| 0 <= i < s.len() ==> s[i] != c,
    ensures
        forall|i: int| 0 <= i < trim(s).len() ==> trim(s)[i] != c,
{
    lemma_trim_start_keeps_out(s, c);
    lemma_trim_end_keeps_out(trim_start(s), c);
}

proof fn lemma_trim_start_keeps_out(s: Seq<char>, c: char)
    requires
        forall|i: int| 0 <= i < s.len() ==> s[i] != c,
    ensures
        forall|i: int| 0 <= i < trim_start(s).len() ==> trim_start(s)[i] != c,
    decreases s.len(),
{
    if s.len() > 0 && is_white(s[0]) {
        let t = s.drop_first();
        assert forall|i: int| 0 <= i < t.len() implies t[i] != c by {
            assert(t[i] == s[i + 1]);
        }
        lemma_trim_start_keeps_out(t, c);
        assert(trim_start(s) == trim_start(t));
    } else {
        assert(trim_start(s) == s);
    }
}

proof fn lemma_trim_end_keeps_out(s: Seq<char>, c: char)
    requires
        forall|i: int| 0 <= i < s.len() ==> s[i] != c,
    ensures
        forall|i: int| 0 <= i < trim_end(s).len() ==> trim_end(s)[i] != c,
    decreases s.len(),
{
    if s.len() > 0 && is_white(s.last()) {
        let t = s.drop_last();
        assert forall|i: int| 0 <= i < t.len() implies t[i] != c by {
            assert(t[i] == s[i]);
        }
        lemma_trim_end_keeps_out(t, c);
        assert(trim_end(s) == trim_end(t));
    } else {
        assert(trim_end(s) == s);
    }
}


/// `delimited` on a whole string, as strings.
fn delimited_str(input: &str, open: char, close: char) -> (r: Option<(String, String)>)
    ensures
        match delimited(input@, open, close) {
            Some((rest, inner)) => r matches Some((a, b)) && a@ == rest && b@ == inner,
            None => r is None,
        },
{
    let s = chars_of(input);
    assert(s@.subrange(0, s@.len() as int) =~= input@);
    match delimited_range(&s, 0, s.len(), open, close) {
        Some(((a, b), (c, d))) => Some((string_of_range(&s, a, b), string_of_range(&s, c, d))),
        None => None,
    }
}

/// Text in parentheses at the start of `input` (see `delimited`): the text
/// after the closing parenthesis, and the text between the two.
pub fn parens(input: &str) -> (r: Option<(String, String)>)
    ensures
        match delimited(input@, '(', ')') {
            Some((rest, inner)) => r matches Some((a, b)) && a@ == rest && b@ == inner,
            None => r is None,
        },
{
    delimited_str(input, '(', ')')
}

/// Text in double quotes at the start of `input` (see `delimited`): the text
/// after the closing quote, and the text between the two.
pub fn quotes(input: &str) -> (r: Option<(String, String)>)
    ensures
        match delimited(input@, '"', '"') {
            Some((rest, inner)) => r matches Some((a, b)) && a@ == rest && b@ == inner,
            None => r is None,
        },
{
    delimited_str(input, '"', '"')
}

} // verus!
