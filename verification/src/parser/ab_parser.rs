//! Replies written as `XAYB`: `X` bulls and `Y` cows.

use vstd::prelude::*;

verus! {

/// Whether `c` is one of the digits `0` to `9`.
pub open spec fn is_digit(c: char) -> bool {
    48 <= c as u32 <= 57
}

/// Whether `c` is white space: a character with the Unicode property
/// `White_Space`.
pub open spec fn is_white_space(c: char) -> bool {
    let u = c as u32;
    ||| 0x09 <= u <= 0x0D
    ||| u == 0x20
    ||| u == 0x85
    ||| u == 0xA0
    ||| u == 0x1680
    ||| 0x2000 <= u <= 0x200A
    ||| u == 0x2028
    ||| u == 0x2029
    ||| u == 0x202F
    ||| u == 0x205F
    ||| u == 0x3000
}

/// The number that a row of digits writes in base ten.
pub open spec fn decimal_value(digits: Seq<char>) -> nat
    decreases digits.len(),
{
    if digits.len() == 0 {
        0
    } else {
        (10 * decimal_value(digits.drop_last()) + (digits.last() as u32 - 48)) as nat
    }
}

/// Whether `text` from `from` up to `to` is white space.
pub open spec fn all_white(text: Seq<char>, from: int, to: int) -> bool {
    forall|i: int| from <= i < to ==> is_white_space(#[trigger] text[i])
}

/// Whether `text` from `from` up to `to` is digits.
pub open spec fn all_digits(text: Seq<char>, from: int, to: int) -> bool {
    forall|i: int| from <= i < to ==> is_digit(#[trigger] text[i])
}

/// Whether `text` from `from` up to `to` is blanks.
pub open spec fn all_blanks(text: Seq<char>, from: int, to: int) -> bool {
    forall|i: int| from <= i < to ==> #[trigger] text[i] == ' '
}

/// Whether `text` from `from` up to `to` is `text` without the white space at
/// its two ends.
pub open spec fn is_trim(text: Seq<char>, from: int, to: int) -> bool {
    &&& 0 <= from <= to <= text.len()
    &&& all_white(text, 0, from)
    &&& all_white(text, to, text.len() as int)
    &&& from < to ==> !is_white_space(text[from]) && !is_white_space(text[to - 1])
    &&& from == to ==> from == text.len()
}

/// `text` without the white space at its two ends.
pub open spec fn trimmed(text: Seq<char>) -> Seq<char> {
    let (from, to) = choose|from: int, to: int| is_trim(text, from, to);
    text.subrange(from, to)
}

/// Whether `text` is digits up to `d1`, blanks up to `a`, the letter A at
/// `a`, blanks up to `d2`, digits up to `e2`, blanks up to `b`, and the
/// letter B at `b`, its last place. Both rows of digits have a digit, and
/// either letter may be small or capital.
pub open spec fn has_shape(text: Seq<char>, d1: int, a: int, d2: int, e2: int, b: int) -> bool {
    &&& 0 < d1 <= a < d2 < e2 <= b
    &&& b == text.len() - 1
    &&& all_digits(text, 0, d1)
    &&& all_blanks(text, d1, a)
    &&& (text[a] == 'a' || text[a] == 'A')
    &&& all_blanks(text, a + 1, d2)
    &&& all_digits(text, d2, e2)
    &&& all_blanks(text, e2, b)
    &&& (text[b] == 'b' || text[b] == 'B')
}

/// Whether `text` is a reply of `bulls` bulls and `cows` cows.
pub open spec fn says(text: Seq<char>, bulls: nat, cows: nat) -> bool {
    exists|d1: int, a: int, d2: int, e2: int, b: int|
        {
            &&& #[trigger] has_shape(text, d1, a, d2, e2, b)
            &&& decimal_value(text.subrange(0, d1)) == bulls
            &&& decimal_value(text.subrange(d2, e2)) == cows
        }
}

/// A text has its shape in one way only.
pub proof fn lemma_shape_is_forced(
    text: Seq<char>,
    d1: int,
    a: int,
    d2: int,
    e2: int,
    b: int,
    other_d1: int,
    other_a: int,
    other_d2: int,
    other_e2: int,
    other_b: int,
)
    requires
        has_shape(text, d1, a, d2, e2, b),
        has_shape(text, other_d1, other_a, other_d2, other_e2, other_b),
    ensures
        d1 == other_d1,
        a == other_a,
        d2 == other_d2,
        e2 == other_e2,
        b == other_b,
{
    if d1 < other_d1 {
        assert(is_digit(text[d1]));
    } else if other_d1 < d1 {
        assert(is_digit(text[other_d1]));
    }
    if a < other_a {
        assert(text[a] == ' ');
    } else if other_a < a {
        assert(text[other_a] == ' ');
    }
    if d2 < other_d2 {
        assert(text[d2] == ' ');
        assert(is_digit(text[d2]));
    } else if other_d2 < d2 {
        assert(text[other_d2] == ' ');
        assert(is_digit(text[other_d2]));
    }
    if e2 < other_e2 {
        assert(is_digit(text[e2]));
    } else if other_e2 < e2 {
        assert(is_digit(text[other_e2]));
    }
}

/// A text is a reply of one number of bulls and one number of cows at most.
pub proof fn lemma_reply_is_determined(text: Seq<char>, x: nat, y: nat, other_x: nat, other_y: nat)
    requires
        says(text, x, y),
        says(text, other_x, other_y),
    ensures
        x == other_x,
        y == other_y,
{
    let (d1, a, d2, e2, b) = choose|d1: int, a: int, d2: int, e2: int, b: int|
        {
            &&& #[trigger] has_shape(text, d1, a, d2, e2, b)
            &&& decimal_value(text.subrange(0, d1)) == x
            &&& decimal_value(text.subrange(d2, e2)) == y
        };
    let (s1, sa, s2, t2, sb) = choose|d1: int, a: int, d2: int, e2: int, b: int|
        {
            &&& #[trigger] has_shape(text, d1, a, d2, e2, b)
            &&& decimal_value(text.subrange(0, d1)) == other_x
            &&& decimal_value(text.subrange(d2, e2)) == other_y
        };
    lemma_shape_is_forced(text, d1, a, d2, e2, b, s1, sa, s2, t2, sb);
}

/// A text is trimmed in one way only.
pub proof fn lemma_trim_is_forced(text: Seq<char>, from: int, to: int)
    requires
        is_trim(text, from, to),
    ensures
        trimmed(text) == text.subrange(from, to),
{
    let (f, t) = choose|f: int, t: int| is_trim(text, f, t);
    assert(is_trim(text, f, t));
    if f < from {
        assert(is_white_space(text[f]));
    } else if from < f {
        assert(is_white_space(text[from]));
    }
    if t < to {
        assert(is_white_space(text[to - 1]));
    } else if to < t {
        assert(is_white_space(text[t - 1]));
    }
}

/// A row of digits with fewer digits writes no larger number.
pub proof fn lemma_decimal_value_grows(digits: Seq<char>, n: int)
    requires
        0 <= n <= digits.len(),
        all_digits(digits, 0, digits.len() as int),
    ensures
        decimal_value(digits.take(n)) <= decimal_value(digits),
    decreases digits.len() - n,
{
    if n < digits.len() {
        let longer = digits.take(n + 1);
        assert(longer.drop_last() =~= digits.take(n));
        assert(is_digit(digits[n]));
        assert(longer.last() == digits[n]);
        lemma_decimal_value_grows(digits, n + 1);
    } else {
        assert(digits.take(n) =~= digits);
    }
}

/// Whether `c` is one of the digits `0` to `9`.
pub fn digit(c: char) -> (yes: bool)
    ensures
        yes == is_digit(c),
{
    let u = c as u32;
    48 <= u && u <= 57
}

/// Whether `c` is white space.
pub fn white_space(c: char) -> (yes: bool)
    ensures
        yes == is_white_space(c),
{
    let u = c as u32;
    (0x09 <= u && u <= 0x0D) || u == 0x20 || u == 0x85 || u == 0xA0 || u == 0x1680 || (0x2000 <= u
        && u <= 0x200A) || u == 0x2028 || u == 0x2029 || u == 0x202F || u == 0x205F || u == 0x3000
}

/// The characters of `s`.
pub fn characters(s: &str) -> (text: Vec<char>)
    ensures
        text@ == s@,
{
    let mut text: Vec<char> = Vec::new();
    for c in it: s.chars()
        invariant
            it.seq() == s@,
            text@ == s@.take(it.index() as int),
    {
        text.push(c);
    }
    text
}

/// The first place from `from` on, and before `end`, that holds no digit;
/// `end` where there is none.
pub fn skip_digits(text: &Vec<char>, from: usize, end: usize) -> (stop: usize)
    requires
        from <= end <= text@.len(),
    ensures
        from <= stop <= end,
        all_digits(text@, from as int, stop as int),
        stop < end ==> !is_digit(text@[stop as int]),
{
    let mut stop = from;
    while stop < end && digit(text[stop])
        invariant
            from <= stop <= end <= text@.len(),
            all_digits(text@, from as int, stop as int),
        decreases end - stop,
    {
        stop += 1;
    }
    stop
}

/// The first place from `from` on, and before `end`, that holds no blank;
/// `end` where there is none.
pub fn skip_blanks(text: &Vec<char>, from: usize, end: usize) -> (stop: usize)
    requires
        from <= end <= text@.len(),
    ensures
        from <= stop <= end,
        all_blanks(text@, from as int, stop as int),
        stop < end ==> text@[stop as int] != ' ',
{
    let mut stop = from;
    while stop < end && text[stop] == ' '
        invariant
            from <= stop <= end <= text@.len(),
            all_blanks(text@, from as int, stop as int),
        decreases end - stop,
    {
        stop += 1;
    }
    stop
}

/// Where `text` without the white space at its two ends begins and ends.
pub fn trim(text: &Vec<char>) -> (ends: (usize, usize))
    ensures
        is_trim(text@, ends.0 as int, ends.1 as int),
        trimmed(text@) == text@.subrange(ends.0 as int, ends.1 as int),
{
    let mut from: usize = 0;
    while from < text.len() && white_space(text[from])
        invariant
            from <= text@.len(),
            all_white(text@, 0, from as int),
        decreases text@.len() - from,
    {
        from += 1;
    }
    let mut to: usize = text.len();
    while to > from && white_space(text[to - 1])
        invariant
            from <= to <= text@.len(),
            all_white(text@, to as int, text@.len() as int),
        decreases to,
    {
        to -= 1;
    }
    proof {
        lemma_trim_is_forced(text@, from as int, to as int);
    }
    (from, to)
}

/// The number that the digits of `text` from `from` up to `to` write, where
/// it fits a `usize`.
pub fn read_number(text: &Vec<char>, from: usize, to: usize) -> (number: Option<usize>)
    requires
        from <= to <= text@.len(),
        all_digits(text@, from as int, to as int),
    ensures
        match number {
            Some(n) => n == decimal_value(text@.subrange(from as int, to as int)),
            None => decimal_value(text@.subrange(from as int, to as int)) > usize::MAX,
        },
{
    let ghost digits = text@.subrange(from as int, to as int);
    let mut number: usize = 0;
    let mut i = from;
    while i < to
        invariant
            from <= i <= to <= text@.len(),
            digits == text@.subrange(from as int, to as int),
            all_digits(text@, from as int, to as int),
            number == decimal_value(digits.take(i - from)),
        decreases to - i,
    {
        let c = text[i];
        proof {
            let longer = digits.take(i - from + 1);
            assert(longer.drop_last() =~= digits.take(i - from));
            assert(longer.last() == c);
            assert(is_digit(text@[i as int]));
            lemma_decimal_value_grows(digits, i - from + 1);
        }
        let d = (c as u32 - 48) as usize;
        number = match number.checked_mul(10) {
            Some(tens) => match tens.checked_add(d) {
                Some(more) => more,
                None => {
                    return None;
                },
            },
            None => {
                return None;
            },
        };
        i += 1;
    }
    assert(digits.take(to - from) =~= digits);
    Some(number)
}

/// A parser to parse `XAYB` strings.
#[derive(Debug)]
pub struct ABParser {}

impl ABParser {
    /// Create a new `ABParser` instance.
    pub fn new() -> (parser: ABParser) {
        ABParser {  }
    }

    /// Parse a `XAYB` string in order to get the `X` and the `Y`: digits,
    /// the letter A, digits, the letter B, with blanks allowed before and
    /// after the A and before the B, and white space at the two ends of the
    /// string. Anything else, and a number too large for a `usize`, gives
    /// `None`.
    pub fn parse(&self, s: &str) -> (parsed: Option<(usize, usize)>)
        ensures
            match parsed {
                Some((x, y)) => says(trimmed(s@), x as nat, y as nat),
                None => forall|x: nat, y: nat|
                    says(trimmed(s@), x, y) ==> x > usize::MAX || y > usize::MAX,
            },
    {
        let whole = characters(s);
        let (from, to) = trim(&whole);
        parse_reply(&whole, from, to)
    }
}

/// Reads the reply that `whole` holds from `from` up to `to`.
pub fn parse_reply(whole: &Vec<char>, from: usize, to: usize) -> (parsed: Option<(usize, usize)>)
    requires
        from <= to <= whole@.len(),
    ensures
        match parsed {
            Some((x, y)) => says(whole@.subrange(from as int, to as int), x as nat, y as nat),
            None => forall|x: nat, y: nat|
                says(whole@.subrange(from as int, to as int), x, y) ==> x > usize::MAX || y
                    > usize::MAX,
        },
{
    let ghost text = whole@.subrange(from as int, to as int);
    let d1 = skip_digits(whole, from, to);
    let a = skip_blanks(whole, d1, to);
    let after_a = if a < to {
        a + 1
    } else {
        to
    };
    let d2 = skip_blanks(whole, after_a, to);
    let e2 = skip_digits(whole, d2, to);
    let b = skip_blanks(whole, e2, to);
    let shaped = d1 > from && a < to && (whole[a] == 'a' || whole[a] == 'A') && e2 > d2 && b < to
        && (whole[b] == 'b' || whole[b] == 'B') && b + 1 == to;
    proof {
        assert forall|i: int| 0 <= i < text.len() implies #[trigger] text[i] == whole@[from + i] by {}
        if shaped {
            assert(has_shape(text, d1 - from, a - from, d2 - from, e2 - from, b - from)) by {
                assert forall|i: int| 0 <= i < d1 - from implies is_digit(#[trigger] text[i]) by {
                    assert(is_digit(whole@[from + i]));
                }
                assert forall|i: int| d1 - from <= i < a - from implies #[trigger] text[i]
                    == ' ' by {
                    assert(whole@[from + i] == ' ');
                }
                assert forall|i: int| a - from + 1 <= i < d2 - from implies #[trigger] text[i]
                    == ' ' by {
                    assert(whole@[from + i] == ' ');
                }
                assert forall|i: int| d2 - from <= i < e2 - from implies is_digit(
                    #[trigger] text[i],
                ) by {
                    assert(is_digit(whole@[from + i]));
                }
                assert forall|i: int| e2 - from <= i < b - from implies #[trigger] text[i]
                    == ' ' by {
                    assert(whole@[from + i] == ' ');
                }
            }
        } else {
            assert forall|s1: int, sa: int, s2: int, t2: int, sb: int| !has_shape(
                text,
                s1,
                sa,
                s2,
                t2,
                sb,
            ) by {
                if has_shape(text, s1, sa, s2, t2, sb) {
                    lemma_scan_finds_shape(
                        whole@,
                        from as int,
                        to as int,
                        s1,
                        sa,
                        s2,
                        t2,
                        sb,
                        d1 as int,
                        a as int,
                        d2 as int,
                        e2 as int,
                        b as int,
                    );
                }
            }
        }
        assert(whole@.subrange(from as int, d1 as int) =~= text.subrange(0, d1 - from));
        assert(whole@.subrange(d2 as int, e2 as int) =~= text.subrange(d2 - from, e2 - from));
    }
    if !shaped {
        return None;
    }
    let x = read_number(whole, from, d1);
    let y = read_number(whole, d2, e2);
    proof {
        assert forall|other_x: nat, other_y: nat| says(text, other_x, other_y) implies other_x
            == decimal_value(text.subrange(0, d1 - from)) && other_y == decimal_value(
            text.subrange(d2 - from, e2 - from),
        ) by {
            lemma_reply_is_determined(
                text,
                other_x,
                other_y,
                decimal_value(text.subrange(0, d1 - from)),
                decimal_value(text.subrange(d2 - from, e2 - from)),
            );
        }
    }
    match (x, y) {
        (Some(x), Some(y)) => Some((x, y)),
        _ => None,
    }
}

/// Where a text has the shape of a reply, reading it from the left finds
/// that shape.
pub proof fn lemma_scan_finds_shape(
    whole: Seq<char>,
    from: int,
    to: int,
    s1: int,
    sa: int,
    s2: int,
    t2: int,
    sb: int,
    d1: int,
    a: int,
    d2: int,
    e2: int,
    b: int,
)
    requires
        0 <= from <= to <= whole.len(),
        has_shape(whole.subrange(from, to), s1, sa, s2, t2, sb),
        from <= d1 <= to,
        all_digits(whole, from, d1),
        d1 < to ==> !is_digit(whole[d1]),
        d1 <= a <= to,
        all_blanks(whole, d1, a),
        a < to ==> whole[a] != ' ',
        (if a < to {
            a + 1
        } else {
            to
        }) <= d2 <= to,
        all_blanks(whole, if a < to {
            a + 1
        } else {
            to
        }, d2),
        d2 < to ==> whole[d2] != ' ',
        d2 <= e2 <= to,
        all_digits(whole, d2, e2),
        e2 < to ==> !is_digit(whole[e2]),
        e2 <= b <= to,
        all_blanks(whole, e2, b),
        b < to ==> whole[b] != ' ',
    ensures
        d1 == from + s1,
        a == from + sa,
        d2 == from + s2,
        e2 == from + t2,
        b == from + sb,
        b + 1 == to,
{
    let text = whole.subrange(from, to);
    assert forall|i: int| 0 <= i < text.len() implies #[trigger] text[i] == whole[from + i] by {}
    // the first row of digits
    if from + s1 < d1 {
        assert(is_digit(whole[from + s1]));
        assert(text[s1] == whole[from + s1]);
        if s1 < sa {
            assert(text[s1] == ' ');
        }
    } else if d1 < from + s1 {
        assert(is_digit(text[d1 - from]));
    }
    // the blanks before the letter A
    if from + sa < a {
        assert(whole[from + sa] == ' ');
        assert(text[sa] == whole[from + sa]);
    } else if a < from + sa {
        assert(text[a - from] == ' ');
    }
    // the blanks after the letter A
    if from + s2 < d2 {
        assert(whole[from + s2] == ' ');
        assert(is_digit(text[s2]));
    } else if d2 < from + s2 {
        assert(text[d2 - from] == ' ');
    }
    // the second row of digits
    if from + t2 < e2 {
        assert(is_digit(whole[from + t2]));
        assert(text[t2] == whole[from + t2]);
        if t2 < sb {
            assert(text[t2] == ' ');
        }
    } else if e2 < from + t2 {
        assert(is_digit(text[e2 - from]));
    }
    // the blanks before the letter B
    if from + sb < b {
        assert(whole[from + sb] == ' ');
        assert(text[sb] == whole[from + sb]);
    } else if b < from + sb {
        assert(text[b - from] == ' ');
    }
}

impl Default for ABParser {
    fn default() -> (parser: ABParser) {
        ABParser::new()
    }
}

} // verus!
