use bulls_and_cows::parser::ABParser;
use regex::Regex;

#[test]
fn parse_xayb() {
    let ab = ABParser::new();

    assert_eq!((4, 0), ab.parse("4A0B").unwrap());
    assert_eq!((2, 1), ab.parse("2a1B").unwrap());
    assert_eq!((0, 4), ab.parse("0a4b").unwrap());
}

#[test]
fn parse_takes_blanks_inside() {
    let ab = ABParser::new();
    assert_eq!(Some((1, 2)), ab.parse("1 A 2 B"));
    assert_eq!(Some((1, 2)), ab.parse("1   a2    b"));
    assert_eq!(Some((12, 345)), ab.parse("12A   345B"));
}

#[test]
fn parse_trims_white_space_at_the_ends() {
    let ab = ABParser::new();
    assert_eq!(Some((1, 2)), ab.parse("  1A2B  "));
    assert_eq!(Some((1, 2)), ab.parse("\t1A2B\r\n"));
    assert_eq!(Some((3, 1)), ab.parse("\u{3000}3A1B\u{00A0}\u{2003}"));
    assert_eq!(Some((3, 1)), ab.parse("3A1B\n"));
}

#[test]
fn parse_reads_numbers_of_several_digits() {
    let ab = ABParser::new();
    assert_eq!(Some((10, 0)), ab.parse("10A0B"));
    assert_eq!(Some((7, 123)), ab.parse("007a0123b"));
    assert_eq!(Some((usize::MAX, 0)), ab.parse(&format!("{}A0B", usize::MAX)));
}

#[test]
fn parse_refuses_numbers_that_are_too_large() {
    let ab = ABParser::new();
    assert_eq!(None, ab.parse("99999999999999999999999999999999A0B"));
    assert_eq!(None, ab.parse("0A99999999999999999999999999999999B"));
    assert_eq!(None, ab.parse(&format!("{}0A0B", usize::MAX)));
}

#[test]
fn parse_refuses_other_shapes() {
    let ab = ABParser::new();
    for text in [
        "", " ", "A", "AB", "1A", "1AB", "A1B", "1A2", "1B2A", "1A2B3", "x1A2B", "1A2Bx",
        "1 2A3B", "1A2 3B", "1A2B 3", "1AA2B", "1A2BB", "-1A2B", "+1A2B", "1.0A2B", "1\tA2B",
        "1A\t2B", "1A2\tB", "1A\n2B", "A2B", "1a b", "١A٢B", "1A\u{00A0}2B", "1A2B\u{0}",
    ] {
        assert_eq!(None, ab.parse(text), "{:?}", text);
    }
}

#[test]
fn default_parser_parses() {
    let ab = ABParser::default();
    assert_eq!(Some((0, 0)), ab.parse("0A0B"));
}

fn parse_with_regex(regex: &Regex, s: &str) -> Option<(usize, usize)> {
    let captures = regex.captures(s.trim())?;
    let a = captures[1].parse::<usize>().ok()?;
    let b = captures[2].parse::<usize>().ok()?;
    Some((a, b))
}

#[test]
fn parse_agrees_with_the_pattern() {
    let regex = Regex::new(r"^(\d+)[ ]*[aA][ ]*(\d+)[ ]*[bB]$").unwrap();
    let ab = ABParser::new();
    let pieces = ["", "1", "20", " ", "  ", "a", "A", "b", "B", "x", "\n", "\t", "٣", "-"];
    let mut count = 0;
    for first in pieces.iter() {
        for second in pieces.iter() {
            for third in pieces.iter() {
                for fourth in pieces.iter() {
                    for last in ["", " ", "b", "B", "\n", "7"] {
                        let text = format!("{}{}{}{}{}", first, second, third, fourth, last);
                        assert_eq!(parse_with_regex(&regex, &text), ab.parse(&text), "{:?}", text);
                        let spaced = format!("{}{} {}{} {}", first, second, third, fourth, last);
                        assert_eq!(
                            parse_with_regex(&regex, &spaced),
                            ab.parse(&spaced),
                            "{:?}",
                            spaced
                        );
                        count += 1;
                    }
                }
            }
        }
    }
    assert!(count > 1000);
}
