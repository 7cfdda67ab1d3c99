use statusline::decimal::{parse_integer, push_decimal};
use statusline::text::{chars_of, find_in, line_bounds, skip_space, space, string_of, word_bounds};

fn read(s: &str) -> Option<i64> {
    let v = chars_of(s);
    parse_integer(&v, 0, v.len())
}

fn written(n: i64) -> String {
    let mut out = String::from("n=");
    push_decimal(&mut out, n);
    out
}

#[test]
fn white_space_is_that_of_unicode() {
    for c in '\0'..=char::MAX {
        assert_eq!(space(c), c.is_whitespace());
    }
}

#[test]
fn words_are_split_at_white_space() {
    for s in ["", " ", "a", " a", "a ", "ab  cd\t\u{a0}e", "\n\nx\r\n", "1 2\u{85}3"] {
        let v = chars_of(s);
        let found: Vec<String> =
            word_bounds(&v, 0, v.len()).iter().map(|&(a, b)| string_of(&v, a, b)).collect();
        let expected: Vec<&str> = s.split_whitespace().collect();
        assert_eq!(found, expected);
    }
}

#[test]
fn words_of_a_stretch() {
    let v = chars_of("ab cd ef");
    assert_eq!(word_bounds(&v, 1, 7), vec![(1, 2), (3, 5), (6, 7)]);
}

#[test]
fn lines_end_at_line_feeds() {
    for s in ["", "\n", "a", "a\n", "a\r\nb", "a\r", "\r\n\r\n", "a\n\nb\n", "x\r\r\ny\r"] {
        let v = chars_of(s);
        let found: Vec<String> =
            line_bounds(&v).iter().map(|&(a, b)| string_of(&v, a, b)).collect();
        let expected: Vec<&str> = s.lines().collect();
        assert_eq!(found, expected);
    }
}

#[test]
fn find_gives_the_first_position() {
    let v = chars_of("abcabc");
    assert_eq!(find_in(&v, 0, 6, &chars_of("bc")), Some(1));
    assert_eq!(find_in(&v, 2, 6, &chars_of("bc")), Some(4));
    assert_eq!(find_in(&v, 5, 6, &chars_of("bc")), None);
    assert_eq!(find_in(&v, 2, 5, &chars_of("bc")), None);
    assert_eq!(find_in(&v, 6, 6, &chars_of("")), Some(6));
    assert_eq!(find_in(&v, 0, 6, &chars_of("abcabcd")), None);
}

#[test]
fn leading_space_is_skipped() {
    let v = chars_of("x \n y");
    assert_eq!(skip_space(&v, 1, 5), 4);
    assert_eq!(skip_space(&v, 1, 3), 3);
    assert_eq!(skip_space(&v, 0, 5), 0);
    assert_eq!(skip_space(&v, 5, 5), 5);
}

#[test]
fn integers_are_read_as_the_standard_library_does() {
    for s in [
        "", "-", "+", "0", "-0", "+7", "007", "12a", "a", "--1", "+-1", " 1", "1 ", "1.0",
        "9223372036854775807", "9223372036854775808", "-9223372036854775808",
        "-9223372036854775809", "00000000000000000000000000000000000000000000000012",
        "99999999999999999999999999999999999999999999999999", "\u{664}",
    ] {
        assert_eq!(read(s), s.parse::<i64>().ok());
    }
}

#[test]
fn integers_are_written_in_decimal() {
    for n in [0, 7, 10, 99, 100, -1, -10, 1_750_000_000, i64::MAX, i64::MIN] {
        assert_eq!(written(n), format!("n={n}"));
        assert_eq!(read(&written(n)[2..]), Some(n));
    }
}
