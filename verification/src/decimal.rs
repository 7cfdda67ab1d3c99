//! Decimal integers: how they are written, and which text is read as one.

use crate::table::is_word;
use crate::text::is_space;
use vstd::prelude::*;

verus! {

/// The character of a decimal digit.
pub open spec fn digit(d: int) -> char {
    (48 + d) as char
}

/// Whether `c` is a decimal digit.
pub open spec fn is_digit(c: char) -> bool {
    48 <= c as u32 <= 57
}

/// The decimal digits of `n`, without leading zeros.
pub open spec fn digits(n: nat) -> Seq<char>
    decreases n,
{
    if n < 10 {
        seq![digit(n as int)]
    } else {
        digits(n / 10).push(digit((n % 10) as int))
    }
}

/// How `n` is written: a minus sign where it is negative, and its digits.
pub open spec fn decimal(n: int) -> Seq<char> {
    if n < 0 {
        seq!['-'] + digits((-n) as nat)
    } else {
        digits(n as nat)
    }
}

/// The number that a row of digits stands for.
pub open spec fn digits_value(s: Seq<char>) -> int
    decreases s.len(),
{
    if s.len() == 0 {
        0
    } else {
        10 * digits_value(s.drop_last()) + (s.last() as u32 - 48)
    }
}

/// Whether `s` is a row of one digit or more.
pub open spec fn is_digits(s: Seq<char>) -> bool {
    s.len() > 0 && forall|i: int| 0 <= i < s.len() ==> is_digit(#[trigger] s[i])
}

/// The number that a row of digits stands for, or its negative, where it is a row of
/// digits and an `i64` holds the number.
pub open spec fn row_value(row: Seq<char>, negative: bool) -> Option<i64> {
    let value = if negative {
        -digits_value(row)
    } else {
        digits_value(row)
    };
    if is_digits(row) && i64::MIN <= value <= i64::MAX {
        Some(value as i64)
    } else {
        None
    }
}

/// The integer that `s` is read as: a row of digits, with at most one sign before
/// it, whose value an `i64` holds.
pub open spec fn integer(s: Seq<char>) -> Option<i64> {
    if s.len() > 0 && (s[0] == '-' || s[0] == '+') {
        row_value(s.skip(1), s[0] == '-')
    } else {
        row_value(s, false)
    }
}

/// Appends the decimal digits of `n` to `out`.
fn push_digits(out: &mut String, n: u64)
    ensures
        final(out)@ == old(out)@ + digits(n as nat),
    decreases n,
{
    if n >= 10 {
        push_digits(out, n / 10);
    }
    let ghost before = out@;
    let d: u8 = (n % 10) as u8;
    out.push((48 + d) as char);
    proof {
        if n < 10 {
            assert(out@ == old(out)@ + digits(n as nat));
        } else {
            assert(before == old(out)@ + digits((n / 10) as nat));
            assert(out@ == old(out)@ + digits(n as nat));
        }
    }
}

/// Appends `n` in decimal to `out`.
pub fn push_decimal(out: &mut String, n: i64)
    ensures
        final(out)@ == old(out)@ + decimal(n as int),
{
    if n < 0 {
        out.push('-');
        let m: u64 = (-(n as i128)) as u64;
        push_digits(out, m);
        assert(out@ == old(out)@ + decimal(n as int));
    } else {
        push_digits(out, n as u64);
    }
}

proof fn lemma_value_grows(s: Seq<char>, n: int)
    requires
        0 <= n <= s.len(),
        forall|i: int| 0 <= i < s.len() ==> is_digit(#[trigger] s[i]),
    ensures
        0 <= digits_value(s.take(n)) <= digits_value(s),
    decreases s.len(),
{
    if s.len() == 0 {
        assert(s.take(n) == s);
    } else {
        let t = s.drop_last();
        assert forall|i: int| 0 <= i < t.len() implies is_digit(#[trigger] t[i]) by {
            assert(t[i] == s[i]);
        }
        assert(is_digit(s[s.len() - 1]));
        if n == s.len() {
            assert(s.take(n) == s);
            lemma_value_grows(t, 0);
            assert(t.take(0).len() == 0);
        } else {
            lemma_value_grows(t, n);
            assert(t.take(n) == s.take(n));
        }
    }
}

/// The integer that the characters of `v` from `from` on and before `to` are read as.
pub fn parse_integer(v: &Vec<char>, from: usize, to: usize) -> (r: Option<i64>)
    requires
        from <= to <= v@.len(),
    ensures
        r == integer(v@.subrange(from as int, to as int)),
{
    let ghost s = v@.subrange(from as int, to as int);
    let signed: bool = from < to && (v[from] == '-' || v[from] == '+');
    let negative: bool = signed && v[from] == '-';
    let start: usize = if signed {
        from + 1
    } else {
        from
    };
    let ghost row = v@.subrange(start as int, to as int);
    proof {
        if from < to {
            assert(s[0] == v@[from as int]);
        }
        if signed {
            assert(s.skip(1) == row);
        } else {
            assert(s == row);
        }
    }
    if start == to {
        return None;
    }
    let mut value: i128 = 0;
    let mut i: usize = start;
    assert(row.take(0).len() == 0);
    while i < to
        invariant
            start <= i <= to <= v@.len(),
            row == v@.subrange(start as int, to as int),
            forall|k: int| 0 <= k < i - start ==> is_digit(#[trigger] row[k]),
            value == digits_value(row.take(i - start)),
            0 <= value <= 0x8000_0000_0000_0000,
            integer(v@.subrange(from as int, to as int)) == row_value(row, negative),
        decreases to - i,
    {
        let u: u32 = v[i] as u32;
        assert(row[i - start] == v@[i as int]);
        if u < 48 || u > 57 {
            assert(!is_digit(row[i - start]));
            return None;
        }
        let ghost seen = row.take(i - start + 1);
        assert(seen.drop_last() == row.take(i - start));
        value = 10 * value + (u - 48) as i128;
        i = i + 1;
        if value > 0x8000_0000_0000_0000 {
            proof {
                if is_digits(row) {
                    lemma_value_grows(row, i - start);
                }
            }
            return None;
        }
    }
    assert(row.take(to - start) == row);
    let result: i128 = if negative {
        -value
    } else {
        value
    };
    if i64::MIN as i128 <= result && result <= i64::MAX as i128 {
        Some(result as i64)
    } else {
        None
    }
}

/// The digits of `n` are a row of digits that stands for `n`, without a sign.
pub proof fn lemma_digits(n: nat)
    ensures
        is_digits(digits(n)),
        digits_value(digits(n)) == n,
        digits(n)[0] != '-',
        digits(n)[0] != '+',
    decreases n,
{
    let s = digits(n);
    if n < 10 {
        assert(s.drop_last().len() == 0);
        assert(s[0] == digit(n as int));
        assert(digits_value(s.drop_last()) == 0);
    } else {
        lemma_digits(n / 10);
        let t = digits(n / 10);
        assert(s.drop_last() == t);
        assert(is_digit(digit((n % 10) as int)));
        assert(s[0] == t[0]);
    }
}

/// An integer that is written in decimal is read back as itself.
pub proof fn law_decimal_round_trip(n: i64)
    ensures
        integer(decimal(n as int)) == Some(n),
{
    let s = decimal(n as int);
    if n < 0 {
        lemma_digits((-n) as nat);
        assert(s.skip(1) == digits((-n) as nat));
        assert(s[0] == '-');
    } else {
        lemma_digits(n as nat);
    }
}

/// A decimal integer holds no white space.
pub proof fn lemma_decimal_is_word(n: int)
    ensures
        is_word(decimal(n)),
{
    if n < 0 {
        lemma_digits((-n) as nat);
        let row = digits((-n) as nat);
        assert forall|i: int| 0 <= i < decimal(n).len() implies !is_space(
            #[trigger] decimal(n)[i],
        ) by {
            if i > 0 {
                assert(decimal(n)[i] == row[i - 1]);
                assert(is_digit(row[i - 1]));
            }
        }
    } else {
        lemma_digits(n as nat);
        assert forall|i: int| 0 <= i < decimal(n).len() implies !is_space(
            #[trigger] decimal(n)[i],
        ) by {
            assert(is_digit(digits(n as nat)[i]));
        }
    }
}

/// One digit stands for its value.
pub proof fn law_integer_digit(c: char)
    requires
        '0' as u32 <= c as u32 <= '9' as u32,
    ensures
        integer(seq![c]) == Some((c as u32 - '0' as u32) as i64),
{
    let s = seq![c];
    assert(s.drop_last().len() == 0);
    assert(is_digit(s[0]));
    assert(digits_value(s.drop_last()) == 0);
    assert(digits_value(s) == c as u32 - 48);
}

/// A digit behind a row of digits makes it ten times as large and adds its value; with a
/// minus sign before the row, the negative of that. A number that no longer fits is not
/// read, nor is one with more digits behind it, and a plus sign makes no difference.
pub proof fn law_integer_row(row: Seq<char>, c: char)
    requires
        row.len() > 0,
        forall|i: int|
            0 <= i < row.len() ==> '0' as u32 <= (#[trigger] row[i]) as u32 <= '9' as u32,
        '0' as u32 <= c as u32 <= '9' as u32,
    ensures
        ({
            let d = c as u32 - '0' as u32;
            let longer = row.push(c);
            &&& match integer(row) {
                Some(n) => n >= 0 && if 10 * n + d <= i64::MAX {
                    integer(longer) == Some((10 * n + d) as i64)
                } else {
                    integer(longer) is None
                },
                None => integer(longer) is None,
            }
            &&& match integer(seq!['-'] + row) {
                Some(n) => n <= 0 && if 10 * n - d >= i64::MIN {
                    integer(seq!['-'] + longer) == Some((10 * n - d) as i64)
                } else {
                    integer(seq!['-'] + longer) is None
                },
                None => integer(seq!['-'] + longer) is None,
            }
            &&& integer(seq!['+'] + row) == integer(row)
            &&& match integer(row) {
                Some(n) => integer(seq!['-'] + row) == Some((-n) as i64),
                None => integer(seq!['-'] + row) is None || integer(seq!['-'] + row) == Some(
                    i64::MIN,
                ),
            }
        }),
{
    let longer = row.push(c);
    assert(longer.drop_last() == row);
    assert forall|i: int| 0 <= i < row.len() implies is_digit(#[trigger] row[i]) by {}
    assert forall|i: int| 0 <= i < longer.len() implies is_digit(#[trigger] longer[i]) by {
        if i < row.len() {
            assert(longer[i] == row[i]);
        }
    }
    lemma_value_grows(row, 0);
    assert(is_digit(row[0]) && longer[0] == row[0]);
    assert((seq!['-'] + row).skip(1) == row);
    assert((seq!['+'] + row).skip(1) == row);
    assert((seq!['-'] + longer).skip(1) == longer);
}

/// Nothing but digits with at most one sign before them is read, and at least one digit.
pub proof fn law_integer_refused(s: Seq<char>, i: int)
    requires
        0 <= i < s.len(),
        !('0' as u32 <= s[i] as u32 <= '9' as u32),
        i > 0 || s.len() == 1 || (s[0] != '-' && s[0] != '+'),
    ensures
        integer(s) is None,
        integer(Seq::empty()) is None,
{
    let sign = s[0] == '-' || s[0] == '+';
    if sign && i > 0 {
        assert(s.skip(1)[i - 1] == s[i]);
        assert(!is_digit(s.skip(1)[i - 1]));
    } else if sign {
        assert(s.skip(1).len() == 0);
    } else {
        assert(!is_digit(s[i]));
    }
}

/// An integer is written as its digits, without a leading zero, with a minus sign before
/// them if it is negative and with no sign else.
pub proof fn law_decimal_form(n: int)
    ensures
        decimal(n).len() > 0,
        n >= 0 ==> is_digits(decimal(n)) && (decimal(n)[0] == '0' ==> n == 0 && decimal(n).len()
            == 1),
        n < 0 ==> decimal(n)[0] == '-' && is_digits(decimal(n).skip(1)) && decimal(n)[1] != '0',
        forall|s: Seq<char>, i: int| #[trigger]
            is_digits(s) && 0 <= i < s.len() ==> '0' as u32 <= (#[trigger] s[i]) as u32
                <= '9' as u32,
{
    let m: nat = if n < 0 {
        (-n) as nat
    } else {
        n as nat
    };
    lemma_digits(m);
    lemma_no_leading_zero(m);
    let row = digits(m);
    if n < 0 {
        assert(decimal(n).skip(1) == row);
        assert(decimal(n)[1] == row[0]);
    }
    assert forall|s: Seq<char>, i: int| #[trigger]
        is_digits(s) && 0 <= i < s.len() implies '0' as u32 <= (#[trigger] s[i]) as u32
        <= '9' as u32 by {
        assert(is_digit(s[i]));
    }
}

proof fn lemma_no_leading_zero(n: nat)
    ensures
        digits(n).len() > 0,
        digits(n)[0] == '0' ==> n == 0 && digits(n).len() == 1,
    decreases n,
{
    if n < 10 {
        assert(digits(n)[0] == digit(n as int));
    } else {
        lemma_no_leading_zero(n / 10);
        assert(digits(n)[0] == digits(n / 10)[0]);
    }
}

} // verus!
