//! Signed decimal numbers as text.

use vstd::prelude::*;

verus! {

/// `c` is one of the ten decimal digits.
pub open spec fn is_decimal_digit(c: char) -> bool {
    '0' as u32 <= c as u32 <= '9' as u32
}

/// Every character of `digits` is a decimal digit.
pub open spec fn all_digits(digits: Seq<char>) -> bool {
    forall|i: int| 0 <= i < digits.len() ==> is_decimal_digit(#[trigger] digits[i])
}

/// The number that `digits` writes in base ten; the empty sequence writes 0.
pub open spec fn decimal_value(digits: Seq<char>) -> int
    decreases digits.len(),
{
    if digits.len() == 0 {
        0
    } else {
        decimal_value(digits.drop_last()) * 10 + (digits.last() as u32 - '0' as u32)
    }
}

/// The 32-bit signed number that `s` writes: an optional `+` or `-`, then at least
/// one decimal digit and nothing else. `None` where `s` has another shape or the
/// number does not fit.
pub open spec fn parse_decimal(s: Seq<char>) -> Option<int> {
    let signed = s.len() > 0 && (s[0] == '+' || s[0] == '-');
    let negative = s.len() > 0 && s[0] == '-';
    let digits = if signed { s.subrange(1, s.len() as int) } else { s };
    let value = if negative { -decimal_value(digits) } else { decimal_value(digits) };
    if digits.len() > 0 && all_digits(digits) && i32::MIN <= value <= i32::MAX {
        Some(value)
    } else {
        None
    }
}

/// The value of digits never falls when more digits follow.
pub proof fn lemma_decimal_value_prefix(digits: Seq<char>, k: int)
    requires
        all_digits(digits),
        0 <= k <= digits.len(),
    ensures
        0 <= decimal_value(digits.take(k)) <= decimal_value(digits),
    decreases digits.len(),
{
    if k == digits.len() {
        assert(digits.take(k) =~= digits);
        if digits.len() > 0 {
            lemma_decimal_value_prefix(digits.drop_last(), k - 1);
            assert(digits.drop_last().take(k - 1) =~= digits.drop_last());
        }
    } else {
        lemma_decimal_value_prefix(digits.drop_last(), k);
        assert(digits.drop_last().take(k) =~= digits.take(k));
    }
}

/// Reads the number that the characters of `s` from `from` up to `to` write.
pub fn parse_i32(s: &Vec<char>, from: usize, to: usize) -> (r: Option<i32>)
    requires
        from <= to <= s@.len(),
    ensures
        match r {
            Some(n) => parse_decimal(s@.subrange(from as int, to as int)) == Some(n as int),
            None => parse_decimal(s@.subrange(from as int, to as int)) is None,
        },
{
    let ghost text = s@.subrange(from as int, to as int);
    if from == to {
        return None;
    }
    let first: char = s[from];
    assert(first == text[0]);
    let negative: bool = first == '-';
    let start: usize = if first == '+' || first == '-' { from + 1 } else { from };
    let ghost digits = s@.subrange(start as int, to as int);
    assert(digits =~= if text[0] == '+' || text[0] == '-' {
        text.subrange(1, text.len() as int)
    } else {
        text
    });
    if start == to {
        return None;
    }
    let mut acc: i64 = 0;
    let mut i: usize = start;
    while i < to
        invariant
            start <= i <= to <= s@.len(),
            from < to,
            text == s@.subrange(from as int, to as int),
            digits == s@.subrange(start as int, to as int),
            digits == if text[0] == '+' || text[0] == '-' {
                text.subrange(1, text.len() as int)
            } else {
                text
            },
            all_digits(digits.take(i - start)),
            acc == decimal_value(digits.take(i - start)),
            0 <= acc <= 2147483648,
        decreases to - i,
    {
        let c: char = s[i];
        assert(c == digits[i - start]);
        let code: u32 = c as u32;
        if code < 48 || code > 57 {
            assert(!is_decimal_digit(digits[i - start]));
            return None;
        }
        let digit: i64 = (code - 48) as i64;
        proof {
            assert(digits.take(i - start + 1).drop_last() =~= digits.take(i - start));
            assert(digits.take(i - start + 1).last() == c);
            assert(is_decimal_digit(c));
        }
        acc = acc * 10 + digit;
        if acc > 2147483648 {
            proof {
                if all_digits(digits) {
                    lemma_decimal_value_prefix(digits, i - start + 1);
                }
            }
            return None;
        }
        i += 1;
    }
    assert(digits.take(to - start) =~= digits);
    if negative {
        Some((-acc) as i32)
    } else if acc <= 2147483647 {
        Some(acc as i32)
    } else {
        None
    }
}

/// The character that writes the digit `d`.
pub open spec fn digit_char(d: int) -> char {
    if d == 0 {
        '0'
    } else if d == 1 {
        '1'
    } else if d == 2 {
        '2'
    } else if d == 3 {
        '3'
    } else if d == 4 {
        '4'
    } else if d == 5 {
        '5'
    } else if d == 6 {
        '6'
    } else if d == 7 {
        '7'
    } else if d == 8 {
        '8'
    } else {
        '9'
    }
}

/// The digits of `m` in base ten, the most significant first, without leading zeros.
pub open spec fn decimal_digits(m: nat) -> Seq<char>
    decreases m,
{
    if m < 10 {
        seq![digit_char(m as int)]
    } else {
        decimal_digits(m / 10).push(digit_char((m % 10) as int))
    }
}

/// The usual text of `n`: its digits, behind a `-` where `n` is negative.
pub open spec fn decimal_text(n: int) -> Seq<char> {
    if n < 0 {
        seq!['-'] + decimal_digits((-n) as nat)
    } else {
        decimal_digits(n as nat)
    }
}

/// The digits of a number are digits, do not start with a sign, and write that number.
pub proof fn lemma_decimal_digits(m: nat)
    ensures
        decimal_digits(m).len() > 0,
        all_digits(decimal_digits(m)),
        decimal_value(decimal_digits(m)) == m,
    decreases m,
{
    if m < 10 {
        let one = seq![digit_char(m as int)];
        assert(one.drop_last() =~= Seq::<char>::empty());
        assert(decimal_value(one.drop_last()) == 0);
        assert(one.last() == digit_char(m as int));
    } else {
        lemma_decimal_digits(m / 10);
        let head = decimal_digits(m / 10);
        let whole = head.push(digit_char((m % 10) as int));
        assert(whole.drop_last() =~= head);
        assert(whole.last() == digit_char((m % 10) as int));
        assert forall|i: int| 0 <= i < whole.len() implies is_decimal_digit(
            #[trigger] whole[i],
        ) by {
            if i < head.len() {
                assert(whole[i] == head[i]);
            }
        }
    }
}

/// Reading the text of a 32-bit number gives the number back.
pub proof fn lemma_parse_decimal_text(n: int)
    requires
        i32::MIN <= n <= i32::MAX,
    ensures
        parse_decimal(decimal_text(n)) == Some(n),
{
    let text = decimal_text(n);
    if n < 0 {
        let digits = decimal_digits((-n) as nat);
        lemma_decimal_digits((-n) as nat);
        assert(text[0] == '-');
        assert(text.subrange(1, text.len() as int) =~= digits);
    } else {
        lemma_decimal_digits(n as nat);
        assert(is_decimal_digit(text[0]));
    }
}

/// The text of one digit.
fn digit_str(d: u32) -> (r: &'static str)
    requires
        d < 10,
    ensures
        r@ == seq![digit_char(d as int)],
{
    proof {
        reveal_strlit("0");
        reveal_strlit("1");
        reveal_strlit("2");
        reveal_strlit("3");
        reveal_strlit("4");
        reveal_strlit("5");
        reveal_strlit("6");
        reveal_strlit("7");
        reveal_strlit("8");
        reveal_strlit("9");
    }
    let r = if d == 0 {
        "0"
    } else if d == 1 {
        "1"
    } else if d == 2 {
        "2"
    } else if d == 3 {
        "3"
    } else if d == 4 {
        "4"
    } else if d == 5 {
        "5"
    } else if d == 6 {
        "6"
    } else if d == 7 {
        "7"
    } else if d == 8 {
        "8"
    } else {
        "9"
    };
    assert(r@ =~= seq![digit_char(d as int)]);
    r
}

/// Writes the digits of `m` at the end of `out`.
fn push_digits(out: &mut String, m: u32)
    ensures
        final(out)@ == old(out)@ + decimal_digits(m as nat),
    decreases m,
{
    if m >= 10 {
        push_digits(out, m / 10);
    }
    out.append(digit_str(m % 10));
    proof {
        if m >= 10 {
            assert(old(out)@ + decimal_digits((m / 10) as nat) + seq![
                digit_char((m % 10) as int),
            ] =~= old(out)@ + decimal_digits(m as nat));
        }
    }
}

/// Writes the text of `n` at the end of `out`.
pub fn push_decimal(out: &mut String, n: i32)
    ensures
        final(out)@ == old(out)@ + decimal_text(n as int),
{
    if n < 0 {
        proof {
            reveal_strlit("-");
        }
        out.append("-");
        let m: u32 = if n == i32::MIN { 2147483648 } else { (-n) as u32 };
        push_digits(out, m);
        assert(old(out)@ + "-"@ + decimal_digits(m as nat) =~= old(out)@ + decimal_text(
            n as int,
        ));
    } else {
        push_digits(out, n as u32);
    }
}

} // verus!
