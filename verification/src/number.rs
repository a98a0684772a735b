//! Numbers as text.
use vstd::prelude::*;

verus! {

/// The digit for `d`.
pub open spec fn digit_char(d: nat) -> char {
    (48 + d) as char
}

/// `n` in decimal, without leading zeros.
pub open spec fn decimal(n: nat) -> Seq<char>
    decreases n,
{
    if n < 10 {
        seq![digit_char(n)]
    } else {
        decimal(n / 10).push(digit_char(n % 10))
    }
}

/// Appends `n` in decimal.
pub fn push_decimal(out: &mut String, n: u128)
    ensures
        final(out)@ == old(out)@ + decimal(n as nat),
    decreases n,
{
    if n >= 10 {
        push_decimal(out, n / 10);
    }
    let d: u8 = 48 + (n % 10) as u8;
    out.push(d as char);
    assert(out@ =~= old(out)@ + decimal(n as nat));
}

/// What the digit `c` counts for in base `radix`.
pub open spec fn digit_value(c: char, radix: nat) -> Option<nat> {
    let v: int = if '0' <= c <= '9' {
        c as int - '0' as int
    } else if 'a' <= c <= 'z' {
        c as int - 'a' as int + 10
    } else if 'A' <= c <= 'Z' {
        c as int - 'A' as int + 10
    } else {
        36
    };
    if v < radix {
        Some(v as nat)
    } else {
        None
    }
}

/// The number that the digits of `s` write in base `radix`, if they are digits of that base.
pub open spec fn digits_value(s: Seq<char>, radix: nat) -> Option<nat>
    decreases s.len(),
{
    if s.len() == 0 {
        Some(0)
    } else {
        match (digits_value(s.drop_last(), radix), digit_value(s.last(), radix)) {
            (Some(high), Some(low)) => Some(high * radix + low),
            _ => None,
        }
    }
}

/// The number that `s` writes in base `radix`: at least one digit, behind a plus sign or not,
/// and no larger than `max`.
pub open spec fn number_value(s: Seq<char>, radix: nat, max: nat) -> Option<nat> {
    let digits = if s.len() > 0 && s[0] == '+' {
        s.drop_first()
    } else {
        s
    };
    if digits.len() == 0 {
        None
    } else {
        match digits_value(digits, radix) {
            Some(v) if v <= max => Some(v),
            _ => None,
        }
    }
}

/// More digits write no smaller number.
proof fn lemma_digits_value_grows(s: Seq<char>, k: int, radix: nat)
    requires
        0 <= k <= s.len(),
        radix >= 1,
    ensures
        digits_value(s, radix) is Some ==> digits_value(s.take(k), radix) is Some
            && digits_value(s.take(k), radix)->0 <= digits_value(s, radix)->0,
    decreases s.len(),
{
    if k < s.len() {
        assert(s.drop_last().take(k) =~= s.take(k));
        lemma_digits_value_grows(s.drop_last(), k, radix);
        if let Some(high) = digits_value(s.drop_last(), radix) {
            assert(high * radix >= high) by (nonlinear_arith)
                requires
                    radix >= 1,
            ;
        }
    } else {
        assert(s.take(k) =~= s);
    }
}

/// What the digit `c` counts for in base `radix`.
fn value_of_digit(c: char, radix: u8) -> (res: Option<u8>)
    requires
        radix <= 36,
    ensures
        match res {
            Some(v) => digit_value(c, radix as nat) == Some(v as nat) && v < radix,
            None => digit_value(c, radix as nat) is None,
        },
{
    let v: u8 = if '0' <= c && c <= '9' {
        c as u8 - 48
    } else if 'a' <= c && c <= 'z' {
        c as u8 - 97 + 10
    } else if 'A' <= c && c <= 'Z' {
        c as u8 - 65 + 10
    } else {
        36
    };
    if v < radix {
        Some(v)
    } else {
        None
    }
}

/// The number that the characters of `cs` from `from` up to `to` write in base `radix`.
pub fn parse_number(cs: &[char], from: usize, to: usize, radix: u8, max: u64) -> (res: Option<u64>)
    requires
        from <= to <= cs@.len(),
        2 <= radix <= 36,
    ensures
        match res {
            Some(v) => number_value(
                cs@.subrange(from as int, to as int),
                radix as nat,
                max as nat,
            ) == Some(v as nat),
            None => number_value(
                cs@.subrange(from as int, to as int),
                radix as nat,
                max as nat,
            ) is None,
        },
{
    let ghost whole = cs@.subrange(from as int, to as int);
    let mut start: usize = from;
    if from < to && cs[from] == '+' {
        start = from + 1;
        assert(whole.drop_first() =~= cs@.subrange(start as int, to as int));
    }
    let ghost digits = cs@.subrange(start as int, to as int);
    if start == to {
        return None;
    }
    let mut acc: u128 = 0;
    let mut i: usize = start;
    while i < to
        invariant
            start <= i <= to <= cs@.len(),
            2 <= radix <= 36,
            acc <= max,
            digits == cs@.subrange(start as int, to as int),
            digits_value(digits.take(i - start), radix as nat) == Some(acc as nat),
            start < to,
            whole == cs@.subrange(from as int, to as int),
            from <= to,
            number_value(whole, radix as nat, max as nat) == (match digits_value(
                digits,
                radix as nat,
            ) {
                Some(v) if v <= max => Some(v),
                _ => None,
            }),
        decreases to - i,
    {
        proof {
            let k = i + 1 - start;
            assert(digits.take(k).drop_last() =~= digits.take(i - start));
            lemma_digits_value_grows(digits, k, radix as nat);
            assert(0 <= acc * radix <= 0xffff_ffff_ffff_ffff * 36) by (nonlinear_arith)
                requires
                    0 <= acc <= 0xffff_ffff_ffff_ffff,
                    0 <= radix <= 36,
            ;
        }
        let d: u8 = match value_of_digit(cs[i], radix) {
            Some(d) => d,
            None => {
                return None;
            },
        };
        acc = acc * radix as u128 + d as u128;
        if acc > max as u128 {
            return None;
        }
        i += 1;
    }
    assert(digits.take(to - start) =~= digits);
    Some(acc as u64)
}

// Laws.

/// A number below ten is written as its digit, and any other as the number of its tens with the
/// digit of its ones behind it.
pub proof fn law_decimal_digits(n: nat)
    ensures
        n < 10 ==> decimal(n) == seq![('0' as nat + n) as char],
        n >= 10 ==> decimal(n) == decimal(n / 10).push(('0' as nat + n % 10) as char),
        forall|i: int| 0 <= i < decimal(n).len() ==> '0' <= #[trigger] decimal(n)[i] <= '9',
        decimal(n).len() > 0,
    decreases n,
{
    if n >= 10 {
        law_decimal_digits(n / 10);
        assert forall|i: int| 0 <= i < decimal(n).len() implies '0' <= #[trigger] decimal(n)[i]
            <= '9' by {
            if i < decimal(n).len() - 1 {
                assert(decimal(n)[i] == decimal(n / 10)[i]);
            }
        }
    }
}

/// One more digit makes a number as many times larger as the base says, and adds what the digit
/// counts for: the digits of a decimal number are `0` to `9`, those of a hexadecimal one also `a`
/// to `f`, small or capital. With anything else a text is no number.
pub proof fn law_digits(s: Seq<char>, c: char)
    ensures
        digits_value(Seq::empty(), 10) == Some(0nat),
        digits_value(Seq::empty(), 16) == Some(0nat),
        digits_value(s.push(c), 10) == (if digits_value(s, 10) is Some && '0' <= c <= '9' {
            Some((digits_value(s, 10)->0 * 10 + (c as int - '0' as int)) as nat)
        } else {
            None
        }),
        digits_value(s.push(c), 16) == (if digits_value(s, 16) is None {
            None
        } else if '0' <= c <= '9' {
            Some((digits_value(s, 16)->0 * 16 + (c as int - '0' as int)) as nat)
        } else if 'a' <= c <= 'f' {
            Some((digits_value(s, 16)->0 * 16 + (c as int - 'a' as int) + 10) as nat)
        } else if 'A' <= c <= 'F' {
            Some((digits_value(s, 16)->0 * 16 + (c as int - 'A' as int) + 10) as nat)
        } else {
            None
        }),
{
    assert(s.push(c).drop_last() =~= s);
}

/// A number is what its digits write, where it has some and is not too large; a plus sign before
/// them changes nothing.
pub proof fn law_number(s: Seq<char>, radix: nat, max: nat)
    requires
        s.len() == 0 || s[0] != '+',
    ensures
        s.len() == 0 ==> number_value(s, radix, max) is None,
        s.len() > 0 && digits_value(s, radix) is None ==> number_value(s, radix, max) is None,
        s.len() > 0 && digits_value(s, radix) is Some ==> number_value(s, radix, max) == (
        if digits_value(s, radix)->0 <= max {
            digits_value(s, radix)
        } else {
            None
        }),
        number_value(seq!['+'] + s, radix, max) == number_value(s, radix, max),
{
    assert((seq!['+'] + s).drop_first() =~= s);
}

/// A number that is written in decimal is read back.
pub proof fn law_decimal_reads_back(n: nat, max: nat)
    requires
        n <= max,
    ensures
        number_value(decimal(n), 10, max) == Some(n),
{
    lemma_decimal(n);
}

proof fn lemma_decimal(n: nat)
    ensures
        decimal(n).len() > 0,
        decimal(n)[0] != '+',
        digits_value(decimal(n), 10) == Some(n),
    decreases n,
{
    let d = digit_char(n % 10);
    assert(digit_value(d, 10) == Some(n % 10));
    if n < 10 {
        let s = decimal(n);
        assert(s.drop_last() =~= Seq::empty());
        assert(digits_value(s.drop_last(), 10) == Some(0nat));
        assert(s.last() == d);
    } else {
        lemma_decimal(n / 10);
        let s = decimal(n);
        assert(s.drop_last() =~= decimal(n / 10));
        assert(s.last() == d);
        assert(s[0] == decimal(n / 10)[0]);
        assert((n / 10) * 10 + n % 10 == n);
    }
}

} // verus!
