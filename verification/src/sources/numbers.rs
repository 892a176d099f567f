//! Whole numbers as texts and as binary64 numbers

use vstd::prelude::*;
use vstd::string::StringExecFns;

verus! {

/// The character of a decimal digit.
pub open spec fn digit_char(d: int) -> char {
    if d == 0 {
        '0'
    } else if d == 1 {
        '1'
    } else if d == 2 {
        '2'
    } else if d == 3 {
        '3'
    } else if d == 4 {
        '4'
    } else if d == 5 {
        '5'
    } else if d == 6 {
        '6'
    } else if d == 7 {
        '7'
    } else if d == 8 {
        '8'
    } else {
        '9'
    }
}

/// The decimal digits of a natural number, without leading zeros.
pub open spec fn digits(n: nat) -> Seq<char>
    decreases n,
{
    if n < 10 {
        seq![digit_char(n as int)]
    } else {
        digits(n / 10).push(digit_char((n % 10) as int))
    }
}

/// A whole number in decimal: its digits, behind a minus sign where it is
/// negative.
pub open spec fn decimal(n: int) -> Seq<char> {
    if n < 0 {
        seq!['-'] + digits((-n) as nat)
    } else {
        digits(n as nat)
    }
}

/// The text of one decimal digit.
fn digit_text(d: u64) -> (text: &'static str)
    requires
        d < 10,
    ensures
        text@ == seq![digit_char(d as int)],
{
    proof {
        reveal_strlit("0");
        reveal_strlit("1");
        reveal_strlit("2");
        reveal_strlit("3");
        reveal_strlit("4");
        reveal_strlit("5");
        reveal_strlit("6");
        reveal_strlit("7");
        reveal_strlit("8");
        reveal_strlit("9");
    }
    let text: &'static str = if d == 0 {
        "0"
    } else if d == 1 {
        "1"
    } else if d == 2 {
        "2"
    } else if d == 3 {
        "3"
    } else if d == 4 {
        "4"
    } else if d == 5 {
        "5"
    } else if d == 6 {
        "6"
    } else if d == 7 {
        "7"
    } else if d == 8 {
        "8"
    } else {
        "9"
    };
    proof {
        assert(text@ =~= seq![digit_char(d as int)]);
    }
    text
}

/// The decimal digits of a natural number.
pub fn digits_of(n: u64) -> (text: String)
    ensures
        text@ == digits(n as nat),
    decreases n,
{
    if n < 10 {
        String::from_str(digit_text(n))
    } else {
        let mut text = digits_of(n / 10);
        text.append(digit_text(n % 10));
        proof {
            assert(text@ =~= digits(n as nat));
        }
        text
    }
}

/// A whole number in decimal.
pub fn decimal_of(n: i64) -> (text: String)
    ensures
        text@ == decimal(n as int),
{
    if n < 0 {
        let magnitude: u64 = (-(n + 1)) as u64 + 1;
        proof {
            reveal_strlit("-");
            assert("-"@ =~= seq!['-']);
        }
        let mut text = String::from_str("-");
        text.append(digits_of(magnitude).as_str());
        text
    } else {
        digits_of(n as u64)
    }
}

/// Two to the power of 52: the weight of the hidden bit of a binary64 number.
pub open spec fn hidden_bit() -> nat {
    0x10_0000_0000_0000
}

/// How far a natural number is below the hidden bit.
pub open spec fn below_hidden_bit(m: nat) -> nat {
    if m < hidden_bit() {
        (hidden_bit() - m) as nat
    } else {
        0
    }
}

/// How often a natural number, not zero, is to be doubled until it reaches
/// the hidden bit.
pub open spec fn doublings(m: nat) -> nat
    decreases below_hidden_bit(m),
{
    if 0 < m < hidden_bit() {
        1 + doublings(2 * m)
    } else {
        0
    }
}

/// A natural number, not zero, doubled until it reaches the hidden bit.
pub open spec fn normalized(m: nat) -> nat
    decreases below_hidden_bit(m),
{
    if 0 < m < hidden_bit() {
        normalized(2 * m)
    } else {
        m
    }
}

/// The bit pattern of the binary64 number that is the whole number `n`, of a
/// magnitude of less than two to the power of 53: the sign in the highest
/// bit, below it the exponent, which is 1075 less the doublings that
/// normalize the magnitude, and below that the normalized magnitude without
/// its hidden bit. Zero has the pattern zero.
pub open spec fn binary64_of_int(n: int) -> int {
    let m = if n < 0 {
        (-n) as nat
    } else {
        n as nat
    };
    if n == 0 {
        0
    } else {
        (if n < 0 {
            0x8000_0000_0000_0000int
        } else {
            0int
        }) + (1075 - doublings(m)) * hidden_bit() + (normalized(m) - hidden_bit())
    }
}

/// Two to the power of `k`.
pub open spec fn power_of_two(k: nat) -> nat
    decreases k,
{
    if k == 0 {
        1
    } else {
        2 * power_of_two((k - 1) as nat)
    }
}

/// From the power of 52 on, the powers of two reach the hidden bit.
proof fn lemma_power_reaches_hidden_bit(k: nat)
    requires
        k >= 52,
    ensures
        power_of_two(k) >= hidden_bit(),
    decreases k,
{
    if k == 52 {
        reveal_with_fuel(power_of_two, 53);
    } else {
        lemma_power_reaches_hidden_bit((k - 1) as nat);
    }
}

/// What normalizing does: the normalized magnitude is the magnitude times two
/// to the power of its doublings, and has its highest bit at the hidden bit.
/// So the pattern of [`binary64_of_int`] denotes the number itself: the
/// normalized magnitude, scaled down by as many halvings as it took doublings.
pub proof fn lemma_normalized(m: nat)
    requires
        0 < m < 2 * hidden_bit(),
    ensures
        normalized(m) == m * power_of_two(doublings(m)),
        hidden_bit() <= normalized(m) < 2 * hidden_bit(),
        doublings(m) <= 52,
    decreases below_hidden_bit(m),
{
    if m < hidden_bit() {
        lemma_normalized(2 * m);
        assert((2 * m) * power_of_two(doublings(2 * m)) == m * (2 * power_of_two(doublings(2 * m))))
            by (nonlinear_arith);
        if doublings(2 * m) >= 52 {
            lemma_power_reaches_hidden_bit(doublings(2 * m));
            assert((2 * m) * power_of_two(doublings(2 * m)) >= 2 * hidden_bit())
                by (nonlinear_arith)
                requires
                    m >= 1,
                    power_of_two(doublings(2 * m)) >= hidden_bit(),
            ;
        }
    } else {
        assert(m * 1 == m);
    }
}

/// The bit pattern of the binary64 number that is the whole number `n`.
pub fn double_of_int(n: i32) -> (bits: u64)
    ensures
        bits == binary64_of_int(n as int),
{
    if n == 0 {
        return 0;
    }
    let magnitude: u64 = if n < 0 {
        (-(n as i64)) as u64
    } else {
        n as u64
    };
    let mut scaled: u64 = magnitude;
    let mut count: u64 = 0;
    while scaled < 0x10_0000_0000_0000
        invariant
            0 < scaled < 0x20_0000_0000_0000,
            count <= 52,
            power_of_two(count as nat) <= scaled,
            doublings(magnitude as nat) == count + doublings(scaled as nat),
            normalized(magnitude as nat) == normalized(scaled as nat),
        decreases 52 - count,
    {
        proof {
            if count >= 52 {
                lemma_power_reaches_hidden_bit(count as nat);
            }
        }
        scaled = scaled * 2;
        count = count + 1;
    }
    let sign: u64 = if n < 0 {
        0x8000_0000_0000_0000
    } else {
        0
    };
    sign + (1075 - count) * 0x10_0000_0000_0000 + (scaled - 0x10_0000_0000_0000)
}

} // verus!
