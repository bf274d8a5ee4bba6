//! Small utilities: clamping and number formatting.

use vstd::arithmetic::div_mod::{lemma_div_denominator, lemma_fundamental_div_mod};
use vstd::math::{max, min};
use vstd::prelude::*;
use vstd::string::StringExecFns;

verus! {

/// Constrain a value within a minimum and maximum range (inclusive).
pub fn clamp(value: i64, range: (i64, i64)) -> (r: i64)
    ensures
        r == min(max(value as int, range.0 as int), range.1 as int),
{
    let (lo, hi) = range;
    let raised = if value > lo {
        value
    } else {
        lo
    };
    if raised < hi {
        raised
    } else {
        hi
    }
}

/// The character for one decimal digit.
pub open spec fn spec_digit(d: int) -> char {
    if d == 0 {
        '0'
    } else if d == 1 {
        '1'
    } else if d == 2 {
        '2'
    } else if d == 3 {
        '3'
    } else if d == 4 {
        '4'
    } else if d == 5 {
        '5'
    } else if d == 6 {
        '6'
    } else if d == 7 {
        '7'
    } else if d == 8 {
        '8'
    } else {
        '9'
    }
}

/// The decimal digits of a positive number, most significant first;
/// empty for zero.
pub open spec fn spec_dec_digits(n: int) -> Seq<char>
    decreases n,
{
    if n <= 0 {
        Seq::empty()
    } else {
        spec_dec_digits(n / 10).push(spec_digit(n % 10))
    }
}

/// The plain decimal rendering of a number below 1000.
pub open spec fn spec_dec_str(n: int) -> Seq<char> {
    if n == 0 {
        seq!['0']
    } else {
        spec_dec_digits(n)
    }
}

/// A chunk below 1000 padded to exactly three digits.
pub open spec fn spec_pad3(n: int) -> Seq<char> {
    seq![spec_digit((n / 100) % 10), spec_digit((n / 10) % 10), spec_digit(n % 10)]
}

/// The decimal rendering of a number with thousands separated by
/// underscores: the leading chunk unpadded, every later chunk padded to
/// three digits.
pub open spec fn spec_pretty(n: int) -> Seq<char>
    decreases n,
{
    if n < 1000 {
        spec_dec_str(n)
    } else {
        spec_pretty(n / 1000) + seq!['_'] + spec_pad3(n % 1000)
    }
}

/// The string for one decimal digit.
fn digit_str(d: u64) -> (r: &'static str)
    requires
        d < 10,
    ensures
        r@ == seq![spec_digit(d as int)],
{
    proof {
        reveal_strlit("0");
        reveal_strlit("1");
        reveal_strlit("2");
        reveal_strlit("3");
        reveal_strlit("4");
        reveal_strlit("5");
        reveal_strlit("6");
        reveal_strlit("7");
        reveal_strlit("8");
        reveal_strlit("9");
    }
    match d {
        0 => "0",
        1 => "1",
        2 => "2",
        3 => "3",
        4 => "4",
        5 => "5",
        6 => "6",
        7 => "7",
        8 => "8",
        _ => "9",
    }
}

/// The decimal rendering of a chunk below 1000 without leading zeros.
fn chunk_str(n: u64) -> (r: String)
    requires
        n < 1000,
    ensures
        r@ == spec_dec_str(n as int),
{
    let mut s = String::new();
    if n == 0 {
        s.append(digit_str(0));
        proof {
            assert(s@ =~= spec_dec_str(0));
        }
        return s;
    }
    proof {
        lemma_div_denominator(n as int, 10, 10);
        lemma_fundamental_div_mod(n as int, 10);
        lemma_fundamental_div_mod(n as int / 10, 10);
        lemma_fundamental_div_mod(n as int / 100, 10);
    }
    if n >= 100 {
        s.append(digit_str(n / 100));
        proof {
            vstd::arithmetic::div_mod::lemma_small_mod((n as int / 100) as nat, 10nat);
            assert(spec_dec_digits(n as int / 100) == spec_dec_digits(n as int / 1000).push(
                spec_digit((n as int / 100) % 10),
            ));
        }
    }
    if n >= 10 {
        s.append(digit_str((n / 10) % 10));
        proof {
            assert(spec_dec_digits(n as int / 10) == spec_dec_digits(n as int / 100).push(
                spec_digit((n as int / 10) % 10),
            ));
            if n < 100 {
                assert(spec_dec_digits(n as int / 100) =~= Seq::<char>::empty());
            }
        }
    }
    s.append(digit_str(n % 10));
    proof {
        assert(spec_dec_digits(n as int) == spec_dec_digits(n as int / 10).push(
            spec_digit(n as int % 10),
        ));
        if n < 10 {
            assert(spec_dec_digits(n as int / 10) =~= Seq::<char>::empty());
        }
        assert(s@ =~= spec_dec_str(n as int));
    }
    s
}

/// Returns a string representing `i` with thousands separated by
/// underscores.
pub fn pretty_print(i: u64) -> (r: String)
    ensures
        r@ == spec_pretty(i as int),
    decreases i,
{
    if i < 1000 {
        chunk_str(i)
    } else {
        let mut s = pretty_print(i / 1000);
        proof {
            reveal_strlit("_");
            lemma_fundamental_div_mod(i as int, 1000);
        }
        s.append("_");
        let chunk = i % 1000;
        proof {
            lemma_fundamental_div_mod(chunk as int, 10);
            lemma_fundamental_div_mod(chunk as int / 10, 10);
            lemma_div_denominator(chunk as int, 10, 10);
            vstd::arithmetic::div_mod::lemma_small_mod((chunk as int / 100) as nat, 10nat);
        }
        s.append(digit_str(chunk / 100));
        s.append(digit_str((chunk / 10) % 10));
        s.append(digit_str(chunk % 10));
        proof {
            assert(s@ =~= spec_pretty(i as int));
        }
        s
    }
}

} // verus!
