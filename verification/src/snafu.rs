//! Balanced quinary ("SNAFU") numbers.
//!
//! Digits `2`, `1`, `0`, `-` and `=` stand for two, one, zero, minus one
//! and minus two, most significant first.  The answer is the SNAFU text of
//! the sum of the input numbers.

use vstd::prelude::*;

verus! {

use crate::parse::chars_of;
use vstd::string::StringExecFns;

/// A balanced quinary digit character.
pub open spec fn snafu_char(c: char) -> bool {
    c == '2' || c == '1' || c == '0' || c == '-' || c == '='
}

/// The value of a balanced quinary digit.
pub open spec fn snafu_digit(c: char) -> int {
    if c == '2' {
        2
    } else if c == '1' {
        1
    } else if c == '0' {
        0
    } else if c == '-' {
        -1
    } else {
        -2
    }
}

/// The value of a SNAFU numeral, most significant digit first.
pub open spec fn snafu_val(s: Seq<char>) -> int
    decreases s.len(),
{
    if s.len() == 0 {
        0
    } else {
        snafu_val(s.drop_last()) * 5 + snafu_digit(s.last())
    }
}

/// The value of a digit string read least significant digit first.
pub open spec fn snafu_val_le(s: Seq<char>) -> int
    decreases s.len(),
{
    if s.len() == 0 {
        0
    } else {
        snafu_digit(s[0]) + 5 * snafu_val_le(s.drop_first())
    }
}

/// Powers of five.
pub open spec fn pow5(n: nat) -> int
    decreases n,
{
    if n == 0 {
        1
    } else {
        5 * pow5((n - 1) as nat)
    }
}

/// All characters are SNAFU digits.
pub open spec fn all_snafu(s: Seq<char>) -> bool {
    forall|i: int| 0 <= i < s.len() ==> snafu_char(#[trigger] s[i])
}

proof fn lemma_pow5_pos(n: nat)
    ensures
        pow5(n) >= 1,
    decreases n,
{
    if n > 0 {
        lemma_pow5_pos((n - 1) as nat);
    }
}

proof fn lemma_pow5_mono(a: nat, b: nat)
    requires
        a <= b,
    ensures
        1 <= pow5(a) <= pow5(b),
    decreases b,
{
    lemma_pow5_pos(a);
    if a < b {
        lemma_pow5_mono(a, (b - 1) as nat);
    }
}

proof fn lemma_snafu_bound(s: Seq<char>)
    requires
        all_snafu(s),
    ensures
        -(pow5(s.len()) - 1) <= 2 * snafu_val(s) <= pow5(s.len()) - 1,
    decreases s.len(),
{
    if s.len() > 0 {
        assert(all_snafu(s.drop_last())) by {
            assert(forall|i: int|
                0 <= i < s.drop_last().len() ==> s.drop_last()[i] == s[i]);
        }
        lemma_snafu_bound(s.drop_last());
        assert(snafu_char(s.last()));
    }
}

proof fn lemma_val_le_push(s: Seq<char>, c: char)
    ensures
        snafu_val_le(s.push(c)) == snafu_val_le(s) + snafu_digit(c) * pow5(s.len()),
    decreases s.len(),
{
    if s.len() == 0 {
        assert(s.push(c)[0] == c);
        assert(s.push(c).drop_first() =~= Seq::<char>::empty());
        assert(snafu_val_le(s.push(c).drop_first()) == 0);
        assert(snafu_val_le(s.push(c)) == snafu_digit(c) + 5 * 0);
        assert(snafu_val_le(s) == 0);
        assert(pow5(s.len()) == 1);
    } else {
        assert(s.push(c).drop_first() =~= s.drop_first().push(c));
        lemma_val_le_push(s.drop_first(), c);
        assert(s.push(c)[0] == s[0]);
        assert(5 * (snafu_val_le(s.drop_first()) + snafu_digit(c) * pow5(s.drop_first().len()))
            == 5 * snafu_val_le(s.drop_first()) + snafu_digit(c) * (5 * pow5(
            s.drop_first().len(),
        ))) by (nonlinear_arith);
        assert(pow5(s.len()) == 5 * pow5(s.drop_first().len()));
    }
}

proof fn lemma_val_le_reverse(s: Seq<char>)
    ensures
        snafu_val(s.reverse()) == snafu_val_le(s),
    decreases s.len(),
{
    if s.len() > 0 {
        assert(s.reverse().drop_last() =~= s.drop_first().reverse());
        assert(s.reverse().last() == s[0]);
        lemma_val_le_reverse(s.drop_first());
    }
}

/// The value of a SNAFU numeral of at most twenty-six digits.
fn snafu_to_int(cs: &Vec<char>) -> (r: i64)
    requires
        all_snafu(cs@),
        cs@.len() <= 26,
    ensures
        r == snafu_val(cs@),
{
    let n = cs.len();
    let mut acc: i64 = 0;
    let mut k: usize = 0;
    while k < n
        invariant
            n == cs@.len(),
            n <= 26,
            all_snafu(cs@),
            k <= n,
            acc == snafu_val(cs@.take(k as int)),
            -(pow5(k as nat) - 1) <= 2 * acc <= pow5(k as nat) - 1,
        decreases n - k,
    {
        proof {
            assert(all_snafu(cs@.take(k + 1))) by {
                assert(forall|i: int| 0 <= i < k + 1 ==> cs@.take(k + 1)[i] == cs@[i]);
            }
            lemma_snafu_bound(cs@.take(k + 1));
            lemma_pow5_mono((k + 1) as nat, 26);
            reveal_with_fuel(pow5, 27);
            assert(pow5(26) == 1490116119384765625int);
            assert(cs@.take(k + 1).drop_last() =~= cs@.take(k as int));
            assert(cs@.take(k + 1).last() == cs@[k as int]);
        }
        let c = cs[k];
        let d: i64 = if c == '2' {
            2
        } else if c == '1' {
            1
        } else if c == '0' {
            0
        } else if c == '-' {
            -1
        } else {
            -2
        };
        acc = acc * 5 + d;
        k = k + 1;
    }
    proof {
        assert(cs@.take(n as int) =~= cs@);
    }
    acc
}

/// The sum of the values of the first `upto` input numerals.
pub open spec fn spec_total(lines: Seq<String>, upto: int) -> int
    decreases upto,
{
    if upto <= 0 {
        0
    } else {
        spec_total(lines, upto - 1) + snafu_val(lines[upto - 1]@)
    }
}

/// Sums the input numerals and writes the sum back as a SNAFU numeral.
/// A sum of zero or less comes out as the empty numeral.
pub fn part1(lines: &Vec<String>) -> (r: String)
    requires
        lines@.len() < 0x100_0000,
        forall|i: int|
            0 <= i < lines@.len() ==> all_snafu((#[trigger] lines@[i])@) && lines@[i]@.len() <= 26,
    ensures
        spec_total(lines@, lines@.len() as int) > 0 ==> snafu_val(r@) == spec_total(
            lines@,
            lines@.len() as int,
        ),
        spec_total(lines@, lines@.len() as int) <= 0 ==> r@ == Seq::<char>::empty(),
{
    let n = lines.len();
    let mut total: i128 = 0;
    let mut i: usize = 0;
    while i < n
        invariant
            n == lines@.len(),
            n < 0x100_0000,
            forall|i2: int|
                0 <= i2 < n ==> all_snafu((#[trigger] lines@[i2])@) && lines@[i2]@.len() <= 26,
            i <= n,
            total == spec_total(lines@, i as int),
            -(i * 0x2000_0000_0000_0000int) <= total <= i * 0x2000_0000_0000_0000int,
        decreases n - i,
    {
        let cs = chars_of(lines[i].as_str());
        let v = snafu_to_int(&cs);
        proof {
            lemma_snafu_bound(cs@);
            lemma_pow5_mono(cs@.len(), 26);
            reveal_with_fuel(pow5, 27);
            assert(pow5(26) == 1490116119384765625int);
            assert((i + 1) * 0x2000_0000_0000_0000int == i * 0x2000_0000_0000_0000int
                + 0x2000_0000_0000_0000int) by (nonlinear_arith);
            assert(i * 0x2000_0000_0000_0000int <= 0x100_0000int * 0x2000_0000_0000_0000int
                && -(0x100_0000int * 0x2000_0000_0000_0000int) <= -(i
                * 0x2000_0000_0000_0000int)) by (nonlinear_arith)
                requires
                    0 <= i <= 0x100_0000,
            ;
        }
        total = total + v as i128;
        i = i + 1;
    }
    let ghost n0 = total as int;
    if total <= 0 {
        return String::new();
    }
    let mut digits: Vec<char> = Vec::new();
    while total > 0
        invariant
            total >= 0,
            all_snafu(digits@),
            snafu_val_le(digits@) + total * pow5(digits@.len()) == n0,
        decreases total,
    {
        let rem: i128 = match total.checked_rem_euclid(5) {
            Some(r) => r,
            None => {
                proof {
                    assert(false);
                }
                0
            },
        };
        let div: i128 = total / 5;
        proof {
            assert(total == 5 * div + rem && 0 <= rem < 5);
        }
        let ghost digits_pre = digits@;
        let ghost total_pre = total as int;
        let nt: i128;
        let c: char;
        if rem == 0 {
            c = '0';
            nt = div;
        } else if rem == 1 {
            c = '1';
            nt = div;
        } else if rem == 2 {
            c = '2';
            nt = div;
        } else if rem == 3 {
            c = '=';
            nt = div + 1;
        } else {
            c = '-';
            nt = div + 1;
        }
        digits.push(c);
        total = nt;
        proof {
            lemma_val_le_push(digits_pre, c);
            assert(total_pre == 5 * (total as int) + snafu_digit(c));
            assert(pow5(digits@.len()) == 5 * pow5(digits_pre.len()));
            assert((5 * (total as int) + snafu_digit(c)) * pow5(digits_pre.len()) == snafu_digit(
                c,
            ) * pow5(digits_pre.len()) + (total as int) * (5 * pow5(digits_pre.len())))
                by (nonlinear_arith);
        }
    }
    proof {
        assert(snafu_val_le(digits@) == n0);
        lemma_val_le_reverse(digits@);
    }
    let m = digits.len();
    let mut out = String::new();
    let mut k: usize = 0;
    while k < m
        invariant
            m == digits@.len(),
            all_snafu(digits@),
            k <= m,
            out@ =~= digits@.reverse().take(k as int),
        decreases m - k,
    {
        let c = digits[m - 1 - k];
        proof {
            assert(digits@.reverse()[k as int] == digits@[m - 1 - k]);
            reveal_strlit("2");
            reveal_strlit("1");
            reveal_strlit("0");
            reveal_strlit("-");
            reveal_strlit("=");
        }
        if c == '2' {
            out.append("2");
        } else if c == '1' {
            out.append("1");
        } else if c == '0' {
            out.append("0");
        } else if c == '-' {
            out.append("-");
        } else {
            out.append("=");
        }
        proof {
            assert(out@ =~= digits@.reverse().take(k + 1));
        }
        k = k + 1;
    }
    proof {
        assert(out@ =~= digits@.reverse());
    }
    out
}

/// The second answer of the final day: there is nothing to compute.
pub fn part2(lines: &Vec<String>) -> (r: u32)
    ensures
        r == 0,
{
    let _ = lines.len();
    0
}

} // verus!
