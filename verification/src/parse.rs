//! Parsing of decimal integers from character sequences.

use vstd::prelude::*;

verus! {

use vstd::string::StrSliceExecFns;

/// A decimal digit.
pub open spec fn is_digit(c: char) -> bool {
    '0' <= c <= '9'
}

/// The value of a decimal digit.
pub open spec fn digit_val(c: char) -> int {
    c as int - '0' as int
}

/// The value of a digit string, most significant first.
pub open spec fn digits_val(s: Seq<char>) -> int
    decreases s.len(),
{
    if s.len() == 0 {
        0
    } else {
        digits_val(s.drop_last()) * 10 + digit_val(s.last())
    }
}

/// A non-empty, all-digit string.
pub open spec fn is_uint_str(s: Seq<char>) -> bool {
    s.len() >= 1 && forall|i: int| 0 <= i < s.len() ==> is_digit(#[trigger] s[i])
}

/// A non-empty integer string: an optional leading minus, then digits.
pub open spec fn is_int_str(s: Seq<char>) -> bool {
    if s.len() >= 1 && s[0] == '-' {
        is_uint_str(s.skip(1))
    } else {
        is_uint_str(s)
    }
}

/// The value of an integer string.
pub open spec fn int_val(s: Seq<char>) -> int {
    if s.len() >= 1 && s[0] == '-' {
        -digits_val(s.skip(1))
    } else {
        digits_val(s)
    }
}

proof fn lemma_digits_val_nonneg(s: Seq<char>)
    requires
        forall|i: int| 0 <= i < s.len() ==> is_digit(#[trigger] s[i]),
    ensures
        digits_val(s) >= 0,
    decreases s.len(),
{
    if s.len() > 0 {
        assert(forall|i: int|
            0 <= i < s.drop_last().len() ==> is_digit(#[trigger] s.drop_last()[i]));
        lemma_digits_val_nonneg(s.drop_last());
    }
}

proof fn lemma_digits_val_take(s: Seq<char>, i: int)
    requires
        forall|k: int| 0 <= k < s.len() ==> is_digit(#[trigger] s[k]),
        0 <= i <= s.len(),
    ensures
        digits_val(s.take(i)) <= digits_val(s),
    decreases s.len(),
{
    lemma_digits_val_nonneg(s);
    if i < s.len() && s.len() > 0 {
        assert(forall|k: int|
            0 <= k < s.drop_last().len() ==> is_digit(#[trigger] s.drop_last()[k]));
        lemma_digits_val_take(s.drop_last(), i);
        assert(s.drop_last().take(i) =~= s.take(i));
        lemma_digits_val_nonneg(s.drop_last());
    } else {
        assert(s.take(i) =~= s);
    }
}

/// Reads a whole character sequence as an unsigned decimal number.
/// Succeeds exactly on non-empty all-digit strings whose value fits.
pub fn parse_u64(s: &Vec<char>) -> (r: Option<u64>)
    ensures
        match r {
            Some(v) => is_uint_str(s@) && v as int == digits_val(s@),
            None => !is_uint_str(s@) || digits_val(s@) > u64::MAX,
        },
{
    if s.len() == 0 {
        return None;
    }
    let mut val: u64 = 0;
    let mut i: usize = 0;
    while i < s.len()
        invariant
            i <= s@.len(),
            s@.len() >= 1,
            forall|k: int| 0 <= k < i ==> is_digit(#[trigger] s@[k]),
            val as int == digits_val(s@.take(i as int)),
        decreases s@.len() - i,
    {
        let c = s[i];
        if !('0' <= c && c <= '9') {
            return None;
        }
        let d: u64 = (c as u32 as u64) - 48;
        proof {
            assert(d == digit_val(s@[i as int]));
        }
        if val > (u64::MAX - d) / 10 {
            proof {
                assert(val * 10 + d > u64::MAX) by (nonlinear_arith)
                    requires
                        val > (u64::MAX - d) / 10,
                        0 <= d <= 9,
                ;
                assert(s@.take(i as int + 1).drop_last() =~= s@.take(i as int));
                assert(s@.take(i as int + 1).last() == s@[i as int]);
                assert(digits_val(s@.take(i as int + 1)) > u64::MAX);
                if is_uint_str(s@) {
                    lemma_digits_val_take(s@, i as int + 1);
                }
            }
            return None;
        }
        proof {
            assert(val * 10 + d <= u64::MAX) by (nonlinear_arith)
                requires
                    val <= (u64::MAX - d) / 10,
                    0 <= d <= 9,
            ;
            assert(s@.take(i as int + 1).drop_last() =~= s@.take(i as int));
            assert(s@.take(i as int + 1).last() == s@[i as int]);
        }
        val = val * 10 + d;
        i = i + 1;
    }
    proof {
        assert(s@.take(i as int) =~= s@);
    }
    Some(val)
}

/// Reads a whole character sequence as a signed decimal number.  Succeeds
/// exactly on integer strings whose value fits in an `i64`.
pub fn parse_i64(s: &Vec<char>) -> (r: Option<i64>)
    ensures
        match r {
            Some(v) => is_int_str(s@) && v as int == int_val(s@),
            None => !is_int_str(s@) || int_val(s@) > i64::MAX || int_val(s@) < i64::MIN,
        },
{
    if s.len() >= 1 && s[0] == '-' {
        let mut digits: Vec<char> = Vec::new();
        let mut i: usize = 1;
        while i < s.len()
            invariant
                1 <= i <= s@.len(),
                digits@ =~= s@.skip(1).take(i - 1),
            decreases s@.len() - i,
        {
            digits.push(s[i]);
            proof {
                assert(digits@ =~= s@.skip(1).take(i as int));
            }
            i = i + 1;
        }
        proof {
            assert(digits@ =~= s@.skip(1));
        }
        match parse_u64(&digits) {
            Some(v) => {
                if v == 0x8000_0000_0000_0000u64 {
                    Some(i64::MIN)
                } else if v < 0x8000_0000_0000_0000u64 {
                    Some(-(v as i64))
                } else {
                    None
                }
            },
            None => {
                proof {
                    if is_int_str(s@) {
                        assert(forall|k: int|
                            0 <= k < s@.skip(1).len() ==> is_digit(#[trigger] s@.skip(1)[k]));
                        lemma_digits_val_nonneg(s@.skip(1));
                    }
                }
                None
            },
        }
    } else {
        match parse_u64(s) {
            Some(v) => {
                if v <= i64::MAX as u64 {
                    Some(v as i64)
                } else {
                    None
                }
            },
            None => None,
        }
    }
}

/// Character-for-character equality of two string slices.
pub fn str_eq(a: &str, b: &str) -> (r: bool)
    ensures
        r == (a@ == b@),
{
    let la = a.unicode_len();
    let lb = b.unicode_len();
    if la != lb {
        return false;
    }
    let mut i: usize = 0;
    while i < la
        invariant
            la == a@.len(),
            la == b@.len(),
            i <= la,
            forall|k: int| 0 <= k < i ==> a@[k] == b@[k],
        decreases la - i,
    {
        if a.get_char(i) != b.get_char(i) {
            return false;
        }
        i = i + 1;
    }
    proof {
        assert(a@ =~= b@);
    }
    true
}

/// The first position at or after `from` that holds no digit.
pub open spec fn digits_end(s: Seq<char>, from: int) -> int
    decreases s.len() - from,
{
    if from < s.len() && from >= 0 && is_digit(s[from]) {
        digits_end(s, from + 1)
    } else {
        from
    }
}


/// The integer token starting at `from`: its value and its end, or `None`
/// when no digit follows the optional minus sign.
pub open spec fn spec_int_at(s: Seq<char>, from: int) -> Option<(int, int)> {
    let start = if from < s.len() && from >= 0 && s[from] == '-' {
        from + 1
    } else {
        from
    };
    let end = digits_end(s, start);
    if end == start {
        None
    } else {
        Some((int_val(s.subrange(from, end)), end))
    }
}


/// The literal `lit` stands at position `at` of `s`.
pub open spec fn lit_at(s: Seq<char>, lit: Seq<char>, at: int) -> bool {
    0 <= at && at + lit.len() <= s.len() && s.subrange(at, at + lit.len()) == lit
}


/// Whether the literal `lit` stands at position `at`.
pub fn lit_match(s: &Vec<char>, at: usize, lit: &str) -> (r: bool)
    requires
        at <= s@.len(),
    ensures
        r == lit_at(s@, lit@, at as int),
{
    let lv = chars_of(lit);
    let ll = lv.len();
    if s.len() - at < ll {
        proof {
            assert(!lit_at(s@, lit@, at as int));
        }
        return false;
    }
    let mut k: usize = 0;
    while k < ll
        invariant
            ll == lit@.len(),
            lv@ == lit@,
            at + ll <= s@.len() <= usize::MAX,
            k <= ll,
            forall|j: int| 0 <= j < k ==> s@[at + j] == lit@[j],
        decreases ll - k,
    {
        if s[at + k] != lv[k] {
            proof {
                assert(s@.subrange(at as int, at + ll)[k as int] == s@[at + k]);
            }
            return false;
        }
        k = k + 1;
    }
    proof {
        assert(s@.subrange(at as int, at + ll) =~= lit@);
    }
    true
}


/// Reads the integer token at `at`: its value and its end.  `None` when no
/// token starts there or its value does not fit an `i64`.
pub fn scan_int(s: &Vec<char>, at: usize) -> (r: Option<(i64, usize)>)
    requires
        at <= s@.len(),
    ensures
        match r {
            Some((v, e)) => {
                &&& spec_int_at(s@, at as int) == Some((v as int, e as int))
                &&& at < e <= s@.len()
            },
            None => spec_int_at(s@, at as int) is None || !(i64::MIN <= spec_int_at(
                s@,
                at as int,
            ).unwrap().0 <= i64::MAX),
        },
{
    let start: usize = if at < s.len() && s[at] == '-' {
        at + 1
    } else {
        at
    };
    let mut e: usize = start;
    while e < s.len() && '0' <= s[e] && s[e] <= '9'
        invariant
            start <= e <= s@.len(),
            digits_end(s@, start as int) == digits_end(s@, e as int),
            forall|j: int| start <= j < e ==> is_digit(#[trigger] s@[j]),
        decreases s@.len() - e,
    {
        e = e + 1;
    }
    proof {
        assert(digits_end(s@, e as int) == e);
        assert(digits_end(s@, start as int) == e);
    }
    if e == start {
        return None;
    }
    let mut token: Vec<char> = Vec::new();
    let mut k: usize = at;
    while k < e
        invariant
            at <= k <= e,
            e <= s@.len(),
            token@ =~= s@.subrange(at as int, k as int),
        decreases e - k,
    {
        token.push(s[k]);
        proof {
            assert(token@ =~= s@.subrange(at as int, k + 1));
        }
        k = k + 1;
    }
    proof {
        assert(token@ =~= s@.subrange(at as int, e as int));
    }
    match parse_i64(&token) {
        Some(v) => Some((v, e)),
        None => {
            proof {
                lemma_token_int_str(s@, at as int, start as int, e as int);
            }
            None
        },
    }
}


proof fn lemma_token_int_str(s: Seq<char>, at: int, start: int, e: int)
    requires
        0 <= at <= start <= e <= s.len(),
        start == at || (start == at + 1 && s[at] == '-'),
        start < e,
        forall|j: int| start <= j < e ==> is_digit(#[trigger] s[j]),
    ensures
        is_int_str(s.subrange(at, e)),
{
    let tok = s.subrange(at, e);
    if start == at + 1 {
        assert(tok[0] == '-');
        assert(forall|j: int| 0 <= j < tok.skip(1).len() ==> is_digit(#[trigger] tok.skip(1)[j]));
    } else {
        assert(forall|j: int| 0 <= j < tok.len() ==> is_digit(#[trigger] tok[j]));
    }
}


pub proof fn lemma_digits_end_ge(s: Seq<char>, from: int)
    ensures
        digits_end(s, from) >= from,
    decreases s.len() - from,
{
    if from < s.len() && from >= 0 && is_digit(s[from]) {
        lemma_digits_end_ge(s, from + 1);
    }
}

/// The unsigned integer token starting at `from`: its value and its end,
/// or `None` when no digit stands there.
pub open spec fn spec_uint_at(s: Seq<char>, from: int) -> Option<(int, int)> {
    let end = digits_end(s, from);
    if end == from {
        None
    } else {
        Some((digits_val(s.subrange(from, end)), end))
    }
}

/// Reads the unsigned integer token at `at`: its value and its end.
/// `None` when no token starts there or its value does not fit a `u64`.
pub fn scan_uint(s: &Vec<char>, at: usize) -> (r: Option<(u64, usize)>)
    requires
        at <= s@.len(),
    ensures
        match r {
            Some((v, e)) => {
                &&& spec_uint_at(s@, at as int) == Some((v as int, e as int))
                &&& at < e <= s@.len()
            },
            None => spec_uint_at(s@, at as int) is None || spec_uint_at(s@, at as int).unwrap().0
                > u64::MAX,
        },
{
    let mut e: usize = at;
    while e < s.len() && '0' <= s[e] && s[e] <= '9'
        invariant
            at <= e <= s@.len(),
            digits_end(s@, at as int) == digits_end(s@, e as int),
            forall|j: int| at <= j < e ==> is_digit(#[trigger] s@[j]),
        decreases s@.len() - e,
    {
        e = e + 1;
    }
    proof {
        assert(digits_end(s@, e as int) == e);
    }
    if e == at {
        return None;
    }
    let mut token: Vec<char> = Vec::new();
    let mut k: usize = at;
    while k < e
        invariant
            at <= k <= e,
            e <= s@.len(),
            token@ =~= s@.subrange(at as int, k as int),
        decreases e - k,
    {
        token.push(s[k]);
        proof {
            assert(token@ =~= s@.subrange(at as int, k + 1));
        }
        k = k + 1;
    }
    proof {
        assert(token@ =~= s@.subrange(at as int, e as int));
        assert(is_uint_str(token@));
    }
    match parse_u64(&token) {
        Some(v) => Some((v, e)),
        None => None,
    }
}

/// The characters of a string slice.
pub fn chars_of(s: &str) -> (v: Vec<char>)
    ensures
        v@ == s@,
{
    let len = s.unicode_len();
    let mut v: Vec<char> = Vec::new();
    let mut i: usize = 0;
    while i < len
        invariant
            len == s@.len(),
            i <= len,
            v@ =~= s@.take(i as int),
        decreases len - i,
    {
        v.push(s.get_char(i));
        proof {
            assert(v@ =~= s@.take(i + 1));
        }
        i = i + 1;
    }
    proof {
        assert(v@ =~= s@);
    }
    v
}

} // verus!
