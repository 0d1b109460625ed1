//! Start-of-message detection in a character stream.
//!
//! The marker position is one past the first index at which the last
//! `pattern_length` characters are pairwise distinct; zero when no such
//! window exists.

use vstd::prelude::*;

verus! {

use crate::parse::chars_of;

/// The `len` characters ending at `idx` are pairwise distinct.
pub open spec fn window_ok(s: Seq<char>, idx: int, len: int) -> bool {
    forall|a: int, b: int|
        idx + 1 - len <= a < b <= idx ==> (#[trigger] s[a]) != (#[trigger] s[b])
}

/// The marker scan from `idx` on: the first position one past a distinct
/// window, or zero.
pub open spec fn spec_detect(s: Seq<char>, len: int, idx: int) -> int
    decreases s.len() - idx,
{
    if idx < 0 || idx >= s.len() {
        0
    } else if idx >= len && window_ok(s, idx, len) {
        idx + 1
    } else {
        spec_detect(s, len, idx + 1)
    }
}

/// Whether the `len` characters of `cs` ending at `idx` are pairwise
/// distinct.
fn window_distinct(cs: &Vec<char>, idx: usize, len: usize) -> (r: bool)
    requires
        len >= 1,
        len <= idx < cs@.len(),
    ensures
        r == window_ok(cs@, idx as int, len as int),
{
    let n = cs.len();
    let lo = idx - (len - 1);
    let mut a: usize = lo;
    while a < idx
        invariant
            n == cs@.len(),
            lo == idx + 1 - len,
            lo <= a <= idx,
            idx < n,
            forall|x: int, y: int|
                lo <= x < y <= idx && x < a ==> (#[trigger] cs@[x]) != (#[trigger] cs@[y]),
        decreases idx - a,
    {
        let mut b: usize = a + 1;
        while b <= idx
            invariant
                n == cs@.len(),
                lo == idx + 1 - len,
                lo <= a < b,
                b <= idx + 1,
                idx < n,
                forall|y: int| a < y < b ==> cs@[a as int] != (#[trigger] cs@[y]),
            decreases idx + 1 - b,
        {
            if cs[a] == cs[b] {
                proof {
                    assert(cs@[a as int] == cs@[b as int]);
                }
                return false;
            }
            b = b + 1;
        }
        a = a + 1;
    }
    true
}

/// One past the first position at which the last `pattern_length`
/// characters of `payload` are pairwise distinct; zero when none is.
pub fn detect_pattern(pattern_length: usize, payload: &str) -> (r: u32)
    requires
        pattern_length >= 1,
        payload@.len() < 0x8000_0000,
    ensures
        r == spec_detect(payload@, pattern_length as int, 0),
{
    let cs = chars_of(payload);
    let n = cs.len();
    let mut idx: usize = 0;
    while idx < n
        invariant
            cs@ == payload@,
            n == cs@.len(),
            n < 0x8000_0000,
            pattern_length >= 1,
            idx <= n,
            spec_detect(payload@, pattern_length as int, 0) == spec_detect(
                payload@,
                pattern_length as int,
                idx as int,
            ),
        decreases n - idx,
    {
        if idx >= pattern_length {
            if window_distinct(&cs, idx, pattern_length) {
                return (idx + 1) as u32;
            }
        }
        idx = idx + 1;
    }
    0
}

/// The start-of-packet marker: a distinct window of four.
pub fn part1(lines: &Vec<String>) -> (r: u32)
    requires
        lines@.len() >= 1,
        lines@[0]@.len() < 0x8000_0000,
    ensures
        r == spec_detect(lines@[0]@, 4, 0),
{
    let line = &lines[0];
    detect_pattern(4, line.as_str())
}

/// The start-of-message marker: a distinct window of fourteen.
pub fn part2(lines: &Vec<String>) -> (r: u32)
    requires
        lines@.len() >= 1,
        lines@[0]@.len() < 0x8000_0000,
    ensures
        r == spec_detect(lines@[0]@, 14, 0),
{
    let line = &lines[0];
    detect_pattern(14, line.as_str())
}

} // verus!
