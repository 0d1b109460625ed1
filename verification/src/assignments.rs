//! Cleaning section assignments of elf pairs.
//!
//! Each line holds two ranges, `a-b,c-d`.  The answers count the lines
//! where one range fully contains the other, and the lines where the two
//! ranges overlap at all.

use vstd::prelude::*;

verus! {

use crate::parse::{chars_of, scan_uint, spec_uint_at};

#[derive(PartialEq, Eq, Structural, Clone, Copy, Debug)]
pub struct Assignement {
    pub start: u64,
    pub end: u64,
}

impl Assignement {
    /// The number of sections assigned.
    pub fn size(&self) -> (r: u64)
        requires
            self.start <= self.end,
            self.end - self.start < u64::MAX,
        ensures
            r == self.end - self.start + 1,
    {
        self.end - self.start + 1
    }

    /// Whether every section of `other` is also in `self`.
    pub fn fully_contains(&self, other: &Assignement) -> (r: bool)
        ensures
            r == (self.start <= other.start && self.end >= other.end),
    {
        self.start <= other.start && self.end >= other.end
    }

    /// Whether the two ranges share a section.
    pub fn overlaps_with(&self, other: &Assignement) -> (r: bool)
        ensures
            r == spec_overlaps(*self, *other),
    {
        if self.start <= other.start {
            other.start <= self.end
        } else {
            self.start <= other.end
        }
    }
}

/// The later-starting range begins no later than the earlier one ends.
pub open spec fn spec_overlaps(a: Assignement, b: Assignement) -> bool {
    if a.start <= b.start {
        b.start <= a.end
    } else {
        a.start <= b.end
    }
}

/// The range token at `from`: two numbers joined by a dash, and where it
/// ends.
pub open spec fn spec_range_at(s: Seq<char>, from: int) -> Option<(Assignement, int)> {
    match spec_uint_at(s, from) {
        None => None,
        Some((a, p)) => if !(a <= u64::MAX) || !(p < s.len() && s[p] == '-') {
            None
        } else {
            match spec_uint_at(s, p + 1) {
                None => None,
                Some((b, e)) => if !(b <= u64::MAX) {
                    None
                } else {
                    Some((Assignement { start: a as u64, end: b as u64 }, e))
                },
            }
        },
    }
}

/// What an assignment line means: two ranges joined by a comma, nothing
/// after, both ranges ascending with sizes short of the `u64` limit.
pub open spec fn spec_parse_line(s: Seq<char>) -> Option<(Assignement, Assignement)> {
    match spec_range_at(s, 0) {
        None => None,
        Some((first, p)) => if !(p < s.len() && s[p] == ',') {
            None
        } else {
            match spec_range_at(s, p + 1) {
                None => None,
                Some((second, e)) => if e != s.len() || !range_ok(first) || !range_ok(second) {
                    None
                } else {
                    Some((first, second))
                },
            }
        },
    }
}

/// An ascending range whose size fits.
pub open spec fn range_ok(a: Assignement) -> bool {
    a.start <= a.end && a.end - a.start < u64::MAX
}

/// Reads the range token at `from`.
fn scan_range(s: &Vec<char>, from: usize) -> (r: Option<(Assignement, usize)>)
    requires
        from <= s@.len(),
    ensures
        match r {
            Some((a, e)) => spec_range_at(s@, from as int) == Some((a, e as int)) && from < e
                <= s@.len(),
            None => spec_range_at(s@, from as int) is None,
        },
{
    let (a, p) = match scan_uint(s, from) {
        Some((v, e)) => (v, e),
        None => {
            return None;
        },
    };
    if !(p < s.len() && s[p] == '-') {
        return None;
    }
    let (b, e) = match scan_uint(s, p + 1) {
        Some((v, e)) => (v, e),
        None => {
            return None;
        },
    };
    Some((Assignement { start: a, end: b }, e))
}

/// Reads one line as its two ranges.
pub fn parse_line(s: &str) -> (r: Option<(Assignement, Assignement)>)
    ensures
        r == spec_parse_line(s@),
{
    let cs = chars_of(s);
    let (first, p) = match scan_range(&cs, 0) {
        Some(x) => x,
        None => {
            return None;
        },
    };
    if !(p < cs.len() && cs[p] == ',') {
        return None;
    }
    let (second, e) = match scan_range(&cs, p + 1) {
        Some(x) => x,
        None => {
            return None;
        },
    };
    if e != cs.len() {
        return None;
    }
    if !(first.start <= first.end && first.end - first.start < u64::MAX) {
        return None;
    }
    if !(second.start <= second.end && second.end - second.start < u64::MAX) {
        return None;
    }
    Some((first, second))
}

/// Whether a line counts for the first total: the larger range fully
/// contains the smaller.
pub open spec fn spec_line_contained(a: Assignement, b: Assignement) -> bool {
    if a.end - a.start > b.end - b.start {
        a.start <= b.start && a.end >= b.end
    } else {
        b.start <= a.start && b.end >= a.end
    }
}

/// The first count over the first `upto` lines.
pub open spec fn spec_part1_count(lines: Seq<String>, upto: int) -> int
    decreases upto,
{
    if upto <= 0 {
        0
    } else {
        spec_part1_count(lines, upto - 1) + match spec_parse_line(lines[upto - 1]@) {
            None => 0,
            Some((a, b)) => if spec_line_contained(a, b) {
                1int
            } else {
                0int
            },
        }
    }
}

/// The second count over the first `upto` lines.
pub open spec fn spec_part2_count(lines: Seq<String>, upto: int) -> int
    decreases upto,
{
    if upto <= 0 {
        0
    } else {
        spec_part2_count(lines, upto - 1) + match spec_parse_line(lines[upto - 1]@) {
            None => 0,
            Some((a, b)) => if spec_overlaps(a, b) {
                1int
            } else {
                0int
            },
        }
    }
}

/// Counts the lines on which the larger range fully contains the smaller.
pub fn part1(lines: &Vec<String>) -> (r: u64)
    requires
        lines@.len() < 0x1000_0000_0000_0000,
        forall|i: int| 0 <= i < lines@.len() ==> spec_parse_line((#[trigger] lines@[i])@) is Some,
    ensures
        r == spec_part1_count(lines@, lines@.len() as int),
{
    let n = lines.len();
    let mut count: u64 = 0;
    let mut i: usize = 0;
    while i < n
        invariant
            n == lines@.len(),
            n < 0x1000_0000_0000_0000,
            forall|i2: int|
                0 <= i2 < n ==> spec_parse_line((#[trigger] lines@[i2])@) is Some,
            i <= n,
            count == spec_part1_count(lines@, i as int),
            count <= i,
        decreases n - i,
    {
        let (first, second) = match parse_line(lines[i].as_str()) {
            Some(x) => x,
            None => {
                proof {
                    assert(false);
                }
                (Assignement { start: 0, end: 0 }, Assignement { start: 0, end: 0 })
            },
        };
        let hit = if first.size() > second.size() {
            first.fully_contains(&second)
        } else {
            second.fully_contains(&first)
        };
        if hit {
            count = count + 1;
        }
        i = i + 1;
    }
    count
}

/// Counts the lines on which the two ranges overlap.
pub fn part2(lines: &Vec<String>) -> (r: u64)
    requires
        lines@.len() < 0x1000_0000_0000_0000,
        forall|i: int| 0 <= i < lines@.len() ==> spec_parse_line((#[trigger] lines@[i])@) is Some,
    ensures
        r == spec_part2_count(lines@, lines@.len() as int),
{
    let n = lines.len();
    let mut count: u64 = 0;
    let mut i: usize = 0;
    while i < n
        invariant
            n == lines@.len(),
            n < 0x1000_0000_0000_0000,
            forall|i2: int|
                0 <= i2 < n ==> spec_parse_line((#[trigger] lines@[i2])@) is Some,
            i <= n,
            count == spec_part2_count(lines@, i as int),
            count <= i,
        decreases n - i,
    {
        let (first, second) = match parse_line(lines[i].as_str()) {
            Some(x) => x,
            None => {
                proof {
                    assert(false);
                }
                (Assignement { start: 0, end: 0 }, Assignement { start: 0, end: 0 })
            },
        };
        if first.overlaps_with(&second) {
            count = count + 1;
        }
        i = i + 1;
    }
    count
}

} // verus!
