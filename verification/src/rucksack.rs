//! Priorities of misplaced rucksack items.
//!
//! Lowercase items score one to twenty-six, uppercase twenty-seven to
//! fifty-two.  The first total sums, per line, the priority of the first
//! item of the second half that also occurs in the first half; the second
//! total sums, per group of three lines, the priority of the badge item
//! common to all three.

use vstd::prelude::*;

verus! {

use crate::parse::chars_of;

/// A letter item.
pub open spec fn letter(c: char) -> bool {
    ('a' <= c && c <= 'z') || ('A' <= c && c <= 'Z')
}

/// The priority of an item.
pub open spec fn spec_priority(c: char) -> int {
    if 'A' <= c && c <= 'Z' {
        27 + c as int - 'A' as int
    } else {
        1 + c as int - 'a' as int
    }
}

/// The priority of an item: `a`..`z` score one to twenty-six, `A`..`Z`
/// twenty-seven to fifty-two.
pub fn get_item_priority(item: char) -> (r: u32)
    requires
        letter(item),
    ensures
        r == spec_priority(item),
        1 <= r <= 52,
{
    let v = item as u32;
    if 65 <= v && v <= 90 {
        27 + v - 65
    } else {
        1 + v - 97
    }
}

/// The first item of `right` that also occurs in `left`.
pub open spec fn first_shared(left: Seq<char>, right: Seq<char>) -> Option<char>
    decreases right.len(),
{
    if right.len() == 0 {
        None
    } else if left.contains(right[0]) {
        Some(right[0])
    } else {
        first_shared(left, right.drop_first())
    }
}

/// What one line adds to the first total: the priority of the first item
/// of its second half that also occurs in its first half, if any.
pub open spec fn spec_line_score(line: Seq<char>) -> int {
    let h = line.len() as int / 2;
    match first_shared(line.take(h), line.skip(h)) {
        None => 0,
        Some(c) => spec_priority(c),
    }
}

/// The first total over the first `upto` lines.
pub open spec fn spec_part1_sum(lines: Seq<String>, upto: int) -> int
    decreases upto,
{
    if upto <= 0 {
        0
    } else {
        spec_part1_sum(lines, upto - 1) + spec_line_score(lines[upto - 1]@)
    }
}

/// Scans `right` for the first item that occurs in `left`.
fn find_shared(left: &Vec<char>, right: &Vec<char>) -> (r: Option<char>)
    ensures
        r == first_shared(left@, right@),
{
    let mut k: usize = 0;
    proof {
        assert(right@.skip(0) =~= right@);
    }
    while k < right.len()
        invariant
            k <= right@.len(),
            first_shared(left@, right@) == first_shared(left@, right@.skip(k as int)),
        decreases right@.len() - k,
    {
        let c = right[k];
        let mut j: usize = 0;
        let mut found = false;
        while j < left.len()
            invariant
                j <= left@.len(),
                found <==> exists|x: int| 0 <= x < j && left@[x] == c,
            decreases left@.len() - j,
        {
            if left[j] == c {
                found = true;
                proof {
                    assert(left@[j as int] == c);
                }
            }
            j = j + 1;
        }
        proof {
            assert(found <==> left@.contains(c));
            assert(right@.skip(k as int)[0] == c);
        }
        if found {
            return Some(c);
        }
        proof {
            assert(right@.skip(k as int).drop_first() =~= right@.skip(k + 1));
        }
        k = k + 1;
    }
    proof {
        assert(right@.skip(k as int).len() == 0);
    }
    None
}

/// Sum over all lines of the priority of the first item of the second half
/// that also occurs in the first half.
pub fn part1(lines: &Vec<String>) -> (r: u32)
    requires
        lines@.len() < 0x100_0000,
        forall|i: int, j: int|
            0 <= i < lines@.len() && 0 <= j < lines@[i]@.len() ==> letter(#[trigger] lines@[i]@[j]),
    ensures
        r == spec_part1_sum(lines@, lines@.len() as int),
{
    let n = lines.len();
    let mut total: u32 = 0;
    let mut i: usize = 0;
    while i < n
        invariant
            n == lines@.len(),
            n < 0x100_0000,
            forall|i2: int, j: int|
                0 <= i2 < n && 0 <= j < lines@[i2]@.len() ==> letter(#[trigger] lines@[i2]@[j]),
            i <= n,
            total == spec_part1_sum(lines@, i as int),
            total <= 52 * i,
        decreases n - i,
    {
        let cs = chars_of(lines[i].as_str());
        let h = cs.len() / 2;
        let mut left: Vec<char> = Vec::new();
        let mut k: usize = 0;
        while k < h
            invariant
                h <= cs@.len(),
                k <= h,
                left@ =~= cs@.take(h as int).take(k as int),
            decreases h - k,
        {
            left.push(cs[k]);
            proof {
                assert(left@ =~= cs@.take(h as int).take(k + 1));
            }
            k = k + 1;
        }
        let mut right: Vec<char> = Vec::new();
        let mut k: usize = h;
        while k < cs.len()
            invariant
                h <= cs@.len(),
                h <= k <= cs@.len(),
                right@ =~= cs@.skip(h as int).take(k - h),
            decreases cs@.len() - k,
        {
            right.push(cs[k]);
            proof {
                assert(right@ =~= cs@.skip(h as int).take(k + 1 - h));
            }
            k = k + 1;
        }
        proof {
            assert(left@ =~= cs@.take(h as int));
            assert(right@ =~= cs@.skip(h as int));
        }
        match find_shared(&left, &right) {
            Some(c) => {
                proof {
                    assert(right@.contains(c)) by {
                        lemma_first_shared_contains(left@, right@);
                    }
                    let x = choose|x: int| 0 <= x < right@.len() && right@[x] == c;
                    assert(cs@[h + x] == c);
                    assert(letter(c));
                }
                total = total + get_item_priority(c);
            },
            None => {},
        }
        i = i + 1;
    }
    total
}

proof fn lemma_first_shared_contains(left: Seq<char>, right: Seq<char>)
    ensures
        match first_shared(left, right) {
            Some(c) => right.contains(c) && left.contains(c),
            None => true,
        },
    decreases right.len(),
{
    if right.len() > 0 {
        if left.contains(right[0]) {
        } else {
            lemma_first_shared_contains(left, right.drop_first());
            match first_shared(left, right.drop_first()) {
                Some(c) => {
                    let x = choose|x: int|
                        0 <= x < right.drop_first().len() && right.drop_first()[x] == c;
                    assert(right[x + 1] == c);
                },
                None => {},
            }
        }
    }
}

/// The first item of `l0` that occurs in both `l1` and `l2`.
pub open spec fn first_common(l0: Seq<char>, l1: Seq<char>, l2: Seq<char>) -> Option<char>
    decreases l0.len(),
{
    if l0.len() == 0 {
        None
    } else if l1.contains(l0[0]) && l2.contains(l0[0]) {
        Some(l0[0])
    } else {
        first_common(l0.drop_first(), l1, l2)
    }
}

/// The badge total over the first `upto` groups of three lines.
pub open spec fn spec_part2_sum(lines: Seq<String>, upto: int) -> int
    decreases upto,
{
    if upto <= 0 {
        0
    } else {
        spec_part2_sum(lines, upto - 1) + match first_common(
            lines[3 * (upto - 1)]@,
            lines[3 * (upto - 1) + 1]@,
            lines[3 * (upto - 1) + 2]@,
        ) {
            None => 0,
            Some(c) => spec_priority(c),
        }
    }
}

/// Scans `l0` for the first item that occurs in both `l1` and `l2`.
fn find_common(l0: &Vec<char>, l1: &Vec<char>, l2: &Vec<char>) -> (r: Option<char>)
    ensures
        r == first_common(l0@, l1@, l2@),
{
    let mut k: usize = 0;
    proof {
        assert(l0@.skip(0) =~= l0@);
    }
    while k < l0.len()
        invariant
            k <= l0@.len(),
            first_common(l0@, l1@, l2@) == first_common(l0@.skip(k as int), l1@, l2@),
        decreases l0@.len() - k,
    {
        let c = l0[k];
        let in1 = contains_char(l1, c);
        let in2 = contains_char(l2, c);
        proof {
            assert(l0@.skip(k as int)[0] == c);
        }
        if in1 && in2 {
            return Some(c);
        }
        proof {
            assert(l0@.skip(k as int).drop_first() =~= l0@.skip(k + 1));
        }
        k = k + 1;
    }
    proof {
        assert(l0@.skip(k as int).len() == 0);
    }
    None
}

/// Whether `c` occurs in `v`.
fn contains_char(v: &Vec<char>, c: char) -> (r: bool)
    ensures
        r == v@.contains(c),
{
    let mut j: usize = 0;
    while j < v.len()
        invariant
            j <= v@.len(),
            forall|x: int| 0 <= x < j ==> v@[x] != c,
        decreases v@.len() - j,
    {
        if v[j] == c {
            proof {
                assert(v@[j as int] == c);
            }
            return true;
        }
        j = j + 1;
    }
    false
}

/// Sum over each group of three lines of the priority of the badge item
/// common to all three; a trailing partial group is ignored.
pub fn part2(lines: &Vec<String>) -> (r: u32)
    requires
        lines@.len() < 0x100_0000,
        forall|i: int, j: int|
            0 <= i < lines@.len() && 0 <= j < lines@[i]@.len() ==> letter(#[trigger] lines@[i]@[j]),
    ensures
        r == spec_part2_sum(lines@, lines@.len() as int / 3),
{
    let n = lines.len();
    let groups = n / 3;
    let mut total: u32 = 0;
    let mut gi: usize = 0;
    while gi < groups
        invariant
            n == lines@.len(),
            n < 0x100_0000,
            groups == n / 3,
            forall|i2: int, j: int|
                0 <= i2 < n && 0 <= j < lines@[i2]@.len() ==> letter(#[trigger] lines@[i2]@[j]),
            gi <= groups,
            total == spec_part2_sum(lines@, gi as int),
            total <= 52 * gi,
        decreases groups - gi,
    {
        proof {
            assert(3 * gi + 2 < n) by (nonlinear_arith)
                requires
                    gi < n / 3,
                    n >= 0,
            ;
        }
        let l0 = chars_of(lines[3 * gi].as_str());
        let l1 = chars_of(lines[3 * gi + 1].as_str());
        let l2 = chars_of(lines[3 * gi + 2].as_str());
        match find_common(&l0, &l1, &l2) {
            Some(c) => {
                proof {
                    lemma_first_common_contains(l0@, l1@, l2@);
                    let x = choose|x: int| 0 <= x < l0@.len() && l0@[x] == c;
                    assert(letter(lines@[3 * gi]@[x]));
                }
                total = total + get_item_priority(c);
            },
            None => {},
        }
        gi = gi + 1;
    }
    total
}

proof fn lemma_first_common_contains(l0: Seq<char>, l1: Seq<char>, l2: Seq<char>)
    ensures
        match first_common(l0, l1, l2) {
            Some(c) => l0.contains(c),
            None => true,
        },
    decreases l0.len(),
{
    if l0.len() > 0 {
        if l1.contains(l0[0]) && l2.contains(l0[0]) {
        } else {
            lemma_first_common_contains(l0.drop_first(), l1, l2);
            match first_common(l0.drop_first(), l1, l2) {
                Some(c) => {
                    let x = choose|x: int|
                        0 <= x < l0.drop_first().len() && l0.drop_first()[x] == c;
                    assert(l0[x + 1] == c);
                },
                None => {},
            }
        }
    }
}

} // verus!
