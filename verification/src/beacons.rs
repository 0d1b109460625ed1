//! Sensors and beacons on a grid.
//!
//! Each input line reports a sensor and the beacon closest to it, in
//! taxicab distance.  On a given row, every position no farther from some
//! sensor than that sensor's beacon cannot hold another beacon; those
//! exclusion zones become intervals on the row, and the answers are the
//! size of their union and the first gap inside them.

use vstd::prelude::*;

verus! {

use crate::parse::{chars_of, lit_at, lit_match, scan_int, spec_int_at};

#[derive(PartialEq, Eq, Structural, Clone, Copy, Debug)]
pub struct Pos {
    pub x: i32,
    pub y: i32,
}

#[derive(PartialEq, Eq, Structural, Clone, Copy, Debug)]
pub struct Pair {
    pub sensor: Pos,
    pub beacon: Pos,
}

/// The taxicab distance between two positions.
pub open spec fn spec_distance(a: Pos, b: Pos) -> int {
    vstd::math::abs(a.x - b.x) as int + vstd::math::abs(a.y - b.y) as int
}

/// The taxicab distance between two positions.
pub fn distance(a: Pos, b: Pos) -> (r: u32)
    requires
        spec_distance(a, b) <= u32::MAX,
    ensures
        r == spec_distance(a, b),
{
    let dx: i64 = a.x as i64 - b.x as i64;
    let dy: i64 = a.y as i64 - b.y as i64;
    let ax: i64 = if dx >= 0 {
        dx
    } else {
        -dx
    };
    let ay: i64 = if dy >= 0 {
        dy
    } else {
        -dy
    };
    (ax + ay) as u32
}

/// What a sensor report line means, position by position: the two literal
/// heads, four integers that fit an `i32`, and nothing after.
pub open spec fn spec_parse_pair(s: Seq<char>) -> Option<Pair> {
    let l1 = "Sensor at x="@;
    let l2 = ", y="@;
    let l3 = ": closest beacon is at x="@;
    if !lit_at(s, l1, 0) {
        None
    } else {
        match spec_int_at(s, l1.len() as int) {
            None => None,
            Some((x1, p1)) => if !(i32::MIN <= x1 <= i32::MAX) || !lit_at(s, l2, p1) {
                None
            } else {
                match spec_int_at(s, p1 + l2.len()) {
                    None => None,
                    Some((y1, p2)) => if !(i32::MIN <= y1 <= i32::MAX) || !lit_at(s, l3, p2) {
                        None
                    } else {
                        match spec_int_at(s, p2 + l3.len()) {
                            None => None,
                            Some((x2, p3)) => if !(i32::MIN <= x2 <= i32::MAX) || !lit_at(
                                s,
                                l2,
                                p3,
                            ) {
                                None
                            } else {
                                match spec_int_at(s, p3 + l2.len()) {
                                    None => None,
                                    Some((y2, p4)) => if !(i32::MIN <= y2 <= i32::MAX) || p4
                                        != s.len() {
                                        None
                                    } else {
                                        Some(
                                            Pair {
                                                sensor: Pos { x: x1 as i32, y: y1 as i32 },
                                                beacon: Pos { x: x2 as i32, y: y2 as i32 },
                                            },
                                        )
                                    },
                                }
                            },
                        }
                    },
                }
            },
        }
    }
}

/// Reads all report lines.
pub fn get_pairs(lines: &Vec<String>) -> (r: Vec<Pair>)
    requires
        forall|i: int| 0 <= i < lines@.len() ==> spec_parse_pair((#[trigger] lines@[i])@) is Some,
    ensures
        r@.len() == lines@.len(),
        forall|i: int|
            0 <= i < lines@.len() ==> #[trigger] r@[i] == spec_parse_pair(lines@[i]@).unwrap(),
{
    let n = lines.len();
    let mut out: Vec<Pair> = Vec::new();
    let mut i: usize = 0;
    while i < n
        invariant
            n == lines@.len(),
            forall|i2: int|
                0 <= i2 < n ==> spec_parse_pair((#[trigger] lines@[i2])@) is Some,
            i <= n,
            out@.len() == i,
            forall|i2: int|
                0 <= i2 < i ==> #[trigger] out@[i2] == spec_parse_pair(lines@[i2]@).unwrap(),
        decreases n - i,
    {
        match parse_pair(lines[i].as_str()) {
            Some(p) => {
                out.push(p);
            },
            None => {
                proof {
                    assert(false);
                }
            },
        }
        i = i + 1;
    }
    out
}

/// The exclusion interval a report casts on row `y`: the stretch of the
/// row no farther from the sensor than its beacon, if any.
pub open spec fn pair_interval(p: Pair, y: int) -> Option<(i32, i32)> {
    let cbd = spec_distance(p.sensor, p.beacon);
    let tld = vstd::math::abs(p.sensor.y - y) as int;
    if cbd < tld {
        None
    } else {
        Some(((p.sensor.x - (cbd - tld)) as i32, (p.sensor.x + (cbd - tld)) as i32))
    }
}

/// The report's distances and interval ends stay in machine range on row
/// `y`.
pub open spec fn pair_interval_ok(p: Pair, y: int) -> bool {
    let cbd = spec_distance(p.sensor, p.beacon);
    let tld = vstd::math::abs(p.sensor.y - y) as int;
    &&& cbd <= u32::MAX
    &&& (cbd >= tld ==> i32::MIN <= p.sensor.x - (cbd - tld) && p.sensor.x + (cbd - tld)
        <= i32::MAX)
}

/// The exclusion intervals of all reports on row `y`, in report order.
pub open spec fn spec_intervals(pairs: Seq<Pair>, y: int) -> Seq<(i32, i32)>
    decreases pairs.len(),
{
    if pairs.len() == 0 {
        Seq::empty()
    } else {
        spec_intervals(pairs.drop_last(), y) + match pair_interval(pairs.last(), y) {
            None => Seq::<(i32, i32)>::empty(),
            Some(iv) => seq![iv],
        }
    }
}

/// Interval order: by left end, then right end.
pub open spec fn le_pair(a: (i32, i32), b: (i32, i32)) -> bool {
    a.0 < b.0 || (a.0 == b.0 && a.1 <= b.1)
}

/// Sorted by [`le_pair`].
pub open spec fn sorted_pairs(s: Seq<(i32, i32)>) -> bool {
    forall|i: int, j: int| 0 <= i < j < s.len() ==> le_pair(#[trigger] s[i], #[trigger] s[j])
}

proof fn lemma_insert_to_multiset(s: Seq<(i32, i32)>, p: int, x: (i32, i32))
    requires
        0 <= p <= s.len(),
    ensures
        s.insert(p, x).to_multiset() =~= s.to_multiset().insert(x),
{
    broadcast use vstd::seq_lib::group_to_multiset_ensures;

    let t = s.insert(p, x);
    assert(t.remove(p) =~= s);
    assert(t[p] == x);
    assert(t.remove(p).to_multiset() =~= t.to_multiset().remove(x));
    assert(t.contains(x)) by {
        assert(t[p] == x);
    }
    assert(t.to_multiset().count(x) > 0);
    assert(t.to_multiset() =~= s.to_multiset().insert(x));
}

/// Sorts intervals by left end, then right end.
fn sort_pairs(v: Vec<(i32, i32)>) -> (r: Vec<(i32, i32)>)
    ensures
        r@.to_multiset() == v@.to_multiset(),
        sorted_pairs(r@),
{
    broadcast use vstd::seq_lib::group_to_multiset_ensures;

    let n = v.len();
    let mut out: Vec<(i32, i32)> = Vec::new();
    let mut i: usize = 0;
    proof {
        assert(v@.take(0) =~= Seq::<(i32, i32)>::empty());
        assert(out@.to_multiset() =~= v@.take(0).to_multiset());
    }
    while i < n
        invariant
            n == v@.len(),
            i <= n,
            out@.len() == i,
            out@.to_multiset() == v@.take(i as int).to_multiset(),
            sorted_pairs(out@),
        decreases n - i,
    {
        broadcast use vstd::seq_lib::group_to_multiset_ensures;

        let x = v[i];
        let mut p: usize = 0;
        while p < out.len() && (out[p].0 < x.0 || (out[p].0 == x.0 && out[p].1 <= x.1))
            invariant
                p <= out@.len(),
                forall|j: int| 0 <= j < p ==> le_pair(#[trigger] out@[j], x),
            decreases out@.len() - p,
        {
            p = p + 1;
        }
        let ghost out_pre = out@;
        out.insert(p, x);
        proof {
            lemma_insert_to_multiset(out_pre, p as int, x);
            assert(v@.take(i + 1) =~= v@.take(i as int).push(x));
            assert(v@.take(i + 1).to_multiset() =~= v@.take(i as int).to_multiset().insert(x));
            assert forall|a: int, b: int|
                0 <= a < b < out@.len() implies le_pair(#[trigger] out@[a], #[trigger] out@[b]) by {
                if b == p {
                    assert(le_pair(out_pre[a], x));
                } else if a == p {
                    assert(!le_pair(out_pre[b - 1], x));
                } else if a < p && b > p {
                    assert(le_pair(out_pre[a], out_pre[b - 1]));
                } else if b < p {
                    assert(le_pair(out_pre[a], out_pre[b]));
                } else {
                    assert(le_pair(out_pre[a - 1], out_pre[b - 1]));
                }
            }
        }
        i = i + 1;
    }
    proof {
        assert(v@.take(n as int) =~= v@);
    }
    out
}

/// The exclusion intervals the reports cast on row `y`, sorted by left
/// end, then right end.
pub fn get_sorted_intervals_on_line(pairs: &Vec<Pair>, y: i32) -> (r: Vec<(i32, i32)>)
    requires
        forall|i: int| 0 <= i < pairs@.len() ==> pair_interval_ok(#[trigger] pairs@[i], y as int),
    ensures
        r@.to_multiset() == spec_intervals(pairs@, y as int).to_multiset(),
        sorted_pairs(r@),
{
    let n = pairs.len();
    let mut out: Vec<(i32, i32)> = Vec::new();
    let mut i: usize = 0;
    while i < n
        invariant
            n == pairs@.len(),
            forall|i2: int|
                0 <= i2 < n ==> pair_interval_ok(#[trigger] pairs@[i2], y as int),
            i <= n,
            out@ =~= spec_intervals(pairs@.take(i as int), y as int),
        decreases n - i,
    {
        let p = pairs[i];
        let closest_beacon_distance = distance(p.sensor, p.beacon);
        let target = Pos { x: p.sensor.x, y };
        proof {
            assert(spec_distance(p.sensor, target) == vstd::math::abs(p.sensor.y - y as int));
        }
        let target_line_distance = distance(p.sensor, target);
        if closest_beacon_distance >= target_line_distance {
            let dx = closest_beacon_distance - target_line_distance;
            let lo = (p.sensor.x as i64 - dx as i64) as i32;
            let hi = (p.sensor.x as i64 + dx as i64) as i32;
            out.push((lo, hi));
        }
        proof {
            assert(pairs@.take(i + 1).drop_last() =~= pairs@.take(i as int));
            assert(pairs@.take(i + 1).last() == pairs@[i as int]);
            assert(out@ =~= spec_intervals(pairs@.take(i + 1), y as int));
        }
        i = i + 1;
    }
    proof {
        assert(pairs@.take(n as int) =~= pairs@);
    }
    sort_pairs(out)
}

/// The running union fold: accumulated size, current stretch, remaining
/// intervals from `i` on.
pub open spec fn union_card_loop(s: Seq<(i32, i32)>, i: int, min: int, max: int, acc: int) -> int
    decreases s.len() - i,
{
    if i < 0 || i >= s.len() {
        acc + (max - min + 1)
    } else {
        let l = s[i].0;
        let r = s[i].1;
        if l <= max + 1 {
            if r > max {
                union_card_loop(s, i + 1, min, r as int, acc)
            } else {
                union_card_loop(s, i + 1, min, max, acc)
            }
        } else {
            union_card_loop(s, i + 1, l as int, r as int, acc + (max - min + 1))
        }
    }
}

/// The number of positions covered by a sorted interval list: stretches of
/// touching intervals are merged, and the merged sizes summed.
pub open spec fn spec_union_card(s: Seq<(i32, i32)>) -> int {
    if s.len() == 0 {
        0
    } else {
        union_card_loop(s, 1, s[0].0 as int, s[0].1 as int, 0)
    }
}

/// The number of positions covered by the sorted intervals: the
/// cardinality of their union.
pub fn intervals_union_card(intervals: &Vec<(i32, i32)>) -> (r: u32)
    requires
        intervals@.len() < 0x1000_0000,
        forall|k: int|
            0 <= k < intervals@.len() ==> (#[trigger] intervals@[k]).0 <= intervals@[k].1,
        sorted_pairs(intervals@),
        spec_union_card(intervals@) <= u32::MAX,
    ensures
        r == spec_union_card(intervals@),
        covered_set(intervals@).finite() && r == covered_set(intervals@).len(),
{
    proof {
        lemma_union_card_semantics(intervals@);
    }
    let n = intervals.len();
    if n == 0 {
        return 0;
    }
    let mut out: u64 = 0;
    let mut min: i64 = intervals[0].0 as i64;
    let mut max: i64 = intervals[0].1 as i64;
    let mut i: usize = 1;
    while i < n
        invariant
            n == intervals@.len(),
            n < 0x1000_0000,
            forall|k: int|
                0 <= k < n ==> (#[trigger] intervals@[k]).0 <= intervals@[k].1,
            sorted_pairs(intervals@),
            1 <= i <= n,
            i32::MIN <= min <= max <= i32::MAX,
            out as int <= i * 0x1_0000_0000,
            spec_union_card(intervals@) == union_card_loop(
                intervals@,
                i as int,
                min as int,
                max as int,
                out as int,
            ),
        decreases n - i,
    {
        proof {
            assert(i * 0x1_0000_0000int <= 0x1000_0000int * 0x1_0000_0000int && (i + 1)
                * 0x1_0000_0000int == i * 0x1_0000_0000int + 0x1_0000_0000int) by (nonlinear_arith)
                requires
                    0 <= i <= 0x1000_0000,
            ;
        }
        let l = intervals[i].0 as i64;
        let r = intervals[i].1 as i64;
        if l <= max + 1 {
            if r > max {
                max = r;
            }
        } else {
            out = out + (max - min + 1) as u64;
            min = l;
            max = r;
        }
        i = i + 1;
    }
    proof {
        assert(i * 0x1_0000_0000int <= 0x1000_0000int * 0x1_0000_0000int) by (nonlinear_arith)
            requires
                0 <= i <= 0x1000_0000,
        ;
    }
    (out + (max - min + 1) as u64) as u32
}

/// The hole fold: the first uncovered position after the current stretch.
pub open spec fn hole_loop(s: Seq<(i32, i32)>, i: int, max: int) -> Option<int>
    decreases s.len() - i,
{
    if i < 0 || i >= s.len() {
        None
    } else {
        let l = s[i].0;
        let r = s[i].1;
        if l <= max + 1 {
            if r > max {
                hole_loop(s, i + 1, r as int)
            } else {
                hole_loop(s, i + 1, max)
            }
        } else {
            Some(max + 1)
        }
    }
}

/// The first position after the first stretch of the sorted intervals that
/// the next interval does not touch, if any.
pub open spec fn spec_first_hole(s: Seq<(i32, i32)>) -> Option<int> {
    if s.len() == 0 {
        None
    } else {
        hole_loop(s, 1, s[0].1 as int)
    }
}

/// Position `x` lies in one of the intervals.
pub open spec fn covered(s: Seq<(i32, i32)>, x: int) -> bool {
    exists|k: int| 0 <= k < s.len() && (#[trigger] s[k]).0 <= x <= s[k].1
}

/// The set of positions the intervals cover.
pub open spec fn covered_set(s: Seq<(i32, i32)>) -> Set<int> {
    Set::new(|x: int| covered(s, x))
}

/// Position `x` lies in one of the first `i` intervals.
spec fn covered_pref(s: Seq<(i32, i32)>, i: int, x: int) -> bool {
    exists|k: int| 0 <= k < i && k < s.len() && (#[trigger] s[k]).0 <= x <= s[k].1
}

proof fn lemma_union_loop(s: Seq<(i32, i32)>, i: int, min: int, max: int, acc: int, d: Set<int>)
    requires
        sorted_pairs(s),
        forall|k: int| 0 <= k < s.len() ==> (#[trigger] s[k]).0 <= s[k].1,
        1 <= i <= s.len(),
        min <= max,
        d.finite(),
        d.len() == acc,
        forall|x: int| d.contains(x) ==> x < min - 1,
        forall|x: int|
            #![trigger covered_pref(s, i, x)]
            #![trigger d.contains(x)]
            covered_pref(s, i, x) <==> (d.contains(x) || min <= x <= max),
        forall|k: int| i <= k < s.len() ==> min <= (#[trigger] s[k]).0,
    ensures
        covered_set(s).finite(),
        union_card_loop(s, i, min, max, acc) == covered_set(s).len(),
    decreases s.len() - i,
{
    if i == s.len() {
        assert forall|x: int| covered(s, x) <==> (d.contains(x) || min <= x <= max) by {
            if covered(s, x) {
                let k = choose|k: int| 0 <= k < s.len() && (#[trigger] s[k]).0 <= x <= s[k].1;
                assert(covered_pref(s, i, x));
            }
            assert(covered_pref(s, i, x) <==> (d.contains(x) || min <= x <= max));
            if d.contains(x) || min <= x <= max {
                let k2 = choose|k2: int|
                    0 <= k2 < i && k2 < s.len() && (#[trigger] s[k2]).0 <= x <= s[k2].1;
                assert((#[trigger] s[k2]).0 <= x <= s[k2].1);
            }
        }
        assert(covered_set(s) =~= d + vstd::set_lib::set_int_range(min, max + 1));
        vstd::set_lib::lemma_int_range(min, max + 1);
        vstd::set_lib::lemma_set_disjoint_lens(d, vstd::set_lib::set_int_range(min, max + 1));
        assert(d.disjoint(vstd::set_lib::set_int_range(min, max + 1)));
    } else {
        let l = s[i].0 as int;
        let r = s[i].1 as int;
        assert(min <= l);
        assert forall|k: int| i + 1 <= k < s.len() implies l <= (#[trigger] s[k]).0 by {
            assert(le_pair(s[i], s[k]));
        }
        assert forall|x: int|
            covered_pref(s, i + 1, x) <==> (covered_pref(s, i, x) || l <= x <= r) by {
            if covered_pref(s, i + 1, x) {
                let k = choose|k: int| 0 <= k < i + 1 && k < s.len() && (#[trigger] s[k]).0 <= x <= s[k].1;
                if k < i {
                    assert(covered_pref(s, i, x));
                }
            }
            if l <= x <= r {
                assert(s[i].0 <= x <= s[i].1);
            }
        }
        if l <= max + 1 {
            if r > max {
                assert forall|x: int|
                    covered_pref(s, i + 1, x) <==> (d.contains(x) || min <= x <= r) by {
                    assert(covered_pref(s, i + 1, x) <==> (covered_pref(s, i, x) || l <= x <= r));
                    assert(covered_pref(s, i, x) <==> (d.contains(x) || min <= x <= max));
                }
                lemma_union_loop(s, i + 1, min, r, acc, d);
            } else {
                assert forall|x: int|
                    covered_pref(s, i + 1, x) <==> (d.contains(x) || min <= x <= max) by {
                    assert(covered_pref(s, i + 1, x) <==> (covered_pref(s, i, x) || l <= x <= r));
                    assert(covered_pref(s, i, x) <==> (d.contains(x) || min <= x <= max));
                }
                lemma_union_loop(s, i + 1, min, max, acc, d);
            }
        } else {
            let d2 = d + vstd::set_lib::set_int_range(min, max + 1);
            vstd::set_lib::lemma_int_range(min, max + 1);
            vstd::set_lib::lemma_set_disjoint_lens(d, vstd::set_lib::set_int_range(min, max + 1));
            assert(d.disjoint(vstd::set_lib::set_int_range(min, max + 1)));
            assert(d2.len() == acc + (max - min + 1));
            assert forall|x: int| d2.contains(x) implies x < l - 1 by {
            }
            assert forall|x: int|
                covered_pref(s, i + 1, x) <==> (d2.contains(x) || l <= x <= r) by {
                assert(covered_pref(s, i + 1, x) <==> (covered_pref(s, i, x) || l <= x <= r));
                assert(covered_pref(s, i, x) <==> (d.contains(x) || min <= x <= max));
            }
            lemma_union_loop(s, i + 1, l, r, acc + (max - min + 1), d2);
        }
    }
}

/// Law: on sorted ascending intervals, the merged fold counts exactly the
/// positions the intervals cover: [`spec_union_card`] is the cardinality
/// of [`covered_set`].
pub proof fn lemma_union_card_semantics(s: Seq<(i32, i32)>)
    requires
        sorted_pairs(s),
        forall|k: int| 0 <= k < s.len() ==> (#[trigger] s[k]).0 <= s[k].1,
    ensures
        covered_set(s).finite(),
        spec_union_card(s) == covered_set(s).len(),
{
    if s.len() == 0 {
        assert(covered_set(s) =~= Set::<int>::empty());
    } else {
        assert forall|x: int|
            covered_pref(s, 1, x) <==> (Set::<int>::empty().contains(x) || s[0].0 <= x
                <= s[0].1) by {
        }
        assert forall|k: int| 1 <= k < s.len() implies s[0].0 as int <= (
        #[trigger] s[k]).0 by {
            assert(le_pair(s[0], s[k]));
        }
        lemma_union_loop(s, 1, s[0].0 as int, s[0].1 as int, 0, Set::empty());
    }
}

proof fn lemma_hole_loop(s: Seq<(i32, i32)>, i: int, max: int)
    requires
        sorted_pairs(s),
        forall|k: int| 0 <= k < s.len() ==> (#[trigger] s[k]).0 <= s[k].1,
        1 <= i <= s.len(),
        s[0].0 <= max,
        forall|y: int| s[0].0 <= y <= max ==> covered(s, y),
        forall|k: int| 0 <= k < i ==> (#[trigger] s[k]).1 <= max,
    ensures
        match hole_loop(s, i, max) {
            Some(x) => !covered(s, x) && s[0].0 < x && forall|y: int|
                s[0].0 <= y < x ==> covered(s, y),
            None => forall|y: int|
                s[0].0 <= y && !covered(s, y) ==> forall|k: int|
                    0 <= k < s.len() ==> (#[trigger] s[k]).1 < y,
        },
    decreases s.len() - i,
{
    if i == s.len() {
        assert forall|y: int|
            s[0].0 <= y && !covered(s, y) implies forall|k: int|
                0 <= k < s.len() ==> (#[trigger] s[k]).1 < y by {
            assert(y > max);
        }
    } else {
        let l = s[i].0 as int;
        let r = s[i].1 as int;
        if l <= max + 1 {
            if r > max {
                assert forall|y: int| s[0].0 <= y <= r implies covered(s, y) by {
                    if y > max {
                        assert(s[i].0 <= y <= s[i].1);
                    }
                }
                lemma_hole_loop(s, i + 1, r);
            } else {
                lemma_hole_loop(s, i + 1, max);
            }
        } else {
            let x = max + 1;
            assert(!covered(s, x)) by {
                if covered(s, x) {
                    let k = choose|k: int| 0 <= k < s.len() && (#[trigger] s[k]).0 <= x <= s[k].1;
                    if k < i {
                        assert(s[k].1 <= max);
                    } else {
                        assert(le_pair(s[i], s[k]));
                        assert(s[k].0 >= l);
                    }
                }
            }
        }
    }
}

/// Law: on sorted ascending intervals, a returned gap really is a gap: it
/// is uncovered, everything from the first interval's start up to it is
/// covered, and when no gap is returned every uncovered position past the
/// first start lies beyond every interval.
pub proof fn lemma_first_hole_semantics(s: Seq<(i32, i32)>)
    requires
        sorted_pairs(s),
        forall|k: int| 0 <= k < s.len() ==> (#[trigger] s[k]).0 <= s[k].1,
    ensures
        match spec_first_hole(s) {
            Some(x) => s.len() >= 1 && !covered(s, x) && s[0].0 < x && forall|y: int|
                s[0].0 <= y < x ==> covered(s, y),
            None => s.len() == 0 || forall|y: int|
                s[0].0 <= y && !covered(s, y) ==> forall|k: int|
                    0 <= k < s.len() ==> (#[trigger] s[k]).1 < y,
        },
{
    if s.len() > 0 {
        assert forall|y: int| s[0].0 <= y <= s[0].1 implies covered(s, y) by {
            assert(s[0].0 <= y <= s[0].1);
        }
        lemma_hole_loop(s, 1, s[0].1 as int);
    }
}

/// The first gap in the sorted intervals: when the intervals are sorted
/// and ascending, a returned position is uncovered while everything from
/// the first interval's start up to it is covered, and `None` means the
/// intervals cover one unbroken stretch.
pub fn find_first_hole_in_intervals(intervals: &Vec<(i32, i32)>) -> (r: Option<i32>)
    requires
        forall|k: int| 0 <= k < intervals@.len() ==> (#[trigger] intervals@[k]).1 < i32::MAX,
    ensures
        match r {
            Some(x) => spec_first_hole(intervals@) == Some(x as int),
            None => spec_first_hole(intervals@) is None,
        },
        (sorted_pairs(intervals@) && (forall|k: int|
            0 <= k < intervals@.len() ==> (#[trigger] intervals@[k]).0 <= intervals@[k].1))
            ==> match r {
            Some(x) => !covered(intervals@, x as int) && forall|y: int|
                intervals@[0].0 <= y < x ==> covered(intervals@, y),
            None => intervals@.len() == 0 || forall|y: int|
                intervals@[0].0 <= y && !covered(intervals@, y) ==> forall|k: int|
                    0 <= k < intervals@.len() ==> (#[trigger] intervals@[k]).1 < y,
        },
{
    proof {
        if sorted_pairs(intervals@) && (forall|k: int|
            0 <= k < intervals@.len() ==> (#[trigger] intervals@[k]).0 <= intervals@[k].1) {
            lemma_first_hole_semantics(intervals@);
        }
    }
    let n = intervals.len();
    if n == 0 {
        return None;
    }
    let mut max: i32 = intervals[0].1;
    let mut i: usize = 1;
    while i < n
        invariant
            n == intervals@.len(),
            forall|k: int| 0 <= k < n ==> (#[trigger] intervals@[k]).1 < i32::MAX,
            1 <= i <= n,
            max < i32::MAX,
            spec_first_hole(intervals@) == hole_loop(intervals@, i as int, max as int),
        decreases n - i,
    {
        let l = intervals[i].0;
        let r = intervals[i].1;
        if l <= max + 1 {
            if r > max {
                max = r;
            }
        } else {
            proof {
                if sorted_pairs(intervals@) && (forall|k: int|
                    0 <= k < intervals@.len() ==> (#[trigger] intervals@[k]).0
                        <= intervals@[k].1) {
                    lemma_first_hole_semantics(intervals@);
                }
            }
            return Some(max + 1);
        }
        i = i + 1;
    }
    None
}

/// Reads one sensor report line.  The result is exactly what
/// [`spec_parse_pair`] says of the line.
pub fn parse_pair(s: &str) -> (r: Option<Pair>)
    ensures
        r == spec_parse_pair(s@),
{
    let cs = chars_of(s);
    if !lit_match(&cs, 0, "Sensor at x=") {
        return None;
    }
    let p0 = chars_of("Sensor at x=").len();
    let (x1, p1) = match scan_int(&cs, p0) {
        Some((v, e)) => (v, e),
        None => {
            return None;
        },
    };
    if !(-0x8000_0000i64 <= x1 && x1 <= 0x7FFF_FFFFi64) {
        return None;
    }
    if !lit_match(&cs, p1, ", y=") {
        return None;
    }
    let p1b = p1 + chars_of(", y=").len();
    proof {
        assert(p1b <= cs@.len());
    }
    let (y1, p2) = match scan_int(&cs, p1b) {
        Some((v, e)) => (v, e),
        None => {
            return None;
        },
    };
    if !(-0x8000_0000i64 <= y1 && y1 <= 0x7FFF_FFFFi64) {
        return None;
    }
    if !lit_match(&cs, p2, ": closest beacon is at x=") {
        return None;
    }
    let p2b = p2 + chars_of(": closest beacon is at x=").len();
    let (x2, p3) = match scan_int(&cs, p2b) {
        Some((v, e)) => (v, e),
        None => {
            return None;
        },
    };
    if !(-0x8000_0000i64 <= x2 && x2 <= 0x7FFF_FFFFi64) {
        return None;
    }
    if !lit_match(&cs, p3, ", y=") {
        return None;
    }
    let p3b = p3 + chars_of(", y=").len();
    let (y2, p4) = match scan_int(&cs, p3b) {
        Some((v, e)) => (v, e),
        None => {
            return None;
        },
    };
    if !(-0x8000_0000i64 <= y2 && y2 <= 0x7FFF_FFFFi64) {
        return None;
    }
    if p4 != cs.len() {
        return None;
    }
    Some(
        Pair {
            sensor: Pos { x: x1 as i32, y: y1 as i32 },
            beacon: Pos { x: x2 as i32, y: y2 as i32 },
        },
    )
}

} // verus!
