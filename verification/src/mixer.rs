//! Mixing of an encrypted circular number file.
//!
//! Each number, taken in the order the file first listed it, moves through the
//! circular list by as many places as its own value; the grove coordinates
//! are then read at fixed offsets after the zero entry.  Entries carry
//! their starting position as a tag, so equal values stay apart.

use vstd::prelude::*;

verus! {

use crate::parse::{chars_of, int_val, is_int_str, parse_i64};

/// Position of the first entry tagged `tag`, or `-1`.
pub open spec fn index_of_tag(s: Seq<(usize, i64)>, tag: usize) -> int
    decreases s.len(),
{
    if s.len() == 0 {
        -1
    } else if s[0].0 == tag {
        0
    } else {
        let r = index_of_tag(s.drop_first(), tag);
        if r == -1 {
            -1
        } else {
            r + 1
        }
    }
}

/// Some entry carries `tag`.
pub open spec fn has_tag(s: Seq<(usize, i64)>, tag: usize) -> bool {
    exists|k: int| 0 <= k < s.len() && s[k].0 == tag
}

/// Every position tag below the length occurs.
pub open spec fn complete_tags(s: Seq<(usize, i64)>) -> bool {
    forall|t: usize| t < s.len() ==> has_tag(s, t)
}

/// One move: the first entry tagged `tag` leaves its place and re-enters
/// the circle of the remaining entries as many places on as its value.
pub open spec fn spec_move(s: Seq<(usize, i64)>, tag: usize) -> Seq<(usize, i64)> {
    let idx = index_of_tag(s, tag);
    if idx < 0 || s.len() < 2 {
        s
    } else {
        let elt = s[idx];
        let rest = s.remove(idx);
        let ni = ((idx + elt.1 - 1) % (s.len() - 1)) + 1;
        rest.insert(ni, elt)
    }
}

/// The moves for tags `0 .. count`, in order.
pub open spec fn spec_mix(s: Seq<(usize, i64)>, count: int) -> Seq<(usize, i64)>
    decreases count,
{
    if count <= 0 {
        s
    } else {
        spec_move(spec_mix(s, count - 1), (count - 1) as usize)
    }
}

/// The entries of a value sequence, tagged with their positions.
pub open spec fn spec_enumerate(s: Seq<i64>) -> Seq<(usize, i64)> {
    Seq::new(s.len(), |i: int| (i as usize, s[i]))
}

proof fn lemma_index_of_tag_props(s: Seq<(usize, i64)>, tag: usize)
    ensures
        has_tag(s, tag) ==> {
            let r = index_of_tag(s, tag);
            &&& 0 <= r < s.len()
            &&& s[r].0 == tag
            &&& forall|j: int| 0 <= j < r ==> s[j].0 != tag
        },
        !has_tag(s, tag) ==> index_of_tag(s, tag) == -1,
    decreases s.len(),
{
    if s.len() > 0 && s[0].0 != tag {
        lemma_index_of_tag_props(s.drop_first(), tag);
        if has_tag(s, tag) {
            let k = choose|k: int| 0 <= k < s.len() && s[k].0 == tag;
            assert(s.drop_first()[k - 1].0 == tag);
            assert(has_tag(s.drop_first(), tag));
            let r0 = index_of_tag(s.drop_first(), tag);
            assert(s[r0 + 1] == s.drop_first()[r0]);
            assert forall|j: int| 0 <= j < r0 + 1 implies s[j].0 != tag by {
                if j > 0 {
                    assert(s.drop_first()[j - 1].0 != tag);
                    assert(s[j] == s.drop_first()[j - 1]);
                }
            }
        } else {
            if has_tag(s.drop_first(), tag) {
                let k = choose|k: int|
                    0 <= k < s.drop_first().len() && s.drop_first()[k].0 == tag;
                assert(s[k + 1].0 == tag);
            }
        }
    }
}

/// Some entry is exactly `e`.
pub open spec fn has_pair(s: Seq<(usize, i64)>, e: (usize, i64)) -> bool {
    exists|k: int| 0 <= k < s.len() && s[k] == e
}

proof fn lemma_move_preserves(s: Seq<(usize, i64)>, tag: usize)
    ensures
        spec_move(s, tag).len() == s.len(),
        forall|t: usize| has_tag(s, t) <==> has_tag(#[trigger] spec_move(s, tag), t),
        forall|e: (usize, i64)| has_pair(s, e) <==> has_pair(#[trigger] spec_move(s, tag), e),
    decreases 0int,
{
    let idx = index_of_tag(s, tag);
    lemma_index_of_tag_props(s, tag);
    if idx < 0 || s.len() < 2 {
    } else {
        let elt = s[idx];
        let rest = s.remove(idx);
        let ni = ((idx + elt.1 - 1) % (s.len() - 1)) + 1;
        let out = rest.insert(ni, elt);
        assert(0 <= (idx + elt.1 - 1) % (s.len() - 1) < s.len() - 1);
        assert forall|t: usize| has_tag(s, t) implies has_tag(out, t) by {
            let k = choose|k: int| 0 <= k < s.len() && s[k].0 == t;
            if k == idx {
                assert(out[ni] == elt);
            } else {
                let kr: int = if k < idx {
                    k
                } else {
                    k - 1
                };
                assert(rest[kr] == s[k]);
                let ko: int = if kr < ni {
                    kr
                } else {
                    kr + 1
                };
                assert(out[ko] == rest[kr]);
            }
        }
        assert forall|t: usize| has_tag(out, t) implies has_tag(s, t) by {
            let k = choose|k: int| 0 <= k < out.len() && out[k].0 == t;
            if k == ni {
                assert(s[idx].0 == t);
            } else {
                let kr: int = if k < ni {
                    k
                } else {
                    k - 1
                };
                assert(out[k] == rest[kr]);
                let ks: int = if kr < idx {
                    kr
                } else {
                    kr + 1
                };
                assert(rest[kr] == s[ks]);
            }
        }
        assert forall|e: (usize, i64)| has_pair(s, e) implies has_pair(out, e) by {
            let k = choose|k: int| 0 <= k < s.len() && s[k] == e;
            if k == idx {
                assert(out[ni] == elt);
            } else {
                let kr: int = if k < idx {
                    k
                } else {
                    k - 1
                };
                assert(rest[kr] == s[k]);
                let ko: int = if kr < ni {
                    kr
                } else {
                    kr + 1
                };
                assert(out[ko] == rest[kr]);
            }
        }
        assert forall|e: (usize, i64)| has_pair(out, e) implies has_pair(s, e) by {
            let k = choose|k: int| 0 <= k < out.len() && out[k] == e;
            if k == ni {
                assert(s[idx] == e);
            } else {
                let kr: int = if k < ni {
                    k
                } else {
                    k - 1
                };
                assert(out[k] == rest[kr]);
                let ks: int = if kr < idx {
                    kr
                } else {
                    kr + 1
                };
                assert(rest[kr] == s[ks]);
            }
        }
    }
}

proof fn lemma_mix_pairs(s: Seq<(usize, i64)>, count: int)
    ensures
        spec_mix(s, count).len() == s.len(),
        forall|e: (usize, i64)| has_pair(s, e) <==> has_pair(#[trigger] spec_mix(s, count), e),
    decreases count,
{
    if count > 0 {
        lemma_mix_pairs(s, count - 1);
        lemma_move_preserves(spec_mix(s, count - 1), (count - 1) as usize);
        assert forall|e: (usize, i64)| has_pair(s, e) <==> has_pair(
            #[trigger] spec_mix(s, count),
            e,
        ) by {
            assert(has_pair(spec_mix(s, count - 1), e) <==> has_pair(
                spec_move(spec_mix(s, count - 1), (count - 1) as usize),
                e,
            ));
        }
    }
}

proof fn lemma_rounds_pairs(s: Seq<(usize, i64)>, rounds: int)
    ensures
        spec_rounds(s, rounds).len() == s.len(),
        forall|e: (usize, i64)| has_pair(s, e) <==> has_pair(#[trigger] spec_rounds(s, rounds), e),
    decreases rounds,
{
    if rounds > 0 {
        lemma_rounds_pairs(s, rounds - 1);
        lemma_mix_pairs(spec_rounds(s, rounds - 1), s.len() as int);
        assert forall|e: (usize, i64)| has_pair(s, e) <==> has_pair(
            #[trigger] spec_rounds(s, rounds),
            e,
        ) by {
            assert(has_pair(spec_rounds(s, rounds - 1), e) <==> has_pair(
                spec_mix(spec_rounds(s, rounds - 1), s.len() as int),
                e,
            ));
        }
    }
}

/// Performs the moves for tags `0 .. len`, in order, in place.
fn mix_tags(data: &mut Vec<(usize, i64)>)
    requires
        old(data)@.len() != 1,
        old(data)@.len() < 0x7FFF_FFFF_FFFF_FFFF,
        complete_tags(old(data)@),
    ensures
        final(data)@ == spec_mix(old(data)@, old(data)@.len() as int),
        final(data)@.len() == old(data)@.len(),
        complete_tags(final(data)@),
{
    let n = data.len();
    let ghost orig = data@;
    let mut t: usize = 0;
    while t < n
        invariant
            n == orig.len(),
            n != 1,
            n < 0x7FFF_FFFF_FFFF_FFFF,
            t <= n,
            data@ == spec_mix(orig, t as int),
            data@.len() == n,
            complete_tags(data@),
        decreases n - t,
    {
        let ghost pre = data@;
        let mut k: usize = 0;
        while k < n && data[k].0 != t
            invariant
                n == data@.len(),
                k <= n,
                forall|j: int| 0 <= j < k ==> (#[trigger] data@[j]).0 != t,
            decreases n - k,
        {
            k = k + 1;
        }
        proof {
            assert(has_tag(pre, t));
            if k >= n {
                let j = choose|j: int| 0 <= j < pre.len() && pre[j].0 == t;
                assert(pre[j].0 != t);
            }
            lemma_index_of_tag_props(pre, t);
            assert(index_of_tag(pre, t) == k);
        }
        let elt = data.remove(k);
        let md: i128 = (n - 1) as i128;
        let shifted: i128 = k as i128 + elt.1 as i128 - 1;
        let rem = match shifted.checked_rem_euclid(md) {
            Some(r) => r,
            None => {
                proof {
                    assert(false);
                }
                0
            },
        };
        proof {
            assert(0 <= shifted % md < md);
        }
        let ni = (rem + 1) as usize;
        data.insert(ni, elt);
        proof {
            assert(data@ == spec_move(pre, t));
            lemma_move_preserves(pre, t);
            assert forall|t2: usize| t2 < data@.len() implies has_tag(data@, t2) by {
                assert(has_tag(pre, t2));
                assert(has_tag(spec_move(pre, t), t2));
            }
        }
        t = t + 1;
    }
}

/// One full round of mixing: every entry moves once, in tag order.
pub fn apply_transformation_step(data: Vec<(usize, i64)>) -> (r: Vec<(usize, i64)>)
    requires
        data@.len() != 1,
        data@.len() < 0x7FFF_FFFF_FFFF_FFFF,
        complete_tags(data@),
    ensures
        r@ == spec_mix(data@, data@.len() as int),
        complete_tags(r@),
        r@.len() == data@.len(),
{
    let mut data = data;
    mix_tags(&mut data);
    data
}

/// Mixes the file once: tags the values with their starting positions,
/// moves each once in that order, and strips the tags again.
pub fn apply_transformation(data: Vec<i64>) -> (r: Vec<i64>)
    requires
        data@.len() != 1,
        data@.len() < 0x7FFF_FFFF_FFFF_FFFF,
    ensures
        r@ == spec_mix(spec_enumerate(data@), data@.len() as int).map_values(
            |e: (usize, i64)| e.1,
        ),
{
    let n = data.len();
    let mut tagged: Vec<(usize, i64)> = Vec::new();
    let mut i: usize = 0;
    while i < n
        invariant
            n == data@.len(),
            i <= n,
            tagged@ =~= spec_enumerate(data@).take(i as int),
        decreases n - i,
    {
        tagged.push((i, data[i]));
        proof {
            assert(tagged@ =~= spec_enumerate(data@).take(i + 1));
        }
        i = i + 1;
    }
    proof {
        assert(tagged@ =~= spec_enumerate(data@));
        assert(complete_tags(tagged@)) by {
            assert forall|t: usize| t < tagged@.len() implies has_tag(tagged@, t) by {
                assert(tagged@[t as int].0 == t);
            }
        }
    }
    mix_tags(&mut tagged);
    let mut out: Vec<i64> = Vec::new();
    let ghost mixed = tagged@;
    let mut i: usize = 0;
    while i < tagged.len()
        invariant
            mixed == tagged@,
            i <= mixed.len(),
            out@ =~= mixed.map_values(|e: (usize, i64)| e.1).take(i as int),
        decreases tagged@.len() - i,
    {
        out.push(tagged[i].1);
        proof {
            assert(out@ =~= mixed.map_values(|e: (usize, i64)| e.1).take(i + 1));
        }
        i = i + 1;
    }
    proof {
        assert(out@ =~= mixed.map_values(|e: (usize, i64)| e.1));
    }
    out
}

/// Position of the first zero value, or `-1`.
pub open spec fn index_of_zero(s: Seq<i64>) -> int
    decreases s.len(),
{
    if s.len() == 0 {
        -1
    } else if s[0] == 0 {
        0
    } else {
        let r = index_of_zero(s.drop_first());
        if r == -1 {
            -1
        } else {
            r + 1
        }
    }
}

/// The grove coordinates: the values one, two and three thousand places
/// after the first zero, around the circle, summed.
pub open spec fn grove_sum(s: Seq<i64>) -> int {
    let z = index_of_zero(s);
    let n = s.len() as int;
    s[(z + 1000) % n] + s[(z + 2000) % n] + s[(z + 3000) % n]
}

/// The values of the input lines.
pub open spec fn line_vals(lines: Seq<String>) -> Seq<i64> {
    Seq::new(lines.len(), |i: int| int_val(lines[i]@) as i64)
}

/// Every line is a decimal integer that fits an `i64`.
pub open spec fn lines_are_ints(lines: Seq<String>) -> bool {
    forall|i: int|
        0 <= i < lines.len() ==> is_int_str((#[trigger] lines[i])@) && i64::MIN <= int_val(
            lines[i]@,
        ) <= i64::MAX
}

proof fn lemma_index_of_zero_props(s: Seq<i64>)
    ensures
        (exists|k: int| 0 <= k < s.len() && s[k] == 0) ==> {
            let r = index_of_zero(s);
            &&& 0 <= r < s.len()
            &&& s[r] == 0
            &&& forall|j: int| 0 <= j < r ==> s[j] != 0
        },
    decreases s.len(),
{
    if s.len() > 0 && s[0] != 0 {
        lemma_index_of_zero_props(s.drop_first());
        if exists|k: int| 0 <= k < s.len() && s[k] == 0 {
            let k = choose|k: int| 0 <= k < s.len() && s[k] == 0;
            assert(s.drop_first()[k - 1] == 0);
            let r0 = index_of_zero(s.drop_first());
            assert(s[r0 + 1] == s.drop_first()[r0]);
            assert forall|j: int| 0 <= j < r0 + 1 implies s[j] != 0 by {
                if j > 0 {
                    assert(s.drop_first()[j - 1] != 0);
                    assert(s[j] == s.drop_first()[j - 1]);
                }
            }
        }
    }
}

/// Finds the first zero and sums the values one, two and three thousand
/// places after it around the circle, in wide arithmetic.
fn grove_coordinates(mixed: &Vec<i64>) -> (sum: i128)
    requires
        mixed@.len() >= 1,
        mixed@.len() < 0x1000_0000,
        exists|k: int| 0 <= k < mixed@.len() && mixed@[k] == 0,
    ensures
        sum == grove_sum(mixed@),
{
    proof {
        lemma_index_of_zero_props(mixed@);
    }
    let n = mixed.len();
    let mut z: usize = 0;
    while z < n && mixed[z] != 0
        invariant
            n == mixed@.len(),
            z <= n,
            forall|j: int| 0 <= j < z ==> mixed@[j] != 0,
        decreases n - z,
    {
        z = z + 1;
    }
    proof {
        lemma_index_of_zero_props(mixed@);
        if z >= n {
            let k = choose|k: int| 0 <= k < mixed@.len() && mixed@[k] == 0;
            assert(mixed@[k] != 0);
        }
        assert(index_of_zero(mixed@) == z);
    }
    let a = mixed[(z + 1000) % n];
    let b = mixed[(z + 2000) % n];
    let c = mixed[(z + 3000) % n];
    a as i128 + b as i128 + c as i128
}

/// The value a wide sum takes when squeezed into a `u32`: its remainder
/// modulo two to the thirty-second.
pub open spec fn wrap_u32(x: int) -> int {
    x % 0x1_0000_0000
}

/// The value a wide sum takes when squeezed into an `i64`: its remainder
/// modulo two to the sixty-fourth, shifted into the signed range.
pub open spec fn wrap_i64(x: int) -> int {
    let m = x % 0x1_0000_0000_0000_0000;
    if m >= 0x8000_0000_0000_0000 {
        m - 0x1_0000_0000_0000_0000
    } else {
        m
    }
}

/// Mixes the file once and reads the grove coordinates: the sum of the
/// three coordinates, squeezed into a `u32`; when it fits, it is returned
/// exactly.
pub fn part1(lines: &Vec<String>) -> (r: u32)
    requires
        lines@.len() != 1,
        lines@.len() < 0x1000_0000,
        lines_are_ints(lines@),
        exists|k: int| 0 <= k < lines@.len() && int_val((#[trigger] lines@[k])@) == 0,
    ensures
        ({
            let mixed = spec_mix(spec_enumerate(line_vals(lines@)), lines@.len() as int)
                .map_values(|e: (usize, i64)| e.1);
            &&& r as int == wrap_u32(grove_sum(mixed))
            &&& (0 <= grove_sum(mixed) <= u32::MAX ==> r == grove_sum(mixed))
        }),
{
    let n = lines.len();
    let mut vals: Vec<i64> = Vec::new();
    let mut i: usize = 0;
    while i < n
        invariant
            n == lines@.len(),
            lines_are_ints(lines@),
            i <= n,
            vals@ =~= line_vals(lines@).take(i as int),
        decreases n - i,
    {
        let cs = chars_of(lines[i].as_str());
        let v = match parse_i64(&cs) {
            Some(v) => v,
            None => {
                proof {
                    assert(false);
                }
                0
            },
        };
        vals.push(v);
        proof {
            assert(vals@ =~= line_vals(lines@).take(i + 1));
        }
        i = i + 1;
    }
    proof {
        assert(vals@ =~= line_vals(lines@));
    }
    let ghost vals0 = vals@;
    let mixed = apply_transformation(vals);
    proof {
        let k = choose|k: int| 0 <= k < lines@.len() && int_val(lines@[k]@) == 0;
        assert(has_pair(spec_enumerate(vals0), (k as usize, 0i64))) by {
            assert(spec_enumerate(vals0)[k] == (k as usize, 0i64));
        }
        lemma_mix_pairs(spec_enumerate(vals0), vals0.len() as int);
        let j = choose|j: int|
            0 <= j < spec_mix(spec_enumerate(vals0), vals0.len() as int).len() && spec_mix(
                spec_enumerate(vals0),
                vals0.len() as int,
            )[j] == (k as usize, 0i64);
        assert(mixed@[j] == 0);
    }
    let sum = grove_coordinates(&mixed);
    let wrapped = match sum.checked_rem_euclid(0x1_0000_0000i128) {
        Some(v) => v,
        None => {
            proof {
                assert(false);
            }
            0
        },
    };
    wrapped as u32
}

/// The number of mixing rounds the full decryption performs.
pub open spec fn spec_rounds(s: Seq<(usize, i64)>, rounds: int) -> Seq<(usize, i64)>
    decreases rounds,
{
    if rounds <= 0 {
        s
    } else {
        spec_mix(spec_rounds(s, rounds - 1), s.len() as int)
    }
}

/// The values of the input lines, each multiplied by the decryption key.
pub open spec fn keyed_vals(lines: Seq<String>) -> Seq<i64> {
    Seq::new(lines.len(), |i: int| (int_val(lines[i]@) * 811589153) as i64)
}

/// Applies the decryption key, mixes ten rounds, and reads the grove
/// coordinates: the sum of the three coordinates, squeezed into an `i64`;
/// when it fits, it is returned exactly.
pub fn part2(lines: &Vec<String>) -> (r: i64)
    requires
        lines@.len() != 1,
        lines@.len() < 0x1000_0000,
        lines_are_ints(lines@),
        forall|i: int|
            0 <= i < lines@.len() ==> i64::MIN <= int_val((#[trigger] lines@[i])@) * 811589153
                <= i64::MAX,
        exists|k: int| 0 <= k < lines@.len() && int_val((#[trigger] lines@[k])@) == 0,
    ensures
        ({
            let mixed = spec_rounds(spec_enumerate(keyed_vals(lines@)), 10).map_values(
                |e: (usize, i64)| e.1,
            );
            &&& r as int == wrap_i64(grove_sum(mixed))
            &&& (i64::MIN <= grove_sum(mixed) <= i64::MAX ==> r == grove_sum(mixed))
        }),
{
    let n = lines.len();
    let mut vals: Vec<i64> = Vec::new();
    let mut i: usize = 0;
    while i < n
        invariant
            n == lines@.len(),
            lines_are_ints(lines@),
            forall|i2: int|
                0 <= i2 < lines@.len() ==> i64::MIN <= int_val((#[trigger] lines@[i2])@)
                    * 811589153 <= i64::MAX,
            i <= n,
            vals@ =~= keyed_vals(lines@).take(i as int),
        decreases n - i,
    {
        let cs = chars_of(lines[i].as_str());
        let v = match parse_i64(&cs) {
            Some(v) => v,
            None => {
                proof {
                    assert(false);
                }
                0
            },
        };
        vals.push(v * 811589153);
        proof {
            assert(vals@ =~= keyed_vals(lines@).take(i + 1));
        }
        i = i + 1;
    }
    proof {
        assert(vals@ =~= keyed_vals(lines@));
    }
    let mut tagged: Vec<(usize, i64)> = Vec::new();
    let ghost vals0 = vals@;
    let mut i: usize = 0;
    while i < n
        invariant
            n == vals0.len(),
            vals0 == vals@,
            i <= n,
            tagged@ =~= spec_enumerate(vals0).take(i as int),
        decreases n - i,
    {
        tagged.push((i, vals[i]));
        proof {
            assert(tagged@ =~= spec_enumerate(vals0).take(i + 1));
        }
        i = i + 1;
    }
    proof {
        assert(tagged@ =~= spec_enumerate(vals0));
        assert(complete_tags(tagged@)) by {
            assert forall|t: usize| t < tagged@.len() implies has_tag(tagged@, t) by {
                assert(tagged@[t as int].0 == t);
            }
        }
    }
    let mut round: usize = 0;
    while round < 10
        invariant
            round <= 10,
            tagged@ == spec_rounds(spec_enumerate(vals0), round as int),
            tagged@.len() == vals0.len(),
            vals0.len() == n,
            n != 1,
            n < 0x7FFF_FFFF_FFFF_FFFF,
            complete_tags(tagged@),
        decreases 10 - round,
    {
        tagged = apply_transformation_step(tagged);
        round = round + 1;
    }
    let ghost mixed_tagged = tagged@;
    let mut mixed: Vec<i64> = Vec::new();
    let mut i: usize = 0;
    while i < tagged.len()
        invariant
            mixed_tagged == tagged@,
            i <= mixed_tagged.len(),
            mixed@ =~= mixed_tagged.map_values(|e: (usize, i64)| e.1).take(i as int),
        decreases tagged@.len() - i,
    {
        mixed.push(tagged[i].1);
        proof {
            assert(mixed@ =~= mixed_tagged.map_values(|e: (usize, i64)| e.1).take(i + 1));
        }
        i = i + 1;
    }
    proof {
        assert(mixed@ =~= mixed_tagged.map_values(|e: (usize, i64)| e.1));
        let k = choose|k: int| 0 <= k < lines@.len() && int_val(lines@[k]@) == 0;
        assert(vals0[k] == 0) by {
            assert(keyed_vals(lines@)[k] == (int_val(lines@[k]@) * 811589153) as i64);
        }
        assert(has_pair(spec_enumerate(vals0), (k as usize, 0i64))) by {
            assert(spec_enumerate(vals0)[k] == (k as usize, 0i64));
        }
        lemma_rounds_pairs(spec_enumerate(vals0), 10);
        assert(has_pair(mixed_tagged, (k as usize, 0i64)));
        let j = choose|j: int|
            0 <= j < mixed_tagged.len() && mixed_tagged[j] == (k as usize, 0i64);
        assert(mixed@[j] == 0);
    }
    let sum = grove_coordinates(&mixed);
    let wrapped = match sum.checked_rem_euclid(0x1_0000_0000_0000_0000i128) {
        Some(v) => v,
        None => {
            proof {
                assert(false);
            }
            0
        },
    };
    if wrapped >= 0x8000_0000_0000_0000i128 {
        (wrapped - 0x1_0000_0000_0000_0000i128) as i64
    } else {
        wrapped as i64
    }
}

} // verus!
