//! Surface area of a lava droplet made of unit cubes.
//!
//! Each input line is a cube position `x,y,z`.  Every side of a cube that
//! does not touch another cube of the droplet counts toward the surface.

use vstd::prelude::*;

verus! {

use crate::parse::{chars_of, scan_uint, spec_uint_at};

/// A cube of the droplet stands at `(x, y, z)`.
pub open spec fn cube_at(ps: Seq<(usize, usize, usize)>, x: int, y: int, z: int) -> bool {
    exists|k: int|
        0 <= k < ps.len() && (#[trigger] ps[k]) == ((x as usize, y as usize, z as usize))
}

/// The exposed sides of the cube at entry `k`: one for each of the six
/// axis neighbors that holds no cube.
pub open spec fn entry_sides(ps: Seq<(usize, usize, usize)>, k: int) -> int {
    let x = ps[k].0 as int;
    let y = ps[k].1 as int;
    let z = ps[k].2 as int;
    (if x == 0 || !cube_at(ps, x - 1, y, z) {
        1int
    } else {
        0int
    }) + (if !cube_at(ps, x + 1, y, z) {
        1int
    } else {
        0int
    }) + (if y == 0 || !cube_at(ps, x, y - 1, z) {
        1int
    } else {
        0int
    }) + (if !cube_at(ps, x, y + 1, z) {
        1int
    } else {
        0int
    }) + (if z == 0 || !cube_at(ps, x, y, z - 1) {
        1int
    } else {
        0int
    }) + (if !cube_at(ps, x, y, z + 1) {
        1int
    } else {
        0int
    })
}

/// The total surface over the first `upto` entries; an entry listed twice
/// counts twice, as the droplet scan does.
pub open spec fn spec_surface(ps: Seq<(usize, usize, usize)>, upto: int) -> int
    decreases upto,
{
    if upto <= 0 {
        0
    } else {
        spec_surface(ps, upto - 1) + entry_sides(ps, upto - 1)
    }
}

/// What a position line means: three numbers joined by commas, nothing
/// after, each below a thousand.
pub open spec fn spec_cube_line(s: Seq<char>) -> Option<(usize, usize, usize)> {
    match spec_uint_at(s, 0) {
        None => None,
        Some((x, p)) => if !(p < s.len() && s[p] == ',') || !(0 <= x <= 1000) {
            None
        } else {
            match spec_uint_at(s, p + 1) {
                None => None,
                Some((y, q)) => if !(q < s.len() && s[q] == ',') || !(0 <= y <= 1000) {
                    None
                } else {
                    match spec_uint_at(s, q + 1) {
                        None => None,
                        Some((z, e)) => if e != s.len() || !(0 <= z <= 1000) {
                            None
                        } else {
                            Some((x as usize, y as usize, z as usize))
                        },
                    }
                },
            }
        },
    }
}

proof fn lemma_cube_line_bounds(s: Seq<char>)
    requires
        spec_cube_line(s) is Some,
    ensures
        spec_cube_line(s).unwrap().0 <= 1000,
        spec_cube_line(s).unwrap().1 <= 1000,
        spec_cube_line(s).unwrap().2 <= 1000,
{
}

/// Reads one position line.
pub fn parse_cube_line(s: &str) -> (r: Option<(usize, usize, usize)>)
    ensures
        r == spec_cube_line(s@),
{
    let cs = chars_of(s);
    let (x, p) = match scan_uint(&cs, 0) {
        Some(v) => v,
        None => {
            return None;
        },
    };
    if !(p < cs.len() && cs[p] == ',') || x > 1000 {
        return None;
    }
    let (y, q) = match scan_uint(&cs, p + 1) {
        Some(v) => v,
        None => {
            return None;
        },
    };
    if !(q < cs.len() && cs[q] == ',') || y > 1000 {
        return None;
    }
    let (z, e) = match scan_uint(&cs, q + 1) {
        Some(v) => v,
        None => {
            return None;
        },
    };
    if e != cs.len() || z > 1000 {
        return None;
    }
    Some((x as usize, y as usize, z as usize))
}

/// Whether the droplet holds a cube at `(x, y, z)`.
fn has_cube(positions: &Vec<(usize, usize, usize)>, x: usize, y: usize, z: usize) -> (r: bool)
    ensures
        r == cube_at(positions@, x as int, y as int, z as int),
{
    let n = positions.len();
    let mut k: usize = 0;
    while k < n
        invariant
            n == positions@.len(),
            k <= n,
            forall|k2: int| 0 <= k2 < k ==> (#[trigger] positions@[k2]) != ((x, y, z)),
        decreases n - k,
    {
        let (px, py, pz) = positions[k];
        if px == x && py == y && pz == z {
            proof {
                assert(positions@[k as int] == ((x, y, z)));
            }
            return true;
        }
        k = k + 1;
    }
    false
}

/// The surface area of the droplet the lines describe.
pub fn part1(lines: &Vec<String>) -> (r: u32)
    requires
        lines@.len() < 0x100_0000,
        forall|i: int| 0 <= i < lines@.len() ==> spec_cube_line((#[trigger] lines@[i])@) is Some,
    ensures
        ({
            let ps = Seq::new(lines@.len(), |i: int| spec_cube_line(lines@[i]@).unwrap());
            r == spec_surface(ps, ps.len() as int)
        }),
{
    let ghost ps = Seq::new(lines@.len(), |i: int| spec_cube_line(lines@[i]@).unwrap());
    let n = lines.len();
    let mut positions: Vec<(usize, usize, usize)> = Vec::new();
    let mut i: usize = 0;
    while i < n
        invariant
            n == lines@.len(),
            forall|i2: int|
                0 <= i2 < n ==> spec_cube_line((#[trigger] lines@[i2])@) is Some,
            ps == Seq::new(lines@.len(), |i2: int| spec_cube_line(lines@[i2]@).unwrap()),
            i <= n,
            positions@ =~= ps.take(i as int),
        decreases n - i,
    {
        match parse_cube_line(lines[i].as_str()) {
            Some(p) => {
                positions.push(p);
            },
            None => {
                proof {
                    assert(false);
                }
            },
        }
        proof {
            assert(positions@ =~= ps.take(i + 1));
        }
        i = i + 1;
    }
    proof {
        assert(positions@ =~= ps);
        assert forall|k2: int| 0 <= k2 < n implies (#[trigger] ps[k2]).0 <= 1000 && ps[k2].1
            <= 1000 && ps[k2].2 <= 1000 by {
            assert(ps[k2] == spec_cube_line(lines@[k2]@).unwrap());
            lemma_cube_line_bounds(lines@[k2]@);
        }
    }
    let mut count: u32 = 0;
    let mut k: usize = 0;
    while k < n
        invariant
            n == positions@.len(),
            n < 0x100_0000,
            positions@ == ps,
            forall|k2: int|
                0 <= k2 < n ==> (#[trigger] ps[k2]).0 <= 1000 && ps[k2].1 <= 1000 && ps[k2].2
                    <= 1000,
            k <= n,
            count == spec_surface(ps, k as int),
            count <= 6 * k,
        decreases n - k,
    {
        let (x, y, z) = positions[k];
        proof {
            assert(ps[k as int] == ((x, y, z)));
        }
        let mut sides: u32 = 0;
        if x == 0 || !has_cube(&positions, x - 1, y, z) {
            sides = sides + 1;
        }
        if !has_cube(&positions, x + 1, y, z) {
            sides = sides + 1;
        }
        if y == 0 || !has_cube(&positions, x, y - 1, z) {
            sides = sides + 1;
        }
        if !has_cube(&positions, x, y + 1, z) {
            sides = sides + 1;
        }
        if z == 0 || !has_cube(&positions, x, y, z - 1) {
            sides = sides + 1;
        }
        if !has_cube(&positions, x, y, z + 1) {
            sides = sides + 1;
        }
        count = count + sides;
        k = k + 1;
    }
    count
}

} // verus!
