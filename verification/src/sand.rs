//! Falling sand in a cave of rock paths.
//!
//! Each input line traces a rock path of straight segments.  A sand unit
//! falls from above: straight down when free, else down-left, else
//! down-right, and rests when all three are blocked; it is lost once it
//! falls past the deepest rock.

use vstd::prelude::*;

verus! {

use crate::parse::{chars_of, lemma_digits_end_ge, lit_at, lit_match, scan_uint, spec_uint_at};

#[derive(PartialEq, Eq, Structural, Clone, Copy, Debug)]
pub enum Content {
    Source,
    Empty,
    Sand,
    Rock,
}

/// Whether a cell blocks falling sand.
pub open spec fn spec_occupied(c: Content) -> bool {
    c == Content::Sand || c == Content::Rock
}

impl Content {
    /// Whether this cell blocks falling sand: sand and rock do, an empty
    /// cell and the source do not.
    pub fn is_occupied(&self) -> (r: bool)
        ensures
            r == spec_occupied(*self),
    {
        match self {
            Content::Empty | Content::Source => false,
            Content::Sand | Content::Rock => true,
        }
    }
}

/// The point token at `from`: two numbers joined by a comma, and where it
/// ends.
pub open spec fn spec_point_at(s: Seq<char>, from: int) -> Option<((usize, usize), int)> {
    match spec_uint_at(s, from) {
        None => None,
        Some((x, p)) => if !(p < s.len() && s[p] == ',') || !(0 <= x <= usize::MAX) {
            None
        } else {
            match spec_uint_at(s, p + 1) {
                None => None,
                Some((y, e)) => if !(0 <= y <= usize::MAX) {
                    None
                } else {
                    Some(((x as usize, y as usize), e))
                },
            }
        },
    }
}

/// What a rock path line means: points joined by arrows, nothing after.
pub open spec fn spec_path_at(s: Seq<char>, from: int) -> Option<Seq<(usize, usize)>>
    decreases s.len() - from,
    via spec_path_at_decreases
{
    match spec_point_at(s, from) {
        None => None,
        Some((pt, e)) => if e == s.len() {
            Some(seq![pt])
        } else if lit_at(s, " -> "@, e) {
            match spec_path_at(s, e + 4) {
                None => None,
                Some(rest) => Some(seq![pt] + rest),
            }
        } else {
            None
        },
    }
}

#[via_fn]
proof fn spec_path_at_decreases(s: Seq<char>, from: int) {
    reveal_strlit(" -> ");
    lemma_digits_end_ge(s, from);
    if spec_uint_at(s, from) is Some {
        let p = spec_uint_at(s, from).unwrap().1;
        lemma_digits_end_ge(s, p + 1);
    }
}

/// Reads the point token at `from`.
fn scan_point(s: &Vec<char>, from: usize) -> (r: Option<((usize, usize), usize)>)
    requires
        from <= s@.len(),
    ensures
        match r {
            Some((pt, e)) => spec_point_at(s@, from as int) == Some((pt, e as int)) && from < e
                <= s@.len(),
            None => spec_point_at(s@, from as int) is None,
        },
{
    let (x, p) = match scan_uint(s, from) {
        Some(v) => v,
        None => {
            return None;
        },
    };
    if !(p < s.len() && s[p] == ',') || x > usize::MAX as u64 {
        return None;
    }
    let (y, e) = match scan_uint(s, p + 1) {
        Some(v) => v,
        None => {
            return None;
        },
    };
    if y > usize::MAX as u64 {
        return None;
    }
    Some(((x as usize, y as usize), e))
}

/// Reads one rock path line as its corner points.
pub fn parse_rock_path(s: &str) -> (r: Option<Vec<(usize, usize)>>)
    ensures
        match r {
            Some(path) => spec_path_at(s@, 0) == Some(path@),
            None => spec_path_at(s@, 0) is None,
        },
{
    let cs = chars_of(s);
    let mut out: Vec<(usize, usize)> = Vec::new();
    let mut at: usize = 0;
    loop
        invariant
            at <= cs@.len(),
            cs@ == s@,
            ({
                let full = spec_path_at(s@, 0);
                let rest = spec_path_at(s@, at as int);
                match full {
                    None => rest is None,
                    Some(ps) => rest is Some && ps == out@ + rest.unwrap(),
                }
            }),
        decreases cs@.len() - at,
    {
        proof {
            reveal_strlit(" -> ");
        }
        let (pt, e) = match scan_point(&cs, at) {
            Some(v) => v,
            None => {
                return None;
            },
        };
        out.push(pt);
        if e == cs.len() {
            proof {
                assert(spec_path_at(s@, at as int) == Some(seq![pt]));
                assert(out@ =~= out@.drop_last() + seq![pt]);
                if spec_path_at(s@, 0) is Some {
                    assert(spec_path_at(s@, 0).unwrap() =~= out@);
                }
            }
            return Some(out);
        }
        if !lit_match(&cs, e, " -> ") {
            proof {
                assert(spec_path_at(s@, at as int) is None);
            }
            return None;
        }
        proof {
            assert(spec_path_at(s@, at as int) == match spec_path_at(s@, e + 4) {
                None => None::<Seq<(usize, usize)>>,
                Some(rest) => Some(seq![pt] + rest),
            });
            if spec_path_at(s@, 0) is Some {
                assert((out@.drop_last() + (seq![pt] + spec_path_at(s@, e + 4).unwrap())) =~= (
                out@ + spec_path_at(s@, e + 4).unwrap()));
            }
        }
        at = e + 4;
    }
}

/// Reads all rock path lines.
pub fn get_rock_path(lines: &Vec<String>) -> (r: Vec<Vec<(usize, usize)>>)
    requires
        forall|i: int| 0 <= i < lines@.len() ==> spec_path_at((#[trigger] lines@[i])@, 0) is Some,
    ensures
        r@.len() == lines@.len(),
        forall|i: int|
            0 <= i < lines@.len() ==> (#[trigger] r@[i])@ == spec_path_at(lines@[i]@, 0).unwrap(),
{
    let n = lines.len();
    let mut out: Vec<Vec<(usize, usize)>> = Vec::new();
    let mut i: usize = 0;
    while i < n
        invariant
            n == lines@.len(),
            forall|i2: int|
                0 <= i2 < n ==> spec_path_at((#[trigger] lines@[i2])@, 0) is Some,
            i <= n,
            out@.len() == i,
            forall|i2: int|
                0 <= i2 < i ==> (#[trigger] out@[i2])@ == spec_path_at(lines@[i2]@, 0).unwrap(),
        decreases n - i,
    {
        match parse_rock_path(lines[i].as_str()) {
            Some(path) => {
                out.push(path);
            },
            None => {
                proof {
                    assert(false);
                }
            },
        }
        i = i + 1;
    }
    out
}

/// Where a sand unit starting at `(x, y)` comes to rest, or nothing when
/// it falls past `max_depth`: straight down while free, else down-left,
/// else down-right, resting when all three are blocked.
pub open spec fn spec_next_sand(
    g: Seq<Seq<Content>>,
    max_depth: int,
    x: int,
    y: int,
) -> Option<(int, int)>
    decreases max_depth - y,
{
    if y >= max_depth || y < 0 {
        None
    } else if !spec_occupied(g[y + 1][x]) {
        spec_next_sand(g, max_depth, x, y + 1)
    } else if !spec_occupied(g[y + 1][x - 1]) {
        spec_next_sand(g, max_depth, x - 1, y + 1)
    } else if !spec_occupied(g[y + 1][x + 1]) {
        spec_next_sand(g, max_depth, x + 1, y + 1)
    } else {
        Some((x, y))
    }
}

/// The rows of the grid as sequences.
pub open spec fn rows(g: Seq<Vec<Content>>) -> Seq<Seq<Content>> {
    Seq::new(g.len(), |i: int| g[i]@)
}

/// The grid is rectangular of the given width, and its first and last
/// columns are blocked on every row up to `max_depth` inclusive, so sand
/// between them stays between them.
pub open spec fn walled_grid(g: Seq<Seq<Content>>, w: int, max_depth: int) -> bool {
    &&& w >= 3
    &&& max_depth + 1 < g.len()
    &&& forall|r: int| 0 <= r < g.len() ==> (#[trigger] g[r]).len() == w
    &&& forall|r: int|
        1 <= r <= max_depth + 1 ==> spec_occupied(#[trigger] g[r][0]) && spec_occupied(
            g[r][w - 1],
        )
}

/// Where a sand unit dropped at `pos` comes to rest, or nothing when it
/// falls past `max_depth`.
pub fn get_next_sand_pos(grid: &Vec<Vec<Content>>, max_depth: usize, pos: (usize, usize)) -> (r:
    Option<(usize, usize)>)
    requires
        walled_grid(rows(grid@), grid@[0]@.len() as int, max_depth as int),
        1 <= pos.0 < grid@[0]@.len() - 1,
        pos.1 <= max_depth,
    ensures
        ({
            let w = grid@[0]@.len() as int;
            match r {
                Some(p) => spec_next_sand(
                    rows(grid@),
                    max_depth as int,
                    pos.0 as int,
                    pos.1 as int,
                ) == Some((p.0 as int, p.1 as int)) && 1 <= p.0 < w - 1 && p.1 <= max_depth,
                None => spec_next_sand(
                    rows(grid@),
                    max_depth as int,
                    pos.0 as int,
                    pos.1 as int,
                ) is None,
            }
        }),
    decreases max_depth - pos.1,
{
    let ghost g = rows(grid@);
    let (x, y) = pos;
    if y >= max_depth {
        return None;
    }
    let w = grid[0].len();
    proof {
        assert(g[0] == grid@[0]@);
        assert(g[y + 1] == grid@[y as int + 1]@);
        assert(g[y + 1].len() == w);
    }
    if !grid[y + 1][x].is_occupied() {
        get_next_sand_pos(grid, max_depth, (x, y + 1))
    } else if !grid[y + 1][x - 1].is_occupied() {
        proof {
            assert(x - 1 >= 1) by {
                assert(spec_occupied(g[y + 1][0]));
            }
        }
        get_next_sand_pos(grid, max_depth, (x - 1, y + 1))
    } else if !grid[y + 1][x + 1].is_occupied() {
        proof {
            assert(x + 1 < w - 1) by {
                assert(spec_occupied(g[y + 1][w - 1]));
            }
        }
        get_next_sand_pos(grid, max_depth, (x + 1, y + 1))
    } else {
        Some((x, y))
    }
}

} // verus!
