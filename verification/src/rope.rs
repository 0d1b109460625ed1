//! Rope knot movement on a grid.
//!
//! The head moves one step at a time; a trailing knot follows only when it
//! has fallen more than one step behind, straight when aligned with the
//! head, diagonally otherwise.

use vstd::prelude::*;

verus! {

use crate::parse::{chars_of, digits_val, is_uint_str, parse_u64};

#[derive(PartialEq, Eq, Structural, Clone, Copy, Debug)]
pub enum AtomicMove {
    Up,
    Down,
    Right,
    Left,
}

#[derive(PartialEq, Eq, Structural, Clone, Copy, Debug)]
pub enum Move {
    Single(AtomicMove),
    Diagonal(AtomicMove, AtomicMove),
}

#[derive(PartialEq, Eq, Structural, Clone, Copy, Debug, Hash)]
pub struct Pos(pub i32, pub i32);

/// The taxicab distance between two positions.
pub open spec fn spec_distance(a: Pos, b: Pos) -> int {
    vstd::math::abs(a.0 - b.0) as int + vstd::math::abs(a.1 - b.1) as int
}

/// The taxicab distance between two positions.
pub fn distance(a: Pos, b: Pos) -> (r: u32)
    requires
        spec_distance(a, b) <= u32::MAX,
    ensures
        r == spec_distance(a, b),
{
    let dx: i64 = a.0 as i64 - b.0 as i64;
    let dy: i64 = a.1 as i64 - b.1 as i64;
    let ax: i64 = if dx >= 0 {
        dx
    } else {
        -dx
    };
    let ay: i64 = if dy >= 0 {
        dy
    } else {
        -dy
    };
    (ax + ay) as u32
}

/// Where one step takes a position, with integer coordinates unbounded.
pub open spec fn spec_step(p: (int, int), m: AtomicMove) -> (int, int) {
    match m {
        AtomicMove::Left => (p.0 - 1, p.1),
        AtomicMove::Up => (p.0, p.1 + 1),
        AtomicMove::Right => (p.0 + 1, p.1),
        AtomicMove::Down => (p.0, p.1 - 1),
    }
}

/// Where a move takes a position.
pub open spec fn spec_apply_move(p: (int, int), m: Move) -> (int, int) {
    match m {
        Move::Single(am) => spec_step(p, am),
        Move::Diagonal(m1, m2) => spec_step(spec_step(p, m1), m2),
    }
}

/// Where `m` takes `pos`.
pub fn apply_move(pos: Pos, m: Move) -> (r: Pos)
    requires
        i32::MIN <= spec_apply_move((pos.0 as int, pos.1 as int), m).0 <= i32::MAX,
        i32::MIN <= spec_apply_move((pos.0 as int, pos.1 as int), m).1 <= i32::MAX,
        (m matches Move::Diagonal(m1, m2) ==> {
            let mid = spec_step((pos.0 as int, pos.1 as int), m->Diagonal_0);
            i32::MIN <= mid.0 <= i32::MAX && i32::MIN <= mid.1 <= i32::MAX
        }),
    ensures
        (r.0 as int, r.1 as int) == spec_apply_move((pos.0 as int, pos.1 as int), m),
    decreases (match m {
        Move::Single(_) => 0int,
        Move::Diagonal(_, _) => 1int,
    }),
{
    match m {
        Move::Single(AtomicMove::Left) => Pos(pos.0 - 1, pos.1),
        Move::Single(AtomicMove::Up) => Pos(pos.0, pos.1 + 1),
        Move::Single(AtomicMove::Right) => Pos(pos.0 + 1, pos.1),
        Move::Single(AtomicMove::Down) => Pos(pos.0, pos.1 - 1),
        Move::Diagonal(m1, m2) => apply_move(apply_move(pos, Move::Single(m1)), Move::Single(m2)),
    }
}

/// The catch-up move of a trailing knot: none within one step, a straight
/// step when aligned with the head, a diagonal step when more than two
/// away or unaligned beyond reach.
pub open spec fn spec_tail_move(head: Pos, tail: Pos) -> Option<Move> {
    let d = spec_distance(head, tail);
    if d <= 1 {
        None
    } else if head.1 == tail.1 {
        if head.0 > tail.0 {
            Some(Move::Single(AtomicMove::Right))
        } else {
            Some(Move::Single(AtomicMove::Left))
        }
    } else if head.0 == tail.0 {
        if head.1 > tail.1 {
            Some(Move::Single(AtomicMove::Up))
        } else {
            Some(Move::Single(AtomicMove::Down))
        }
    } else if d > 2 {
        Some(
            Move::Diagonal(
                if head.0 > tail.0 {
                    AtomicMove::Right
                } else {
                    AtomicMove::Left
                },
                if head.1 > tail.1 {
                    AtomicMove::Up
                } else {
                    AtomicMove::Down
                },
            ),
        )
    } else {
        None
    }
}

/// The move a trailing knot makes to follow the head, if any.
pub fn get_tail_move(head_pos: Pos, tail_pos: Pos) -> (r: Option<Move>)
    requires
        spec_distance(head_pos, tail_pos) <= u32::MAX,
    ensures
        r == spec_tail_move(head_pos, tail_pos),
{
    let d = distance(head_pos, tail_pos);
    if d <= 1 {
        None
    } else if head_pos.1 == tail_pos.1 {
        if head_pos.0 > tail_pos.0 {
            Some(Move::Single(AtomicMove::Right))
        } else {
            Some(Move::Single(AtomicMove::Left))
        }
    } else if head_pos.0 == tail_pos.0 {
        if head_pos.1 > tail_pos.1 {
            Some(Move::Single(AtomicMove::Up))
        } else {
            Some(Move::Single(AtomicMove::Down))
        }
    } else if d > 2 {
        Some(
            Move::Diagonal(
                if head_pos.0 > tail_pos.0 {
                    AtomicMove::Right
                } else {
                    AtomicMove::Left
                },
                if head_pos.1 > tail_pos.1 {
                    AtomicMove::Up
                } else {
                    AtomicMove::Down
                },
            ),
        )
    } else {
        None
    }
}

/// A move line: a direction letter, a space, and a repeat count.
pub open spec fn move_line(s: Seq<char>) -> bool {
    &&& s.len() >= 3
    &&& (s[0] == 'U' || s[0] == 'L' || s[0] == 'R' || s[0] == 'D')
    &&& s[1] == ' '
    &&& is_uint_str(s.skip(2))
    &&& digits_val(s.skip(2)) <= usize::MAX
}

/// The single move a line's direction letter names.
pub open spec fn line_move(s: Seq<char>) -> Move {
    if s[0] == 'U' {
        Move::Single(AtomicMove::Up)
    } else if s[0] == 'L' {
        Move::Single(AtomicMove::Left)
    } else if s[0] == 'R' {
        Move::Single(AtomicMove::Right)
    } else {
        Move::Single(AtomicMove::Down)
    }
}

/// The move list of the first `upto` lines, each line's move repeated its
/// count of times.
pub open spec fn spec_moves(lines: Seq<String>, upto: int) -> Seq<Move>
    decreases upto,
{
    if upto <= 0 {
        Seq::empty()
    } else {
        spec_moves(lines, upto - 1) + Seq::new(
            digits_val(lines[upto - 1]@.skip(2)) as nat,
            |k: int| line_move(lines[upto - 1]@),
        )
    }
}

/// Expands the move lines into the full move list, one entry per step.
pub fn parse_moves(lines: &Vec<String>) -> (r: Vec<Move>)
    requires
        forall|i: int| 0 <= i < lines@.len() ==> move_line((#[trigger] lines@[i])@),
    ensures
        r@ == spec_moves(lines@, lines@.len() as int),
{
    let n = lines.len();
    let mut out: Vec<Move> = Vec::new();
    let mut i: usize = 0;
    while i < n
        invariant
            n == lines@.len(),
            forall|i2: int| 0 <= i2 < n ==> move_line((#[trigger] lines@[i2])@),
            i <= n,
            out@ =~= spec_moves(lines@, i as int),
        decreases n - i,
    {
        let cs = chars_of(lines[i].as_str());
        let mut digits: Vec<char> = Vec::new();
        let mut k: usize = 2;
        while k < cs.len()
            invariant
                2 <= k <= cs@.len(),
                cs@.len() >= 3,
                digits@ =~= cs@.skip(2).take(k - 2),
            decreases cs@.len() - k,
        {
            digits.push(cs[k]);
            proof {
                assert(digits@ =~= cs@.skip(2).take(k - 1));
            }
            k = k + 1;
        }
        proof {
            assert(digits@ =~= cs@.skip(2));
        }
        let count64 = match parse_u64(&digits) {
            Some(v) => v,
            None => {
                proof {
                    assert(false);
                }
                0
            },
        };
        let count = count64 as usize;
        let c = cs[0];
        let m = if c == 'U' {
            Move::Single(AtomicMove::Up)
        } else if c == 'L' {
            Move::Single(AtomicMove::Left)
        } else if c == 'R' {
            Move::Single(AtomicMove::Right)
        } else {
            Move::Single(AtomicMove::Down)
        };
        let ghost pre = out@;
        let mut rep: usize = 0;
        while rep < count
            invariant
                rep <= count,
                out@ =~= pre + Seq::new(rep as nat, |k: int| m),
            decreases count - rep,
        {
            out.push(m);
            proof {
                assert(out@ =~= pre + Seq::new((rep + 1) as nat, |k: int| m));
            }
            rep = rep + 1;
        }
        proof {
            assert(m == line_move(lines@[i as int]@));
            assert(count as int == digits_val(lines@[i as int]@.skip(2)));
            assert(out@ =~= spec_moves(lines@, i + 1));
        }
        i = i + 1;
    }
    out
}

} // verus!
