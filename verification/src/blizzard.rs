//! Blizzard positions in a walled valley.
//!
//! Each blizzard starts on an interior cell and drifts one step per
//! minute in a fixed direction, wrapping around the interior of the
//! valley, whose border rows and columns are walls.

use vstd::prelude::*;

verus! {

/// A blizzard: where it starts and how it drifts each minute.
pub struct Blizzard {
    pub initial_position: (u32, u32),
    pub direction: (i32, i32),
}

/// A unit or zero drift component.
pub open spec fn small_dir(d: (i32, i32)) -> bool {
    -1 <= d.0 <= 1 && -1 <= d.1 <= 1
}

/// The cell a blizzard occupies after `t` minutes: its start, drifted
/// `t` steps, wrapped around the valley interior.
pub open spec fn blizzard_cell(b: Blizzard, t: int, size: (int, int)) -> (int, int) {
    (
        1 + (b.initial_position.0 + b.direction.0 * t - 1) % (size.0 - 2),
        1 + (b.initial_position.1 + b.direction.1 * t - 1) % (size.1 - 2),
    )
}

/// The occupancy grid of the valley after `t` minutes: a cell is marked
/// exactly when some blizzard stands on it.
pub fn get_blizzard_occupancy_map(blizzards: &Vec<Blizzard>, t: u32, size: (i32, i32)) -> (out:
    Vec<Vec<bool>>)
    requires
        3 <= size.0,
        3 <= size.1,
        forall|k: int|
            0 <= k < blizzards@.len() ==> small_dir((#[trigger] blizzards@[k]).direction),
    ensures
        out@.len() == size.0,
        forall|r: int| 0 <= r < size.0 ==> (#[trigger] out@[r])@.len() == size.1,
        forall|r: int, c: int|
            0 <= r < size.0 && 0 <= c < size.1 ==> ((#[trigger] out@[r]@[c]) <==> exists|k: int|
                0 <= k < blizzards@.len() && blizzard_cell(
                    #[trigger] blizzards@[k],
                    t as int,
                    (size.0 as int, size.1 as int),
                ) == (r, c)),
{
    let rows = size.0 as usize;
    let cols = size.1 as usize;
    let mut out: Vec<Vec<bool>> = Vec::new();
    let mut r: usize = 0;
    while r < rows
        invariant
            rows == size.0,
            cols == size.1,
            r <= rows,
            out@.len() == r,
            forall|r2: int|
                0 <= r2 < r ==> (#[trigger] out@[r2])@.len() == cols && forall|c: int|
                    0 <= c < cols ==> !out@[r2]@[c],
        decreases rows - r,
    {
        let mut row: Vec<bool> = Vec::new();
        let mut c: usize = 0;
        while c < cols
            invariant
                c <= cols,
                row@.len() == c,
                forall|c2: int| 0 <= c2 < c ==> !row@[c2],
            decreases cols - c,
        {
            row.push(false);
            c = c + 1;
        }
        out.push(row);
        r = r + 1;
    }
    let n = blizzards.len();
    let mut k: usize = 0;
    while k < n
        invariant
            n == blizzards@.len(),
            3 <= size.0,
            3 <= size.1,
            forall|k2: int|
                0 <= k2 < n ==> small_dir((#[trigger] blizzards@[k2]).direction),
            k <= n,
            out@.len() == size.0,
            forall|r2: int| 0 <= r2 < size.0 ==> (#[trigger] out@[r2])@.len() == size.1,
            forall|r2: int, c2: int|
                0 <= r2 < size.0 && 0 <= c2 < size.1 ==> ((#[trigger] out@[r2]@[c2]) <==> exists|
                    k2: int,
                |
                    0 <= k2 < k && blizzard_cell(
                        #[trigger] blizzards@[k2],
                        t as int,
                        (size.0 as int, size.1 as int),
                    ) == (r2, c2)),
        decreases n - k,
    {
        let b = &blizzards[k];
        let (bi, bj) = b.initial_position;
        let (di, dj) = b.direction;
        proof {
            assert(-(t as int) <= (di as int) * (t as int) <= t as int && -(t as int) <= (
            dj as int) * (t as int) <= t as int) by (nonlinear_arith)
                requires
                    -1 <= di <= 1,
                    -1 <= dj <= 1,
                    t >= 0,
            ;
        }
        let ti: i64 = bi as i64 + (di as i64) * (t as i64) - 1;
        let tj: i64 = bj as i64 + (dj as i64) * (t as i64) - 1;
        let mi: i64 = (size.0 as i64) - 2;
        let mj: i64 = (size.1 as i64) - 2;
        let ri: i64 = match ti.checked_rem_euclid(mi) {
            Some(v) => v,
            None => {
                proof {
                    assert(false);
                }
                0
            },
        };
        let rj: i64 = match tj.checked_rem_euclid(mj) {
            Some(v) => v,
            None => {
                proof {
                    assert(false);
                }
                0
            },
        };
        let ni = (1 + ri) as usize;
        let nj = (1 + rj) as usize;
        let ghost out_pre = out@;
        out[ni][nj] = true;
        proof {
            assert(blizzard_cell(blizzards@[k as int], t as int, (size.0 as int, size.1 as int))
                == (ni as int, nj as int));
            assert forall|r2: int, c2: int|
                0 <= r2 < size.0 && 0 <= c2 < size.1 implies ((#[trigger] out@[r2]@[c2])
                <==> exists|k2: int|
                0 <= k2 < k + 1 && blizzard_cell(
                    #[trigger] blizzards@[k2],
                    t as int,
                    (size.0 as int, size.1 as int),
                ) == (r2, c2)) by {
                if r2 == ni && c2 == nj {
                    assert(blizzard_cell(
                        blizzards@[k as int],
                        t as int,
                        (size.0 as int, size.1 as int),
                    ) == (r2, c2));
                } else {
                    assert(out@[r2]@[c2] == out_pre[r2]@[c2]);
                }
            }
        }
        k = k + 1;
    }
    out
}

} // verus!
