//! Walking a wrapped board of open and walled tiles.
//!
//! The board is a sparse grid; a walker faces one of four directions and
//! follows a path of moves and quarter turns.  For the cube reading the
//! board splits into square faces, each mapping its local cells back to
//! board positions and linking each of its sides to the side of another
//! face, possibly with the edge index inverted.

use vstd::prelude::*;

verus! {

#[derive(PartialEq, Eq, Structural, Clone, Copy, Debug)]
pub enum Direction {
    Right,
    Down,
    Left,
    Up,
}

#[derive(PartialEq, Eq, Structural, Clone, Copy, Debug)]
pub enum Step {
    Move(u32),
    RotateCW,
    RotateCCW,
}

/// The facing score of a direction: right, down, left, up in turn.
pub open spec fn dir_val(d: Direction) -> int {
    match d {
        Direction::Right => 0,
        Direction::Down => 1,
        Direction::Left => 2,
        Direction::Up => 3,
    }
}

/// The direction with a given facing score.
pub open spec fn dir_of(v: int) -> Direction {
    if v == 0 {
        Direction::Right
    } else if v == 1 {
        Direction::Down
    } else if v == 2 {
        Direction::Left
    } else {
        Direction::Up
    }
}

impl Direction {
    /// The facing score of this direction.
    pub fn int_value(&self) -> (r: u8)
        ensures
            r == dir_val(*self),
    {
        match self {
            Direction::Right => 0,
            Direction::Down => 1,
            Direction::Left => 2,
            Direction::Up => 3,
        }
    }

    /// The facing after a path step: unchanged by a move, a quarter turn
    /// for a rotation.
    pub fn get_new_direction(&self, step: &Step) -> (r: Self)
        ensures
            step matches Step::Move(_) ==> r == *self,
            step matches Step::RotateCW ==> dir_val(r) == (dir_val(*self) + 1) % 4,
            step matches Step::RotateCCW ==> dir_val(r) == (dir_val(*self) + 3) % 4,
    {
        match step {
            Step::Move(_) => *self,
            Step::RotateCW => match self {
                Direction::Right => Direction::Down,
                Direction::Down => Direction::Left,
                Direction::Left => Direction::Up,
                Direction::Up => Direction::Right,
            },
            Step::RotateCCW => match self {
                Direction::Right => Direction::Up,
                Direction::Up => Direction::Left,
                Direction::Left => Direction::Down,
                Direction::Down => Direction::Right,
            },
        }
    }
}

/// Where the walk begins: the first open tile of the top row.
pub fn get_starting_position(occupancy: &Vec<Vec<Option<bool>>>) -> (r: (usize, usize))
    requires
        occupancy@.len() >= 1,
        exists|j: int|
            0 <= j < occupancy@[0]@.len() && occupancy@[0]@[j] == Some(false),
    ensures
        r.0 == 0,
        r.1 < occupancy@[0]@.len(),
        occupancy@[0]@[r.1 as int] == Some(false),
        forall|j: int| 0 <= j < r.1 ==> occupancy@[0]@[j] != Some(false),
{
    let row = &occupancy[0];
    let m = row.len();
    let mut j: usize = 0;
    while j < m
        invariant
            row@ == occupancy@[0]@,
            m == row@.len(),
            j <= m,
            forall|j2: int| 0 <= j2 < j ==> row@[j2] != Some(false),
        decreases m - j,
    {
        match row[j] {
            Some(false) => {
                return (0, j);
            },
            _ => {},
        }
        j = j + 1;
    }
    proof {
        let jw = choose|jw: int|
            0 <= jw < occupancy@[0]@.len() && occupancy@[0]@[jw] == Some(false);
        assert(row@[jw] != Some(false));
    }
    (0, 0)
}

/// Where a walk begins on a single face: the first open tile of its top
/// row.
pub fn get_face_starting_position(occupancy: &Vec<Vec<bool>>) -> (r: (usize, usize))
    requires
        occupancy@.len() >= 1,
        exists|j: int| 0 <= j < occupancy@[0]@.len() && occupancy@[0]@[j] == false,
    ensures
        r.0 == 0,
        r.1 < occupancy@[0]@.len(),
        occupancy@[0]@[r.1 as int] == false,
        forall|j: int| 0 <= j < r.1 ==> occupancy@[0]@[j] == true,
{
    let row = &occupancy[0];
    let m = row.len();
    let mut j: usize = 0;
    while j < m
        invariant
            row@ == occupancy@[0]@,
            m == row@.len(),
            j <= m,
            forall|j2: int| 0 <= j2 < j ==> row@[j2] == true,
        decreases m - j,
    {
        if !row[j] {
            return (0, j);
        }
        j = j + 1;
    }
    proof {
        let jw = choose|jw: int| 0 <= jw < occupancy@[0]@.len() && occupancy@[0]@[jw] == false;
        assert(row@[jw] == true);
    }
    (0, 0)
}

/// A link from one side of a face into another face.
#[derive(PartialEq, Eq, Structural, Clone, Copy, Debug)]
pub struct Link {
    pub in_dir: Direction,
    pub in_face: usize,
    pub inverted: bool,
}

/// One square face of the board: its walls, the board position of each of
/// its cells, and a link for each of its four sides.
pub struct Face {
    pub occupancy: Vec<Vec<bool>>,
    pub to_global_pos: Vec<Vec<(usize, usize)>>,
    pub links: Vec<Option<Link>>,
}

impl Face {
    /// Cuts the `n` by `n` face whose top-left board cell is `start` out
    /// of the board, with no links yet.
    pub fn from_occupancy(occupancy: &Vec<Vec<Option<bool>>>, start: (usize, usize), n: usize) -> (
        r: Face)
        requires
            start.0 + n <= occupancy@.len(),
            forall|i: int|
                start.0 <= i < start.0 + n ==> start.1 + n <= (#[trigger] occupancy@[i])@.len(),
            forall|i: int, j: int|
                start.0 <= i < start.0 + n && start.1 <= j < start.1 + n
                    ==> (#[trigger] occupancy@[i]@[j]) is Some,
        ensures
            r.occupancy@.len() == n,
            r.to_global_pos@.len() == n,
            r.links@ =~= seq![Option::<Link>::None, None, None, None],
            forall|i: int|
                0 <= i < n ==> (#[trigger] r.occupancy@[i])@.len() == n && r.to_global_pos@[i]@.len()
                    == n,
            forall|i: int, j: int|
                0 <= i < n && 0 <= j < n ==> (#[trigger] r.occupancy@[i]@[j]) == occupancy@[start.0
                    + i]@[start.1 + j].unwrap(),
            forall|i: int, j: int|
                0 <= i < n && 0 <= j < n ==> (#[trigger] r.to_global_pos@[i]@[j]) == ((start.0
                    + i) as usize, (start.1 + j) as usize),
    {
        let nrows = occupancy.len();
        let mut occ: Vec<Vec<bool>> = Vec::new();
        let mut glob: Vec<Vec<(usize, usize)>> = Vec::new();
        let mut i: usize = 0;
        while i < n
            invariant
                nrows == occupancy@.len(),
                start.0 + n <= occupancy@.len(),
                forall|i2: int|
                    start.0 <= i2 < start.0 + n ==> start.1 + n <= (
                    #[trigger] occupancy@[i2])@.len(),
                forall|i2: int, j2: int|
                    start.0 <= i2 < start.0 + n && start.1 <= j2 < start.1 + n
                        ==> (#[trigger] occupancy@[i2]@[j2]) is Some,
                i <= n,
                occ@.len() == i,
                glob@.len() == i,
                forall|i2: int|
                    0 <= i2 < i ==> (#[trigger] occ@[i2])@.len() == n && glob@[i2]@.len() == n,
                forall|i2: int, j2: int|
                    0 <= i2 < i && 0 <= j2 < n ==> (#[trigger] occ@[i2]@[j2]) == occupancy@[start.0
                        + i2]@[start.1 + j2].unwrap(),
                forall|i2: int, j2: int|
                    0 <= i2 < i && 0 <= j2 < n ==> (#[trigger] glob@[i2]@[j2]) == ((start.0
                        + i2) as usize, (start.1 + j2) as usize),
            decreases n - i,
        {
            let mut orow: Vec<bool> = Vec::new();
            let mut grow: Vec<(usize, usize)> = Vec::new();
            let mut j: usize = 0;
            while j < n
                invariant
                    nrows == occupancy@.len(),
                    start.0 + n <= occupancy@.len(),
                    forall|i2: int|
                        start.0 <= i2 < start.0 + n ==> start.1 + n <= (
                        #[trigger] occupancy@[i2])@.len(),
                    forall|i2: int, j2: int|
                        start.0 <= i2 < start.0 + n && start.1 <= j2 < start.1 + n
                            ==> (#[trigger] occupancy@[i2]@[j2]) is Some,
                    i < n,
                    j <= n,
                    orow@.len() == j,
                    grow@.len() == j,
                    forall|j2: int|
                        0 <= j2 < j ==> (#[trigger] orow@[j2]) == occupancy@[start.0 + i as int]@[start.1
                            + j2].unwrap(),
                    forall|j2: int|
                        0 <= j2 < j ==> (#[trigger] grow@[j2]) == ((start.0 + i as int) as usize, (
                        start.1 + j2) as usize),
                decreases n - j,
            {
                let row = &occupancy[start.0 + i];
                let row_len = row.len();
                proof {
                    assert(start.1 + n <= row_len);
                }
                let cell = match row[start.1 + j] {
                    Some(b) => b,
                    None => {
                        proof {
                            assert(false);
                        }
                        false
                    },
                };
                orow.push(cell);
                grow.push((start.0 + i, start.1 + j));
                j = j + 1;
            }
            occ.push(orow);
            glob.push(grow);
            i = i + 1;
        }
        let mut links: Vec<Option<Link>> = Vec::new();
        links.push(None);
        links.push(None);
        links.push(None);
        links.push(None);
        let r = Face { occupancy: occ, to_global_pos: glob, links };
        proof {
            assert forall|i2: int|
                0 <= i2 < n implies (#[trigger] r.occupancy@[i2])@.len() == n
                && r.to_global_pos@[i2]@.len() == n by {
                assert(occ@[i2]@.len() == n && glob@[i2]@.len() == n);
            }
        }
        r
    }

    /// Records that leaving this face through side `out_dir` enters face
    /// `in_face` moving `in_dir`, with the edge index inverted or not.
    pub fn add_link(&mut self, out_dir: Direction, in_face: usize, in_dir: Direction, inverted: bool)
        requires
            old(self).links@.len() == 4,
        ensures
            final(self).occupancy == old(self).occupancy,
            final(self).to_global_pos == old(self).to_global_pos,
            final(self).links@.len() == 4,
            final(self).links@[dir_val(out_dir)] == Some(Link { in_dir, in_face, inverted }),
            forall|k: int|
                0 <= k < 4 && k != dir_val(out_dir) ==> final(self).links@[k] == old(
                    self,
                ).links@[k],
    {
        let idx = self.int_index(out_dir);
        self.links[idx] = Some(Link { in_dir, in_face, inverted });
    }

    /// The facing score of a direction as an index.
    fn int_index(&self, d: Direction) -> (r: usize)
        ensures
            r == dir_val(d),
    {
        match d {
            Direction::Right => 0,
            Direction::Down => 1,
            Direction::Left => 2,
            Direction::Up => 3,
        }
    }

    /// Where a walker leaving through side `dir` at edge offset `index`
    /// re-enters: its cell on the linked face, that face, and its new
    /// facing.
    pub fn pass_through(&self, dir: Direction, index: usize) -> (r: ((usize, usize), usize, Direction))
        requires
            self.links@.len() == 4,
            self.links@[dir_val(dir)] is Some,
            index < self.occupancy@.len(),
        ensures
            ({
                let link = self.links@[dir_val(dir)].unwrap();
                let n = self.occupancy@.len() as int;
                let new_index = if link.inverted {
                    n - index - 1
                } else {
                    index as int
                };
                &&& r.1 == link.in_face
                &&& r.2 == link.in_dir
                &&& (r.0.0 as int, r.0.1 as int) == match link.in_dir {
                    Direction::Up => (n - 1, new_index),
                    Direction::Right => (new_index, 0int),
                    Direction::Down => (0int, new_index),
                    Direction::Left => (new_index, n - 1),
                }
            }),
    {
        let n = self.occupancy.len();
        let idx = self.int_index(dir);
        let link = match &self.links[idx] {
            Some(l) => *l,
            None => {
                proof {
                    assert(false);
                }
                Link { in_dir: Direction::Up, in_face: 0, inverted: false }
            },
        };
        let new_index = if link.inverted {
            n - index - 1
        } else {
            index
        };
        let face_pos = match link.in_dir {
            Direction::Up => (n - 1, new_index),
            Direction::Right => (new_index, 0),
            Direction::Down => (0, new_index),
            Direction::Left => (new_index, n - 1),
        };
        (face_pos, link.in_face, link.in_dir)
    }
}

} // verus!
