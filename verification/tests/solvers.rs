use aoc::assignments;
use aoc::blizzard::{get_blizzard_occupancy_map, Blizzard};
use aoc::cathode;
use aoc::lava;
use aoc::monkey_map;
use aoc::monkey_map::{Direction, Face, Step};
use aoc::rps::{RoundOutcome, Shape};
use aoc::rope::{AtomicMove, Move, Pos};
use aoc::climb;
use aoc::dirtree::{Node, Tree};
use aoc::rope;
use aoc::sand;
use aoc::sand::Content;
use aoc::rps;
use aoc::signal;
use aoc::snafu;

fn lines_of(v: &[&str]) -> Vec<String> {
    v.iter().map(|s| s.to_string()).collect()
}

#[test]
fn test_rps_scores() {
    let lines = lines_of(&["A Y", "B X", "C Z"]);
    assert_eq!(rps::part1(&lines), 15);
    assert_eq!(rps::part2(&lines), 12);
}

#[test]
fn test_rps_round() {
    assert_eq!(Shape::Rock.base_score(), 1);
    assert_eq!(Shape::Scissors.base_score(), 3);
    assert!(Shape::Rock.is_winning_against(Shape::Scissors));
    assert!(!Shape::Rock.is_winning_against(Shape::Paper));
    assert_eq!(rps::get_round_score(Shape::Rock, Shape::Paper), 8);
    assert_eq!(
        Shape::Scissors.get_shape_for_outcome(RoundOutcome::Win),
        Shape::Rock
    );
}

#[test]
fn test_assignments_counts() {
    let lines = lines_of(&["2-4,6-8", "2-3,4-5", "5-7,7-9", "2-8,3-7", "6-6,4-6", "2-6,4-8"]);
    assert_eq!(assignments::part1(&lines), 2);
    assert_eq!(assignments::part2(&lines), 4);
}

#[test]
fn test_assignments_parse() {
    let a = assignments::parse_line("2-4,6-8").unwrap();
    assert_eq!((a.0.start, a.0.end, a.1.start, a.1.end), (2, 4, 6, 8));
    assert_eq!(assignments::parse_line("2-4"), None);
    assert_eq!(assignments::parse_line("2-4,6-8,1-2"), None);
    let b = assignments::Assignement { start: 2, end: 8 };
    let c = assignments::Assignement { start: 3, end: 7 };
    assert!(b.fully_contains(&c));
    assert!(!c.fully_contains(&b));
    assert!(b.overlaps_with(&c));
    assert_eq!(b.size(), 7);
}

#[test]
fn test_signal_markers() {
    assert_eq!(signal::detect_pattern(4, "mjqjpqmgbljsphdztnvjfqwrcgsmlb"), 7);
    assert_eq!(signal::detect_pattern(4, "bvwbjplbgvbhsrlpgdmjqwftvncz"), 5);
    assert_eq!(signal::detect_pattern(14, "mjqjpqmgbljsphdztnvjfqwrcgsmlb"), 19);
    assert_eq!(signal::detect_pattern(4, "aaaa"), 0);
    let lines = lines_of(&["mjqjpqmgbljsphdztnvjfqwrcgsmlb"]);
    assert_eq!(signal::part1(&lines), 7);
    assert_eq!(signal::part2(&lines), 19);
}

#[test]
fn test_dirtree() {
    let mut t = Tree::new(Node::Directory("/".to_string()));
    let a = t.insert_child(Node::Directory("a".to_string()));
    let b = t.insert_child(Node::File("b.txt".to_string(), 14848514));
    assert_eq!(a, 0);
    assert_eq!(b, 1);
    assert_eq!(t.find_child("a"), Some(0));
    assert_eq!(t.find_child("b.txt"), Some(1));
    assert_eq!(t.find_child("c"), None);
}

#[test]
fn test_rope_moves() {
    assert_eq!(rope::distance(Pos(0, 0), Pos(2, -3)), 5);
    assert_eq!(
        rope::apply_move(Pos(1, 1), Move::Single(AtomicMove::Up)),
        Pos(1, 2)
    );
    assert_eq!(
        rope::apply_move(Pos(1, 1), Move::Diagonal(AtomicMove::Right, AtomicMove::Down)),
        Pos(2, 0)
    );
    assert_eq!(rope::get_tail_move(Pos(0, 0), Pos(0, 0)), None);
    assert_eq!(rope::get_tail_move(Pos(2, 0), Pos(0, 0)), Some(Move::Single(AtomicMove::Right)));
    assert_eq!(rope::get_tail_move(Pos(0, -2), Pos(0, 0)), Some(Move::Single(AtomicMove::Down)));
    assert_eq!(
        rope::get_tail_move(Pos(2, 1), Pos(0, 0)),
        Some(Move::Diagonal(AtomicMove::Right, AtomicMove::Up))
    );
    assert_eq!(rope::get_tail_move(Pos(1, 1), Pos(0, 0)), None);
    let moves = rope::parse_moves(&lines_of(&["R 4", "U 2"]));
    assert_eq!(moves.len(), 6);
    assert_eq!(moves[0], Move::Single(AtomicMove::Right));
    assert_eq!(moves[4], Move::Single(AtomicMove::Up));
}

#[test]
fn test_snafu_sum() {
    let lines = lines_of(&[
        "1=-0-2", "12111", "2=0=", "21", "2=01", "111", "20012", "112", "1=-1=", "1-12", "12",
        "1=", "122",
    ]);
    assert_eq!(snafu::part1(&lines), "2=-1=0");
    assert_eq!(snafu::part1(&lines_of(&["1", "2"])), "1=");
    assert_eq!(snafu::part2(&lines), 0);
}

#[test]
fn test_climb_shortest_route() {
    let lines = lines_of(&["Sabqponm", "abcryxxl", "accszExk", "acctuvwj", "abdefghi"]);
    assert_eq!(climb::part1_bfs(&lines), 31);
    assert_eq!(climb::part1_dijsktra(&lines), 31);
    assert_eq!(climb::part2_bfs(&lines), 29);
    assert_eq!(climb::part2_dijsktra(&lines), 29);
    assert_eq!(climb::get_current_height('S'), 0);
    assert_eq!(climb::get_current_height('E'), 25);
    assert_eq!(climb::get_current_height('c'), 2);
}

#[test]
fn test_cathode_signal() {
    let mut lines: Vec<String> = vec!["addx 5".to_string()];
    for _ in 0..30 {
        lines.push("noop".to_string());
    }
    assert_eq!(cathode::part1(&lines), 120);
    let instrs = cathode::get_instructions_from_lines(&lines);
    assert_eq!(instrs.len(), 31);
    assert_eq!(instrs[0], cathode::Instruction::AddX(5));
    assert_eq!(instrs[1], cathode::Instruction::Noop);
}

#[test]
fn test_lava_surface() {
    let lines = lines_of(&[
        "2,2,2", "1,2,2", "3,2,2", "2,1,2", "2,3,2", "2,2,1", "2,2,3", "2,2,4", "2,2,6",
        "1,2,5", "3,2,5", "2,1,5", "2,3,5",
    ]);
    assert_eq!(lava::part1(&lines), 64);
    assert_eq!(lava::part1(&lines_of(&["0,0,0"])), 6);
    assert_eq!(lava::parse_cube_line("2,2,6"), Some((2, 2, 6)));
    assert_eq!(lava::parse_cube_line("2,2"), None);
    assert_eq!(lava::parse_cube_line("2,2,2,2"), None);
}

#[test]
fn test_board_directions() {
    assert_eq!(Direction::Right.int_value(), 0);
    assert_eq!(Direction::Up.int_value(), 3);
    assert_eq!(Direction::Right.get_new_direction(&Step::RotateCW), Direction::Down);
    assert_eq!(Direction::Right.get_new_direction(&Step::RotateCCW), Direction::Up);
    assert_eq!(Direction::Left.get_new_direction(&Step::Move(3)), Direction::Left);
}

#[test]
fn test_board_faces() {
    let board: Vec<Vec<Option<bool>>> = vec![
        vec![None, Some(true), Some(false), Some(false)],
        vec![None, None, Some(false), Some(true)],
    ];
    assert_eq!(monkey_map::get_starting_position(&board), (0, 2));
    let face = Face::from_occupancy(&board, (0, 2), 2);
    assert_eq!(face.occupancy, vec![vec![false, false], vec![false, true]]);
    assert_eq!(face.to_global_pos[1][0], (1, 2));
    let mut face = face;
    face.add_link(Direction::Right, 4, Direction::Down, true);
    let (pos, in_face, in_dir) = face.pass_through(Direction::Right, 1);
    assert_eq!(in_face, 4);
    assert_eq!(in_dir, Direction::Down);
    assert_eq!(pos, (0, 0));
    assert_eq!(
        monkey_map::get_face_starting_position(&vec![vec![true, false]]),
        (0, 1)
    );
}

#[test]
fn test_sand_paths() {
    assert_eq!(
        sand::parse_rock_path("498,4 -> 498,6 -> 496,6"),
        Some(vec![(498, 4), (498, 6), (496, 6)])
    );
    assert_eq!(sand::parse_rock_path("503,4"), Some(vec![(503, 4)]));
    assert_eq!(sand::parse_rock_path("498,4 ->"), None);
    assert_eq!(sand::parse_rock_path(""), None);
    assert!(Content::Rock.is_occupied());
    assert!(Content::Sand.is_occupied());
    assert!(!Content::Empty.is_occupied());
    assert!(!Content::Source.is_occupied());
}

#[test]
fn test_sand_falls() {
    // A five-wide cave, rock walls on both sides, a rock floor on row 3.
    let wall = |c| vec![Content::Rock, c, c, c, Content::Rock];
    let mut grid = vec![
        wall(Content::Empty),
        wall(Content::Empty),
        wall(Content::Empty),
        vec![Content::Rock; 5],
        vec![Content::Empty; 5],
    ];
    // Sand dropped in the middle rests just above the floor.
    assert_eq!(sand::get_next_sand_pos(&grid, 3, (2, 0)), Some((2, 2)));
    grid[2][2] = Content::Sand;
    // The next unit slides to a side of the resting one.
    let r = sand::get_next_sand_pos(&grid, 3, (2, 0));
    assert!(r == Some((1, 2)) || r == Some((3, 2)));
    grid[2][1] = Content::Sand;
    grid[2][3] = Content::Sand;
    grid[1][2] = Content::Sand;
    // Blocked straight down, the next unit slides down-left and rests.
    assert_eq!(sand::get_next_sand_pos(&grid, 3, (2, 0)), Some((1, 1)));
    grid[1][1] = Content::Sand;
    grid[1][3] = Content::Sand;
    grid[0][2] = Content::Sand;
    // With every route blocked the drop cell itself is the rest cell.
    assert_eq!(sand::get_next_sand_pos(&grid, 3, (2, 0)), Some((2, 0)));
}

#[test]
fn test_blizzard_map() {
    // A 5 by 7 valley: interior rows 1..=3, columns 1..=5.
    let blizzards = vec![
        Blizzard { initial_position: (1, 1), direction: (0, 1) },
        Blizzard { initial_position: (3, 5), direction: (-1, 0) },
    ];
    let at0 = get_blizzard_occupancy_map(&blizzards, 0, (5, 7));
    assert!(at0[1][1] && at0[3][5]);
    assert!(!at0[1][2]);
    let at1 = get_blizzard_occupancy_map(&blizzards, 1, (5, 7));
    assert!(at1[1][2] && at1[2][5]);
    // The first blizzard wraps around the five interior columns.
    let at5 = get_blizzard_occupancy_map(&blizzards, 5, (5, 7));
    assert!(at5[1][1]);
    // The second wraps around the three interior rows.
    assert!(at5[1][5]);
}
