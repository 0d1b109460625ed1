use aoc::beacons::{
    distance, find_first_hole_in_intervals, get_pairs, get_sorted_intervals_on_line,
    intervals_union_card, parse_pair, Pair, Pos,
};

#[test]
fn test_parsing() {
    assert_eq!(
        parse_pair("Sensor at x=2, y=18: closest beacon is at x=-2, y=15"),
        Some(Pair {
            sensor: Pos { x: 2, y: 18 },
            beacon: Pos { x: -2, y: 15 },
        })
    );
}

#[test]
fn test_parsing_rejects() {
    assert_eq!(parse_pair("Sensor at x=2, y=18"), None);
    assert_eq!(parse_pair(""), None);
    assert_eq!(
        parse_pair("Sensor at x=2, y=18: closest beacon is at x=-2, y=15 "),
        None
    );
}

#[test]
fn test_distance() {
    assert_eq!(distance(Pos { x: 2, y: 18 }, Pos { x: -2, y: 15 }), 7);
    assert_eq!(distance(Pos { x: 0, y: 0 }, Pos { x: 0, y: 0 }), 0);
}

#[test]
fn test_sorted_intervals() {
    let lines: Vec<String> = vec![
        "Sensor at x=8, y=7: closest beacon is at x=2, y=10".to_string(),
        "Sensor at x=0, y=11: closest beacon is at x=2, y=10".to_string(),
    ];
    let pairs = get_pairs(&lines);
    assert_eq!(pairs.len(), 2);
    let intervals = get_sorted_intervals_on_line(&pairs, 10);
    assert_eq!(intervals, vec![(-2, 2), (2, 14)]);
}

#[test]
fn test_union_card() {
    assert_eq!(intervals_union_card(&vec![]), 0);
    assert_eq!(intervals_union_card(&vec![(-1, 1), (3, 4)]), 5);
    assert_eq!(intervals_union_card(&vec![(0, 2), (2, 5)]), 6);
    assert_eq!(intervals_union_card(&vec![(0, 2), (3, 5)]), 6);
}

#[test]
fn test_first_hole() {
    assert_eq!(find_first_hole_in_intervals(&vec![(0, 2), (4, 5)]), Some(3));
    assert_eq!(find_first_hole_in_intervals(&vec![(0, 2), (3, 5)]), None);
    assert_eq!(find_first_hole_in_intervals(&vec![]), None);
}
