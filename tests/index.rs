use optiway::congestion::compute_congestion;
use optiway::distance::{parse_distance_line, parse_distances, DistanceTable};
use optiway::error::OptiError;
use optiway::index::{day_index_label, day_total, grand_total, index_terms, total_index_label, EdgeTerm};
use optiway::route::RoomSet;
use optiway::table::{RouteTable, StudentRoutes};

fn student(id: &str, day: usize, period: usize, route: &str) -> StudentRoutes {
    let mut days: Vec<Vec<String>> = vec![vec![String::new(); 12]; 5];
    days[day - 1][period] = route.to_string();
    StudentRoutes { student: id.to_string(), days }
}

fn rooms(names: &[&str]) -> RoomSet {
    RoomSet::new(names.iter().map(|n| n.to_string()).collect()).unwrap()
}

#[test]
fn distance_lines_are_read() {
    let l = parse_distance_line("R1 R2 35 x").unwrap();
    assert_eq!(l.from, "R1");
    assert_eq!(l.to, "R2");
    assert_eq!(l.distance, 35);
    assert!(matches!(parse_distance_line("R1 R2"), Err(OptiError::ParseFailure)));
    assert!(matches!(parse_distance_line("R1 R2 far"), Err(OptiError::ParseFailure)));
}

#[test]
fn distance_table_is_symmetric_and_last_line_wins() {
    let lines = parse_distances("A B 10 0\nB C 4 0\n\nC B 6 0\nA Z 1 0\n").unwrap();
    assert_eq!(lines.len(), 4);
    let rs = rooms(&["A", "B", "C"]);
    let t = DistanceTable::build(&lines, &rs).unwrap();
    assert_eq!(t.get(0, 1), Some(10));
    assert_eq!(t.get(1, 0), Some(10));
    assert_eq!(t.get(1, 2), Some(6));
    assert_eq!(t.get(2, 1), Some(6));
    assert_eq!(t.get(0, 2), None);
}

#[test]
fn bad_distance_file_fails() {
    assert!(matches!(parse_distances("A B 1 0\nA B\n"), Err(OptiError::ParseFailure)));
}

#[test]
fn terms_carry_distance_and_congestion() {
    let table = RouteTable {
        students: vec![student("1", 1, 0, "A B C"), student("2", 1, 0, "B C")],
    };
    let rs = rooms(&["A", "B", "C", "G"]);
    let report = compute_congestion(&table, &rs).unwrap();
    let lines = parse_distances("A B 10 0\nB C 20 0").unwrap();
    let dist = DistanceTable::build(&lines, &rs).unwrap();
    let terms = index_terms(&table, &rs, &report, &dist).unwrap();
    assert_eq!(terms.len(), 60);
    assert_eq!(terms[0][0], vec![EdgeTerm { distance: 10, congestion: 1 }, EdgeTerm { distance: 20, congestion: 2 }]);
    assert_eq!(terms[0][1], vec![EdgeTerm { distance: 20, congestion: 2 }]);
    assert!(terms[1][0].is_empty());
}

#[test]
fn missing_distance_is_graph_inconsistency() {
    let table = RouteTable { students: vec![student("1", 2, 3, "A C")] };
    let rs = rooms(&["A", "B", "C"]);
    let report = compute_congestion(&table, &rs).unwrap();
    let lines = parse_distances("A B 10 0").unwrap();
    let dist = DistanceTable::build(&lines, &rs).unwrap();
    match index_terms(&table, &rs, &report, &dist) {
        Err(OptiError::GraphInconsistency(a, b)) => {
            assert_eq!(a, "A");
            assert_eq!(b, "C");
        },
        _ => panic!("expected a missing distance"),
    }
}

#[test]
fn index_totals() {
    let row = vec![1u128, 2, 3];
    assert_eq!(day_total(&row), Some(6));
    assert_eq!(day_total(&vec![u128::MAX, 1]), None);
    assert_eq!(grand_total(&vec![vec![1, 2], vec![3], vec![]]), Some(6));
    assert_eq!(grand_total(&vec![vec![u128::MAX], vec![1]]), None);
}

#[test]
fn index_labels_group_digits() {
    assert_eq!(day_index_label(&vec![999, 1]), Some("1\u{202f}000".to_string()));
    assert_eq!(total_index_label(&vec![vec![12], vec![34]]), Some("46".to_string()));
    assert_eq!(total_index_label(&vec![vec![u128::MAX], vec![1]]), None);
}
