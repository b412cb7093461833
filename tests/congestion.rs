use optiway::congestion::{compute_congestion, evaluate_congestion, histogram, CongestionReport};
use optiway::error::OptiError;
use optiway::route::RoomSet;
use optiway::table::{RouteTable, StudentRoutes};
use optiway::congestion_range_index;

fn student(id: &str, routes: &[(usize, usize, &str)]) -> StudentRoutes {
    let mut days: Vec<Vec<String>> = Vec::new();
    for _ in 0..5 {
        days.push(vec![String::new(); 12]);
    }
    for (day, period, route) in routes {
        days[day - 1][*period] = route.to_string();
    }
    StudentRoutes { student: id.to_string(), days }
}

fn rooms(names: &[&str]) -> RoomSet {
    RoomSet::new(names.iter().map(|n| n.to_string()).collect()).unwrap()
}

fn slot(day: usize, period: usize) -> usize {
    (day - 1) * 12 + period
}

fn point(report: &CongestionReport, rs: &RoomSet, day: usize, period: usize, room: &str) -> u32 {
    let name = room.to_string();
    let i = rs.find(&name).unwrap();
    report.slots[slot(day, period)].counts.points[i]
}

fn path(report: &CongestionReport, rs: &RoomSet, day: usize, period: usize, a: &str, b: &str) -> u32 {
    let n = rs.len();
    let i = rs.find(&a.to_string()).unwrap();
    let j = rs.find(&b.to_string()).unwrap();
    report.slots[slot(day, period)].counts.paths[i * n + j]
}

#[test]
fn two_students_share_a_corridor() {
    let table = RouteTable {
        students: vec![student("10001", &[(1, 0, "R1 R2 R3")]), student("10002", &[(1, 0, "R2 R3 R4")])],
    };
    let rs = rooms(&["R1", "R2", "R3", "R4", "G"]);
    let report = compute_congestion(&table, &rs).unwrap();
    assert_eq!(point(&report, &rs, 1, 0, "R1"), 1);
    assert_eq!(point(&report, &rs, 1, 0, "R2"), 2);
    assert_eq!(point(&report, &rs, 1, 0, "R3"), 2);
    assert_eq!(point(&report, &rs, 1, 0, "R4"), 1);
    assert_eq!(path(&report, &rs, 1, 0, "R1", "R2"), 1);
    assert_eq!(path(&report, &rs, 1, 0, "R2", "R1"), 1);
    assert_eq!(path(&report, &rs, 1, 0, "R2", "R3"), 2);
    assert_eq!(path(&report, &rs, 1, 0, "R3", "R2"), 2);
    assert_eq!(path(&report, &rs, 1, 0, "R3", "R4"), 1);
    assert_eq!(path(&report, &rs, 1, 0, "R4", "R3"), 1);
    assert_eq!(path(&report, &rs, 1, 0, "R1", "R3"), 0);
    assert_eq!(report.max_congestion, 2);
    assert_eq!(report.slots[slot(1, 0)].point_hist[1], 4);
    assert_eq!(report.slots[slot(1, 0)].point_hist[0], 1);
}

#[test]
fn point_counts_sum_to_visits() {
    let table = RouteTable {
        students: vec![
            student("10001", &[(2, 3, "A G B  C"), (2, 4, "G")]),
            student("10002", &[(2, 3, "C A"), (5, 11, "B B B")]),
        ],
    };
    let rs = rooms(&["A", "B", "C", "G"]);
    let report = compute_congestion(&table, &rs).unwrap();
    let total: u32 = report.slots[slot(2, 3)].counts.points.iter().sum();
    assert_eq!(total, 5);
    let total: u32 = report.slots[slot(2, 4)].counts.points.iter().sum();
    assert_eq!(total, 0);
    let total: u32 = report.slots[slot(5, 11)].counts.points.iter().sum();
    assert_eq!(total, 3);
    // "A G B" steps from A to B: the outside token is skipped, not a break.
    assert_eq!(path(&report, &rs, 2, 3, "A", "B"), 1);
    // A step from a room to itself is recorded under the same pair twice.
    assert_eq!(path(&report, &rs, 5, 11, "B", "B"), 4);
    assert_eq!(report.max_congestion, 3);
}

#[test]
fn histograms_count_rooms_and_congested_pairs() {
    let table = RouteTable {
        students: vec![student("1", &[(3, 5, "A B C")]), student("2", &[(3, 5, "A B")])],
    };
    let rs = rooms(&["A", "B", "C", "D", "G"]);
    let report = compute_congestion(&table, &rs).unwrap();
    for s in 0..60 {
        let sr = &report.slots[s];
        let points: usize = sr.point_hist.iter().sum();
        assert_eq!(points, 5);
        let nonzero = sr.counts.paths.iter().filter(|c| **c > 0).count();
        let pairs: usize = sr.path_hist.iter().sum();
        assert_eq!(pairs, nonzero);
    }
    assert_eq!(report.slots[slot(3, 5)].path_hist[1], 4);
}

#[test]
fn histogram_of_values() {
    let h = histogram(&vec![0, 5, 20, 21, 100, 101, 400, 401, 0], false);
    assert_eq!(h, vec![2, 2, 1, 1, 1, 1, 1]);
    let h = histogram(&vec![0, 5, 0, 450], true);
    assert_eq!(h, vec![0, 1, 0, 0, 0, 0, 1]);
}

#[test]
fn bucket_index_boundaries() {
    assert_eq!(congestion_range_index(0), 0);
    assert_eq!(congestion_range_index(1), 1);
    assert_eq!(congestion_range_index(20), 1);
    assert_eq!(congestion_range_index(21), 2);
    assert_eq!(congestion_range_index(50), 2);
    assert_eq!(congestion_range_index(51), 3);
    assert_eq!(congestion_range_index(100), 3);
    assert_eq!(congestion_range_index(101), 4);
    assert_eq!(congestion_range_index(200), 4);
    assert_eq!(congestion_range_index(201), 5);
    assert_eq!(congestion_range_index(400), 5);
    assert_eq!(congestion_range_index(401), 6);
    assert_eq!(congestion_range_index(100000), 6);
    assert_eq!(congestion_range_index(u32::MAX), 6);
}

#[test]
fn unknown_room_is_reported() {
    let table = RouteTable { students: vec![student("1", &[(4, 2, "A X")])] };
    let rs = rooms(&["A", "G"]);
    match compute_congestion(&table, &rs) {
        Err(OptiError::UnknownRoom(t)) => assert_eq!(t, "X"),
        _ => panic!("expected an unknown room"),
    }
}

#[test]
fn missing_baseline_is_missing_data() {
    let rs = rooms(&["A"]);
    assert!(matches!(evaluate_congestion(&None, &None, &rs), Err(OptiError::MissingData)));
}

#[test]
fn absent_optimized_routes_are_skipped() {
    let table = RouteTable { students: vec![student("1", &[(1, 1, "A B")])] };
    let rs = rooms(&["A", "B"]);
    let (base, opt) = evaluate_congestion(&Some(table), &None, &rs).unwrap();
    assert!(opt.is_none());
    assert_eq!(base.max_congestion, 1);
}

#[test]
fn duplicate_rooms_are_refused() {
    assert!(RoomSet::new(vec!["A".to_string(), "A".to_string()]).is_none());
}

#[test]
fn empty_table_has_no_congestion() {
    let table = RouteTable { students: vec![] };
    let rs = rooms(&["A", "B"]);
    let report = compute_congestion(&table, &rs).unwrap();
    assert_eq!(report.max_congestion, 0);
    assert_eq!(report.slots.len(), 60);
    assert_eq!(report.slots[0].point_hist[0], 2);
}
