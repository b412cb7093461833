use optiway::congestion::compute_congestion;
use optiway::route::RoomSet;
use optiway::table::{RouteTable, StudentRoutes};
use optiway::view::{is_segment_active, route_text, visible_pairs, VisiblePair};

#[test]
fn route_as_text() {
    assert_eq!(route_text("A B G"), "A \u{2192} B \u{2192} G");
    assert_eq!(route_text("A"), "A");
    assert_eq!(route_text(""), "");
}

#[test]
fn segments_on_the_selected_floor() {
    assert!(is_segment_active(0, 0, 300));
    assert!(is_segment_active(3, 0, 100));
    assert!(is_segment_active(3, 100, 0));
    assert!(is_segment_active(2, 0, 0));
    assert!(!is_segment_active(4, 0, 50));
    assert!(!is_segment_active(8, 0, 250));
}

#[test]
fn congestion_filter_keeps_busy_passages() {
    let mut days = vec![vec![String::new(); 12]; 5];
    days[0][0] = "A B C".to_string();
    let mut days2 = vec![vec![String::new(); 12]; 5];
    days2[0][0] = "B C".to_string();
    let table = RouteTable {
        students: vec![
            StudentRoutes { student: "1".to_string(), days },
            StudentRoutes { student: "2".to_string(), days: days2 },
        ],
    };
    let rs = RoomSet::new(vec!["A".to_string(), "B".to_string(), "C".to_string()]).unwrap();
    let report = compute_congestion(&table, &rs).unwrap();
    let all = visible_pairs(&report.slots[0].counts, 3, 0);
    assert_eq!(all.len(), 4);
    let busy = visible_pairs(&report.slots[0].counts, 3, 2);
    assert_eq!(busy, vec![VisiblePair { from: 1, to: 2, congestion: 2 }, VisiblePair { from: 2, to: 1, congestion: 2 }]);
}
