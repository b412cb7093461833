use optiway::checkpoint::{Checkpoint, SubCheckpoint};
use optiway::entries::{index_entries, index_grid, table_entries_of, table_from_entries, IndexEntries, RouteEntries};
use optiway::error::OptiError;
use optiway::table::{RouteTable, StudentRoutes};

fn table() -> RouteTable {
    let mut students = Vec::new();
    for id in ["2001", "2002"] {
        let days = (1..=5).map(|d| (0..12).map(|p| format!("{} R{} R{}", id, d, p)).collect()).collect();
        students.push(StudentRoutes { student: id.to_string(), days });
    }
    RouteTable { students }
}

fn checkpoint() -> Checkpoint {
    let indices = (0..5).map(|d| (0..12).map(|p| (d * 100 + p) as u128).collect()).collect();
    Checkpoint { iter: vec![3, 1, 4, 1, 5], indices, routes: table() }
}

#[test]
fn checkpoint_round_trip() {
    let c = checkpoint();
    let (iter, ix, rs) = c.to_entries();
    let back = Checkpoint::from_entries(&iter, &ix, &rs).unwrap();
    assert_eq!(back.iter, c.iter);
    assert_eq!(back.indices, c.indices);
    assert_eq!(back.routes.students.len(), 2);
    for (a, b) in back.routes.students.iter().zip(c.routes.students.iter()) {
        assert_eq!(a.student, b.student);
        assert_eq!(a.days, b.days);
    }
}

#[test]
fn entries_in_any_order_are_read() {
    let mut ix: IndexEntries = index_entries(&checkpoint().indices);
    ix.reverse();
    for (_, row) in ix.iter_mut() {
        row.reverse();
    }
    let g = index_grid(&ix).unwrap();
    assert_eq!(g, checkpoint().indices);
}

#[test]
fn missing_parts_are_corrupt() {
    let c = checkpoint();
    let (iter, ix, rs) = c.to_entries();
    assert!(matches!(Checkpoint::from_entries(&iter[..4].to_vec(), &ix, &rs), Err(OptiError::Corrupt)));
    let mut no_day = ix.clone();
    no_day.remove(2);
    assert!(matches!(Checkpoint::from_entries(&iter, &no_day, &rs), Err(OptiError::Corrupt)));
    let mut no_slot: RouteEntries = rs.clone();
    no_slot[1].1[4].1.remove(7);
    assert!(matches!(Checkpoint::from_entries(&iter, &ix, &no_slot), Err(OptiError::Corrupt)));
    assert!(matches!(table_from_entries(&no_slot), Err(OptiError::Corrupt)));
}

#[test]
fn table_entries_round_trip() {
    let t = table();
    let back = table_from_entries(&table_entries_of(&t)).unwrap();
    assert_eq!(back.students[1].days[4][11], "2002 R5 R11");
}

#[test]
fn sub_checkpoint_takes_its_day() {
    let c = checkpoint();
    let (_, ix, rs) = c.to_entries();
    let sub = SubCheckpoint::from_entries(77, &ix, &rs, 3).unwrap();
    assert_eq!(sub.iter, 77);
    assert_eq!(sub.indices, c.indices[2]);
    assert_eq!(sub.routes.len(), 2);
    assert_eq!(sub.routes[0].student, "2001");
    assert_eq!(sub.routes[0].periods, c.routes.students[0].days[2]);
    assert!(matches!(SubCheckpoint::from_entries(77, &ix, &rs, 6), Err(OptiError::Corrupt)));
}

#[test]
fn duplicate_student_is_corrupt() {
    let mut t = table();
    t.students[1].student = "2001".to_string();
    assert!(!t.check_shape());
    let mut rs = table_entries_of(&table());
    rs[1].0 = "2001".to_string();
    assert!(matches!(table_from_entries(&rs), Err(OptiError::Corrupt)));
}
