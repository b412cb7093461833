use optiway::checkpoint::{merge_checkpoints, Checkpoint, StudentDay, SubCheckpoint};
use optiway::error::OptiError;
use optiway::table::{RouteTable, StudentRoutes};

fn routes_of(id: &str, tag: &str) -> StudentRoutes {
    let mut days: Vec<Vec<String>> = Vec::new();
    for d in 1..=5 {
        days.push((0..12).map(|p| format!("{}{}-{}", tag, d, p)).collect());
    }
    StudentRoutes { student: id.to_string(), days }
}

fn main_checkpoint() -> Checkpoint {
    Checkpoint {
        iter: vec![0; 5],
        indices: vec![vec![7; 12]; 5],
        routes: RouteTable { students: vec![routes_of("1001", "a"), routes_of("1002", "b")] },
    }
}

fn sub(iter: u64, index: u128, students: &[&str], tag: &str) -> SubCheckpoint {
    SubCheckpoint {
        iter,
        indices: vec![index; 12],
        routes: students
            .iter()
            .map(|s| StudentDay { student: s.to_string(), periods: vec![tag.to_string(); 12] })
            .collect(),
    }
}

fn subs() -> Vec<Option<SubCheckpoint>> {
    vec![
        Some(sub(10, 1, &["1001"], "x")),
        Some(sub(20, 2, &[], "y")),
        Some(sub(30, 3, &["1002", "1001"], "z")),
        Some(sub(40, 4, &["1002"], "w")),
        Some(sub(50, 5, &[], "v")),
    ]
}

fn same(a: &Checkpoint, b: &Checkpoint) -> bool {
    a.iter == b.iter
        && a.indices == b.indices
        && a.routes.students.len() == b.routes.students.len()
        && a.routes.students.iter().zip(b.routes.students.iter()).all(|(x, y)| x.student == y.student && x.days == y.days)
}

#[test]
fn pause_merges_iteration_counts() {
    let merged = merge_checkpoints(&main_checkpoint(), &subs()).unwrap();
    assert_eq!(merged.iter, vec![10, 20, 30, 40, 50]);
    assert_eq!(merged.indices[0], vec![1; 12]);
    assert_eq!(merged.indices[4], vec![5; 12]);
}

#[test]
fn merge_takes_listed_students_and_keeps_the_rest() {
    let merged = merge_checkpoints(&main_checkpoint(), &subs()).unwrap();
    let s1 = &merged.routes.students[0];
    let s2 = &merged.routes.students[1];
    assert_eq!(s1.days[0], vec!["x".to_string(); 12]);
    assert_eq!(s1.days[1][3], "a2-3");
    assert_eq!(s1.days[2], vec!["z".to_string(); 12]);
    assert_eq!(s1.days[3][0], "a4-0");
    assert_eq!(s2.days[0][5], "b1-5");
    assert_eq!(s2.days[2], vec!["z".to_string(); 12]);
    assert_eq!(s2.days[3], vec!["w".to_string(); 12]);
}

#[test]
fn merging_twice_changes_nothing() {
    let once = merge_checkpoints(&main_checkpoint(), &subs()).unwrap();
    let twice = merge_checkpoints(&once, &subs()).unwrap();
    assert!(same(&once, &twice));
}

#[test]
fn unknown_student_is_corrupt() {
    let mut s = subs();
    s[1] = Some(sub(20, 2, &["9999"], "q"));
    assert!(matches!(merge_checkpoints(&main_checkpoint(), &s), Err(OptiError::Corrupt)));
}

#[test]
fn shape_checks() {
    assert!(main_checkpoint().check_shape());
    let mut c = main_checkpoint();
    c.iter.pop();
    assert!(!c.check_shape());
    let mut c = main_checkpoint();
    c.routes.students[1].days[4].pop();
    assert!(!c.check_shape());
    assert!(subs()[2].as_ref().unwrap().check_shape());
    let mut s = sub(1, 1, &["1001"], "x");
    s.routes[0].periods.push("extra".to_string());
    assert!(!s.check_shape());
}

#[test]
fn absent_day_keeps_its_data() {
    let mut s = subs();
    s[3] = None;
    let mut main = main_checkpoint();
    main.iter[3] = 99;
    let merged = merge_checkpoints(&main, &s).unwrap();
    assert_eq!(merged.iter, vec![10, 20, 30, 99, 50]);
    assert_eq!(merged.indices[3], vec![7; 12]);
    assert_eq!(merged.routes.students[1].days[3][2], "b4-2");
    assert_eq!(merged.routes.students[1].days[2], vec!["z".to_string(); 12]);
}
