use optiway::route::RoomSet;
use optiway::timetable::{validate_timetable, DayNode, PeriodNode, StudentNode, TimetableDoc, TimetableIssue};

fn rooms() -> RoomSet {
    RoomSet::new(vec!["R101".to_string(), "R102".to_string(), "G".to_string()]).unwrap()
}

fn day(key: &str, periods: &[(&str, &str)]) -> DayNode {
    DayNode {
        key: key.to_string(),
        is_map: true,
        periods: periods
            .iter()
            .map(|(k, r)| PeriodNode { key: k.to_string(), is_text: true, room: r.to_string(), text: format!("\"{}\"", r) })
            .collect(),
    }
}

fn full_day(key: &str) -> DayNode {
    let periods: Vec<(String, &str)> = (1..=10).map(|p| (p.to_string(), if p % 2 == 0 { "R101" } else { "G" })).collect();
    let refs: Vec<(&str, &str)> = periods.iter().map(|(k, r)| (k.as_str(), *r)).collect();
    day(key, &refs)
}

fn student(key: &str) -> StudentNode {
    StudentNode { key: key.to_string(), is_map: true, days: (1..=5).map(|d| full_day(&d.to_string())).collect() }
}

fn doc(students: Vec<StudentNode>) -> TimetableDoc {
    TimetableDoc { is_map: true, students }
}

fn message(d: &TimetableDoc) -> String {
    match validate_timetable(d, &rooms()) {
        Err(issue) => issue.message(),
        Ok(_) => panic!("expected an issue"),
    }
}

#[test]
fn valid_timetable_lists_students() {
    let s = validate_timetable(&doc(vec![student("12345"), student("1234")]), &rooms()).unwrap();
    assert_eq!(s.students, vec!["12345".to_string(), "1234".to_string()]);
}

#[test]
fn not_a_map() {
    let d = TimetableDoc { is_map: false, students: vec![] };
    assert_eq!(message(&d), "Invalid timetable file format: the JSON file is not a map");
}

#[test]
fn bad_student_numbers() {
    assert_eq!(message(&doc(vec![student("123")])), "Invalid student number: \"123\"");
    assert_eq!(message(&doc(vec![student("12a45")])), "Invalid student number: \"12a45\"");
    assert_eq!(message(&doc(vec![student("123456")])), "Invalid student number: \"123456\"");
}

#[test]
fn student_numbers_are_checked_before_days() {
    let mut s = student("1234");
    s.days.pop();
    let d = doc(vec![s, student("x")]);
    assert!(matches!(validate_timetable(&d, &rooms()), Err(TimetableIssue::BadStudent(_))));
}

#[test]
fn missing_and_bad_days() {
    let mut s = student("1234");
    s.days.remove(3);
    s.days.remove(1);
    assert_eq!(message(&doc(vec![s])), "Student 1234 has an incomplete timetable: missing day 2, 4");
    let mut s = student("1234");
    s.days[0].key = "6".to_string();
    assert_eq!(message(&doc(vec![s])), "Student 1234 has an invalid day of week: \"6\"");
    let mut s = student("1234");
    s.is_map = false;
    s.days.clear();
    assert_eq!(message(&doc(vec![s])), "Invalid timetable file format: student 1234's timetable is not a map");
}

#[test]
fn missing_and_bad_periods() {
    let mut s = student("1234");
    s.days[2].periods.remove(9);
    assert_eq!(message(&doc(vec![s])), "Student 1234 has an incomplete timetable on day 3: missing periods 10");
    let mut s = student("1234");
    s.days[2].periods[0].key = "0".to_string();
    assert_eq!(message(&doc(vec![s])), "Student 1234 has an invalid period on day 3: \"0\"");
    let mut s = student("1234");
    s.days[4].is_map = false;
    s.days[4].periods.clear();
    assert_eq!(message(&doc(vec![s])), "Invalid timetable file format: student 1234's timetable on day 5 is not a map");
}

#[test]
fn unknown_room() {
    let mut s = student("1234");
    s.days[1].periods[3].room = "R999".to_string();
    s.days[1].periods[3].text = "\"R999\"".to_string();
    assert_eq!(message(&doc(vec![s])), "Student 1234 has an invalid classroom on day 2 period 4: \"R999\"");
}

#[test]
fn non_numeric_student_number_is_reported_first() {
    let d = doc(vec![StudentNode { key: "12a4".to_string(), is_map: true, days: vec![] }]);
    assert_eq!(message(&d), "Invalid student number: \"12a4\"");
}
