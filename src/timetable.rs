use vstd::prelude::*;

use crate::control::{decimal_text, u32_text};
use crate::decimal::{decimal_within, parse_decimal};
use crate::route::{is_listed, names_of, RoomSet};
use vstd::utf8::encode_utf8;

verus! {

/// One period of a student's day: its key, and the room it names.
pub struct PeriodNode {
    pub key: String,
    /// Whether the value is a string.
    pub is_text: bool,
    /// The room, where the value is a string.
    pub room: String,
    /// The value as JSON text, as messages show it.
    pub text: String,
}

/// One day of a student's timetable.
pub struct DayNode {
    pub key: String,
    /// Whether the value is a map; `periods` is empty otherwise.
    pub is_map: bool,
    pub periods: Vec<PeriodNode>,
}

/// One student's timetable.
pub struct StudentNode {
    pub key: String,
    /// Whether the value is a map; `days` is empty otherwise.
    pub is_map: bool,
    pub days: Vec<DayNode>,
}

/// An imported timetable, student by student in the file's order.
pub struct TimetableDoc {
    /// Whether the file holds a map; `students` is empty otherwise.
    pub is_map: bool,
    pub students: Vec<StudentNode>,
}

/// What is wrong with a timetable.
#[derive(Clone, Debug)]
pub enum TimetableIssue {
    NotAMap,
    BadStudent(String),
    StudentNotAMap(String),
    BadDay(String, String),
    MissingDays(String, Vec<u32>),
    DayNotAMap(String, String),
    BadPeriod(String, String, String),
    MissingPeriods(String, String, Vec<u32>),
    BadRoom(String, String, String, String),
}

/// Whether a character beyond ASCII is numeric in Unicode's sense.
pub uninterp spec fn numeric(c: char) -> bool;

/// Whether `c` is numeric: among ASCII characters exactly the digits `0` to `9` are.
pub open spec fn numeric_char(c: char) -> bool {
    if (c as u32) < 128 {
        '0' <= c && c <= '9'
    } else {
        numeric(c)
    }
}

/// Relies on `char::is_numeric`, which holds of Unicode's numeric characters (general
/// categories Nd, Nl and No); among ASCII characters those are the digits `0` to `9`.
#[verifier::external_body]
fn is_numeric(c: char) -> (r: bool)
    ensures
        r == numeric_char(c),
        (c as u32) >= 128 ==> r == numeric(c),
{
    c.is_numeric()
}

/// Whether a student number is four or five bytes of numeric characters.
pub open spec fn student_key_ok(k: Seq<char>) -> bool {
    &&& forall|i: int| 0 <= i < k.len() ==> numeric_char(#[trigger] k[i])
    &&& 4 <= utf8_len(k) <= 5
}

/// The length of `k` in UTF-8 bytes, as `str::len` gives it.
pub open spec fn utf8_len(k: Seq<char>) -> usize {
    encode_utf8(k).len() as usize
}

/// The number that a key from 1 to `max` writes.
pub open spec fn key_number(k: Seq<char>, max: int) -> Option<int> {
    match decimal_within(k, max) {
        Some(v) => if v >= 1 {
            Some(v)
        } else {
            None
        },
        None => None,
    }
}

/// Whether some key of `keys` writes `n`.
pub open spec fn has_number(keys: Seq<Seq<char>>, max: int, n: int) -> bool {
    exists|j: int| 0 <= j < keys.len() && key_number(keys[j], max) == Some(n)
}

/// The numbers from 1 to `n` that no key writes, in increasing order.
pub open spec fn missing(keys: Seq<Seq<char>>, max: int, n: nat) -> Seq<u32>
    decreases n,
{
    if n == 0 {
        Seq::empty()
    } else if has_number(keys, max, n as int) {
        missing(keys, max, (n - 1) as nat)
    } else {
        missing(keys, max, (n - 1) as nat).push(n as u32)
    }
}

pub open spec fn day_keys(st: StudentNode) -> Seq<Seq<char>> {
    st.days@.map_values(|d: DayNode| d.key@)
}

pub open spec fn period_keys(day: DayNode) -> Seq<Seq<char>> {
    day.periods@.map_values(|p: PeriodNode| p.key@)
}

/// Whether a day is a map of the ten periods, each naming a room of `names`.
pub open spec fn day_ok(day: DayNode, names: Seq<Seq<char>>) -> bool {
    &&& day.is_map
    &&& forall|m: int| 0 <= m < day.periods@.len() ==> key_number(#[trigger] day.periods@[m].key@, 10) is Some
    &&& missing(period_keys(day), 10, 10).len() == 0
    &&& forall|m: int| 0 <= m < day.periods@.len() ==> (#[trigger] day.periods@[m]).is_text && is_listed(
        names,
        day.periods@[m].room@,
    )
}

/// Whether a student's timetable is a map of the five weekdays, each valid.
pub open spec fn student_ok(st: StudentNode, names: Seq<Seq<char>>) -> bool {
    &&& student_key_ok(st.key@)
    &&& st.is_map
    &&& forall|j: int| 0 <= j < st.days@.len() ==> key_number(#[trigger] st.days@[j].key@, 5) is Some
    &&& missing(day_keys(st), 5, 5).len() == 0
    &&& forall|j: int| 0 <= j < st.days@.len() ==> day_ok(#[trigger] st.days@[j], names)
}

/// Whether a timetable can be imported with the rooms `names`.
pub open spec fn timetable_ok(doc: &TimetableDoc, names: Seq<Seq<char>>) -> bool {
    &&& doc.is_map
    &&& forall|i: int| 0 <= i < doc.students@.len() ==> student_ok(#[trigger] doc.students@[i], names)
}

/// The student number that an issue names; empty for a file that is not a map.
pub open spec fn issue_student(issue: TimetableIssue) -> Seq<char> {
    match issue {
        TimetableIssue::NotAMap => Seq::empty(),
        TimetableIssue::BadStudent(k) => k@,
        TimetableIssue::StudentNotAMap(k) => k@,
        TimetableIssue::BadDay(k, _) => k@,
        TimetableIssue::MissingDays(k, _) => k@,
        TimetableIssue::DayNotAMap(k, _) => k@,
        TimetableIssue::BadPeriod(k, _, _) => k@,
        TimetableIssue::MissingPeriods(k, _, _) => k@,
        TimetableIssue::BadRoom(k, _, _, _) => k@,
    }
}

/// The day key that an issue names, for issues about one day.
pub open spec fn issue_day(issue: TimetableIssue) -> Seq<char> {
    match issue {
        TimetableIssue::DayNotAMap(_, d) => d@,
        TimetableIssue::BadPeriod(_, d, _) => d@,
        TimetableIssue::MissingPeriods(_, d, _) => d@,
        TimetableIssue::BadRoom(_, d, _, _) => d@,
        _ => Seq::empty(),
    }
}

/// Whether `issue` names a real defect of `doc`.
pub open spec fn issue_holds(doc: &TimetableDoc, names: Seq<Seq<char>>, issue: TimetableIssue) -> bool {
    match issue {
        TimetableIssue::NotAMap => !doc.is_map,
        TimetableIssue::BadStudent(k) => exists|i: int|
            0 <= i < doc.students@.len() && #[trigger] doc.students@[i].key@ == k@ && !student_key_ok(k@),
        TimetableIssue::StudentNotAMap(k) => exists|i: int|
            0 <= i < doc.students@.len() && #[trigger] doc.students@[i].key@ == k@ && !doc.students@[i].is_map,
        TimetableIssue::BadDay(k, d) => exists|i: int, j: int|
            0 <= i < doc.students@.len() && 0 <= j < doc.students@[i].days@.len() && doc.students@[i].key@ == k@
                && #[trigger] doc.students@[i].days@[j].key@ == d@ && key_number(d@, 5) is None,
        TimetableIssue::MissingDays(k, list) => exists|i: int|
            0 <= i < doc.students@.len() && #[trigger] doc.students@[i].key@ == k@ && doc.students@[i].is_map
                && list@ == missing(day_keys(doc.students@[i]), 5, 5) && list@.len() > 0,
        TimetableIssue::DayNotAMap(k, d) => exists|i: int, j: int|
            0 <= i < doc.students@.len() && 0 <= j < doc.students@[i].days@.len() && doc.students@[i].key@ == k@
                && #[trigger] doc.students@[i].days@[j].key@ == d@ && !doc.students@[i].days@[j].is_map,
        TimetableIssue::BadPeriod(k, d, p) => exists|i: int, j: int, m: int|
            0 <= i < doc.students@.len() && 0 <= j < doc.students@[i].days@.len() && 0 <= m
                < doc.students@[i].days@[j].periods@.len() && doc.students@[i].key@ == k@
                && doc.students@[i].days@[j].key@ == d@ && #[trigger] doc.students@[i].days@[j].periods@[m].key@ == p@
                && key_number(p@, 10) is None,
        TimetableIssue::MissingPeriods(k, d, list) => exists|i: int, j: int|
            0 <= i < doc.students@.len() && 0 <= j < doc.students@[i].days@.len() && doc.students@[i].key@ == k@
                && #[trigger] doc.students@[i].days@[j].key@ == d@ && doc.students@[i].days@[j].is_map
                && list@ == missing(period_keys(doc.students@[i].days@[j]), 10, 10) && list@.len() > 0,
        TimetableIssue::BadRoom(k, d, p, t) => exists|i: int, j: int, m: int|
            0 <= i < doc.students@.len() && 0 <= j < doc.students@[i].days@.len() && 0 <= m
                < doc.students@[i].days@[j].periods@.len() && doc.students@[i].key@ == k@
                && doc.students@[i].days@[j].key@ == d@ && #[trigger] doc.students@[i].days@[j].periods@[m].key@ == p@
                && doc.students@[i].days@[j].periods@[m].text@ == t@ && !(doc.students@[i].days@[j].periods@[m].is_text
                && is_listed(names, doc.students@[i].days@[j].periods@[m].room@)),
    }
}

/// Whether a student number is four or five bytes of numeric characters.
fn check_student_key(k: &String) -> (r: bool)
    ensures
        r == student_key_ok(k@),
{
    let n = k.as_str().unicode_len();
    let mut i: usize = 0;
    while i < n
        invariant
            n == k@.len(),
            i <= n,
            forall|j: int| 0 <= j < i ==> numeric_char(#[trigger] k@[j]),
        decreases n - i,
    {
        if !is_numeric(k.as_str().get_char(i)) {
            return false;
        }
        i = i + 1;
    }
    let s = k.as_str();
    let bytes = s.len();
    proof {
        assert(s@ == k@);
        assert(bytes == utf8_len(k@));
    }
    4 <= bytes && bytes <= 5
}

/// The number that a key from 1 to `max` writes.
fn read_key(k: &String, max: u32) -> (r: Option<u32>)
    ensures
        match key_number(k@, max as int) {
            Some(v) => r == Some(v as u32),
            None => r is None,
        },
{
    match parse_decimal(k.as_str(), max as u128) {
        Some(v) => if v >= 1 {
            Some(v as u32)
        } else {
            None
        },
        None => None,
    }
}

/// Whether some key of `keys` writes `n`.
fn has_key_number(keys: &Vec<String>, max: u32, n: u32) -> (r: bool)
    ensures
        r == has_number(names_of(keys@), max as int, n as int),
{
    let mut j: usize = 0;
    while j < keys.len()
        invariant
            j <= keys@.len(),
            forall|q: int| 0 <= q < j ==> key_number(names_of(keys@)[q], max as int) != Some(n as int),
        decreases keys@.len() - j,
    {
        let v = read_key(&keys[j], max);
        proof {
            assert(names_of(keys@)[j as int] == keys@[j as int]@);
        }
        if v == Some(n) {
            return true;
        }
        j = j + 1;
    }
    false
}

/// The numbers from 1 to `n` that no key of `keys` writes.
fn missing_numbers(keys: &Vec<String>, max: u32, n: u32) -> (r: Vec<u32>)
    ensures
        r@ == missing(names_of(keys@), max as int, n as nat),
{
    let mut out: Vec<u32> = Vec::new();
    let mut m: u32 = 0;
    while m < n
        invariant
            m <= n,
            out@ == missing(names_of(keys@), max as int, m as nat),
        decreases n - m,
    {
        let next = m + 1;
        if !has_key_number(keys, max, next) {
            out.push(next);
        }
        m = next;
    }
    out
}

fn day_key_list(st: &StudentNode) -> (r: Vec<String>)
    ensures
        names_of(r@) == day_keys(*st),
{
    let mut out: Vec<String> = Vec::new();
    let mut j: usize = 0;
    while j < st.days.len()
        invariant
            j <= st.days@.len(),
            out@.len() == j,
            names_of(out@) == day_keys(*st).take(j as int),
        decreases st.days@.len() - j,
    {
        let k = st.days[j].key.clone();
        proof {
            assert forall|q: int| 0 <= q < j + 1 implies #[trigger] names_of(out@.push(k))[q] == day_keys(*st).take(j + 1)[q] by {
                if q < j {
                    assert(out@.push(k)[q] == out@[q]);
                    assert(names_of(out@)[q] == day_keys(*st).take(j as int)[q]);
                }
            }
            assert(names_of(out@.push(k)) =~= day_keys(*st).take(j + 1));
        }
        out.push(k);
        j = j + 1;
    }
    proof {
        assert(day_keys(*st).take(st.days@.len() as int) =~= day_keys(*st));
    }
    out
}

fn period_key_list(day: &DayNode) -> (r: Vec<String>)
    ensures
        names_of(r@) == period_keys(*day),
{
    let mut out: Vec<String> = Vec::new();
    let mut m: usize = 0;
    while m < day.periods.len()
        invariant
            m <= day.periods@.len(),
            out@.len() == m,
            names_of(out@) == period_keys(*day).take(m as int),
        decreases day.periods@.len() - m,
    {
        let k = day.periods[m].key.clone();
        proof {
            assert forall|q: int| 0 <= q < m + 1 implies #[trigger] names_of(out@.push(k))[q] == period_keys(*day).take(m + 1)[q] by {
                if q < m {
                    assert(out@.push(k)[q] == out@[q]);
                    assert(names_of(out@)[q] == period_keys(*day).take(m as int)[q]);
                }
            }
            assert(names_of(out@.push(k)) =~= period_keys(*day).take(m + 1));
        }
        out.push(k);
        m = m + 1;
    }
    proof {
        assert(period_keys(*day).take(day.periods@.len() as int) =~= period_keys(*day));
    }
    out
}

/// A defect that an issue names rules the timetable out.
pub proof fn lemma_issue_rules_out(doc: &TimetableDoc, names: Seq<Seq<char>>, issue: TimetableIssue)
    requires
        issue_holds(doc, names, issue),
    ensures
        !timetable_ok(doc, names),
{
    match issue {
        TimetableIssue::NotAMap => {},
        TimetableIssue::BadStudent(k) => {
            let i = choose|i: int| 0 <= i < doc.students@.len() && #[trigger] doc.students@[i].key@ == k@ && !student_key_ok(k@);
            assert(!student_ok(doc.students@[i], names));
        },
        TimetableIssue::StudentNotAMap(k) => {
            let i = choose|i: int| 0 <= i < doc.students@.len() && #[trigger] doc.students@[i].key@ == k@ && !doc.students@[i].is_map;
            assert(!student_ok(doc.students@[i], names));
        },
        TimetableIssue::BadDay(k, d) => {
            let (i, j) = choose|i: int, j: int|
                0 <= i < doc.students@.len() && 0 <= j < doc.students@[i].days@.len() && doc.students@[i].key@ == k@
                    && #[trigger] doc.students@[i].days@[j].key@ == d@ && key_number(d@, 5) is None;
            assert(!student_ok(doc.students@[i], names));
        },
        TimetableIssue::MissingDays(k, list) => {
            let i = choose|i: int|
                0 <= i < doc.students@.len() && #[trigger] doc.students@[i].key@ == k@ && doc.students@[i].is_map
                    && list@ == missing(day_keys(doc.students@[i]), 5, 5) && list@.len() > 0;
            assert(!student_ok(doc.students@[i], names));
        },
        TimetableIssue::DayNotAMap(k, d) => {
            let (i, j) = choose|i: int, j: int|
                0 <= i < doc.students@.len() && 0 <= j < doc.students@[i].days@.len() && doc.students@[i].key@ == k@
                    && #[trigger] doc.students@[i].days@[j].key@ == d@ && !doc.students@[i].days@[j].is_map;
            assert(!day_ok(doc.students@[i].days@[j], names));
            assert(!student_ok(doc.students@[i], names));
        },
        TimetableIssue::BadPeriod(k, d, p) => {
            let (i, j, m) = choose|i: int, j: int, m: int|
                0 <= i < doc.students@.len() && 0 <= j < doc.students@[i].days@.len() && 0 <= m
                    < doc.students@[i].days@[j].periods@.len() && doc.students@[i].key@ == k@
                    && doc.students@[i].days@[j].key@ == d@ && #[trigger] doc.students@[i].days@[j].periods@[m].key@
                    == p@ && key_number(p@, 10) is None;
            assert(!day_ok(doc.students@[i].days@[j], names));
            assert(!student_ok(doc.students@[i], names));
        },
        TimetableIssue::MissingPeriods(k, d, list) => {
            let (i, j) = choose|i: int, j: int|
                0 <= i < doc.students@.len() && 0 <= j < doc.students@[i].days@.len() && doc.students@[i].key@ == k@
                    && #[trigger] doc.students@[i].days@[j].key@ == d@ && doc.students@[i].days@[j].is_map
                    && list@ == missing(period_keys(doc.students@[i].days@[j]), 10, 10) && list@.len() > 0;
            assert(!day_ok(doc.students@[i].days@[j], names));
            assert(!student_ok(doc.students@[i], names));
        },
        TimetableIssue::BadRoom(k, d, p, t) => {
            let (i, j, m) = choose|i: int, j: int, m: int|
                0 <= i < doc.students@.len() && 0 <= j < doc.students@[i].days@.len() && 0 <= m
                    < doc.students@[i].days@[j].periods@.len() && doc.students@[i].key@ == k@
                    && doc.students@[i].days@[j].key@ == d@ && #[trigger] doc.students@[i].days@[j].periods@[m].key@
                    == p@ && doc.students@[i].days@[j].periods@[m].text@ == t@ && !(
                doc.students@[i].days@[j].periods@[m].is_text && is_listed(
                    names,
                    doc.students@[i].days@[j].periods@[m].room@,
                ));
            assert(!day_ok(doc.students@[i].days@[j], names));
            assert(!student_ok(doc.students@[i], names));
        },
    }
}

/// Student `k` has the first invalid student number.
pub open spec fn first_key_issue(doc: &TimetableDoc, k: Seq<char>) -> bool {
    exists|i: int|
        0 <= i < doc.students@.len() && #[trigger] doc.students@[i].key@ == k && !student_key_ok(k) && forall|q: int|
            0 <= q < i ==> student_key_ok(#[trigger] doc.students@[q].key@)
}

/// Student `k` is the first whose timetable is not a map of the five weekdays.
pub open spec fn first_days_issue(doc: &TimetableDoc, k: Seq<char>) -> bool {
    exists|i: int|
        0 <= i < doc.students@.len() && doc.students@[i].key@ == k && !days_shape(#[trigger] doc.students@[i])
            && forall|q: int| 0 <= q < i ==> days_shape(#[trigger] doc.students@[q])
}

/// Day `d` of student `k` is the first day that is not a map of the ten periods.
pub open spec fn first_periods_issue(doc: &TimetableDoc, k: Seq<char>, d: Seq<char>) -> bool {
    exists|i: int, j: int|
        0 <= i < doc.students@.len() && 0 <= j < doc.students@[i].days@.len() && doc.students@[i].key@ == k
            && doc.students@[i].days@[j].key@ == d && !periods_shape(#[trigger] doc.students@[i].days@[j]) && (forall|
            q: int,
            e: int,
        | 0 <= q < i && 0 <= e < doc.students@[q].days@.len() ==> periods_shape(#[trigger] doc.students@[q].days@[e]))
            && forall|e: int| 0 <= e < j ==> periods_shape(#[trigger] doc.students@[i].days@[e])
}

/// Day `d` of student `k` is the first day with a period that names no room of `names`.
pub open spec fn first_rooms_issue(doc: &TimetableDoc, names: Seq<Seq<char>>, k: Seq<char>, d: Seq<char>) -> bool {
    exists|i: int, j: int|
        0 <= i < doc.students@.len() && 0 <= j < doc.students@[i].days@.len() && doc.students@[i].key@ == k
            && doc.students@[i].days@[j].key@ == d && !rooms_ok(#[trigger] doc.students@[i].days@[j], names) && (forall|
            q: int,
            e: int,
        | 0 <= q < i && 0 <= e < doc.students@[q].days@.len() ==> rooms_ok(#[trigger] doc.students@[q].days@[e], names))
            && forall|e: int| 0 <= e < j ==> rooms_ok(#[trigger] doc.students@[i].days@[e], names)
}

/// Every student number is valid.
pub open spec fn keys_all_ok(doc: &TimetableDoc) -> bool {
    forall|i: int| 0 <= i < doc.students@.len() ==> student_key_ok(#[trigger] doc.students@[i].key@)
}

/// Every student's timetable is a map of the five weekdays.
pub open spec fn days_all_ok(doc: &TimetableDoc) -> bool {
    forall|i: int| 0 <= i < doc.students@.len() ==> days_shape(#[trigger] doc.students@[i])
}

/// Every day of every student is a map of the ten periods.
pub open spec fn periods_all_ok(doc: &TimetableDoc) -> bool {
    forall|i: int, j: int|
        0 <= i < doc.students@.len() && 0 <= j < doc.students@[i].days@.len() ==> periods_shape(
            #[trigger] doc.students@[i].days@[j],
        )
}

/// Every student number is valid.
fn student_issue(doc: &TimetableDoc) -> (r: Option<TimetableIssue>)
    ensures
        r matches Some(issue) ==> issue_holds(doc, Seq::empty(), issue) && issue is BadStudent,
        r matches Some(issue) ==> first_key_issue(doc, issue_student(issue)),
        r is None ==> forall|i: int| 0 <= i < doc.students@.len() ==> student_key_ok(#[trigger] doc.students@[i].key@),
{
    let mut i: usize = 0;
    while i < doc.students.len()
        invariant
            i <= doc.students@.len(),
            forall|q: int| 0 <= q < i ==> student_key_ok(#[trigger] doc.students@[q].key@),
        decreases doc.students@.len() - i,
    {
        if !check_student_key(&doc.students[i].key) {
            let k = doc.students[i].key.clone();
            proof {
                assert(doc.students@[i as int].key@ == k@);
            }
            return Some(TimetableIssue::BadStudent(k));
        }
        i = i + 1;
    }
    None
}

/// Whether a student's timetable is a map of the five weekdays.
pub open spec fn days_shape(st: StudentNode) -> bool {
    &&& st.is_map
    &&& forall|j: int| 0 <= j < st.days@.len() ==> key_number(#[trigger] st.days@[j].key@, 5) is Some
    &&& missing(day_keys(st), 5, 5).len() == 0
}

/// Whether a day is a map of the ten periods.
pub open spec fn periods_shape(day: DayNode) -> bool {
    &&& day.is_map
    &&& forall|m: int| 0 <= m < day.periods@.len() ==> key_number(#[trigger] day.periods@[m].key@, 10) is Some
    &&& missing(period_keys(day), 10, 10).len() == 0
}

/// Whether every period of a day names a room of `names`.
pub open spec fn rooms_ok(day: DayNode, names: Seq<Seq<char>>) -> bool {
    forall|m: int| 0 <= m < day.periods@.len() ==> (#[trigger] day.periods@[m]).is_text && is_listed(
        names,
        day.periods@[m].room@,
    )
}

/// Every student's timetable is a map of the five weekdays.
fn day_issue(doc: &TimetableDoc) -> (r: Option<TimetableIssue>)
    ensures
        r matches Some(issue) ==> issue_holds(doc, Seq::empty(), issue) && (issue is StudentNotAMap || issue is BadDay
            || issue is MissingDays),
        r matches Some(issue) ==> first_days_issue(doc, issue_student(issue)),
        r is None ==> forall|i: int| 0 <= i < doc.students@.len() ==> days_shape(#[trigger] doc.students@[i]),
{
    let mut i: usize = 0;
    while i < doc.students.len()
        invariant
            i <= doc.students@.len(),
            forall|q: int| 0 <= q < i ==> days_shape(#[trigger] doc.students@[q]),
        decreases doc.students@.len() - i,
    {
        let st = &doc.students[i];
        if !st.is_map {
            let k = st.key.clone();
            proof {
                assert(doc.students@[i as int].key@ == k@);
            }
            return Some(TimetableIssue::StudentNotAMap(k));
        }
        let mut j: usize = 0;
        while j < st.days.len()
            invariant
                st == doc.students@[i as int],
                i < doc.students@.len(),
                j <= st.days@.len(),
                forall|q: int| 0 <= q < i ==> days_shape(#[trigger] doc.students@[q]),
                forall|q: int| 0 <= q < j ==> key_number(#[trigger] st.days@[q].key@, 5) is Some,
            decreases st.days@.len() - j,
        {
            if read_key(&st.days[j].key, 5).is_none() {
                let k = st.key.clone();
                let d = st.days[j].key.clone();
                proof {
                    assert(doc.students@[i as int].days@[j as int].key@ == d@);
                    assert(!days_shape(doc.students@[i as int]));
                }
                return Some(TimetableIssue::BadDay(k, d));
            }
            j = j + 1;
        }
        let keys = day_key_list(st);
        let gaps = missing_numbers(&keys, 5, 5);
        if gaps.len() > 0 {
            let k = st.key.clone();
            proof {
                assert(doc.students@[i as int].key@ == k@);
            }
            return Some(TimetableIssue::MissingDays(k, gaps));
        }
        i = i + 1;
    }
    None
}

/// Every day of every student is a map of the ten periods.
fn period_issue(doc: &TimetableDoc) -> (r: Option<TimetableIssue>)
    ensures
        r matches Some(issue) ==> issue_holds(doc, Seq::empty(), issue) && (issue is DayNotAMap || issue is BadPeriod
            || issue is MissingPeriods),
        r matches Some(issue) ==> first_periods_issue(doc, issue_student(issue), issue_day(issue)),
        r is None ==> forall|i: int, j: int|
            0 <= i < doc.students@.len() && 0 <= j < doc.students@[i].days@.len() ==> periods_shape(
                #[trigger] doc.students@[i].days@[j],
            ),
{
    let mut i: usize = 0;
    while i < doc.students.len()
        invariant
            i <= doc.students@.len(),
            forall|q: int, j: int|
                0 <= q < i && 0 <= j < doc.students@[q].days@.len() ==> periods_shape(#[trigger] doc.students@[q].days@[j]),
        decreases doc.students@.len() - i,
    {
        let st = &doc.students[i];
        let mut j: usize = 0;
        while j < st.days.len()
            invariant
                st == doc.students@[i as int],
                i < doc.students@.len(),
                j <= st.days@.len(),
                forall|q: int, e: int|
                    0 <= q < i && 0 <= e < doc.students@[q].days@.len() ==> periods_shape(
                        #[trigger] doc.students@[q].days@[e],
                    ),
                forall|e: int| 0 <= e < j ==> periods_shape(#[trigger] st.days@[e]),
            decreases st.days@.len() - j,
        {
            let day = &st.days[j];
            if !day.is_map {
                let k = st.key.clone();
                let d = day.key.clone();
                proof {
                    assert(doc.students@[i as int].days@[j as int].key@ == d@);
                }
                return Some(TimetableIssue::DayNotAMap(k, d));
            }
            let mut m: usize = 0;
            while m < day.periods.len()
                invariant
                    st == doc.students@[i as int],
                    day == st.days@[j as int],
                    i < doc.students@.len(),
                    j < st.days@.len(),
                    m <= day.periods@.len(),
                    forall|q: int, e: int|
                        0 <= q < i && 0 <= e < doc.students@[q].days@.len() ==> periods_shape(
                            #[trigger] doc.students@[q].days@[e],
                        ),
                    forall|e: int| 0 <= e < j ==> periods_shape(#[trigger] st.days@[e]),
                    forall|q: int| 0 <= q < m ==> key_number(#[trigger] day.periods@[q].key@, 10) is Some,
                decreases day.periods@.len() - m,
            {
                if read_key(&day.periods[m].key, 10).is_none() {
                    let k = st.key.clone();
                    let d = day.key.clone();
                    let p = day.periods[m].key.clone();
                    proof {
                        assert(doc.students@[i as int].days@[j as int].periods@[m as int].key@ == p@);
                        assert(!periods_shape(doc.students@[i as int].days@[j as int]));
                    }
                    return Some(TimetableIssue::BadPeriod(k, d, p));
                }
                m = m + 1;
            }
            let keys = period_key_list(day);
            let gaps = missing_numbers(&keys, 10, 10);
            if gaps.len() > 0 {
                let k = st.key.clone();
                let d = day.key.clone();
                proof {
                    assert(doc.students@[i as int].days@[j as int].key@ == d@);
                }
                return Some(TimetableIssue::MissingPeriods(k, d, gaps));
            }
            j = j + 1;
        }
        i = i + 1;
    }
    None
}

/// Every period names a room of `rooms`.
fn room_issue(doc: &TimetableDoc, rooms: &RoomSet) -> (r: Option<TimetableIssue>)
    requires
        rooms.wf(),
    ensures
        r matches Some(issue) ==> issue_holds(doc, rooms.spec_names(), issue) && issue is BadRoom,
        r matches Some(issue) ==> first_rooms_issue(doc, rooms.spec_names(), issue_student(issue), issue_day(issue)),
        r is None ==> forall|i: int, j: int|
            0 <= i < doc.students@.len() && 0 <= j < doc.students@[i].days@.len() ==> rooms_ok(
                #[trigger] doc.students@[i].days@[j],
                rooms.spec_names(),
            ),
{
    let ghost names = rooms.spec_names();
    let mut i: usize = 0;
    while i < doc.students.len()
        invariant
            rooms.wf(),
            names == rooms.spec_names(),
            i <= doc.students@.len(),
            forall|q: int, j: int|
                0 <= q < i && 0 <= j < doc.students@[q].days@.len() ==> rooms_ok(#[trigger] doc.students@[q].days@[j], names),
        decreases doc.students@.len() - i,
    {
        let st = &doc.students[i];
        let mut j: usize = 0;
        while j < st.days.len()
            invariant
                rooms.wf(),
                names == rooms.spec_names(),
                st == doc.students@[i as int],
                i < doc.students@.len(),
                j <= st.days@.len(),
                forall|q: int, e: int|
                    0 <= q < i && 0 <= e < doc.students@[q].days@.len() ==> rooms_ok(
                        #[trigger] doc.students@[q].days@[e],
                        names,
                    ),
                forall|e: int| 0 <= e < j ==> rooms_ok(#[trigger] st.days@[e], names),
            decreases st.days@.len() - j,
        {
            let day = &st.days[j];
            let mut m: usize = 0;
            while m < day.periods.len()
                invariant
                    rooms.wf(),
                    names == rooms.spec_names(),
                    st == doc.students@[i as int],
                    day == st.days@[j as int],
                    i < doc.students@.len(),
                    j < st.days@.len(),
                    m <= day.periods@.len(),
                    forall|q: int, e: int|
                        0 <= q < i && 0 <= e < doc.students@[q].days@.len() ==> rooms_ok(
                            #[trigger] doc.students@[q].days@[e],
                            names,
                        ),
                    forall|e: int| 0 <= e < j ==> rooms_ok(#[trigger] st.days@[e], names),
                    forall|q: int| 0 <= q < m ==> (#[trigger] day.periods@[q]).is_text && is_listed(
                        names,
                        day.periods@[q].room@,
                    ),
                decreases day.periods@.len() - m,
            {
                let period = &day.periods[m];
                let known = period.is_text && rooms.find(&period.room).is_some();
                if !known {
                    let k = st.key.clone();
                    let d = day.key.clone();
                    let p = period.key.clone();
                    let t = period.text.clone();
                    proof {
                        assert(doc.students@[i as int].days@[j as int].periods@[m as int].key@ == p@);
                        assert(!rooms_ok(doc.students@[i as int].days@[j as int], names));
                    }
                    return Some(TimetableIssue::BadRoom(k, d, p, t));
                }
                m = m + 1;
            }
            j = j + 1;
        }
        i = i + 1;
    }
    None
}

/// The students of an imported timetable, in the file's order.
pub struct TimetableSummary {
    pub students: Vec<String>,
}

/// Checks an imported timetable as the import does, pass by pass: the file is a map,
/// every student number is valid, every student has the five weekdays, every day the
/// ten periods, and every period a room of `rooms`.
pub fn validate_timetable(doc: &TimetableDoc, rooms: &RoomSet) -> (r: Result<TimetableSummary, TimetableIssue>)
    requires
        rooms.wf(),
    ensures
        r is Ok <==> timetable_ok(doc, rooms.spec_names()),
        r matches Ok(s) ==> names_of(s.students@) == doc.students@.map_values(|st: StudentNode| st.key@),
        r matches Err(issue) ==> issue_holds(doc, rooms.spec_names(), issue),
        !doc.is_map ==> r matches Err(TimetableIssue::NotAMap),
        doc.is_map && !keys_all_ok(doc) ==> (r matches Err(TimetableIssue::BadStudent(k)) && first_key_issue(doc, k@)),
        doc.is_map && keys_all_ok(doc) && !days_all_ok(doc) ==> (r matches Err(issue) && (issue is StudentNotAMap
            || issue is BadDay || issue is MissingDays) && first_days_issue(doc, issue_student(issue))),
        doc.is_map && keys_all_ok(doc) && days_all_ok(doc) && !periods_all_ok(doc) ==> (r matches Err(issue) && (
        issue is DayNotAMap || issue is BadPeriod || issue is MissingPeriods) && first_periods_issue(
            doc,
            issue_student(issue),
            issue_day(issue),
        )),
        doc.is_map && keys_all_ok(doc) && days_all_ok(doc) && periods_all_ok(doc) && !timetable_ok(doc, rooms.spec_names())
            ==> (r matches Err(issue) && issue is BadRoom && first_rooms_issue(
            doc,
            rooms.spec_names(),
            issue_student(issue),
            issue_day(issue),
        )),
{
    let ghost names = rooms.spec_names();
    let found = if !doc.is_map {
        Some(TimetableIssue::NotAMap)
    } else {
        match student_issue(doc) {
            Some(issue) => Some(issue),
            None => match day_issue(doc) {
                Some(issue) => Some(issue),
                None => match period_issue(doc) {
                    Some(issue) => Some(issue),
                    None => room_issue(doc, rooms),
                },
            },
        }
    };
    match found {
        Some(issue) => {
            proof {
                lemma_issue_rules_out(doc, names, issue);
            }
            Err(issue)
        },
        None => {
            proof {
                assert forall|i: int| 0 <= i < doc.students@.len() implies student_ok(#[trigger] doc.students@[i], names) by {
                    let st = doc.students@[i];
                    assert(student_key_ok(doc.students@[i].key@));
                    assert(days_shape(st));
                    assert forall|j: int| 0 <= j < st.days@.len() implies day_ok(#[trigger] st.days@[j], names) by {
                        assert(periods_shape(doc.students@[i].days@[j]));
                        assert(rooms_ok(doc.students@[i].days@[j], names));
                    }
                }
            }
            let mut students: Vec<String> = Vec::new();
            let mut i: usize = 0;
            while i < doc.students.len()
                invariant
                    i <= doc.students@.len(),
                    students@.len() == i,
                    forall|q: int| 0 <= q < i ==> #[trigger] students@[q]@ == doc.students@[q].key@,
                decreases doc.students@.len() - i,
            {
                students.push(doc.students[i].key.clone());
                i = i + 1;
            }
            proof {
                assert(names_of(students@) =~= doc.students@.map_values(|st: StudentNode| st.key@));
            }
            Ok(TimetableSummary { students })
        },
    }
}

/// Numbers in decimal, separated by ", ".
pub open spec fn joined(list: Seq<u32>) -> Seq<char>
    decreases list.len(),
{
    if list.len() == 0 {
        Seq::empty()
    } else if list.len() == 1 {
        decimal_text(list[0] as nat)
    } else {
        joined(list.drop_last()) + ", "@ + decimal_text(list.last() as nat)
    }
}

fn join_numbers(list: &Vec<u32>) -> (r: String)
    ensures
        r@ == joined(list@),
{
    let mut out = String::new();
    let mut i: usize = 0;
    proof {
        assert(list@.take(0) =~= Seq::<u32>::empty());
    }
    while i < list.len()
        invariant
            i <= list@.len(),
            out@ == joined(list@.take(i as int)),
        decreases list@.len() - i,
    {
        let t = u32_text(list[i]);
        proof {
            assert(list@.take(i + 1).drop_last() =~= list@.take(i as int));
            if i == 0 {
                assert(list@.take(i + 1)[0] == list@[0]);
            }
        }
        if i > 0 {
            out.append(", ");
        }
        out.append(t.as_str());
        proof {
            if i == 0 {
                assert(out@ =~= joined(list@.take(i + 1)));
            }
        }
        i = i + 1;
    }
    proof {
        assert(list@.take(list@.len() as int) =~= list@);
    }
    out
}

/// The message that the import shows for an issue.
pub open spec fn issue_text(issue: TimetableIssue) -> Seq<char> {
    match issue {
        TimetableIssue::NotAMap => "Invalid timetable file format: the JSON file is not a map"@,
        TimetableIssue::BadStudent(k) => "Invalid student number: \""@ + k@ + "\""@,
        TimetableIssue::StudentNotAMap(k) => "Invalid timetable file format: student "@ + k@ + "'s timetable is not a map"@,
        TimetableIssue::BadDay(k, d) => "Student "@ + k@ + " has an invalid day of week: \""@ + d@ + "\""@,
        TimetableIssue::MissingDays(k, list) => "Student "@ + k@ + " has an incomplete timetable: missing day "@ + joined(
            list@,
        ),
        TimetableIssue::DayNotAMap(k, d) => "Invalid timetable file format: student "@ + k@ + "'s timetable on day "@ + d@
            + " is not a map"@,
        TimetableIssue::BadPeriod(k, d, p) => "Student "@ + k@ + " has an invalid period on day "@ + d@ + ": \""@ + p@
            + "\""@,
        TimetableIssue::MissingPeriods(k, d, list) => "Student "@ + k@ + " has an incomplete timetable on day "@ + d@
            + ": missing periods "@ + joined(list@),
        TimetableIssue::BadRoom(k, d, p, t) => "Student "@ + k@ + " has an invalid classroom on day "@ + d@ + " period "@
            + p@ + ": "@ + t@,
    }
}

impl TimetableIssue {
    /// The message that the import shows.
    pub fn message(&self) -> (r: String)
        ensures
            r@ == issue_text(*self),
    {
        match self {
            TimetableIssue::NotAMap => "Invalid timetable file format: the JSON file is not a map".to_owned(),
            TimetableIssue::BadStudent(k) => {
                let mut m = "Invalid student number: \"".to_owned();
                m.append(k.as_str());
                m.append("\"");
                m
            },
            TimetableIssue::StudentNotAMap(k) => {
                let mut m = "Invalid timetable file format: student ".to_owned();
                m.append(k.as_str());
                m.append("'s timetable is not a map");
                m
            },
            TimetableIssue::BadDay(k, d) => {
                let mut m = "Student ".to_owned();
                m.append(k.as_str());
                m.append(" has an invalid day of week: \"");
                m.append(d.as_str());
                m.append("\"");
                m
            },
            TimetableIssue::MissingDays(k, list) => {
                let mut m = "Student ".to_owned();
                m.append(k.as_str());
                m.append(" has an incomplete timetable: missing day ");
                let j = join_numbers(list);
                m.append(j.as_str());
                m
            },
            TimetableIssue::DayNotAMap(k, d) => {
                let mut m = "Invalid timetable file format: student ".to_owned();
                m.append(k.as_str());
                m.append("'s timetable on day ");
                m.append(d.as_str());
                m.append(" is not a map");
                m
            },
            TimetableIssue::BadPeriod(k, d, p) => {
                let mut m = "Student ".to_owned();
                m.append(k.as_str());
                m.append(" has an invalid period on day ");
                m.append(d.as_str());
                m.append(": \"");
                m.append(p.as_str());
                m.append("\"");
                m
            },
            TimetableIssue::MissingPeriods(k, d, list) => {
                let mut m = "Student ".to_owned();
                m.append(k.as_str());
                m.append(" has an incomplete timetable on day ");
                m.append(d.as_str());
                m.append(": missing periods ");
                let j = join_numbers(list);
                m.append(j.as_str());
                m
            },
            TimetableIssue::BadRoom(k, d, p, t) => {
                let mut m = "Student ".to_owned();
                m.append(k.as_str());
                m.append(" has an invalid classroom on day ");
                m.append(d.as_str());
                m.append(" period ");
                m.append(p.as_str());
                m.append(": ");
                m.append(t.as_str());
                m
            },
        }
    }
}

} // verus!
