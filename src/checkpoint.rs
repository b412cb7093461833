use vstd::prelude::*;

use crate::error::OptiError;
use crate::table::{RouteTable, StudentRoutes, DAY_COUNT, PERIOD_COUNT};

verus! {

/// The routes of one student on one day, as a sub-checkpoint stores them.
pub struct StudentDay {
    pub student: String,
    pub periods: Vec<String>,
}

/// Progress of the optimiser for a single weekday.
pub struct SubCheckpoint {
    /// Iterations completed for this day.
    pub iter: u64,
    /// Performance index of each of the day's twelve slots.
    pub indices: Vec<u128>,
    /// Routes of the students that the optimiser has changed.
    pub routes: Vec<StudentDay>,
}

/// Progress of the optimiser over the whole week.
pub struct Checkpoint {
    /// Iterations completed for each weekday.
    pub iter: Vec<u64>,
    /// Performance index of each (day, slot).
    pub indices: Vec<Vec<u128>>,
    pub routes: RouteTable,
}

pub open spec fn strings_view(v: Seq<String>) -> Seq<Seq<char>> {
    v.map_values(|s: String| s@)
}

/// A student's routes by day and slot.
pub open spec fn days_view(days: Seq<Vec<String>>) -> Seq<Seq<Seq<char>>> {
    days.map_values(|day: Vec<String>| strings_view(day@))
}

/// A route table as (student, routes by day and slot) pairs.
pub open spec fn table_view(students: Seq<StudentRoutes>) -> Seq<(Seq<char>, Seq<Seq<Seq<char>>>)> {
    students.map_values(|st: StudentRoutes| (st.student@, days_view(st.days@)))
}

pub open spec fn indices_view(ix: Seq<Vec<u128>>) -> Seq<Seq<u128>> {
    ix.map_values(|v: Vec<u128>| v@)
}

/// What a checkpoint holds.
pub struct CheckpointModel {
    pub iter: Seq<u64>,
    pub indices: Seq<Seq<u128>>,
    pub routes: Seq<(Seq<char>, Seq<Seq<Seq<char>>>)>,
}

/// What a sub-checkpoint holds.
pub struct SubModel {
    pub iter: u64,
    pub indices: Seq<u128>,
    pub routes: Seq<(Seq<char>, Seq<Seq<char>>)>,
}

impl View for Checkpoint {
    type V = CheckpointModel;

    open spec fn view(&self) -> CheckpointModel {
        CheckpointModel {
            iter: self.iter@,
            indices: indices_view(self.indices@),
            routes: table_view(self.routes.students@),
        }
    }
}

impl View for SubCheckpoint {
    type V = SubModel;

    open spec fn view(&self) -> SubModel {
        SubModel {
            iter: self.iter,
            indices: self.indices@,
            routes: self.routes@.map_values(|e: StudentDay| (e.student@, strings_view(e.periods@))),
        }
    }
}

impl Checkpoint {
    /// Five counters, five days of twelve indices, and a full route table.
    pub open spec fn wf(&self) -> bool {
        &&& self.iter@.len() == DAY_COUNT
        &&& self.indices@.len() == DAY_COUNT
        &&& forall|d: int| 0 <= d < DAY_COUNT ==> #[trigger] self.indices@[d]@.len() == PERIOD_COUNT
        &&& self.routes.wf()
    }
}

impl SubCheckpoint {
    /// Twelve indices, and twelve routes for each student listed.
    pub open spec fn wf(&self) -> bool {
        &&& self.indices@.len() == PERIOD_COUNT
        &&& forall|j: int| 0 <= j < self.routes@.len() ==> #[trigger] self.routes@[j].periods@.len() == PERIOD_COUNT
    }

    /// Whether the sub-checkpoint has twelve indices and twelve routes per student.
    pub fn check_shape(&self) -> (r: bool)
        ensures
            r == self.wf(),
    {
        if self.indices.len() != PERIOD_COUNT {
            return false;
        }
        let mut j: usize = 0;
        while j < self.routes.len()
            invariant
                j <= self.routes@.len(),
                forall|k: int| 0 <= k < j ==> #[trigger] self.routes@[k].periods@.len() == PERIOD_COUNT,
            decreases self.routes@.len() - j,
        {
            if self.routes[j].periods.len() != PERIOD_COUNT {
                return false;
            }
            j = j + 1;
        }
        true
    }
}

impl Checkpoint {
    /// Whether the checkpoint has five counters, five days of twelve indices and a
    /// full route table; a checkpoint that does not is corrupt.
    pub fn check_shape(&self) -> (r: bool)
        ensures
            r == self.wf(),
    {
        if self.iter.len() != DAY_COUNT || self.indices.len() != DAY_COUNT {
            return false;
        }
        let mut d: usize = 0;
        while d < DAY_COUNT
            invariant
                self.indices@.len() == DAY_COUNT,
                d <= DAY_COUNT,
                forall|e: int| 0 <= e < d ==> #[trigger] self.indices@[e]@.len() == PERIOD_COUNT,
            decreases DAY_COUNT - d,
        {
            if self.indices[d].len() != PERIOD_COUNT {
                return false;
            }
            d = d + 1;
        }
        self.routes.check_shape()
    }
}

/// The day's routes that the last entry of `entries` for `student` gives, if any.
pub open spec fn entry_for(entries: Seq<(Seq<char>, Seq<Seq<char>>)>, student: Seq<char>) -> Option<Seq<Seq<char>>>
    decreases entries.len(),
{
    if entries.len() == 0 {
        None
    } else if entries.last().0 == student {
        Some(entries.last().1)
    } else {
        entry_for(entries.drop_last(), student)
    }
}

/// Whether `routes` has a row for `student`.
pub open spec fn has_student(routes: Seq<(Seq<char>, Seq<Seq<Seq<char>>>)>, student: Seq<char>) -> bool {
    exists|i: int| 0 <= i < routes.len() && routes[i].0 == student
}

/// The routes that a day's sub-checkpoint lists; none where the day has none.
pub open spec fn sub_routes(sub: Option<SubModel>) -> Seq<(Seq<char>, Seq<Seq<char>>)> {
    match sub {
        Some(c) => c.routes,
        None => Seq::empty(),
    }
}

/// Whether every student that a sub-checkpoint lists has a row in `m`.
pub open spec fn subs_known(m: CheckpointModel, subs: Seq<Option<SubModel>>) -> bool {
    forall|d: int, j: int|
        0 <= d < subs.len() && 0 <= j < sub_routes(subs[d]).len() ==> has_student(
            m.routes,
            #[trigger] sub_routes(subs[d])[j].0,
        )
}

/// The routes of one student after the merge: each day comes from that day's
/// sub-checkpoint where there is one and it lists the student, and stays as it was
/// otherwise.
pub open spec fn merged_days(days: Seq<Seq<Seq<char>>>, student: Seq<char>, subs: Seq<Option<SubModel>>) -> Seq<
    Seq<Seq<char>>,
> {
    Seq::new(
        DAY_COUNT as nat,
        |d: int|
            match entry_for(sub_routes(subs[d]), student) {
                Some(day) => day,
                None => days[d],
            },
    )
}

/// The main checkpoint after merging the per-day sub-checkpoints `subs` into `m`; a
/// day without a sub-checkpoint keeps its counter, indices and routes.
pub open spec fn merge_model(m: CheckpointModel, subs: Seq<Option<SubModel>>) -> CheckpointModel {
    CheckpointModel {
        iter: Seq::new(
            DAY_COUNT as nat,
            |d: int|
                match subs[d] {
                    Some(c) => c.iter,
                    None => m.iter[d],
                },
        ),
        indices: Seq::new(
            DAY_COUNT as nat,
            |d: int|
                match subs[d] {
                    Some(c) => c.indices,
                    None => m.indices[d],
                },
        ),
        routes: m.routes.map_values(
            |row: (Seq<char>, Seq<Seq<Seq<char>>>)| (row.0, merged_days(row.1, row.0, subs)),
        ),
    }
}

/// A merge keeps every student of the main checkpoint, in order, with five days each.
pub proof fn lemma_merge_keeps_students(m: CheckpointModel, subs: Seq<Option<SubModel>>)
    ensures
        merge_model(m, subs).routes.len() == m.routes.len(),
        forall|i: int| 0 <= i < m.routes.len() ==> (#[trigger] merge_model(m, subs).routes[i]).0 == m.routes[i].0,
        forall|i: int| 0 <= i < m.routes.len() ==> (#[trigger] merge_model(m, subs).routes[i]).1.len() == DAY_COUNT,
{
}

/// Merging the same sub-checkpoints a second time changes nothing.
pub proof fn lemma_merge_idempotent(m: CheckpointModel, subs: Seq<Option<SubModel>>)
    requires
        subs.len() == DAY_COUNT,
    ensures
        merge_model(merge_model(m, subs), subs) == merge_model(m, subs),
{
    let once = merge_model(m, subs);
    let twice = merge_model(once, subs);
    assert(twice.iter =~= once.iter);
    assert(twice.indices =~= once.indices);
    assert forall|i: int| 0 <= i < once.routes.len() implies #[trigger] twice.routes[i] == once.routes[i] by {
        let row = once.routes[i];
        assert(merged_days(row.1, row.0, subs) =~= row.1);
    }
    assert(twice.routes =~= once.routes);
}

pub open spec fn subs_view(subs: Seq<Option<SubCheckpoint>>) -> Seq<Option<SubModel>> {
    subs.map_values(
        |c: Option<SubCheckpoint>|
            match c {
                Some(s) => Some(s@),
                None => None,
            },
    )
}

/// Every sub-checkpoint present has its shape.
pub open spec fn subs_wf(subs: Seq<Option<SubCheckpoint>>) -> bool {
    forall|d: int| 0 <= d < subs.len() ==> (#[trigger] subs[d] matches Some(c) ==> c.wf())
}

fn copy_strings(v: &Vec<String>) -> (r: Vec<String>)
    ensures
        strings_view(r@) == strings_view(v@),
{
    let mut r: Vec<String> = Vec::new();
    let mut i: usize = 0;
    while i < v.len()
        invariant
            i <= v@.len(),
            r@.len() == i,
            strings_view(r@) == strings_view(v@.take(i as int)),
        decreases v@.len() - i,
    {
        let s = v[i].clone();
        proof {
            assert(s@ == v@[i as int]@);
            assert forall|k: int| 0 <= k < i implies #[trigger] strings_view(r@.push(s))[k] == strings_view(
                v@.take(i + 1),
            )[k] by {
                assert(r@.push(s)[k] == r@[k]);
                assert(v@.take(i + 1)[k] == v@.take(i as int)[k]);
                assert(strings_view(r@)[k] == strings_view(v@.take(i as int))[k]);
            }
            assert(strings_view(r@.push(s)) =~= strings_view(v@.take(i + 1)));
        }
        r.push(s);
        i = i + 1;
    }
    proof {
        assert(v@.take(v@.len() as int) =~= v@);
    }
    r
}

fn copy_indices(v: &Vec<u128>) -> (r: Vec<u128>)
    ensures
        r@ == v@,
{
    let mut r: Vec<u128> = Vec::new();
    let mut i: usize = 0;
    while i < v.len()
        invariant
            i <= v@.len(),
            r@ == v@.take(i as int),
        decreases v@.len() - i,
    {
        r.push(v[i]);
        proof {
            assert(r@ =~= v@.take(i + 1));
        }
        i = i + 1;
    }
    proof {
        assert(v@.take(v@.len() as int) =~= v@);
    }
    r
}

/// The position of the last entry of `sub` for `student`, if it has one.
fn find_entry(sub: &SubCheckpoint, student: &String) -> (r: Option<usize>)
    ensures
        match r {
            Some(j) => j < sub.routes@.len() && entry_for(sub@.routes, student@) == Some(sub@.routes[j as int].1),
            None => entry_for(sub@.routes, student@) is None,
        },
{
    let ghost es = sub@.routes;
    let mut k: usize = sub.routes.len();
    proof {
        assert(es.take(k as int) =~= es);
    }
    while k > 0
        invariant
            k <= sub.routes@.len(),
            es == sub@.routes,
            entry_for(es, student@) == entry_for(es.take(k as int), student@),
        decreases k,
    {
        let ghost t = es.take(k as int);
        proof {
            assert(t.drop_last() =~= es.take(k - 1));
            assert(t.last() == es[k - 1]);
        }
        if sub.routes[k - 1].student.eq(student) {
            return Some(k - 1);
        }
        k = k - 1;
    }
    None
}

/// Whether `students` has a row for `id`.
fn knows_student(students: &Vec<StudentRoutes>, id: &String) -> (r: bool)
    ensures
        r == has_student(table_view(students@), id@),
{
    let mut i: usize = 0;
    while i < students.len()
        invariant
            i <= students@.len(),
            forall|j: int| 0 <= j < i ==> table_view(students@)[j].0 != id@,
        decreases students@.len() - i,
    {
        if students[i].student.eq(id) {
            proof {
                assert(table_view(students@)[i as int].0 == id@);
            }
            return true;
        }
        i = i + 1;
    }
    false
}

/// Whether `entries` lists only students that have a row in `m`.
pub open spec fn listed_known(m: CheckpointModel, entries: Seq<(Seq<char>, Seq<Seq<char>>)>) -> bool {
    forall|j: int| 0 <= j < entries.len() ==> has_student(m.routes, #[trigger] entries[j].0)
}

/// Whether every student that `sub` lists has a row in `main`.
fn sub_known(main: &Checkpoint, sub: &SubCheckpoint) -> (r: bool)
    ensures
        r == listed_known(main@, sub@.routes),
{
    let mut j: usize = 0;
    while j < sub.routes.len()
        invariant
            j <= sub.routes@.len(),
            forall|k: int| 0 <= k < j ==> has_student(main@.routes, #[trigger] sub@.routes[k].0),
        decreases sub.routes@.len() - j,
    {
        if !knows_student(&main.routes.students, &sub.routes[j].student) {
            proof {
                assert(sub@.routes[j as int].0 == sub.routes@[j as int].student@);
            }
            return false;
        }
        j = j + 1;
    }
    true
}

/// Merges the per-day sub-checkpoints into the main checkpoint: where day `d` has a
/// sub-checkpoint, the day takes its counter and indices from it, and each student it
/// lists takes that day's routes from it; a day without one keeps its data.
pub fn merge_checkpoints(main: &Checkpoint, subs: &Vec<Option<SubCheckpoint>>) -> (r: Result<Checkpoint, OptiError>)
    requires
        main.wf(),
        subs@.len() == DAY_COUNT,
        subs_wf(subs@),
    ensures
        r is Ok <==> subs_known(main@, subs_view(subs@)),
        r matches Ok(c) ==> c.wf() && c@ == merge_model(main@, subs_view(subs@)),
        r matches Err(e) ==> e is Corrupt,
{
    let ghost sv = subs_view(subs@);
    let ghost target = merge_model(main@, sv);
    // Every listed student must already have a row.
    let mut d: usize = 0;
    while d < DAY_COUNT
        invariant
            subs@.len() == DAY_COUNT,
            sv == subs_view(subs@),
            d <= DAY_COUNT,
            forall|e: int, j: int|
                0 <= e < d && 0 <= j < sub_routes(sv[e]).len() ==> has_student(
                    main@.routes,
                    #[trigger] sub_routes(sv[e])[j].0,
                ),
        decreases DAY_COUNT - d,
    {
        proof {
            assert(sv[d as int] == match subs@[d as int] {
                Some(c) => Some(c@),
                None => None::<SubModel>,
            });
        }
        match &subs[d] {
            Some(sub) => {
                if !sub_known(main, sub) {
                    proof {
                        assert(sub_routes(sv[d as int]) == sub@.routes);
                        let j = choose|j: int|
                            0 <= j < sub@.routes.len() && !has_student(main@.routes, #[trigger] sub@.routes[j].0);
                        assert(!has_student(main@.routes, sub_routes(sv[d as int])[j].0));
                    }
                    return Err(OptiError::Corrupt);
                }
            },
            None => {},
        }
        d = d + 1;
    }
    // Build the merged table, student by student.
    let mut students: Vec<StudentRoutes> = Vec::new();
    let mut i: usize = 0;
    while i < main.routes.students.len()
        invariant
            main.wf(),
            subs@.len() == DAY_COUNT,
            subs_wf(subs@),
            sv == subs_view(subs@),
            target == merge_model(main@, sv),
            i <= main.routes.students@.len(),
            students@.len() == i,
            forall|k: int| 0 <= k < i ==> #[trigger] table_view(students@)[k] == target.routes[k],
            forall|k: int| 0 <= k < i ==> #[trigger] students@[k].has_shape(),
        decreases main.routes.students@.len() - i,
    {
        let st = &main.routes.students[i];
        let ghost row = table_view(main.routes.students@)[i as int];
        let ghost want = merged_days(row.1, row.0, sv);
        proof {
            assert(main.routes.wf());
            assert(st.has_shape());
        }
        let mut days: Vec<Vec<String>> = Vec::new();
        let mut e: usize = 0;
        while e < DAY_COUNT
            invariant
                subs@.len() == DAY_COUNT,
                subs_wf(subs@),
                sv == subs_view(subs@),
                st.has_shape(),
                row == (st.student@, days_view(st.days@)),
                want == merged_days(row.1, row.0, sv),
                e <= DAY_COUNT,
                days@.len() == e,
                forall|k: int| 0 <= k < e ==> #[trigger] days_view(days@)[k] == want[k],
                forall|k: int| 0 <= k < e ==> #[trigger] days@[k]@.len() == PERIOD_COUNT,
            decreases DAY_COUNT - e,
        {
            proof {
                assert(sv[e as int] == match subs@[e as int] {
                    Some(c) => Some(c@),
                    None => None::<SubModel>,
                });
                assert(days_view(st.days@)[e as int] == strings_view(st.days@[e as int]@));
            }
            let day = match &subs[e] {
                Some(sub) => match find_entry(sub, &st.student) {
                    Some(j) => {
                        proof {
                            assert(subs_wf(subs@));
                            assert(sub.wf());
                            assert(sub.routes@[j as int].periods@.len() == PERIOD_COUNT);
                        }
                        copy_strings(&sub.routes[j].periods)
                    },
                    None => copy_strings(&st.days[e]),
                },
                None => copy_strings(&st.days[e]),
            };
            proof {
                assert(strings_view(day@).len() == day@.len());
            }
            let ghost before = days@;
            days.push(day);
            proof {
                assert forall|k: int| 0 <= k < e + 1 implies #[trigger] days_view(days@)[k] == want[k] by {
                    if k < e {
                        assert(days@[k] == before[k]);
                        assert(days_view(before)[k] == want[k]);
                    }
                }
                assert forall|k: int| 0 <= k < e + 1 implies #[trigger] days@[k]@.len() == PERIOD_COUNT by {
                    if k < e {
                        assert(days@[k] == before[k]);
                    }
                }
            }
            e = e + 1;
        }
        let merged = StudentRoutes { student: st.student.clone(), days };
        proof {
            assert(days_view(merged.days@) =~= want);
            assert(target.routes[i as int] == (row.0, want));
        }
        let ghost before = students@;
        students.push(merged);
        proof {
            assert forall|k: int| 0 <= k < i + 1 implies #[trigger] table_view(students@)[k] == target.routes[k] by {
                if k < i {
                    assert(students@[k] == before[k]);
                    assert(table_view(before)[k] == target.routes[k]);
                }
            }
            assert forall|k: int| 0 <= k < i + 1 implies #[trigger] students@[k].has_shape() by {
                if k < i {
                    assert(students@[k] == before[k]);
                }
            }
        }
        i = i + 1;
    }
    let mut iter: Vec<u64> = Vec::new();
    let mut indices: Vec<Vec<u128>> = Vec::new();
    let mut e: usize = 0;
    while e < DAY_COUNT
        invariant
            main.wf(),
            subs@.len() == DAY_COUNT,
            subs_wf(subs@),
            sv == subs_view(subs@),
            target == merge_model(main@, sv),
            e <= DAY_COUNT,
            iter@.len() == e,
            indices@.len() == e,
            forall|k: int| 0 <= k < e ==> #[trigger] iter@[k] == target.iter[k],
            forall|k: int| 0 <= k < e ==> #[trigger] indices@[k]@ == target.indices[k],
            forall|k: int| 0 <= k < e ==> #[trigger] indices@[k]@.len() == PERIOD_COUNT,
        decreases DAY_COUNT - e,
    {
        proof {
            assert(sv[e as int] == match subs@[e as int] {
                Some(c) => Some(c@),
                None => None::<SubModel>,
            });
            assert(main@.indices[e as int] == main.indices@[e as int]@);
            assert(main.indices@[e as int]@.len() == PERIOD_COUNT);
        }
        match &subs[e] {
            Some(sub) => {
                proof {
                    assert(subs_wf(subs@));
                    assert(sub.wf());
                }
                iter.push(sub.iter);
                let ix = copy_indices(&sub.indices);
                indices.push(ix);
            },
            None => {
                iter.push(main.iter[e]);
                let ix = copy_indices(&main.indices[e]);
                indices.push(ix);
            },
        }
        e = e + 1;
    }
    let c = Checkpoint { iter, indices, routes: RouteTable { students } };
    proof {
        assert forall|a: int, b: int| 0 <= a < b < c.routes.students@.len() implies #[trigger] c.routes.students@[a].student@
            != #[trigger] c.routes.students@[b].student@ by {
            assert(table_view(c.routes.students@)[a] == target.routes[a]);
            assert(table_view(c.routes.students@)[b] == target.routes[b]);
            assert(main.routes.students@[a].student@ != main.routes.students@[b].student@);
            assert(target.routes[a].0 == table_view(main.routes.students@)[a].0);
            assert(target.routes[b].0 == table_view(main.routes.students@)[b].0);
        }
        assert(c@.iter =~= target.iter);
        assert(c@.indices =~= target.indices);
        assert(c@.routes =~= target.routes);
    }
    Ok(c)
}

} // verus!
