use vstd::prelude::*;

use crate::route::route_rooms;

verus! {

/// Weekdays in a week, numbered 1 to 5 in the data.
pub const DAY_COUNT: usize = 5;

/// Slots in a school day, numbered 0 to 11.
pub const PERIOD_COUNT: usize = 12;

/// One student's stored routes, `days[d][p]` for weekday `d + 1` and slot `p`.
pub struct StudentRoutes {
    pub student: String,
    pub days: Vec<Vec<String>>,
}

impl StudentRoutes {
    /// One route for each of the five days and twelve slots.
    pub open spec fn has_shape(&self) -> bool {
        &&& self.days@.len() == DAY_COUNT
        &&& forall|d: int| 0 <= d < DAY_COUNT ==> #[trigger] self.days@[d]@.len() == PERIOD_COUNT
    }
}

/// The routes of every student, for every day and slot.
pub struct RouteTable {
    pub students: Vec<StudentRoutes>,
}

impl RouteTable {
    /// Every student has one route per day and slot, and no student is listed twice.
    pub open spec fn wf(&self) -> bool {
        &&& forall|i: int| 0 <= i < self.students@.len() ==> #[trigger] self.students@[i].has_shape()
        &&& self.distinct_students()
    }

    /// No student is listed twice.
    pub open spec fn distinct_students(&self) -> bool {
        forall|i: int, j: int|
            0 <= i < j < self.students@.len() ==> #[trigger] self.students@[i].student@ != #[trigger] self.students@[
                j
            ].student@
    }

    /// Whether no student is listed twice.
    pub fn check_distinct(&self) -> (r: bool)
        ensures
            r == self.distinct_students(),
    {
        let n = self.students.len();
        let mut i: usize = 0;
        while i < n
            invariant
                n == self.students@.len(),
                i <= n,
                forall|a: int, b: int| 0 <= a < b < n && a < i ==> self.students@[a].student@ != self.students@[b].student@,
            decreases n - i,
        {
            let mut j: usize = i + 1;
            while j < n
                invariant
                    n == self.students@.len(),
                    i < n,
                    i + 1 <= j <= n,
                    forall|a: int, b: int| 0 <= a < b < n && a < i ==> self.students@[a].student@ != self.students@[b].student@,
                    forall|b: int| i < b < j ==> self.students@[i as int].student@ != self.students@[b].student@,
                decreases n - j,
            {
                if self.students[i].student.eq(&self.students[j].student) {
                    return false;
                }
                j = j + 1;
            }
            i = i + 1;
        }
        true
    }

    /// Whether the table is well formed: full shape, and no student twice.
    pub fn check_shape(&self) -> (r: bool)
        ensures
            r == self.wf(),
    {
        if !self.check_distinct() {
            return false;
        }
        let mut i: usize = 0;
        while i < self.students.len()
            invariant
                i <= self.students@.len(),
                forall|j: int| 0 <= j < i ==> #[trigger] self.students@[j].has_shape(),
            decreases self.students@.len() - i,
        {
            let st = &self.students[i];
            if st.days.len() != DAY_COUNT {
                proof {
                    assert(!self.students@[i as int].has_shape());
                }
                return false;
            }
            let mut d: usize = 0;
            while d < DAY_COUNT
                invariant
                    st == self.students@[i as int],
                    i < self.students@.len(),
                    st.days@.len() == DAY_COUNT,
                    d <= DAY_COUNT,
                    forall|e: int| 0 <= e < d ==> #[trigger] st.days@[e]@.len() == PERIOD_COUNT,
                decreases DAY_COUNT - d,
            {
                if st.days[d].len() != PERIOD_COUNT {
                    proof {
                        assert(!st.has_shape());
                        assert(!self.students@[i as int].has_shape());
                    }
                    return false;
                }
                d = d + 1;
            }
            i = i + 1;
        }
        true
    }

    /// The stored route of student `i` on day index `d` in slot `p`.
    pub open spec fn route(&self, i: int, d: int, p: int) -> Seq<char> {
        self.students@[i].days@[d]@[p]@
    }

    /// The rooms that each student visits on day index `d` in slot `p`.
    pub open spec fn slot_rooms(&self, d: int, p: int) -> Seq<Seq<Seq<char>>> {
        Seq::new(self.students@.len(), |i: int| route_rooms(self.route(i, d, p)))
    }
}

} // verus!
