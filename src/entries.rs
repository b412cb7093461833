use vstd::prelude::*;

use crate::checkpoint::{days_view, indices_view, strings_view, table_view, Checkpoint, CheckpointModel, StudentDay, SubCheckpoint};
use crate::error::OptiError;
use crate::table::{RouteTable, StudentRoutes, DAY_COUNT, PERIOD_COUNT};

verus! {

/// The value of the first entry with key `k`.
pub open spec fn find_val<K, V>(es: Seq<(K, V)>, k: K) -> Option<V>
    decreases es.len(),
{
    if es.len() == 0 {
        None
    } else if es[0].0 == k {
        Some(es[0].1)
    } else {
        find_val(es.drop_first(), k)
    }
}

/// The values under the keys `0..n`, where every one of them has an entry.
pub open spec fn dense<V>(es: Seq<(usize, V)>, n: nat) -> Option<Seq<V>> {
    if forall|p: int| 0 <= p < n ==> (#[trigger] find_val(es, p as usize)) is Some {
        Some(Seq::new(n, |p: int| find_val(es, p as usize)->0))
    } else {
        None
    }
}

/// The values under the weekday keys `1..=5`, where every one of them has an entry.
pub open spec fn dense_days<V>(es: Seq<(u32, V)>) -> Option<Seq<V>> {
    if forall|d: int| 0 <= d < DAY_COUNT ==> (#[trigger] find_val(es, (d + 1) as u32)) is Some {
        Some(Seq::new(DAY_COUNT as nat, |d: int| find_val(es, (d + 1) as u32)->0))
    } else {
        None
    }
}

/// Entries keyed `0, 1, ...` in order.
pub open spec fn row_entries<V>(row: Seq<V>) -> Seq<(usize, V)> {
    Seq::new(row.len(), |p: int| (p as usize, row[p]))
}

/// Entries keyed `1, 2, ...` in order.
pub open spec fn day_entries<V>(days: Seq<V>) -> Seq<(u32, V)> {
    Seq::new(days.len(), |d: int| ((d + 1) as u32, days[d]))
}

/// Indices keyed by weekday, then by slot.
pub type IndexEntries = Vec<(u32, Vec<(usize, u128)>)>;

/// Routes keyed by student, then by weekday, then by slot.
pub type RouteEntries = Vec<(String, Vec<(u32, Vec<(usize, String)>)>)>;

pub open spec fn index_entries_view(es: Seq<(u32, Vec<(usize, u128)>)>) -> Seq<(u32, Seq<(usize, u128)>)> {
    es.map_values(|e: (u32, Vec<(usize, u128)>)| (e.0, e.1@))
}

pub open spec fn period_entries_view(es: Seq<(usize, String)>) -> Seq<(usize, Seq<char>)> {
    es.map_values(|e: (usize, String)| (e.0, e.1@))
}

pub open spec fn day_entries_view(es: Seq<(u32, Vec<(usize, String)>)>) -> Seq<(u32, Seq<(usize, Seq<char>)>)> {
    es.map_values(|e: (u32, Vec<(usize, String)>)| (e.0, period_entries_view(e.1@)))
}

pub open spec fn route_entries_view(es: Seq<(String, Vec<(u32, Vec<(usize, String)>)>)>) -> Seq<
    (Seq<char>, Seq<(u32, Seq<(usize, Seq<char>)>)>),
> {
    es.map_values(|e: (String, Vec<(u32, Vec<(usize, String)>)>)| (e.0@, day_entries_view(e.1@)))
}

/// The five days of twelve slots that nested entries give, where none is missing.
pub open spec fn grid<V>(es: Seq<(u32, Seq<(usize, V)>)>) -> Option<Seq<Seq<V>>> {
    match dense_days(es) {
        Some(rows) => if forall|d: int| 0 <= d < DAY_COUNT ==> (#[trigger] dense(rows[d], PERIOD_COUNT as nat)) is Some {
            Some(Seq::new(DAY_COUNT as nat, |d: int| dense(rows[d], PERIOD_COUNT as nat)->0))
        } else {
            None
        },
        None => None,
    }
}

/// Nested entries of a five-by-twelve grid.
pub open spec fn grid_entries<V>(g: Seq<Seq<V>>) -> Seq<(u32, Seq<(usize, V)>)> {
    day_entries(g.map_values(|row: Seq<V>| row_entries(row)))
}

/// Whether no key is listed twice.
pub open spec fn distinct_keys<K, V>(es: Seq<(K, V)>) -> bool {
    forall|i: int, j: int| 0 <= i < j < es.len() ==> #[trigger] es[i].0 != #[trigger] es[j].0
}

/// The route table that route entries give, where no student is listed twice and none
/// lacks a day or a slot.
pub open spec fn table_of(es: Seq<(Seq<char>, Seq<(u32, Seq<(usize, Seq<char>)>)>)>) -> Option<
    Seq<(Seq<char>, Seq<Seq<Seq<char>>>)>,
> {
    if distinct_keys(es) && forall|i: int| 0 <= i < es.len() ==> (#[trigger] grid(es[i].1)) is Some {
        Some(Seq::new(es.len(), |i: int| (es[i].0, grid(es[i].1)->0)))
    } else {
        None
    }
}

pub open spec fn table_entries(t: Seq<(Seq<char>, Seq<Seq<Seq<char>>>)>) -> Seq<
    (Seq<char>, Seq<(u32, Seq<(usize, Seq<char>)>)>),
> {
    t.map_values(|row: (Seq<char>, Seq<Seq<Seq<char>>>)| (row.0, grid_entries(row.1)))
}

/// A five-by-twelve grid.
pub open spec fn is_grid<V>(g: Seq<Seq<V>>) -> bool {
    g.len() == DAY_COUNT && forall|d: int| 0 <= d < DAY_COUNT ==> (#[trigger] g[d]).len() == PERIOD_COUNT
}

/// The checkpoint that a written checkpoint's parts give, where nothing is missing.
pub open spec fn checkpoint_of(
    iter: Seq<u64>,
    ix: Seq<(u32, Seq<(usize, u128)>)>,
    rs: Seq<(Seq<char>, Seq<(u32, Seq<(usize, Seq<char>)>)>)>,
) -> Option<CheckpointModel> {
    if iter.len() == DAY_COUNT && grid(ix) is Some && table_of(rs) is Some {
        Some(CheckpointModel { iter, indices: grid(ix)->0, routes: table_of(rs)->0 })
    } else {
        None
    }
}

/// A checkpoint's shape: five counters, a grid of indices and a grid of routes per
/// student, no student twice.
pub open spec fn model_wf(m: CheckpointModel) -> bool {
    &&& m.iter.len() == DAY_COUNT
    &&& distinct_keys(m.routes)
    &&& is_grid(m.indices)
    &&& forall|i: int| 0 <= i < m.routes.len() ==> is_grid(#[trigger] m.routes[i].1)
}

proof fn lemma_find_at<K, V>(es: Seq<(K, V)>, i: int, k: K)
    requires
        0 <= i < es.len(),
        es[i].0 == k,
        forall|j: int| 0 <= j < i ==> es[j].0 != k,
    ensures
        find_val(es, k) == Some(es[i].1),
    decreases i,
{
    if i > 0 {
        let t = es.drop_first();
        assert forall|j: int| 0 <= j < i - 1 implies t[j].0 != k by {
            assert(t[j] == es[j + 1]);
        }
        lemma_find_at(t, i - 1, k);
    }
}

proof fn lemma_find_none<K, V>(es: Seq<(K, V)>, k: K)
    requires
        forall|j: int| 0 <= j < es.len() ==> es[j].0 != k,
    ensures
        find_val(es, k) is None,
    decreases es.len(),
{
    if es.len() > 0 {
        let t = es.drop_first();
        assert forall|j: int| 0 <= j < t.len() implies t[j].0 != k by {
            assert(t[j] == es[j + 1]);
        }
        lemma_find_none(t, k);
    }
}

proof fn lemma_row_round_trip<V>(row: Seq<V>)
    requires
        row.len() == PERIOD_COUNT,
    ensures
        dense(row_entries(row), PERIOD_COUNT as nat) == Some(row),
{
    let es = row_entries(row);
    assert forall|p: int| 0 <= p < PERIOD_COUNT implies (#[trigger] find_val(es, p as usize)) == Some(row[p]) by {
        lemma_find_at(es, p, p as usize);
    }
    assert(Seq::new(PERIOD_COUNT as nat, |p: int| find_val(es, p as usize)->0) =~= row);
}

proof fn lemma_grid_round_trip<V>(g: Seq<Seq<V>>)
    requires
        is_grid(g),
    ensures
        grid(grid_entries(g)) == Some(g),
{
    let rows = g.map_values(|row: Seq<V>| row_entries(row));
    let es = grid_entries(g);
    assert forall|d: int| 0 <= d < DAY_COUNT implies (#[trigger] find_val(es, (d + 1) as u32)) == Some(rows[d]) by {
        lemma_find_at(es, d, (d + 1) as u32);
    }
    let found = Seq::new(DAY_COUNT as nat, |d: int| find_val(es, (d + 1) as u32)->0);
    assert(dense_days(es) == Some(found));
    assert(found =~= rows);
    assert forall|d: int| 0 <= d < DAY_COUNT implies (#[trigger] dense(rows[d], PERIOD_COUNT as nat)) == Some(g[d]) by {
        assert(g[d].len() == PERIOD_COUNT);
        lemma_row_round_trip(g[d]);
    }
    assert(Seq::new(DAY_COUNT as nat, |d: int| dense(rows[d], PERIOD_COUNT as nat)->0) =~= g);
}

/// Writing a well-formed checkpoint as entries and reading it back gives the same
/// counters, indices and routes.
pub proof fn lemma_checkpoint_round_trip(m: CheckpointModel)
    requires
        model_wf(m),
    ensures
        checkpoint_of(m.iter, grid_entries(m.indices), table_entries(m.routes)) == Some(m),
{
    lemma_grid_round_trip(m.indices);
    let te = table_entries(m.routes);
    assert forall|a: int, b: int| 0 <= a < b < te.len() implies #[trigger] te[a].0 != #[trigger] te[b].0 by {
        assert(te[a].0 == m.routes[a].0 && te[b].0 == m.routes[b].0);
    }
    assert forall|i: int| 0 <= i < te.len() implies (#[trigger] grid(te[i].1)) == Some(m.routes[i].1) by {
        lemma_grid_round_trip(m.routes[i].1);
    }
    assert(Seq::new(te.len(), |i: int| (te[i].0, grid(te[i].1)->0)) =~= m.routes);
}

/// The position of the first entry for weekday `d`.
fn find_day<V>(es: &Vec<(u32, V)>, d: u32) -> (r: Option<usize>)
    ensures
        match r {
            Some(i) => i < es@.len() && es@[i as int].0 == d && forall|j: int| 0 <= j < i ==> es@[j].0 != d,
            None => forall|j: int| 0 <= j < es@.len() ==> es@[j].0 != d,
        },
{
    let mut i: usize = 0;
    while i < es.len()
        invariant
            i <= es@.len(),
            forall|j: int| 0 <= j < i ==> es@[j].0 != d,
        decreases es@.len() - i,
    {
        if es[i].0 == d {
            return Some(i);
        }
        i = i + 1;
    }
    None
}

/// The position of the first entry for slot `p`.
fn find_slot<V>(es: &Vec<(usize, V)>, p: usize) -> (r: Option<usize>)
    ensures
        match r {
            Some(i) => i < es@.len() && es@[i as int].0 == p && forall|j: int| 0 <= j < i ==> es@[j].0 != p,
            None => forall|j: int| 0 <= j < es@.len() ==> es@[j].0 != p,
        },
{
    let mut i: usize = 0;
    while i < es.len()
        invariant
            i <= es@.len(),
            forall|j: int| 0 <= j < i ==> es@[j].0 != p,
        decreases es@.len() - i,
    {
        if es[i].0 == p {
            return Some(i);
        }
        i = i + 1;
    }
    None
}

/// The twelve indices of a day's entries, or `None` where a slot is missing.
fn index_row(es: &Vec<(usize, u128)>) -> (r: Option<Vec<u128>>)
    ensures
        r is Some <==> dense(es@, PERIOD_COUNT as nat) is Some,
        r matches Some(v) ==> dense(es@, PERIOD_COUNT as nat) == Some(v@),
{
    let mut out: Vec<u128> = Vec::new();
    let mut p: usize = 0;
    while p < PERIOD_COUNT
        invariant
            p <= PERIOD_COUNT,
            out@.len() == p,
            forall|q: int| 0 <= q < p ==> #[trigger] find_val(es@, q as usize) == Some(out@[q]),
        decreases PERIOD_COUNT - p,
    {
        match find_slot(es, p) {
            Some(i) => {
                proof {
                    lemma_find_at(es@, i as int, p);
                }
                out.push(es[i].1);
            },
            None => {
                proof {
                    lemma_find_none(es@, p);
                    assert(find_val(es@, (p as int) as usize) is None);
                }
                return None;
            },
        }
        p = p + 1;
    }
    proof {
        assert(Seq::new(PERIOD_COUNT as nat, |q: int| find_val(es@, q as usize)->0) =~= out@);
    }
    Some(out)
}

/// The twelve routes of a day's entries, or `None` where a slot is missing.
fn route_row(es: &Vec<(usize, String)>) -> (r: Option<Vec<String>>)
    ensures
        r is Some <==> dense(period_entries_view(es@), PERIOD_COUNT as nat) is Some,
        r matches Some(v) ==> dense(period_entries_view(es@), PERIOD_COUNT as nat) == Some(strings_view(v@)),
{
    let ghost ev = period_entries_view(es@);
    let mut out: Vec<String> = Vec::new();
    let mut p: usize = 0;
    while p < PERIOD_COUNT
        invariant
            ev == period_entries_view(es@),
            p <= PERIOD_COUNT,
            out@.len() == p,
            forall|q: int| 0 <= q < p ==> #[trigger] find_val(ev, q as usize) == Some(out@[q]@),
        decreases PERIOD_COUNT - p,
    {
        match find_slot(es, p) {
            Some(i) => {
                proof {
                    assert forall|j: int| 0 <= j < i implies ev[j].0 != p by {
                        assert(ev[j].0 == es@[j].0);
                    }
                    lemma_find_at(ev, i as int, p);
                }
                let v = es[i].1.clone();
                let ghost before = out@;
                out.push(v);
                proof {
                    assert forall|q: int| 0 <= q < p + 1 implies #[trigger] find_val(ev, q as usize) == Some(out@[q]@) by {
                        if q < p {
                            assert(out@[q] == before[q]);
                        }
                    }
                }
            },
            None => {
                proof {
                    assert forall|j: int| 0 <= j < ev.len() implies ev[j].0 != p by {
                        assert(ev[j].0 == es@[j].0);
                    }
                    lemma_find_none(ev, p);
                    assert(find_val(ev, (p as int) as usize) is None);
                }
                return None;
            },
        }
        p = p + 1;
    }
    proof {
        assert(Seq::new(PERIOD_COUNT as nat, |q: int| find_val(ev, q as usize)->0) =~= strings_view(out@));
    }
    Some(out)
}

/// The five-by-twelve index grid of nested entries; `Corrupt` where a day or slot is missing.
pub fn index_grid(es: &IndexEntries) -> (r: Result<Vec<Vec<u128>>, OptiError>)
    ensures
        r is Ok <==> grid(index_entries_view(es@)) is Some,
        r matches Ok(g) ==> grid(index_entries_view(es@)) == Some(indices_view(g@)),
        r matches Err(e) ==> e is Corrupt,
{
    let ghost ev = index_entries_view(es@);
    let mut out: Vec<Vec<u128>> = Vec::new();
    let mut d: usize = 0;
    while d < DAY_COUNT
        invariant
            ev == index_entries_view(es@),
            d <= DAY_COUNT,
            out@.len() == d,
            forall|q: int| 0 <= q < d ==> #[trigger] find_val(ev, (q + 1) as u32) is Some,
            forall|q: int| 0 <= q < d ==> dense(#[trigger] find_val(ev, (q + 1) as u32)->0, PERIOD_COUNT as nat) == Some(
                out@[q]@,
            ),
        decreases DAY_COUNT - d,
    {
        let day = (d + 1) as u32;
        match find_day(es, day) {
            Some(i) => {
                proof {
                    assert forall|j: int| 0 <= j < i implies ev[j].0 != day by {
                        assert(ev[j].0 == es@[j].0);
                    }
                    lemma_find_at(ev, i as int, day);
                }
                match index_row(&es[i].1) {
                    Some(row) => {
                        let ghost before = out@;
                        out.push(row);
                        proof {
                            assert forall|q: int| 0 <= q < d + 1 implies dense(
                                #[trigger] find_val(ev, (q + 1) as u32)->0,
                                PERIOD_COUNT as nat,
                            ) == Some(out@[q]@) by {
                                if q < d {
                                    assert(out@[q] == before[q]);
                                }
                            }
                        }
                    },
                    None => {
                        proof {
                            let rows = Seq::new(DAY_COUNT as nat, |q: int| find_val(ev, (q + 1) as u32)->0);
                            if dense_days(ev) is Some {
                                assert(rows[d as int] == es@[i as int].1@);
                                assert(dense(rows[d as int], PERIOD_COUNT as nat) is None);
                            }
                        }
                        return Err(OptiError::Corrupt);
                    },
                }
            },
            None => {
                proof {
                    assert forall|j: int| 0 <= j < ev.len() implies ev[j].0 != day by {
                        assert(ev[j].0 == es@[j].0);
                    }
                    lemma_find_none(ev, day);
                    assert(find_val(ev, (d as int + 1) as u32) is None);
                }
                return Err(OptiError::Corrupt);
            },
        }
        d = d + 1;
    }
    proof {
        let rows = Seq::new(DAY_COUNT as nat, |q: int| find_val(ev, (q + 1) as u32)->0);
        assert(dense_days(ev) == Some(rows));
        assert forall|q: int| 0 <= q < DAY_COUNT implies (#[trigger] dense(rows[q], PERIOD_COUNT as nat)) == Some(
            indices_view(out@)[q],
        ) by {
            assert(rows[q] == find_val(ev, (q + 1) as u32)->0);
        }
        assert(Seq::new(DAY_COUNT as nat, |q: int| dense(rows[q], PERIOD_COUNT as nat)->0) =~= indices_view(out@));
    }
    Ok(out)
}

/// A student's five days of twelve routes from nested entries; `Corrupt` where one is missing.
pub fn route_grid(es: &Vec<(u32, Vec<(usize, String)>)>) -> (r: Result<Vec<Vec<String>>, OptiError>)
    ensures
        r is Ok <==> grid(day_entries_view(es@)) is Some,
        r matches Ok(g) ==> grid(day_entries_view(es@)) == Some(days_view(g@)),
        r matches Err(e) ==> e is Corrupt,
{
    let ghost ev = day_entries_view(es@);
    let mut out: Vec<Vec<String>> = Vec::new();
    let mut d: usize = 0;
    while d < DAY_COUNT
        invariant
            ev == day_entries_view(es@),
            d <= DAY_COUNT,
            out@.len() == d,
            forall|q: int| 0 <= q < d ==> #[trigger] find_val(ev, (q + 1) as u32) is Some,
            forall|q: int| 0 <= q < d ==> dense(#[trigger] find_val(ev, (q + 1) as u32)->0, PERIOD_COUNT as nat) == Some(
                strings_view(out@[q]@),
            ),
        decreases DAY_COUNT - d,
    {
        let day = (d + 1) as u32;
        match find_day(es, day) {
            Some(i) => {
                proof {
                    assert forall|j: int| 0 <= j < i implies ev[j].0 != day by {
                        assert(ev[j].0 == es@[j].0);
                    }
                    lemma_find_at(ev, i as int, day);
                }
                match route_row(&es[i].1) {
                    Some(row) => {
                        let ghost before = out@;
                        out.push(row);
                        proof {
                            assert forall|q: int| 0 <= q < d + 1 implies dense(
                                #[trigger] find_val(ev, (q + 1) as u32)->0,
                                PERIOD_COUNT as nat,
                            ) == Some(strings_view(out@[q]@)) by {
                                if q < d {
                                    assert(out@[q] == before[q]);
                                }
                            }
                        }
                    },
                    None => {
                        proof {
                            let rows = Seq::new(DAY_COUNT as nat, |q: int| find_val(ev, (q + 1) as u32)->0);
                            if dense_days(ev) is Some {
                                assert(rows[d as int] == period_entries_view(es@[i as int].1@));
                                assert(dense(rows[d as int], PERIOD_COUNT as nat) is None);
                            }
                        }
                        return Err(OptiError::Corrupt);
                    },
                }
            },
            None => {
                proof {
                    assert forall|j: int| 0 <= j < ev.len() implies ev[j].0 != day by {
                        assert(ev[j].0 == es@[j].0);
                    }
                    lemma_find_none(ev, day);
                    assert(find_val(ev, (d as int + 1) as u32) is None);
                }
                return Err(OptiError::Corrupt);
            },
        }
        d = d + 1;
    }
    proof {
        let rows = Seq::new(DAY_COUNT as nat, |q: int| find_val(ev, (q + 1) as u32)->0);
        assert(dense_days(ev) == Some(rows));
        assert forall|q: int| 0 <= q < DAY_COUNT implies (#[trigger] dense(rows[q], PERIOD_COUNT as nat)) == Some(
            days_view(out@)[q],
        ) by {
            assert(rows[q] == find_val(ev, (q + 1) as u32)->0);
        }
        assert(Seq::new(DAY_COUNT as nat, |q: int| dense(rows[q], PERIOD_COUNT as nat)->0) =~= days_view(out@));
    }
    Ok(out)
}

/// The route table of route entries; `Corrupt` where a student lacks a day or a slot.
pub fn table_from_entries(es: &RouteEntries) -> (r: Result<RouteTable, OptiError>)
    ensures
        r is Ok <==> table_of(route_entries_view(es@)) is Some,
        r matches Ok(t) ==> t.wf() && table_of(route_entries_view(es@)) == Some(table_view(t.students@)),
        r matches Err(e) ==> e is Corrupt,
{
    let ghost ev = route_entries_view(es@);
    let mut students: Vec<StudentRoutes> = Vec::new();
    let mut i: usize = 0;
    while i < es.len()
        invariant
            ev == route_entries_view(es@),
            i <= es@.len(),
            students@.len() == i,
            forall|k: int| 0 <= k < i ==> #[trigger] grid(ev[k].1) == Some(days_view(students@[k].days@)),
            forall|k: int| 0 <= k < i ==> (#[trigger] students@[k]).student@ == ev[k].0,
            forall|k: int| 0 <= k < i ==> (#[trigger] students@[k]).has_shape(),
        decreases es@.len() - i,
    {
        proof {
            assert(ev[i as int].1 == day_entries_view(es@[i as int].1@));
        }
        match route_grid(&es[i].1) {
            Ok(days) => {
                let id = es[i].0.clone();
                let st = StudentRoutes { student: id, days };
                proof {
                    let g = grid(ev[i as int].1)->0;
                    assert(days_view(st.days@) == g);
                    assert(st.days@.len() == DAY_COUNT);
                    assert forall|d: int| 0 <= d < DAY_COUNT implies #[trigger] st.days@[d]@.len() == PERIOD_COUNT by {
                        assert(days_view(st.days@)[d] == strings_view(st.days@[d]@));
                    }
                }
                let ghost before = students@;
                students.push(st);
                proof {
                    assert forall|k: int| 0 <= k < i + 1 implies #[trigger] grid(ev[k].1) == Some(days_view(students@[k].days@))
                        && (students@[k]).student@ == ev[k].0 && students@[k].has_shape() by {
                        if k < i {
                            assert(students@[k] == before[k]);
                        }
                    }
                }
            },
            Err(e) => {
                return Err(e);
            },
        }
        i = i + 1;
    }
    let t = RouteTable { students };
    if !t.check_distinct() {
        proof {
            let (a, b) = choose|a: int, b: int|
                0 <= a < b < t.students@.len() && #[trigger] t.students@[a].student@ == #[trigger] t.students@[b].student@;
            assert(ev[a].0 == ev[b].0);
        }
        return Err(OptiError::Corrupt);
    }
    proof {
        assert(table_view(t.students@) =~= Seq::new(ev.len(), |k: int| (ev[k].0, grid(ev[k].1)->0)));
        assert forall|a: int, b: int| 0 <= a < b < ev.len() implies #[trigger] ev[a].0 != #[trigger] ev[b].0 by {
            assert(t.students@[a].student@ != t.students@[b].student@);
        }
    }
    Ok(t)
}

/// A grid of indices as nested entries.
pub fn index_entries(g: &Vec<Vec<u128>>) -> (r: IndexEntries)
    requires
        g@.len() == DAY_COUNT,
    ensures
        index_entries_view(r@) == grid_entries(indices_view(g@)),
{
    let ghost want = grid_entries(indices_view(g@));
    let mut out: IndexEntries = Vec::new();
    let mut d: usize = 0;
    while d < g.len()
        invariant
            want == grid_entries(indices_view(g@)),
            g@.len() == DAY_COUNT,
            d <= g@.len(),
            out@.len() == d,
            forall|q: int| 0 <= q < d ==> #[trigger] index_entries_view(out@)[q] == want[q],
        decreases g@.len() - d,
    {
        let row = &g[d];
        let mut es: Vec<(usize, u128)> = Vec::new();
        let mut p: usize = 0;
        while p < row.len()
            invariant
                p <= row@.len(),
                es@.len() == p,
                forall|q: int| 0 <= q < p ==> #[trigger] es@[q] == (q as usize, row@[q]),
            decreases row@.len() - p,
        {
            es.push((p, row[p]));
            p = p + 1;
        }
        proof {
            assert(es@ =~= row_entries(row@));
        }
        let ghost before = out@;
        out.push(((d + 1) as u32, es));
        proof {
            assert forall|q: int| 0 <= q < d + 1 implies #[trigger] index_entries_view(out@)[q] == want[q] by {
                if q < d {
                    assert(out@[q] == before[q]);
                    assert(index_entries_view(before)[q] == want[q]);
                }
            }
        }
        d = d + 1;
    }
    proof {
        assert(index_entries_view(out@) =~= want);
    }
    out
}

/// One student's routes as nested entries.
fn student_entries(st: &StudentRoutes) -> (r: Vec<(u32, Vec<(usize, String)>)>)
    requires
        st.has_shape(),
    ensures
        day_entries_view(r@) == grid_entries(days_view(st.days@)),
{
    let ghost want = grid_entries(days_view(st.days@));
    let mut out: Vec<(u32, Vec<(usize, String)>)> = Vec::new();
    let mut d: usize = 0;
    while d < DAY_COUNT
        invariant
            want == grid_entries(days_view(st.days@)),
            st.has_shape(),
            d <= DAY_COUNT,
            out@.len() == d,
            forall|q: int| 0 <= q < d ==> #[trigger] day_entries_view(out@)[q] == want[q],
        decreases DAY_COUNT - d,
    {
        let row = &st.days[d];
        let mut es: Vec<(usize, String)> = Vec::new();
        let mut p: usize = 0;
        while p < row.len()
            invariant
                p <= row@.len(),
                es@.len() == p,
                forall|q: int| 0 <= q < p ==> #[trigger] period_entries_view(es@)[q] == (q as usize, row@[q]@),
            decreases row@.len() - p,
        {
            let v = row[p].clone();
            let ghost before = es@;
            es.push((p, v));
            proof {
                assert forall|q: int| 0 <= q < p + 1 implies #[trigger] period_entries_view(es@)[q] == (q as usize, row@[q]@) by {
                    if q < p {
                        assert(es@[q] == before[q]);
                        assert(period_entries_view(before)[q] == (q as usize, row@[q]@));
                    }
                }
            }
            p = p + 1;
        }
        proof {
            assert(period_entries_view(es@) =~= row_entries(strings_view(row@)));
            assert(days_view(st.days@)[d as int] == strings_view(row@));
        }
        let ghost before = out@;
        out.push(((d + 1) as u32, es));
        proof {
            assert forall|q: int| 0 <= q < d + 1 implies #[trigger] day_entries_view(out@)[q] == want[q] by {
                if q < d {
                    assert(out@[q] == before[q]);
                    assert(day_entries_view(before)[q] == want[q]);
                }
            }
        }
        d = d + 1;
    }
    proof {
        assert(day_entries_view(out@) =~= want);
    }
    out
}

/// A route table as nested entries.
pub fn table_entries_of(t: &RouteTable) -> (r: RouteEntries)
    requires
        t.wf(),
    ensures
        route_entries_view(r@) == table_entries(table_view(t.students@)),
{
    let ghost want = table_entries(table_view(t.students@));
    let mut out: RouteEntries = Vec::new();
    let mut i: usize = 0;
    while i < t.students.len()
        invariant
            t.wf(),
            want == table_entries(table_view(t.students@)),
            i <= t.students@.len(),
            out@.len() == i,
            forall|q: int| 0 <= q < i ==> #[trigger] route_entries_view(out@)[q] == want[q],
        decreases t.students@.len() - i,
    {
        let st = &t.students[i];
        proof {
            assert(t.students@[i as int].has_shape());
        }
        let es = student_entries(st);
        let id = st.student.clone();
        let ghost before = out@;
        out.push((id, es));
        proof {
            assert forall|q: int| 0 <= q < i + 1 implies #[trigger] route_entries_view(out@)[q] == want[q] by {
                if q < i {
                    assert(out@[q] == before[q]);
                    assert(route_entries_view(before)[q] == want[q]);
                }
            }
        }
        i = i + 1;
    }
    proof {
        assert(route_entries_view(out@) =~= want);
    }
    out
}

/// A well-formed checkpoint has the shape of its model.
pub proof fn lemma_checkpoint_model_wf(c: Checkpoint)
    requires
        c.wf(),
    ensures
        model_wf(c@),
{
    assert forall|a: int, b: int| 0 <= a < b < c@.routes.len() implies #[trigger] c@.routes[a].0 != #[trigger] c@.routes[b].0 by {
        assert(c.routes.students@[a].student@ != c.routes.students@[b].student@);
    }
    assert forall|d: int| 0 <= d < DAY_COUNT implies (#[trigger] c@.indices[d]).len() == PERIOD_COUNT by {
        assert(c.indices@[d]@.len() == PERIOD_COUNT);
    }
    assert forall|i: int| 0 <= i < c@.routes.len() implies is_grid(#[trigger] c@.routes[i].1) by {
        let st = c.routes.students@[i];
        assert(st.has_shape());
        assert forall|d: int| 0 <= d < DAY_COUNT implies (#[trigger] c@.routes[i].1[d]).len() == PERIOD_COUNT by {
            assert(st.days@[d]@.len() == PERIOD_COUNT);
        }
    }
}

impl Checkpoint {
    /// The checkpoint that a written checkpoint's parts give; `Corrupt` where there are
    /// not five counters, or an index or a route is missing.
    pub fn from_entries(iter: &Vec<u64>, ix: &IndexEntries, rs: &RouteEntries) -> (r: Result<Checkpoint, OptiError>)
        ensures
            r is Ok <==> checkpoint_of(iter@, index_entries_view(ix@), route_entries_view(rs@)) is Some,
            r matches Ok(c) ==> c.wf() && checkpoint_of(iter@, index_entries_view(ix@), route_entries_view(rs@)) == Some(
                c@,
            ),
            r matches Err(e) ==> e is Corrupt,
    {
        if iter.len() != DAY_COUNT {
            return Err(OptiError::Corrupt);
        }
        let indices = match index_grid(ix) {
            Ok(g) => g,
            Err(e) => {
                return Err(e);
            },
        };
        let routes = match table_from_entries(rs) {
            Ok(t) => t,
            Err(e) => {
                return Err(e);
            },
        };
        let mut it: Vec<u64> = Vec::new();
        let mut d: usize = 0;
        while d < DAY_COUNT
            invariant
                iter@.len() == DAY_COUNT,
                d <= DAY_COUNT,
                it@ == iter@.take(d as int),
            decreases DAY_COUNT - d,
        {
            it.push(iter[d]);
            proof {
                assert(it@ =~= iter@.take(d + 1));
            }
            d = d + 1;
        }
        proof {
            assert(iter@.take(DAY_COUNT as int) =~= iter@);
            let g = indices_view(indices@);
            assert(g.len() == DAY_COUNT);
            assert forall|q: int| 0 <= q < DAY_COUNT implies #[trigger] indices@[q]@.len() == PERIOD_COUNT by {
                assert(g[q] == indices@[q]@);
            }
        }
        Ok(Checkpoint { iter: it, indices, routes })
    }

    /// The parts of the checkpoint as they are written: counters, then indices and
    /// routes as nested entries.
    pub fn to_entries(&self) -> (r: (Vec<u64>, IndexEntries, RouteEntries))
        requires
            self.wf(),
        ensures
            r.0@ == self@.iter,
            index_entries_view(r.1@) == grid_entries(self@.indices),
            route_entries_view(r.2@) == table_entries(self@.routes),
    {
        let mut it: Vec<u64> = Vec::new();
        let mut d: usize = 0;
        while d < self.iter.len()
            invariant
                d <= self.iter@.len(),
                it@ == self.iter@.take(d as int),
            decreases self.iter@.len() - d,
        {
            it.push(self.iter[d]);
            proof {
                assert(it@ =~= self.iter@.take(d + 1));
            }
            d = d + 1;
        }
        proof {
            assert(self.iter@.take(self.iter@.len() as int) =~= self.iter@);
        }
        (it, index_entries(&self.indices), table_entries_of(&self.routes))
    }
}

/// What the parts of a written sub-checkpoint give for weekday `day`, where the day's
/// indices and every student's routes of the day are all there.
pub open spec fn sub_of(
    iter: u64,
    ix: Seq<(u32, Seq<(usize, u128)>)>,
    rs: Seq<(Seq<char>, Seq<(u32, Seq<(usize, Seq<char>)>)>)>,
    day: u32,
) -> Option<crate::checkpoint::SubModel> {
    match find_val(ix, day) {
        Some(row) => match dense(row, PERIOD_COUNT as nat) {
            Some(indices) => if forall|i: int| 0 <= i < rs.len() ==> (#[trigger] find_val(rs[i].1, day)) is Some && dense(
                find_val(rs[i].1, day)->0,
                PERIOD_COUNT as nat,
            ) is Some {
                Some(
                    crate::checkpoint::SubModel {
                        iter,
                        indices,
                        routes: Seq::new(rs.len(), |i: int| (rs[i].0, dense(find_val(rs[i].1, day)->0, PERIOD_COUNT as nat)->0)),
                    },
                )
            } else {
                None
            },
            None => None,
        },
        None => None,
    }
}

impl SubCheckpoint {
    /// Weekday `day`'s part of a written sub-checkpoint; `Corrupt` where the day's
    /// indices or a listed student's routes of the day are missing.
    pub fn from_entries(iter: u64, ix: &IndexEntries, rs: &RouteEntries, day: u32) -> (r: Result<SubCheckpoint, OptiError>)
        ensures
            r is Ok <==> sub_of(iter, index_entries_view(ix@), route_entries_view(rs@), day) is Some,
            r matches Ok(c) ==> c.wf() && sub_of(iter, index_entries_view(ix@), route_entries_view(rs@), day) == Some(c@),
            r matches Err(e) ==> e is Corrupt,
    {
        let ghost iv = index_entries_view(ix@);
        let ghost rv = route_entries_view(rs@);
        let indices = match find_day(ix, day) {
            Some(i) => {
                proof {
                    assert forall|j: int| 0 <= j < i implies iv[j].0 != day by {
                        assert(iv[j].0 == ix@[j].0);
                    }
                    lemma_find_at(iv, i as int, day);
                }
                match index_row(&ix[i].1) {
                    Some(row) => row,
                    None => {
                        return Err(OptiError::Corrupt);
                    },
                }
            },
            None => {
                proof {
                    assert forall|j: int| 0 <= j < iv.len() implies iv[j].0 != day by {
                        assert(iv[j].0 == ix@[j].0);
                    }
                    lemma_find_none(iv, day);
                }
                return Err(OptiError::Corrupt);
            },
        };
        let mut routes: Vec<StudentDay> = Vec::new();
        let mut k: usize = 0;
        while k < rs.len()
            invariant
                rv == route_entries_view(rs@),
                k <= rs@.len(),
                routes@.len() == k,
                forall|q: int| 0 <= q < k ==> (#[trigger] find_val(rv[q].1, day)) is Some,
                forall|q: int| 0 <= q < k ==> dense(#[trigger] find_val(rv[q].1, day)->0, PERIOD_COUNT as nat) == Some(
                    strings_view(routes@[q].periods@),
                ),
                forall|q: int| 0 <= q < k ==> (#[trigger] routes@[q]).student@ == rv[q].0,
            decreases rs@.len() - k,
        {
            let ghost dv = rv[k as int].1;
            proof {
                assert(dv == day_entries_view(rs@[k as int].1@));
            }
            match find_day(&rs[k].1, day) {
                Some(i) => {
                    proof {
                        assert forall|j: int| 0 <= j < i implies dv[j].0 != day by {
                            assert(dv[j].0 == rs@[k as int].1@[j].0);
                        }
                        lemma_find_at(dv, i as int, day);
                    }
                    match route_row(&rs[k].1[i].1) {
                        Some(periods) => {
                            let student = rs[k].0.clone();
                            let ghost before = routes@;
                            routes.push(StudentDay { student, periods });
                            proof {
                                assert forall|q: int| 0 <= q < k + 1 implies (#[trigger] find_val(rv[q].1, day)) is Some
                                    && dense(find_val(rv[q].1, day)->0, PERIOD_COUNT as nat) == Some(
                                    strings_view(routes@[q].periods@),
                                ) && routes@[q].student@ == rv[q].0 by {
                                    if q < k {
                                        assert(routes@[q] == before[q]);
                                    }
                                }
                            }
                        },
                        None => {
                            return Err(OptiError::Corrupt);
                        },
                    }
                },
                None => {
                    proof {
                        assert forall|j: int| 0 <= j < dv.len() implies dv[j].0 != day by {
                            assert(dv[j].0 == rs@[k as int].1@[j].0);
                        }
                        lemma_find_none(dv, day);
                    }
                    return Err(OptiError::Corrupt);
                },
            }
            k = k + 1;
        }
        let c = SubCheckpoint { iter, indices, routes };
        proof {
            assert(c@.routes =~= Seq::new(
                rv.len(),
                |i: int| (rv[i].0, dense(find_val(rv[i].1, day)->0, PERIOD_COUNT as nat)->0),
            ));
            assert forall|j: int| 0 <= j < c.routes@.len() implies #[trigger] c.routes@[j].periods@.len() == PERIOD_COUNT by {
                assert(strings_view(c.routes@[j].periods@).len() == PERIOD_COUNT);
            }
        }
        Ok(c)
    }
}

} // verus!
