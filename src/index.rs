use vstd::prelude::*;

use crate::control::{format_grouped, grouped_fr};
use crate::congestion::{all_listed, cell, counts_fit, lemma_cell, resolve_slot, CongestionReport, SlotReport, SLOT_COUNT, VISIT_LIMIT};
use crate::counting::{sum_pairs, total_len};
use crate::distance::DistanceTable;
use crate::error::OptiError;
use crate::route::{resolves_to, route_rooms, RoomSet};
use crate::table::{RouteTable, DAY_COUNT, PERIOD_COUNT};

verus! {

/// What one step of a route adds to its slot's performance index: the step's
/// distance, scaled by a factor between 1 and 3 that grows with its congestion.
#[derive(Clone, Copy, PartialEq, Eq, Structural, Debug)]
pub struct EdgeTerm {
    pub distance: u32,
    /// Traversals of the step's pair of rooms in its slot.
    pub congestion: u32,
}

/// The steps of a route: each room paired with the next.
pub open spec fn route_edges(r: Seq<Seq<char>>) -> Seq<(Seq<char>, Seq<char>)> {
    if r.len() < 2 {
        Seq::empty()
    } else {
        Seq::new((r.len() - 1) as nat, |m: int| (r[m], r[m + 1]))
    }
}

/// `t` is the term of the step `e` in a slot whose visited rooms are `rs`.
pub open spec fn term_of(t: EdgeTerm, e: (Seq<char>, Seq<char>), rs: Seq<Seq<Seq<char>>>, dist: DistanceTable) -> bool {
    &&& dist.distance(e.0, e.1) == Some(t.distance)
    &&& t.congestion == sum_pairs(rs, e.0, e.1)
}

/// Whether every step of every route of `rs` has a known distance.
pub open spec fn steps_known(rs: Seq<Seq<Seq<char>>>, dist: DistanceTable) -> bool {
    forall|j: int, m: int| 0 <= j < rs.len() && 0 <= m < route_edges(rs[j]).len() ==>
        (#[trigger] dist.distance(route_edges(rs[j])[m].0, route_edges(rs[j])[m].1)) is Some
}

/// The terms of one resolved route.
fn route_terms(
    ri: &Vec<usize>,
    rn: Ghost<Seq<Seq<char>>>,
    rs: Ghost<Seq<Seq<Seq<char>>>>,
    sr: &SlotReport,
    dist: &DistanceTable,
    rooms: &RoomSet,
) -> (r: Result<Vec<EdgeTerm>, OptiError>)
    requires
        rooms.wf(),
        dist.wf(),
        dist.spec_names() == rooms.spec_names(),
        resolves_to(rooms.spec_names(), rn@, ri@),
        sr.describes(rooms.spec_names(), rs@),
        rooms.spec_names().len() * rooms.spec_names().len() <= usize::MAX,
    ensures
        r is Ok <==> forall|m: int| 0 <= m < route_edges(rn@).len() ==>
            (#[trigger] dist.distance(route_edges(rn@)[m].0, route_edges(rn@)[m].1)) is Some,
        r matches Ok(v) ==> v@.len() == route_edges(rn@).len() && forall|m: int| 0 <= m < v@.len() ==>
            term_of(#[trigger] v@[m], route_edges(rn@)[m], rs@, *dist),
        r matches Err(e) ==> e matches OptiError::GraphInconsistency(a, b) && dist.distance(a@, b@) is None
            && exists|m: int| 0 <= m < route_edges(rn@).len() && #[trigger] route_edges(rn@)[m] == (a@, b@),
{
    let ghost names = rooms.spec_names();
    let n = rooms.len();
    let mut out: Vec<EdgeTerm> = Vec::new();
    if ri.len() < 2 {
        return Ok(out);
    }
    let mut k: usize = 1;
    while k < ri.len()
        invariant
            rooms.wf(),
            dist.wf(),
            dist.spec_names() == names,
            names == rooms.spec_names(),
            n == names.len(),
            n * n <= usize::MAX,
            resolves_to(names, rn@, ri@),
            sr.describes(names, rs@),
            ri@.len() >= 2,
            1 <= k <= ri@.len(),
            out@.len() == k - 1,
            forall|m: int| 0 <= m < k - 1 ==> term_of(#[trigger] out@[m], route_edges(rn@)[m], rs@, *dist),
        decreases ri@.len() - k,
    {
        let a = ri[k - 1];
        let b = ri[k];
        let ghost e = route_edges(rn@)[k - 1];
        proof {
            assert(e == (rn@[k - 1], rn@[k as int]));
            assert(names[a as int] == rn@[k - 1]);
            assert(names[b as int] == rn@[k as int]);
        }
        match dist.get(a, b) {
            None => {
                let from = rooms.name(a).clone();
                let to = rooms.name(b).clone();
                proof {
                    assert(route_edges(rn@)[k - 1] == (from@, to@));
                    assert(dist.distance(route_edges(rn@)[k - 1].0, route_edges(rn@)[k - 1].1) is None);
                }
                return Err(OptiError::GraphInconsistency(from, to));
            },
            Some(d) => {
                proof {
                    lemma_cell(n as int, a as int, b as int, a as int, b as int);
                }
                let c = sr.counts.paths[a * n + b];
                let ghost before = out@;
                out.push(EdgeTerm { distance: d, congestion: c });
                proof {
                    assert(sr.counts.paths@[cell(n as int, a as int, b as int)] == sum_pairs(rs@, names[a as int], names[b as int]));
                    assert forall|m: int| 0 <= m < k implies term_of(#[trigger] out@[m], route_edges(rn@)[m], rs@, *dist) by {
                        if m < k - 1 {
                            assert(out@[m] == before[m]);
                        }
                    }
                }
            },
        }
        k = k + 1;
    }
    proof {
        assert forall|m: int| 0 <= m < route_edges(rn@).len() implies (#[trigger] dist.distance(
            route_edges(rn@)[m].0,
            route_edges(rn@)[m].1,
        )) is Some by {
            assert(term_of(out@[m], route_edges(rn@)[m], rs@, *dist));
        }
    }
    Ok(out)
}

/// The terms of the performance index of every slot: `terms[s][j][m]` belongs to step
/// `m` of student `j`'s route in slot `s` (day index `s / 12`, period `s % 12`).
pub fn index_terms(table: &RouteTable, rooms: &RoomSet, report: &CongestionReport, dist: &DistanceTable) -> (r: Result<
    Vec<Vec<Vec<EdgeTerm>>>,
    OptiError,
>)
    requires
        table.wf(),
        rooms.wf(),
        all_listed(table, rooms.spec_names()),
        counts_fit(table, rooms.spec_names().len() as int),
        report.covers(table, rooms.spec_names()),
        dist.wf(),
        dist.spec_names() == rooms.spec_names(),
    ensures
        r is Ok <==> forall|s: int| 0 <= s < SLOT_COUNT ==> steps_known(#[trigger] table.slot_rooms(s / 12, s % 12), *dist),
        r matches Ok(ts) ==> {
            &&& ts@.len() == SLOT_COUNT
            &&& forall|s: int| 0 <= s < SLOT_COUNT ==> (#[trigger] ts@[s])@.len() == table.students@.len()
            &&& forall|s: int, j: int|
                0 <= s < SLOT_COUNT && 0 <= j < table.students@.len() ==> (#[trigger] ts@[s]@[j])@.len()
                    == route_edges(table.slot_rooms(s / 12, s % 12)[j]).len()
            &&& forall|s: int, j: int, m: int|
                0 <= s < SLOT_COUNT && 0 <= j < table.students@.len() && 0 <= m < route_edges(
                    table.slot_rooms(s / 12, s % 12)[j],
                ).len() ==> term_of(
                    #[trigger] ts@[s]@[j]@[m],
                    route_edges(table.slot_rooms(s / 12, s % 12)[j])[m],
                    table.slot_rooms(s / 12, s % 12),
                    *dist,
                )
        },
        r matches Err(e) ==> e matches OptiError::GraphInconsistency(a, b) && dist.distance(a@, b@) is None
            && exists|s: int, j: int, m: int| 0 <= s < SLOT_COUNT && 0 <= j < table.students@.len()
                && 0 <= m < route_edges(table.slot_rooms(s / 12, s % 12)[j]).len()
                && #[trigger] route_edges(table.slot_rooms(s / 12, s % 12)[j])[m] == (a@, b@),
{
    let ghost names = rooms.spec_names();
    let mut all: Vec<Vec<Vec<EdgeTerm>>> = Vec::new();
    let mut s: usize = 0;
    while s < SLOT_COUNT
        invariant
            table.wf(),
            rooms.wf(),
            names == rooms.spec_names(),
            all_listed(table, names),
            counts_fit(table, names.len() as int),
            report.covers(table, names),
            dist.wf(),
            dist.spec_names() == names,
            s <= SLOT_COUNT,
            all@.len() == s,
            forall|t: int| 0 <= t < s ==> steps_known(#[trigger] table.slot_rooms(t / 12, t % 12), *dist),
            forall|t: int| 0 <= t < s ==> (#[trigger] all@[t])@.len() == table.students@.len(),
            forall|t: int, j: int|
                0 <= t < s && 0 <= j < table.students@.len() ==> (#[trigger] all@[t]@[j])@.len()
                    == route_edges(table.slot_rooms(t / 12, t % 12)[j]).len(),
            forall|t: int, j: int, m: int|
                0 <= t < s && 0 <= j < table.students@.len() && 0 <= m < route_edges(
                    table.slot_rooms(t / 12, t % 12)[j],
                ).len() ==> term_of(
                    #[trigger] all@[t]@[j]@[m],
                    route_edges(table.slot_rooms(t / 12, t % 12)[j])[m],
                    table.slot_rooms(t / 12, t % 12),
                    *dist,
                ),
        decreases SLOT_COUNT - s,
    {
        let d = s / PERIOD_COUNT;
        let p = s % PERIOD_COUNT;
        let ghost rs = table.slot_rooms(d as int, p as int);
        proof {
            assert(crate::congestion::slot_listed(table, names, d as int, p as int));
            assert(total_len(rs) <= VISIT_LIMIT);
        }
        let ri = match resolve_slot(table, rooms, d, p) {
            Ok(ri) => ri,
            Err(e) => {
                proof {
                    let ge = e;
                    match ge {
                        OptiError::UnknownRoom(t) => {
                            let i = choose|i: int| 0 <= i < table.students@.len() && route_rooms(
                                #[trigger] table.route(i, d as int, p as int),
                            ).contains(t@);
                            let rr = route_rooms(table.route(i, d as int, p as int));
                            let k = choose|k: int| 0 <= k < rr.len() && rr[k] == t@;
                            assert(rr[k] == rr[k]);
                        },
                        _ => {},
                    }
                }
                return Err(e);
            },
        };
        let sr = &report.slots[s];
        proof {
            assert(sr.describes(names, rs));
        }
        let mut row: Vec<Vec<EdgeTerm>> = Vec::new();
        let mut j: usize = 0;
        while j < ri.len()
            invariant
                s < SLOT_COUNT,
                d == s / 12,
                p == s % 12,
                table.wf(),
                rooms.wf(),
                names == rooms.spec_names(),
                counts_fit(table, names.len() as int),
                dist.wf(),
                dist.spec_names() == names,
                sr.describes(names, rs),
                rs == table.slot_rooms(d as int, p as int),
                ri@.len() == rs.len(),
                forall|x: int| 0 <= x < ri@.len() ==> resolves_to(names, #[trigger] rs[x], ri@[x]@),
                j <= ri@.len(),
                row@.len() == j,
                forall|x: int| 0 <= x < j ==> (#[trigger] row@[x])@.len() == route_edges(rs[x]).len(),
                forall|x: int, m: int|
                    0 <= x < j && 0 <= m < route_edges(rs[x]).len() ==> term_of(
                        #[trigger] row@[x]@[m],
                        route_edges(rs[x])[m],
                        rs,
                        *dist,
                    ),
            decreases ri@.len() - j,
        {
            proof {
                assert(resolves_to(names, rs[j as int], ri@[j as int]@));
            }
            match route_terms(&ri[j], Ghost(rs[j as int]), Ghost(rs), sr, dist, rooms) {
                Ok(v) => {
                    let ghost before = row@;
                    row.push(v);
                    proof {
                        assert forall|x: int| 0 <= x < j + 1 implies (#[trigger] row@[x])@.len() == route_edges(
                            rs[x],
                        ).len() by {
                            if x < j {
                                assert(row@[x] == before[x]);
                            }
                        }
                        assert forall|x: int, m: int|
                            0 <= x < j + 1 && 0 <= m < route_edges(rs[x]).len() implies term_of(
                            #[trigger] row@[x]@[m],
                            route_edges(rs[x])[m],
                            rs,
                            *dist,
                        ) by {
                            if x < j {
                                assert(row@[x] == before[x]);
                            }
                        }
                    }
                },
                Err(e) => {
                    proof {
                        let ge = e;
                        let a = ge->GraphInconsistency_0;
                        let b = ge->GraphInconsistency_1;
                        let m = choose|m: int| 0 <= m < route_edges(rs[j as int]).len() && #[trigger] route_edges(
                            rs[j as int],
                        )[m] == (a@, b@);
                        let si = s as int;
                        assert(route_edges(rs[j as int])[m] == (a@, b@));
                        assert(d as int == si / 12 && p as int == si % 12);
                        assert(rs == table.slot_rooms(si / 12, si % 12));
                        assert(route_edges(table.slot_rooms(si / 12, si % 12)[j as int])[m] == (a@, b@));
                        assert(!steps_known(table.slot_rooms(si / 12, si % 12), *dist));
                    }
                    return Err(e);
                },
            }
            j = j + 1;
        }
        let ghost before = all@;
        all.push(row);
        proof {
            assert(s as int / 12 == d && s as int % 12 == p);
            assert(steps_known(rs, *dist)) by {
                assert forall|x: int, m: int| 0 <= x < rs.len() && 0 <= m < route_edges(rs[x]).len() implies
                    (#[trigger] dist.distance(route_edges(rs[x])[m].0, route_edges(rs[x])[m].1)) is Some by {
                    assert(term_of(row@[x]@[m], route_edges(rs[x])[m], rs, *dist));
                }
            }
            assert forall|t: int| 0 <= t < s + 1 implies (#[trigger] all@[t])@.len() == table.students@.len() by {
                if t < s {
                    assert(all@[t] == before[t]);
                }
            }
            assert forall|t: int, x: int|
                0 <= t < s + 1 && 0 <= x < table.students@.len() implies (#[trigger] all@[t]@[x])@.len()
                == route_edges(table.slot_rooms(t / 12, t % 12)[x]).len() by {
                if t < s {
                    assert(all@[t] == before[t]);
                }
            }
            assert forall|t: int, x: int, m: int|
                0 <= t < s + 1 && 0 <= x < table.students@.len() && 0 <= m < route_edges(
                    table.slot_rooms(t / 12, t % 12)[x],
                ).len() implies term_of(
                #[trigger] all@[t]@[x]@[m],
                route_edges(table.slot_rooms(t / 12, t % 12)[x])[m],
                table.slot_rooms(t / 12, t % 12),
                *dist,
            ) by {
                if t < s {
                    assert(all@[t] == before[t]);
                }
            }
        }
        s = s + 1;
    }
    Ok(all)
}

/// The sum of the values of `s`.
pub open spec fn sum_u128(s: Seq<u128>) -> int
    decreases s.len(),
{
    if s.len() == 0 {
        0
    } else {
        sum_u128(s.drop_last()) + s.last()
    }
}

/// The sum of the day sums of `ix`.
pub open spec fn sum_rows(ix: Seq<Seq<u128>>) -> int
    decreases ix.len(),
{
    if ix.len() == 0 {
        0
    } else {
        sum_rows(ix.drop_last()) + sum_u128(ix.last())
    }
}

proof fn lemma_sum_u128_nonneg(s: Seq<u128>)
    ensures
        sum_u128(s) >= 0,
    decreases s.len(),
{
    if s.len() > 0 {
        lemma_sum_u128_nonneg(s.drop_last());
    }
}

proof fn lemma_sum_rows_nonneg(ix: Seq<Seq<u128>>)
    ensures
        sum_rows(ix) >= 0,
    decreases ix.len(),
{
    if ix.len() > 0 {
        lemma_sum_rows_nonneg(ix.drop_last());
        lemma_sum_u128_nonneg(ix.last());
    }
}

/// The sum of the indices of one day, or `None` where it exceeds `u128`.
pub fn day_total(row: &Vec<u128>) -> (r: Option<u128>)
    ensures
        r is Some <==> sum_u128(row@) <= u128::MAX,
        r matches Some(v) ==> v == sum_u128(row@),
{
    let mut acc: u128 = 0;
    let mut i: usize = 0;
    proof {
        assert(row@.take(0) =~= Seq::<u128>::empty());
    }
    while i < row.len()
        invariant
            i <= row@.len(),
            acc == sum_u128(row@.take(i as int)),
        decreases row@.len() - i,
    {
        proof {
            assert(row@.take(i + 1).drop_last() =~= row@.take(i as int));
            lemma_sum_grows(row@, i as int + 1);
        }
        match acc.checked_add(row[i]) {
            Some(v) => {
                acc = v;
            },
            None => {
                return None;
            },
        }
        i = i + 1;
    }
    proof {
        assert(row@.take(row@.len() as int) =~= row@);
    }
    Some(acc)
}

proof fn lemma_sum_grows(s: Seq<u128>, k: int)
    requires
        0 <= k <= s.len(),
    ensures
        sum_u128(s) >= sum_u128(s.take(k)),
    decreases s.len() - k,
{
    if k < s.len() {
        lemma_sum_grows(s, k + 1);
        assert(s.take(k + 1).drop_last() =~= s.take(k));
    } else {
        assert(s.take(k) =~= s);
    }
}

proof fn lemma_rows_grow(ix: Seq<Seq<u128>>, k: int)
    requires
        0 <= k <= ix.len(),
    ensures
        sum_rows(ix) >= sum_rows(ix.take(k)),
    decreases ix.len() - k,
{
    if k < ix.len() {
        lemma_rows_grow(ix, k + 1);
        assert(ix.take(k + 1).drop_last() =~= ix.take(k));
        lemma_sum_u128_nonneg(ix[k]);
    } else {
        assert(ix.take(k) =~= ix);
    }
}

/// The sum of the indices of the whole week, or `None` where it exceeds `u128`.
pub fn grand_total(ix: &Vec<Vec<u128>>) -> (r: Option<u128>)
    ensures
        r is Some <==> sum_rows(crate::checkpoint::indices_view(ix@)) <= u128::MAX,
        r matches Some(v) ==> v == sum_rows(crate::checkpoint::indices_view(ix@)),
{
    let ghost iv = crate::checkpoint::indices_view(ix@);
    let mut acc: u128 = 0;
    let mut i: usize = 0;
    proof {
        assert(iv.take(0) =~= Seq::<Seq<u128>>::empty());
    }
    while i < ix.len()
        invariant
            iv == crate::checkpoint::indices_view(ix@),
            i <= ix@.len(),
            acc == sum_rows(iv.take(i as int)),
        decreases ix@.len() - i,
    {
        proof {
            assert(iv.take(i + 1).drop_last() =~= iv.take(i as int));
            assert(iv[i as int] == ix@[i as int]@);
            lemma_rows_grow(iv, i as int + 1);
            lemma_sum_rows_nonneg(iv.take(i as int));
        }
        match day_total(&ix[i]) {
            Some(t) => match acc.checked_add(t) {
                Some(v) => {
                    acc = v;
                },
                None => {
                    return None;
                },
            },
            None => {
                proof {
                    lemma_sum_rows_nonneg(iv.take(i as int));
                }
                return None;
            },
        }
        i = i + 1;
    }
    proof {
        assert(iv.take(ix@.len() as int) =~= iv);
    }
    Some(acc)
}

/// The week's total index as the index window writes it, or `None` where it exceeds `u128`.
pub fn total_index_label(ix: &Vec<Vec<u128>>) -> (r: Option<String>)
    ensures
        r is Some <==> sum_rows(crate::checkpoint::indices_view(ix@)) <= u128::MAX,
        r matches Some(t) ==> t@ == grouped_fr(sum_rows(crate::checkpoint::indices_view(ix@)) as u128),
{
    match grand_total(ix) {
        Some(v) => Some(format_grouped(v)),
        None => None,
    }
}

/// One day's total index as the index window writes it, or `None` where it exceeds `u128`.
pub fn day_index_label(row: &Vec<u128>) -> (r: Option<String>)
    ensures
        r is Some <==> sum_u128(row@) <= u128::MAX,
        r matches Some(t) ==> t@ == grouped_fr(sum_u128(row@) as u128),
{
    match day_total(row) {
        Some(v) => Some(format_grouped(v)),
        None => None,
    }
}

} // verus!
