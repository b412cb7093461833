use vstd::prelude::*;

use crate::error::OptiError;
use crate::labels::{bucket_of, congestion_range_index, BUCKET_COUNT};
use crate::route::{distinct_names, is_listed, resolves_to, route_rooms, RoomSet};
use crate::table::{RouteTable, DAY_COUNT, PERIOD_COUNT};

use crate::counting::{
    count_in, count_total, lemma_count_le_len, lemma_sum_count_total, sum_count_total, lemma_steps_le_len, lemma_sums_le_total, lemma_total_prefix, pair_count,
    steps_in, sum_counts, sum_pairs, total_len,
};

verus! {

/// Position of the pair `(a, b)` in a row-major `n` by `n` matrix.
pub open spec fn cell(n: int, a: int, b: int) -> int {
    a * n + b
}

pub proof fn lemma_cell(n: int, a: int, b: int, c: int, d: int)
    requires
        0 <= a < n,
        0 <= b < n,
        0 <= c < n,
        0 <= d < n,
    ensures
        0 <= cell(n, a, b) < n * n,
        cell(n, a, b) == cell(n, c, d) ==> a == c && b == d,
{
    assert(0 <= a * n + b < n * n) by (nonlinear_arith)
        requires
            0 <= a < n,
            0 <= b < n,
    ;
    if a < c {
        assert(a * n + b < c * n + d) by (nonlinear_arith)
            requires
                0 <= a < c,
                0 <= b < n,
                0 <= d,
        ;
    } else if c < a {
        assert(c * n + d < a * n + b) by (nonlinear_arith)
            requires
                0 <= c < a,
                0 <= d < n,
                0 <= b,
        ;
    }
}

/// The routes of a slot as sequences of room indices.
pub open spec fn views(rs: Seq<Vec<usize>>) -> Seq<Seq<usize>> {
    rs.map_values(|v: Vec<usize>| v@)
}

/// Every room index of every route is below `n`.
pub open spec fn indices_below(rs: Seq<Seq<usize>>, n: int) -> bool {
    forall|i: int, k: int| 0 <= i < rs.len() && 0 <= k < rs[i].len() ==> (rs[i][k] as int) < n
}

/// Room and passage counts of one (day, period) slot, over rooms numbered `0..n`.
pub struct SlotCounts {
    /// Visits of each room.
    pub points: Vec<u32>,
    /// Traversals of each ordered pair `(a, b)`, at `a * n + b`.
    pub paths: Vec<u32>,
}

impl SlotCounts {
    /// The counts that the routes `rs` give over rooms `0..n`.
    pub open spec fn counts_of(&self, rs: Seq<Seq<usize>>, n: int) -> bool {
        &&& self.points@.len() == n
        &&& self.paths@.len() == n * n
        &&& forall|x: int| 0 <= x < n ==> #[trigger] self.points@[x] == sum_counts(rs, x as usize)
        &&& forall|a: int, b: int|
            0 <= a < n && 0 <= b < n ==> #[trigger] self.paths@[cell(n, a, b)] == sum_pairs(
                rs,
                a as usize,
                b as usize,
            )
    }
}

proof fn lemma_pair_le(s: Seq<usize>, a: usize, b: usize)
    ensures
        pair_count(s, a, b) <= 2 * s.len(),
{
    lemma_steps_le_len(s, a, b);
    lemma_steps_le_len(s, b, a);
}

/// Counts room visits and passage traversals of the routes of one slot.
pub fn count_slot(routes: &Vec<Vec<usize>>, n: usize) -> (r: SlotCounts)
    requires
        n * n <= usize::MAX,
        indices_below(views(routes@), n as int),
        2 * total_len(views(routes@)) <= u32::MAX,
    ensures
        r.counts_of(views(routes@), n as int),
{
    let ghost rs = views(routes@);
    let mut points: Vec<u32> = Vec::new();
    let mut x: usize = 0;
    while x < n
        invariant
            x <= n,
            points@.len() == x,
            forall|j: int| 0 <= j < x ==> points@[j] == 0,
        decreases n - x,
    {
        points.push(0);
        x = x + 1;
    }
    let nn = n * n;
    let mut paths: Vec<u32> = Vec::new();
    let mut y: usize = 0;
    while y < nn
        invariant
            nn == n * n,
            y <= nn,
            paths@.len() == y,
            forall|j: int| 0 <= j < y ==> paths@[j] == 0,
        decreases nn - y,
    {
        paths.push(0);
        y = y + 1;
    }
    proof {
        assert(rs.take(0) =~= Seq::<Seq<usize>>::empty());
        assert forall|a: int, b: int| 0 <= a < n && 0 <= b < n implies #[trigger] paths@[cell(
            n as int,
            a,
            b,
        )] == sum_pairs(rs.take(0), a as usize, b as usize) by {
            lemma_cell(n as int, a, b, a, b);
        }
    }
    let mut i: usize = 0;
    while i < routes.len()
        invariant
            rs == views(routes@),
            n * n <= usize::MAX,
            indices_below(rs, n as int),
            2 * total_len(rs) <= u32::MAX,
            i <= routes@.len(),
            (SlotCounts { points, paths }).counts_of(rs.take(i as int), n as int),
        decreases routes@.len() - i,
    {
        let route = &routes[i];
        let ghost s = route@;
        let ghost before = rs.take(i as int);
        proof {
            assert(rs[i as int] == s);
            lemma_total_prefix(rs, i as int);
            assert(s.take(0) =~= Seq::<usize>::empty());
        }
        let mut k: usize = 0;
        while k < route.len()
            invariant
                rs == views(routes@),
                s == route@,
                s == rs[i as int],
                i < routes@.len(),
                before == rs.take(i as int),
                n * n <= usize::MAX,
                indices_below(rs, n as int),
                2 * total_len(rs) <= u32::MAX,
                total_len(before) + s.len() <= total_len(rs),
                k <= s.len(),
                points@.len() == n,
                paths@.len() == n * n,
                forall|x: int|
                    0 <= x < n ==> #[trigger] points@[x] == sum_counts(before, x as usize) + count_in(
                        s.take(k as int),
                        x as usize,
                    ),
                forall|a: int, b: int|
                    0 <= a < n && 0 <= b < n ==> #[trigger] paths@[cell(n as int, a, b)] == sum_pairs(
                        before,
                        a as usize,
                        b as usize,
                    ) + pair_count(s.take(k as int), a as usize, b as usize),
            decreases s.len() - k,
        {
            let cur = route[k];
            let ghost t = s.take(k as int);
            let ghost t1 = s.take(k + 1);
            proof {
                assert(cur == s[k as int]);
                assert((cur as int) < n);
                assert(t1.drop_last() =~= t);
                assert(t1.last() == cur);
            }
            if k > 0 {
                let prev = route[k - 1];
                proof {
                    assert(prev == s[k - 1]);
                    assert((prev as int) < n);
                    lemma_cell(n as int, prev as int, cur as int, cur as int, prev as int);
                    lemma_cell(n as int, cur as int, prev as int, prev as int, cur as int);
                    lemma_sums_le_total(before, cur, prev, cur);
                    lemma_sums_le_total(before, cur, cur, prev);
                    lemma_pair_le(t, prev, cur);
                    lemma_pair_le(t, cur, prev);
                    assert(t1[t1.len() - 2] == prev);
                    assert(steps_in(t1, prev, cur) == steps_in(t, prev, cur) + 1);
                }
                let ghost old_paths = paths@;
                let c1 = prev * n + cur;
                let c2 = cur * n + prev;
                assert(c1 == cell(n as int, prev as int, cur as int));
                assert(c2 == cell(n as int, cur as int, prev as int));
                let v1 = paths[c1];
                paths.set(c1, v1 + 1);
                let v2 = paths[c2];
                paths.set(c2, v2 + 1);
                proof {
                    assert forall|a: int, b: int| 0 <= a < n && 0 <= b < n implies #[trigger] paths@[cell(
                        n as int,
                        a,
                        b,
                    )] == sum_pairs(before, a as usize, b as usize) + pair_count(
                        t1,
                        a as usize,
                        b as usize,
                    ) by {
                        lemma_cell(n as int, a, b, prev as int, cur as int);
                        lemma_cell(n as int, a, b, cur as int, prev as int);
                        assert(old_paths[cell(n as int, a, b)] == sum_pairs(
                            before,
                            a as usize,
                            b as usize,
                        ) + pair_count(t, a as usize, b as usize));
                        assert(t1[t1.len() - 2] == prev);
                    }
                }
            } else {
                proof {
                    assert forall|a: int, b: int| 0 <= a < n && 0 <= b < n implies #[trigger] paths@[cell(
                        n as int,
                        a,
                        b,
                    )] == sum_pairs(before, a as usize, b as usize) + pair_count(
                        t1,
                        a as usize,
                        b as usize,
                    ) by {
                        assert(pair_count(t1, a as usize, b as usize) == 0);
                        assert(pair_count(t, a as usize, b as usize) == 0);
                    }
                }
            }
            proof {
                lemma_sums_le_total(before, cur, cur, cur);
                lemma_count_le_len(t, cur);
            }
            let ghost old_points = points@;
            let p = points[cur];
            points.set(cur, p + 1);
            proof {
                assert forall|x: int| 0 <= x < n implies #[trigger] points@[x] == sum_counts(
                    before,
                    x as usize,
                ) + count_in(t1, x as usize) by {
                    assert(old_points[x] == sum_counts(before, x as usize) + count_in(t, x as usize));
                }
            }
            k = k + 1;
        }
        proof {
            assert(s.take(s.len() as int) =~= s);
            assert(rs.take(i + 1).drop_last() =~= before);
            assert(rs.take(i + 1).last() == s);
            assert forall|x: int| 0 <= x < n implies #[trigger] points@[x] == sum_counts(
                rs.take(i + 1),
                x as usize,
            ) by {}
            assert forall|a: int, b: int| 0 <= a < n && 0 <= b < n implies #[trigger] paths@[cell(
                n as int,
                a,
                b,
            )] == sum_pairs(rs.take(i + 1), a as usize, b as usize) by {}
        }
        i = i + 1;
    }
    proof {
        assert(rs.take(routes@.len() as int) =~= rs);
    }
    SlotCounts { points, paths }
}

/// How many values of `s` fall into bucket `k`; with `skip_zero`, zeros are not counted.
pub open spec fn bucket_tally(s: Seq<u32>, k: int, skip_zero: bool) -> nat
    decreases s.len(),
{
    if s.len() == 0 {
        0
    } else {
        bucket_tally(s.drop_last(), k, skip_zero) + if (!skip_zero || s.last() > 0) && bucket_of(
            s.last() as int,
        ) == k {
            1nat
        } else {
            0nat
        }
    }
}

/// How many values of `s` a histogram counts: all, or with `skip_zero` the non-zero ones.
pub open spec fn tallied(s: Seq<u32>, skip_zero: bool) -> nat
    decreases s.len(),
{
    if s.len() == 0 {
        0
    } else {
        tallied(s.drop_last(), skip_zero) + if !skip_zero || s.last() > 0 {
            1nat
        } else {
            0nat
        }
    }
}

/// The sum of the buckets of a histogram.
pub open spec fn hist_total(h: Seq<usize>) -> int {
    h[0] + h[1] + h[2] + h[3] + h[4] + h[5] + h[6]
}

/// `h` tallies the values of `s` bucket by bucket.
pub open spec fn is_histogram(h: Seq<usize>, s: Seq<u32>, skip_zero: bool) -> bool {
    &&& h.len() == BUCKET_COUNT
    &&& forall|k: int| 0 <= k < BUCKET_COUNT ==> #[trigger] h[k] == bucket_tally(s, k, skip_zero)
}

/// The buckets of a histogram add up to the number of values it counts.
pub proof fn lemma_histogram_total(h: Seq<usize>, s: Seq<u32>, skip_zero: bool)
    requires
        is_histogram(h, s, skip_zero),
    ensures
        hist_total(h) == tallied(s, skip_zero),
{
    assert(h[0] == bucket_tally(s, 0, skip_zero));
    assert(h[1] == bucket_tally(s, 1, skip_zero));
    assert(h[2] == bucket_tally(s, 2, skip_zero));
    assert(h[3] == bucket_tally(s, 3, skip_zero));
    assert(h[4] == bucket_tally(s, 4, skip_zero));
    assert(h[5] == bucket_tally(s, 5, skip_zero));
    assert(h[6] == bucket_tally(s, 6, skip_zero));
    lemma_tally_total(s, skip_zero);
}

proof fn lemma_tally_total(s: Seq<u32>, skip_zero: bool)
    ensures
        bucket_tally(s, 0, skip_zero) + bucket_tally(s, 1, skip_zero) + bucket_tally(s, 2, skip_zero)
            + bucket_tally(s, 3, skip_zero) + bucket_tally(s, 4, skip_zero) + bucket_tally(
            s,
            5,
            skip_zero,
        ) + bucket_tally(s, 6, skip_zero) == tallied(s, skip_zero),
    decreases s.len(),
{
    if s.len() > 0 {
        lemma_tally_total(s.drop_last(), skip_zero);
    }
}

proof fn lemma_tally_le(s: Seq<u32>, k: int, skip_zero: bool)
    ensures
        bucket_tally(s, k, skip_zero) <= s.len(),
    decreases s.len(),
{
    if s.len() > 0 {
        lemma_tally_le(s.drop_last(), k, skip_zero);
    }
}

/// Tallies the values of `values` into the congestion buckets.
pub fn histogram(values: &Vec<u32>, skip_zero: bool) -> (h: Vec<usize>)
    ensures
        is_histogram(h@, values@, skip_zero),
{
    let mut h: Vec<usize> = Vec::new();
    let mut k: usize = 0;
    while k < BUCKET_COUNT
        invariant
            k <= BUCKET_COUNT,
            h@.len() == k,
            forall|j: int| 0 <= j < k ==> h@[j] == 0,
        decreases BUCKET_COUNT - k,
    {
        h.push(0);
        k = k + 1;
    }
    let mut i: usize = 0;
    proof {
        assert(values@.take(0) =~= Seq::<u32>::empty());
    }
    while i < values.len()
        invariant
            i <= values@.len(),
            h@.len() == BUCKET_COUNT,
            forall|j: int| 0 <= j < BUCKET_COUNT ==> #[trigger] h@[j] == bucket_tally(
                values@.take(i as int),
                j,
                skip_zero,
            ),
        decreases values@.len() - i,
    {
        let v = values[i];
        let ghost t = values@.take(i as int);
        let ghost t1 = values@.take(i + 1);
        proof {
            assert(t1.drop_last() =~= t);
            assert(t1.last() == v);
        }
        if !skip_zero || v > 0 {
            let b = congestion_range_index(v);
            proof {
                lemma_tally_le(t, b as int, skip_zero);
            }
            let old = h[b];
            h.set(b, old + 1);
        }
        proof {
            assert forall|j: int| 0 <= j < BUCKET_COUNT implies #[trigger] h@[j] == bucket_tally(
                t1,
                j,
                skip_zero,
            ) by {}
        }
        i = i + 1;
    }
    proof {
        assert(values@.take(values@.len() as int) =~= values@);
    }
    h
}

/// Number of (day, period) slots in a week.
pub const SLOT_COUNT: usize = 60;

/// The largest number of room visits in one slot whose passage counts fit a `u32`.
pub const VISIT_LIMIT: usize = 2147483647;

/// The sum of the values of `s`.
pub open spec fn seq_sum(s: Seq<u32>) -> int
    decreases s.len(),
{
    if s.len() == 0 {
        0
    } else {
        seq_sum(s.drop_last()) + s.last()
    }
}

/// Congestion of one (day, period) slot.
pub struct SlotReport {
    pub counts: SlotCounts,
    /// Rooms per bucket of their visit counts.
    pub point_hist: Vec<usize>,
    /// Traversed ordered pairs per bucket of their traversal counts.
    pub path_hist: Vec<usize>,
}

impl SlotReport {
    /// The counts and histograms that the visited rooms `rs` give over the rooms `names`.
    pub open spec fn describes(&self, names: Seq<Seq<char>>, rs: Seq<Seq<Seq<char>>>) -> bool {
        let n = names.len() as int;
        &&& self.counts.points@.len() == n
        &&& self.counts.paths@.len() == n * n
        &&& forall|x: int| 0 <= x < n ==> #[trigger] self.counts.points@[x] == sum_counts(rs, names[x])
        &&& forall|a: int, b: int|
            0 <= a < n && 0 <= b < n ==> #[trigger] self.counts.paths@[cell(n, a, b)] == sum_pairs(
                rs,
                names[a],
                names[b],
            )
        &&& is_histogram(self.point_hist@, self.counts.points@, false)
        &&& is_histogram(self.path_hist@, self.counts.paths@, true)
    }
}

/// Congestion of every slot of the week; slot `s` is day index `s / 12`, period `s % 12`.
pub struct CongestionReport {
    pub slots: Vec<SlotReport>,
    /// The largest visit count of any room in any slot.
    pub max_congestion: u32,
}

/// Whether every room that a route of day index `d`, slot `p` visits is listed in `names`.
pub open spec fn slot_listed(table: &RouteTable, names: Seq<Seq<char>>, d: int, p: int) -> bool {
    forall|i: int, k: int|
        0 <= i < table.students@.len() && 0 <= k < route_rooms(table.route(i, d, p)).len() ==> is_listed(
            names,
            #[trigger] route_rooms(table.route(i, d, p))[k],
        )
}

/// Whether every room that a route of `table` visits is listed in `names`.
pub open spec fn all_listed(table: &RouteTable, names: Seq<Seq<char>>) -> bool {
    forall|d: int, p: int| 0 <= d < DAY_COUNT && 0 <= p < PERIOD_COUNT ==> #[trigger] slot_listed(table, names, d, p)
}

/// Whether every count of a congestion pass over `table` fits its counter.
pub open spec fn counts_fit(table: &RouteTable, n: int) -> bool {
    &&& n * n <= usize::MAX
    &&& forall|d: int, p: int|
        0 <= d < DAY_COUNT && 0 <= p < PERIOD_COUNT ==> #[trigger] total_len(table.slot_rooms(d, p))
            <= VISIT_LIMIT
}

/// A room of `idx` and its name in `toks` are counted alike.
proof fn lemma_link_route(names: Seq<Seq<char>>, toks: Seq<Seq<char>>, idx: Seq<usize>, x: usize, y: usize)
    requires
        distinct_names(names),
        resolves_to(names, toks, idx),
        (x as int) < names.len(),
        (y as int) < names.len(),
    ensures
        count_in(idx, x) == count_in(toks, names[x as int]),
        steps_in(idx, x, y) == steps_in(toks, names[x as int], names[y as int]),
    decreases idx.len(),
{
    if idx.len() > 0 {
        let i2 = idx.drop_last();
        let t2 = toks.drop_last();
        assert forall|k: int| 0 <= k < i2.len() implies (#[trigger] i2[k] as int) < names.len()
            && names[i2[k] as int] == t2[k] by {
            assert(i2[k] == idx[k]);
        }
        lemma_link_route(names, t2, i2, x, y);
        let l = idx.len() - 1;
        assert(idx[l] == idx.last());
        if idx.len() >= 2 {
            assert(idx[l - 1] == idx[idx.len() - 2]);
        }
    }
}

/// Resolved routes and named routes give the same slot counts.
proof fn lemma_link_slot(names: Seq<Seq<char>>, rs: Seq<Seq<Seq<char>>>, ri: Seq<Seq<usize>>, x: usize, y: usize)
    requires
        distinct_names(names),
        rs.len() == ri.len(),
        forall|j: int| 0 <= j < ri.len() ==> resolves_to(names, #[trigger] rs[j], ri[j]),
        (x as int) < names.len(),
        (y as int) < names.len(),
    ensures
        sum_counts(ri, x) == sum_counts(rs, names[x as int]),
        sum_pairs(ri, x, y) == sum_pairs(rs, names[x as int], names[y as int]),
        total_len(ri) == total_len(rs),
    decreases ri.len(),
{
    if ri.len() > 0 {
        let l = ri.len() - 1;
        assert(resolves_to(names, rs[l], ri[l]));
        lemma_link_slot(names, rs.drop_last(), ri.drop_last(), x, y);
        lemma_link_route(names, rs.last(), ri.last(), x, y);
        lemma_link_route(names, rs.last(), ri.last(), y, x);
    }
}

proof fn lemma_link_total(names: Seq<Seq<char>>, rs: Seq<Seq<Seq<char>>>, ri: Seq<Seq<usize>>)
    requires
        rs.len() == ri.len(),
        forall|j: int| 0 <= j < ri.len() ==> resolves_to(names, #[trigger] rs[j], ri[j]),
    ensures
        total_len(ri) == total_len(rs),
    decreases ri.len(),
{
    if ri.len() > 0 {
        let l = ri.len() - 1;
        assert(resolves_to(names, rs[l], ri[l]));
        lemma_link_total(names, rs.drop_last(), ri.drop_last());
    }
}

/// The sum of the values of `v` is the sum of its prefixes' per-room visits.
proof fn lemma_points_sum(v: Seq<u32>, rs: Seq<Seq<usize>>, m: nat)
    requires
        m <= v.len(),
        forall|x: int| 0 <= x < v.len() ==> #[trigger] v[x] == sum_counts(rs, x as usize),
    ensures
        seq_sum(v.take(m as int)) == sum_count_total(rs, m),
    decreases m,
{
    if m > 0 {
        assert(v.take(m as int).drop_last() =~= v.take(m - 1));
        lemma_points_sum(v, rs, (m - 1) as nat);
        assert(v.take(m as int).last() == v[m - 1]);
    } else {
        assert(v.take(0) =~= Seq::<u32>::empty());
    }
}

/// The largest value of `v`, or zero for an empty vector.
fn max_value(v: &Vec<u32>) -> (m: u32)
    ensures
        forall|x: int| 0 <= x < v@.len() ==> v@[x] <= m,
        m == 0 || exists|x: int| 0 <= x < v@.len() && v@[x] == m,
{
    let mut m: u32 = 0;
    let mut i: usize = 0;
    while i < v.len()
        invariant
            i <= v@.len(),
            forall|x: int| 0 <= x < i ==> v@[x] <= m,
            m == 0 || exists|x: int| 0 <= x < i && v@[x] == m,
        decreases v@.len() - i,
    {
        if v[i] > m {
            m = v[i];
        }
        i = i + 1;
    }
    m
}

/// Resolves the routes of day index `d`, slot `p` to room indices.
pub(crate) fn resolve_slot(table: &RouteTable, rooms: &RoomSet, d: usize, p: usize) -> (r: Result<Vec<Vec<usize>>, OptiError>)
    requires
        table.wf(),
        rooms.wf(),
        d < DAY_COUNT,
        p < PERIOD_COUNT,
    ensures
        match r {
            Ok(ri) => {
                &&& views(ri@).len() == table.slot_rooms(d as int, p as int).len()
                &&& forall|j: int| 0 <= j < ri@.len() ==> resolves_to(rooms.spec_names(),
                    #[trigger] table.slot_rooms(d as int, p as int)[j], ri@[j]@)
                &&& indices_below(views(ri@), rooms.spec_names().len() as int)
                &&& total_len(views(ri@)) <= VISIT_LIMIT
            },
            Err(OptiError::UnknownRoom(t)) => exists|i: int| 0 <= i < table.students@.len() &&
                route_rooms(#[trigger] table.route(i, d as int, p as int)).contains(t@)
                && !is_listed(rooms.spec_names(), t@),
            Err(OptiError::CountOverflow) => total_len(table.slot_rooms(d as int, p as int)) > VISIT_LIMIT,
            Err(_) => false,
        },
{
    let ghost names = rooms.spec_names();
    let ghost rs = table.slot_rooms(d as int, p as int);
    let mut ri: Vec<Vec<usize>> = Vec::new();
    let mut visits: usize = 0;
    let mut i: usize = 0;
    while i < table.students.len()
        invariant
            table.wf(),
            rooms.wf(),
            names == rooms.spec_names(),
            rs == table.slot_rooms(d as int, p as int),
            d < DAY_COUNT,
            p < PERIOD_COUNT,
            i <= table.students@.len(),
            ri@.len() == i,
            forall|j: int| 0 <= j < i ==> resolves_to(names, #[trigger] rs[j], ri@[j]@),
            indices_below(views(ri@), names.len() as int),
            visits == total_len(views(ri@)),
            visits == total_len(rs.take(i as int)),
            visits <= VISIT_LIMIT,
        decreases table.students@.len() - i,
    {
        proof {
            assert(table.students@[i as int].has_shape());
            assert(table.students@[i as int].days@[d as int]@.len() == PERIOD_COUNT);
        }
        let route = table.students[i].days[d][p].as_str();
        assert(route@ == table.route(i as int, d as int, p as int));
        match rooms.resolve_route(route) {
            Err(t) => {
                proof {
                    assert(route_rooms(table.route(i as int, d as int, p as int)).contains(t@));
                }
                return Err(OptiError::UnknownRoom(t));
            },
            Ok(v) => {
                proof {
                    assert(rs[i as int] == route_rooms(route@));
                    lemma_total_prefix(rs, i as int);
                }
                if v.len() > VISIT_LIMIT - visits {
                    proof {
                        assert(total_len(rs) >= total_len(rs.take(i as int)) + rs[i as int].len());
                    }
                    return Err(OptiError::CountOverflow);
                }
                let ghost before = ri@;
                visits = visits + v.len();
                ri.push(v);
                proof {
                    assert(views(ri@).drop_last() =~= views(before));
                    assert(views(ri@).last() == v@);
                    assert forall|j: int| 0 <= j < i + 1 implies resolves_to(names, #[trigger] rs[j], ri@[j]@) by {
                        if j < i {
                            assert(ri@[j] == before[j]);
                        }
                    }
                    assert forall|a: int, k: int| 0 <= a < views(ri@).len() && 0 <= k < views(ri@)[a].len()
                        implies (views(ri@)[a][k] as int) < names.len() by {
                        if a < i {
                            assert(views(ri@)[a] == views(before)[a]);
                        } else {
                            assert(views(ri@)[a] == v@);
                            assert(resolves_to(names, rs[a], v@));
                        }
                    }
                }
                i = i + 1;
            },
        }
    }
    proof {
        assert(rs.take(i as int) =~= rs);
    }
    Ok(ri)
}

impl CongestionReport {
    /// The report that a congestion pass over `table` gives, with rooms `names`.
    pub open spec fn covers(&self, table: &RouteTable, names: Seq<Seq<char>>) -> bool {
        &&& self.slots@.len() == SLOT_COUNT
        &&& forall|s: int|
            0 <= s < SLOT_COUNT ==> #[trigger] self.slots@[s].describes(
                names,
                table.slot_rooms(s / 12, s % 12),
            )
        &&& forall|s: int, x: int|
            0 <= s < SLOT_COUNT && 0 <= x < names.len() ==> #[trigger] self.slots@[s].counts.points@[x]
                <= self.max_congestion
        &&& self.max_congestion == 0 || exists|s: int, x: int|
            0 <= s < SLOT_COUNT && 0 <= x < names.len() && #[trigger] self.slots@[s].counts.points@[x]
                == self.max_congestion
    }
}

proof fn lemma_slot_index(d: int, p: int)
    requires
        0 <= d,
        0 <= p < 12,
    ensures
        (d * 12 + p) / 12 == d,
        (d * 12 + p) % 12 == p,
{
    vstd::arithmetic::div_mod::lemma_fundamental_div_mod_converse(d * 12 + p, 12, d, p);
}

proof fn lemma_tallied_all(s: Seq<u32>)
    ensures
        tallied(s, false) == s.len(),
    decreases s.len(),
{
    if s.len() > 0 {
        lemma_tallied_all(s.drop_last());
    }
}

/// Counts room visits and passage traversals of every slot of `table`, with their
/// histograms and the largest room count.
pub fn compute_congestion(table: &RouteTable, rooms: &RoomSet) -> (r: Result<CongestionReport, OptiError>)
    requires
        table.wf(),
        rooms.wf(),
    ensures
        r is Ok <==> all_listed(table, rooms.spec_names()) && counts_fit(table, rooms.spec_names().len() as int),
        r matches Ok(rep) ==> rep.covers(table, rooms.spec_names()),
        r matches Ok(rep) ==> forall|s: int| 0 <= s < SLOT_COUNT ==> {
            let sr = #[trigger] rep.slots@[s];
            &&& seq_sum(sr.counts.points@) == total_len(table.slot_rooms(s / 12, s % 12))
            &&& hist_total(sr.point_hist@) == rooms.spec_names().len()
            &&& hist_total(sr.path_hist@) == tallied(sr.counts.paths@, true)
        },
        r matches Err(e) ==> e is UnknownRoom || e is CountOverflow,
        r matches Err(OptiError::UnknownRoom(t)) ==> !is_listed(rooms.spec_names(), t@) && exists|i: int, d: int, p: int|
            0 <= i < table.students@.len() && 0 <= d < DAY_COUNT && 0 <= p < PERIOD_COUNT
                && route_rooms(#[trigger] table.route(i, d, p)).contains(t@),
{
    let ghost names = rooms.spec_names();
    let n = rooms.len();
    proof {
        assert((n as int) * (n as int) <= (usize::MAX as int) * (usize::MAX as int)) by (nonlinear_arith)
            requires
                0 <= n <= usize::MAX,
        ;
    }
    if (n as u128) * (n as u128) > usize::MAX as u128 {
        return Err(OptiError::CountOverflow);
    }
    let mut slots: Vec<SlotReport> = Vec::new();
    let mut max: u32 = 0;
    let mut s: usize = 0;
    while s < SLOT_COUNT
        invariant
            table.wf(),
            rooms.wf(),
            names == rooms.spec_names(),
            n == names.len(),
            n * n <= usize::MAX,
            s <= SLOT_COUNT,
            slots@.len() == s,
            forall|j: int| 0 <= j < s ==> {
                let sr = #[trigger] slots@[j];
                &&& sr.describes(names, table.slot_rooms(j / 12, j % 12))
                &&& seq_sum(sr.counts.points@) == total_len(table.slot_rooms(j / 12, j % 12))
                &&& hist_total(sr.point_hist@) == names.len()
                &&& hist_total(sr.path_hist@) == tallied(sr.counts.paths@, true)
                &&& slot_listed(table, names, j / 12, j % 12)
                &&& total_len(table.slot_rooms(j / 12, j % 12)) <= VISIT_LIMIT
            },
            forall|j: int, x: int| 0 <= j < s && 0 <= x < n ==> #[trigger] slots@[j].counts.points@[x] <= max,
            max == 0 || exists|j: int, x: int|
                0 <= j < s && 0 <= x < n && #[trigger] slots@[j].counts.points@[x] == max,
        decreases SLOT_COUNT - s,
    {
        let d = s / PERIOD_COUNT;
        let p = s % PERIOD_COUNT;
        let ghost rs = table.slot_rooms(d as int, p as int);
        let ri = match resolve_slot(table, rooms, d, p) {
            Ok(ri) => ri,
            Err(e) => {
                proof {
                    let ge = e;
                    match ge {
                        OptiError::UnknownRoom(t) => {
                            let i = choose|i: int| 0 <= i < table.students@.len() && route_rooms(
                                #[trigger] table.route(i, d as int, p as int),
                            ).contains(t@);
                            let rr = route_rooms(table.route(i, d as int, p as int));
                            let k = choose|k: int| 0 <= k < rr.len() && rr[k] == t@;
                            assert(!slot_listed(table, names, d as int, p as int));
                        },
                        OptiError::CountOverflow => {
                            assert(!counts_fit(table, n as int));
                        },
                        _ => {},
                    }
                }
                return Err(e);
            },
        };
        let ghost rv = views(ri@);
        proof {
            assert forall|j: int| 0 <= j < rv.len() implies resolves_to(names, #[trigger] rs[j], rv[j]) by {
                assert(resolves_to(names, rs[j], ri@[j]@));
            }
            lemma_link_total(names, rs, rv);
        }
        let counts = count_slot(&ri, n);
        let point_hist = histogram(&counts.points, false);
        let path_hist = histogram(&counts.paths, true);
        let m = max_value(&counts.points);
        let ghost old_max = max;
        if m > max {
            max = m;
        }
        let sr = SlotReport { counts, point_hist, path_hist };
        proof {
            assert forall|x: int| 0 <= x < n implies #[trigger] sr.counts.points@[x] == sum_counts(rs, names[x]) by {
                lemma_link_slot(names, rs, rv, x as usize, 0);
            }
            assert forall|a: int, b: int| 0 <= a < n && 0 <= b < n implies #[trigger] sr.counts.paths@[cell(
                n as int,
                a,
                b,
            )] == sum_pairs(rs, names[a], names[b]) by {
                lemma_link_slot(names, rs, rv, a as usize, b as usize);
            }
            assert(sr.describes(names, rs));
            lemma_points_sum(sr.counts.points@, rv, n as nat);
            assert(sr.counts.points@.take(n as int) =~= sr.counts.points@);
            lemma_sum_count_total(rv, n as nat);
            lemma_histogram_total(sr.point_hist@, sr.counts.points@, false);
            lemma_tallied_all(sr.counts.points@);
            lemma_histogram_total(sr.path_hist@, sr.counts.paths@, true);
            assert forall|i: int, k: int|
                0 <= i < table.students@.len() && 0 <= k < route_rooms(table.route(i, d as int, p as int)).len()
                implies is_listed(names, #[trigger] route_rooms(table.route(i, d as int, p as int))[k]) by {
                assert(rs[i] == route_rooms(table.route(i, d as int, p as int)));
                assert(resolves_to(names, rs[i], rv[i]));
                let y = rv[i][k] as int;
                assert(names[y] == rs[i][k]);
            }
        }
        let ghost before = slots@;
        slots.push(sr);
        proof {
            assert forall|j: int| 0 <= j < s + 1 implies {
                let sr = #[trigger] slots@[j];
                &&& sr.describes(names, table.slot_rooms(j / 12, j % 12))
                &&& seq_sum(sr.counts.points@) == total_len(table.slot_rooms(j / 12, j % 12))
                &&& hist_total(sr.point_hist@) == names.len()
                &&& hist_total(sr.path_hist@) == tallied(sr.counts.paths@, true)
                &&& slot_listed(table, names, j / 12, j % 12)
                &&& total_len(table.slot_rooms(j / 12, j % 12)) <= VISIT_LIMIT
            } by {
                if j < s {
                    assert(slots@[j] == before[j]);
                }
            }
            assert forall|j: int, x: int| 0 <= j < s + 1 && 0 <= x < n implies #[trigger] slots@[j].counts.points@[x] <= max by {
                if j < s {
                    assert(slots@[j] == before[j]);
                }
            }
            if m > old_max {
                let x = choose|x: int| 0 <= x < n && sr.counts.points@[x] == m;
                assert(slots@[s as int].counts.points@[x] == max);
            } else if old_max != 0 {
                let (j, x) = choose|j: int, x: int| 0 <= j < s && 0 <= x < n && #[trigger] before[j].counts.points@[x] == old_max;
                assert(slots@[j] == before[j]);
                assert(slots@[j].counts.points@[x] == max);
            }
        }
        s = s + 1;
    }
    proof {
        assert forall|d: int, p: int| 0 <= d < DAY_COUNT && 0 <= p < PERIOD_COUNT implies #[trigger] slot_listed(
            table,
            names,
            d,
            p,
        ) by {
            lemma_slot_index(d, p);
            let j = d * 12 + p;
            assert(slots@[j].describes(names, table.slot_rooms(j / 12, j % 12)));
        }
        assert forall|d: int, p: int| 0 <= d < DAY_COUNT && 0 <= p < PERIOD_COUNT implies #[trigger] total_len(
            table.slot_rooms(d, p),
        ) <= VISIT_LIMIT by {
            lemma_slot_index(d, p);
            let j = d * 12 + p;
            assert(slots@[j].describes(names, table.slot_rooms(j / 12, j % 12)));
        }
    }
    Ok(CongestionReport { slots, max_congestion: max })
}

/// In every slot of a congestion report, the room histogram counts every room once and
/// the passage histogram counts every traversed ordered pair once, with none in the
/// bucket of zero.
pub proof fn lemma_report_histograms(rep: &CongestionReport, table: &RouteTable, names: Seq<Seq<char>>)
    requires
        rep.covers(table, names),
    ensures
        forall|s: int| 0 <= s < SLOT_COUNT ==> {
            let sr = #[trigger] rep.slots@[s];
            &&& hist_total(sr.point_hist@) == names.len()
            &&& hist_total(sr.path_hist@) == tallied(sr.counts.paths@, true)
            &&& sr.path_hist@[0] == 0
        },
{
    assert forall|s: int| 0 <= s < SLOT_COUNT implies {
        let sr = #[trigger] rep.slots@[s];
        &&& hist_total(sr.point_hist@) == names.len()
        &&& hist_total(sr.path_hist@) == tallied(sr.counts.paths@, true)
        &&& sr.path_hist@[0] == 0
    } by {
        let sr = rep.slots@[s];
        assert(sr.describes(names, table.slot_rooms(s / 12, s % 12)));
        lemma_histogram_total(sr.point_hist@, sr.counts.points@, false);
        lemma_tallied_all(sr.counts.points@);
        lemma_histogram_total(sr.path_hist@, sr.counts.paths@, true);
        lemma_no_zero_bucket(sr.counts.paths@);
    }
}

/// With zeros skipped, nothing falls into the bucket of zero.
proof fn lemma_no_zero_bucket(s: Seq<u32>)
    ensures
        bucket_tally(s, 0, true) == 0,
    decreases s.len(),
{
    if s.len() > 0 {
        lemma_no_zero_bucket(s.drop_last());
    }
}

/// Passage counts are symmetric: a pair and its reverse are traversed equally often.
pub proof fn lemma_paths_symmetric(sr: &SlotReport, names: Seq<Seq<char>>, rs: Seq<Seq<Seq<char>>>, a: int, b: int)
    requires
        sr.describes(names, rs),
        0 <= a < names.len(),
        0 <= b < names.len(),
    ensures
        sr.counts.paths@[cell(names.len() as int, a, b)] == sr.counts.paths@[cell(names.len() as int, b, a)],
{
    assert(sum_pairs(rs, names[a], names[b]) == sum_pairs(rs, names[b], names[a])) by {
        lemma_sum_pairs_symmetric(rs, names[a], names[b]);
    }
}

proof fn lemma_sum_pairs_symmetric(rs: Seq<Seq<Seq<char>>>, x: Seq<char>, y: Seq<char>)
    ensures
        sum_pairs(rs, x, y) == sum_pairs(rs, y, x),
    decreases rs.len(),
{
    if rs.len() > 0 {
        lemma_sum_pairs_symmetric(rs.drop_last(), x, y);
    }
}

/// Evaluates the baseline routes and, where they exist, the optimised ones. Without
/// baseline routes there is nothing to evaluate.
pub fn evaluate_congestion(shortest: &Option<RouteTable>, optimized: &Option<RouteTable>, rooms: &RoomSet) -> (r: Result<
    (CongestionReport, Option<CongestionReport>),
    OptiError,
>)
    requires
        rooms.wf(),
        shortest matches Some(t) ==> t.wf(),
        optimized matches Some(t) ==> t.wf(),
    ensures
        shortest is None ==> r matches Err(OptiError::MissingData),
        shortest matches Some(t) ==> (r is Ok <==> all_listed(t, rooms.spec_names()) && counts_fit(
            t,
            rooms.spec_names().len() as int,
        ) && (optimized matches Some(o) ==> all_listed(o, rooms.spec_names()) && counts_fit(
            o,
            rooms.spec_names().len() as int,
        ))),
        r matches Ok((base, opt)) ==> {
            &&& shortest matches Some(t) && base.covers(t, rooms.spec_names())
            &&& optimized is None ==> opt is None
            &&& optimized matches Some(o) ==> opt matches Some(c) && c.covers(o, rooms.spec_names())
        },
        r matches Err(e) ==> e is MissingData || e is UnknownRoom || e is CountOverflow,
{
    match shortest {
        None => Err(OptiError::MissingData),
        Some(t) => {
            let base = match compute_congestion(t, rooms) {
                Ok(b) => b,
                Err(e) => {
                    return Err(e);
                },
            };
            match optimized {
                None => Ok((base, None)),
                Some(o) => match compute_congestion(o, rooms) {
                    Ok(c) => Ok((base, Some(c))),
                    Err(e) => Err(e),
                },
            }
        },
    }
}

} // verus!
