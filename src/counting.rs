use vstd::prelude::*;

verus! {

/// How many times `x` occurs in `s`.
pub open spec fn count_in<T>(s: Seq<T>, x: T) -> nat
    decreases s.len(),
{
    if s.len() == 0 {
        0
    } else {
        count_in(s.drop_last(), x) + if s.last() == x {
            1nat
        } else {
            0nat
        }
    }
}

/// How many times `s` steps directly from `a` to `b`.
pub open spec fn steps_in<T>(s: Seq<T>, a: T, b: T) -> nat
    decreases s.len(),
{
    if s.len() < 2 {
        0
    } else {
        steps_in(s.drop_last(), a, b) + if s[s.len() - 2] == a && s.last() == b {
            1nat
        } else {
            0nat
        }
    }
}

/// Traversals of the passage between `a` and `b` in `s`, counted once for each direction
/// that the passage is recorded under: a step from `a` to `b` or from `b` to `a` adds
/// one to the pair `(a, b)`, and a step from a room to itself adds two.
pub open spec fn pair_count<T>(s: Seq<T>, a: T, b: T) -> nat {
    steps_in(s, a, b) + steps_in(s, b, a)
}

/// Occurrences of `x` over all routes of `rs`.
pub open spec fn sum_counts<T>(rs: Seq<Seq<T>>, x: T) -> nat
    decreases rs.len(),
{
    if rs.len() == 0 {
        0
    } else {
        sum_counts(rs.drop_last(), x) + count_in(rs.last(), x)
    }
}

/// Traversals of the pair `(a, b)` over all routes of `rs`.
pub open spec fn sum_pairs<T>(rs: Seq<Seq<T>>, a: T, b: T) -> nat
    decreases rs.len(),
{
    if rs.len() == 0 {
        0
    } else {
        sum_pairs(rs.drop_last(), a, b) + pair_count(rs.last(), a, b)
    }
}

/// The number of room visits over all routes of `rs`.
pub open spec fn total_len<T>(rs: Seq<Seq<T>>) -> nat
    decreases rs.len(),
{
    if rs.len() == 0 {
        0
    } else {
        total_len(rs.drop_last()) + rs.last().len()
    }
}

pub proof fn lemma_count_le_len<T>(s: Seq<T>, x: T)
    ensures
        count_in(s, x) <= s.len(),
    decreases s.len(),
{
    if s.len() > 0 {
        lemma_count_le_len(s.drop_last(), x);
    }
}

pub proof fn lemma_steps_le_len<T>(s: Seq<T>, a: T, b: T)
    ensures
        steps_in(s, a, b) <= s.len(),
    decreases s.len(),
{
    if s.len() >= 2 {
        lemma_steps_le_len(s.drop_last(), a, b);
    }
}

pub proof fn lemma_sums_le_total<T>(rs: Seq<Seq<T>>, x: T, a: T, b: T)
    ensures
        sum_counts(rs, x) <= total_len(rs),
        sum_pairs(rs, a, b) <= 2 * total_len(rs),
    decreases rs.len(),
{
    if rs.len() > 0 {
        lemma_sums_le_total(rs.drop_last(), x, a, b);
        lemma_count_le_len(rs.last(), x);
        lemma_steps_le_len(rs.last(), a, b);
        lemma_steps_le_len(rs.last(), b, a);
    }
}

/// The total of a prefix of the routes never exceeds the total of all of them.
pub proof fn lemma_total_prefix<T>(rs: Seq<Seq<T>>, i: int)
    requires
        0 <= i < rs.len(),
    ensures
        total_len(rs.take(i)) + rs[i].len() <= total_len(rs),
        total_len(rs.take(i + 1)) == total_len(rs.take(i)) + rs[i].len(),
    decreases rs.len(),
{
    assert(rs.take(i + 1).drop_last() =~= rs.take(i));
    if i < rs.len() - 1 {
        lemma_total_prefix(rs.drop_last(), i);
        assert(rs.drop_last().take(i) =~= rs.take(i));
    } else {
        assert(rs.take(i) =~= rs.drop_last());
    }
}

/// Summing the visits of every room gives the number of visits.
pub proof fn lemma_count_all(s: Seq<usize>, n: nat)
    requires
        n <= usize::MAX,
        forall|k: int| 0 <= k < s.len() ==> (s[k] as nat) < n,
    ensures
        count_total(s, n) == s.len(),
    decreases n,
{
    if n > 0 {
        lemma_count_all_but(s, (n - 1) as nat);
    } else if s.len() > 0 {
        assert((s[0] as nat) < n);
    }
}

/// Visits of the rooms `0..n`.
pub open spec fn count_total(s: Seq<usize>, n: nat) -> nat
    decreases n,
{
    if n == 0 {
        0
    } else {
        count_total(s, (n - 1) as nat) + count_in(s, (n - 1) as usize)
    }
}

/// Visits of the rooms `0..n` over all routes of `rs`.
pub open spec fn sum_count_total(rs: Seq<Seq<usize>>, n: nat) -> nat
    decreases n,
{
    if n == 0 {
        0
    } else {
        sum_count_total(rs, (n - 1) as nat) + sum_counts(rs, (n - 1) as usize)
    }
}

/// Visits of rooms below `m` in `s`, where every visit is below `m + 1`.
proof fn lemma_count_all_but(s: Seq<usize>, m: nat)
    requires
        m < usize::MAX,
        forall|k: int| 0 <= k < s.len() ==> (s[k] as nat) <= m,
    ensures
        count_total(s, m + 1) == s.len(),
    decreases s.len(),
{
    if s.len() == 0 {
        lemma_count_total_empty(s, m + 1);
    } else {
        let p = s.drop_last();
        assert forall|k: int| 0 <= k < p.len() implies (p[k] as nat) <= m by {
            assert(p[k] == s[k]);
        }
        lemma_count_all_but(p, m);
        lemma_count_total_step(s, m + 1);
    }
}

/// Appending one visit below `n` adds one to the visits of the rooms `0..n`.
proof fn lemma_count_total_step(s: Seq<usize>, n: nat)
    requires
        n <= usize::MAX,
        s.len() > 0,
        (s.last() as nat) < n,
    ensures
        count_total(s, n) == count_total(s.drop_last(), n) + 1,
    decreases n,
{
    let p = s.drop_last();
    let x = (n - 1) as usize;
    assert(count_in(s, x) == count_in(p, x) + if s.last() == x {
        1nat
    } else {
        0nat
    });
    if n - 1 == s.last() as nat {
        lemma_count_total_same(s, (n - 1) as nat);
    } else {
        lemma_count_total_step(s, (n - 1) as nat);
    }
}

/// Appending a visit at or above `n` leaves the visits of the rooms `0..n` alone.
proof fn lemma_count_total_same(s: Seq<usize>, n: nat)
    requires
        s.len() > 0,
        (s.last() as nat) >= n,
    ensures
        count_total(s, n) == count_total(s.drop_last(), n),
    decreases n,
{
    if n > 0 {
        let x = (n - 1) as usize;
        assert(count_in(s, x) == count_in(s.drop_last(), x));
        lemma_count_total_same(s, (n - 1) as nat);
    }
}

/// Summed over the rooms `0..n`, the visits over all routes are the total visits.
pub proof fn lemma_sum_count_total(rs: Seq<Seq<usize>>, n: nat)
    requires
        n <= usize::MAX,
        forall|i: int, k: int| 0 <= i < rs.len() && 0 <= k < rs[i].len() ==> (rs[i][k] as nat) < n,
    ensures
        sum_count_total(rs, n) == total_len(rs),
    decreases rs.len(),
{
    if rs.len() == 0 {
        lemma_sum_count_total_empty(rs, n);
    } else {
        let p = rs.drop_last();
        assert forall|i: int, k: int| 0 <= i < p.len() && 0 <= k < p[i].len() implies (p[i][k] as nat) < n by {
            assert(p[i] == rs[i]);
        }
        lemma_sum_count_total(p, n);
        assert(forall|k: int| 0 <= k < rs.last().len() ==> (rs.last()[k] as nat) < n) by {
            assert forall|k: int| 0 <= k < rs.last().len() implies (rs.last()[k] as nat) < n by {
                assert(rs.last() == rs[rs.len() - 1]);
            }
        }
        lemma_count_all(rs.last(), n);
        lemma_sum_split(rs, n);
    }
}

proof fn lemma_count_total_empty(s: Seq<usize>, n: nat)
    requires
        s.len() == 0,
    ensures
        count_total(s, n) == 0,
    decreases n,
{
    if n > 0 {
        lemma_count_total_empty(s, (n - 1) as nat);
    }
}

proof fn lemma_sum_count_total_empty(rs: Seq<Seq<usize>>, n: nat)
    requires
        rs.len() == 0,
    ensures
        sum_count_total(rs, n) == 0,
    decreases n,
{
    if n > 0 {
        lemma_sum_count_total_empty(rs, (n - 1) as nat);
    }
}

/// Summing room by room and route by route agree.
proof fn lemma_sum_split(rs: Seq<Seq<usize>>, n: nat)
    requires
        rs.len() > 0,
    ensures
        sum_count_total(rs, n) == sum_count_total(rs.drop_last(), n) + count_total(rs.last(), n),
    decreases n,
{
    if n > 0 {
        lemma_sum_split(rs, (n - 1) as nat);
    }
}

} // verus!
