use vstd::prelude::*;

use crate::congestion::{cell, lemma_cell, SlotCounts};
use crate::route::{names_of, split_text, split_spaces};

verus! {

/// The pieces joined by arrows, `"A → B → C"`.
pub open spec fn arrow_joined(ps: Seq<Seq<char>>) -> Seq<char>
    decreases ps.len(),
{
    if ps.len() == 0 {
        Seq::empty()
    } else if ps.len() == 1 {
        ps[0]
    } else {
        arrow_joined(ps.drop_last()) + " \u{2192} "@ + ps.last()
    }
}

/// A stored route as the path window shows it: its tokens joined by arrows.
pub fn route_text(route: &str) -> (r: String)
    ensures
        r@ == arrow_joined(split_spaces(route@)),
{
    let ps = split_text(route, ' ');
    let ghost pv = names_of(ps@);
    let mut out = String::new();
    let mut i: usize = 0;
    proof {
        assert(pv.take(0) =~= Seq::<Seq<char>>::empty());
    }
    while i < ps.len()
        invariant
            pv == names_of(ps@),
            i <= ps@.len(),
            out@ == arrow_joined(pv.take(i as int)),
        decreases ps@.len() - i,
    {
        proof {
            assert(pv.take(i + 1).drop_last() =~= pv.take(i as int));
            assert(pv.take(i + 1).last() == ps@[i as int]@);
        }
        if i > 0 {
            out.append(" \u{2192} ");
        }
        out.append(ps[i].as_str());
        proof {
            if i == 0 {
                assert(out@ =~= arrow_joined(pv.take(i + 1)));
            }
        }
        i = i + 1;
    }
    proof {
        assert(pv.take(ps@.len() as int) =~= pv);
    }
    out
}

/// Height of the floor shown alone, for floor buttons 2 to 8; 0 for all floors.
pub open spec fn floor_height(floor_index: usize) -> int {
    if floor_index == 0 {
        0
    } else {
        (floor_index - 2) * 50
    }
}

/// Whether a segment between heights `z1` and `z2` is drawn as active: with all
/// floors shown, or where the selected floor lies between its ends.
pub open spec fn segment_active(floor_index: usize, z1: int, z2: int) -> bool {
    floor_index == 0 || {
        let h = floor_height(floor_index);
        (if z1 < z2 {
            z1
        } else {
            z2
        }) <= h && h <= (if z1 < z2 {
            z2
        } else {
            z1
        })
    }
}

/// Whether the segment between heights `z1` and `z2` is drawn as active.
pub fn is_segment_active(floor_index: usize, z1: i32, z2: i32) -> (r: bool)
    requires
        floor_index == 0 || 2 <= floor_index <= 8,
    ensures
        r == segment_active(floor_index, z1 as int, z2 as int),
{
    if floor_index == 0 {
        return true;
    }
    let h = ((floor_index - 2) * 50) as i32;
    let lo = if z1 < z2 {
        z1
    } else {
        z2
    };
    let hi = if z1 < z2 {
        z2
    } else {
        z1
    };
    lo <= h && h <= hi
}

/// A passage drawn on the congestion map: two rooms and its traversals.
#[derive(Clone, Copy, PartialEq, Eq, Structural, Debug)]
pub struct VisiblePair {
    pub from: usize,
    pub to: usize,
    pub congestion: u32,
}

/// Whether a passage with this count is drawn under a minimum of `min`: it must be
/// traversed at all, and at least `min` times.
pub open spec fn shown(c: u32, min: u32) -> bool {
    c > 0 && c >= min
}

/// The passages of a slot that the congestion map draws, in row-major order.
pub fn visible_pairs(counts: &SlotCounts, n: usize, min: u32) -> (r: Vec<VisiblePair>)
    requires
        counts.paths@.len() == n * n,
        n * n <= usize::MAX,
    ensures
        forall|k: int| 0 <= k < r@.len() ==> {
            let v = #[trigger] r@[k];
            &&& v.from < n && v.to < n
            &&& v.congestion == counts.paths@[cell(n as int, v.from as int, v.to as int)]
            &&& shown(v.congestion, min)
        },
        forall|a: int, b: int|
            0 <= a < n && 0 <= b < n && shown(#[trigger] counts.paths@[cell(n as int, a, b)], min) ==> exists|k: int|
                0 <= k < r@.len() && r@[k].from == a && r@[k].to == b,
        forall|k: int, l: int|
            0 <= k < l < r@.len() ==> cell(n as int, r@[k].from as int, r@[k].to as int) < cell(
                n as int,
                r@[l].from as int,
                r@[l].to as int,
            ),
{
    let mut out: Vec<VisiblePair> = Vec::new();
    let mut a: usize = 0;
    while a < n
        invariant
            counts.paths@.len() == n * n,
            n * n <= usize::MAX,
            a <= n,
            forall|k: int| 0 <= k < out@.len() ==> {
                let v = #[trigger] out@[k];
                &&& v.from < a && v.to < n
                &&& v.congestion == counts.paths@[cell(n as int, v.from as int, v.to as int)]
                &&& shown(v.congestion, min)
            },
            forall|x: int, y: int|
                0 <= x < a && 0 <= y < n && shown(#[trigger] counts.paths@[cell(n as int, x, y)], min) ==> exists|k: int|
                    0 <= k < out@.len() && out@[k].from == x && out@[k].to == y,
            forall|k: int, l: int|
                0 <= k < l < out@.len() ==> cell(n as int, out@[k].from as int, out@[k].to as int) < cell(
                    n as int,
                    out@[l].from as int,
                    out@[l].to as int,
                ),
        decreases n - a,
    {
        let mut b: usize = 0;
        while b < n
            invariant
                counts.paths@.len() == n * n,
                n * n <= usize::MAX,
                a < n,
                b <= n,
                forall|k: int| 0 <= k < out@.len() ==> {
                    let v = #[trigger] out@[k];
                    &&& (v.from < a || (v.from == a && v.to < b)) && v.to < n
                    &&& v.congestion == counts.paths@[cell(n as int, v.from as int, v.to as int)]
                    &&& shown(v.congestion, min)
                },
                forall|x: int, y: int|
                    0 <= x < n && 0 <= y < n && (x < a || (x == a && y < b)) && shown(
                        #[trigger] counts.paths@[cell(n as int, x, y)],
                        min,
                    ) ==> exists|k: int| 0 <= k < out@.len() && out@[k].from == x && out@[k].to == y,
                forall|k: int, l: int|
                    0 <= k < l < out@.len() ==> cell(n as int, out@[k].from as int, out@[k].to as int) < cell(
                        n as int,
                        out@[l].from as int,
                        out@[l].to as int,
                    ),
            decreases n - b,
        {
            proof {
                lemma_cell(n as int, a as int, b as int, a as int, b as int);
            }
            let c = counts.paths[a * n + b];
            if c > 0 && c >= min {
                let ghost before = out@;
                out.push(VisiblePair { from: a, to: b, congestion: c });
                proof {
                    assert forall|k: int| 0 <= k < before.len() implies cell(
                        n as int,
                        before[k].from as int,
                        before[k].to as int,
                    ) < cell(n as int, a as int, b as int) by {
                        let v = before[k];
                        if v.from < a {
                            assert(v.from * n + v.to < a * n + b) by (nonlinear_arith)
                                requires
                                    v.from < a,
                                    v.to < n,
                                    0 <= b,
                            ;
                        }
                    }
                    assert forall|x: int, y: int|
                        0 <= x < n && 0 <= y < n && (x < a || (x == a && y < b + 1)) && shown(
                            #[trigger] counts.paths@[cell(n as int, x, y)],
                            min,
                        ) implies exists|k: int| 0 <= k < out@.len() && out@[k].from == x && out@[k].to == y by {
                        if x == a && y == b {
                            assert(out@[before.len() as int].from == x && out@[before.len() as int].to == y);
                        } else {
                            let k = choose|k: int| 0 <= k < before.len() && before[k].from == x && before[k].to == y;
                            assert(out@[k] == before[k]);
                        }
                    }
                }
            } else {
                proof {
                    assert forall|x: int, y: int|
                        0 <= x < n && 0 <= y < n && (x < a || (x == a && y < b + 1)) && shown(
                            #[trigger] counts.paths@[cell(n as int, x, y)],
                            min,
                        ) implies exists|k: int| 0 <= k < out@.len() && out@[k].from == x && out@[k].to == y by {
                        if x == a && y == b {
                            assert(counts.paths@[cell(n as int, x, y)] == c);
                        }
                    }
                }
            }
            b = b + 1;
        }
        a = a + 1;
    }
    out
}

} // verus!
