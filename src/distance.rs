use vstd::prelude::*;

use crate::congestion::cell;
use crate::decimal::{decimal_value, decimal_within, parse_decimal};
use crate::error::OptiError;
use crate::route::{distinct_names, names_of, split_on, split_route, split_spaces, split_text, RoomSet};

verus! {

/// One line of the distance file: two rooms and the distance between them.
pub struct DistanceLine {
    pub from: String,
    pub to: String,
    pub distance: u32,
}

pub open spec fn line_view(l: DistanceLine) -> (Seq<char>, Seq<char>, u32) {
    (l.from@, l.to@, l.distance)
}

pub open spec fn lines_view(ls: Seq<DistanceLine>) -> Seq<(Seq<char>, Seq<char>, u32)> {
    ls.map_values(|l: DistanceLine| line_view(l))
}

/// Whether the fields of a distance line can be read: two rooms, then a distance.
pub open spec fn distance_fields_readable(ps: Seq<Seq<char>>) -> bool {
    ps.len() >= 3 && decimal_within(ps[2], u32::MAX as int) is Some
}

/// Reads a line `room1 room2 distance ...`; what follows the distance is ignored.
pub fn parse_distance_line(line: &str) -> (r: Result<DistanceLine, OptiError>)
    ensures
        r is Ok <==> distance_fields_readable(split_spaces(line@)),
        r matches Ok(l) ==> {
            let ps = split_spaces(line@);
            &&& l.from@ == ps[0]
            &&& l.to@ == ps[1]
            &&& l.distance == decimal_value(ps[2])
        },
        r matches Err(e) ==> e is ParseFailure,
{
    let ps = split_route(line);
    let ghost pv = split_spaces(line@);
    if ps.len() < 3 {
        return Err(OptiError::ParseFailure);
    }
    proof {
        assert(pv[0] == ps@[0]@);
        assert(pv[1] == ps@[1]@);
        assert(pv[2] == ps@[2]@);
    }
    match parse_decimal(ps[2].as_str(), u32::MAX as u128) {
        Some(v) => {
            proof {
                assert(decimal_within(pv[2], u32::MAX as int) is Some);
            }
            Ok(DistanceLine { from: ps[0].clone(), to: ps[1].clone(), distance: v as u32 })
        },
        None => Err(OptiError::ParseFailure),
    }
}

/// The non-empty lines of `text`.
pub open spec fn text_lines(text: Seq<char>) -> Seq<Seq<char>> {
    split_on(text, '\n').filter(|l: Seq<char>| l.len() > 0)
}

/// Reads every non-empty line of a distance file.
pub fn parse_distances(text: &str) -> (r: Result<Vec<DistanceLine>, OptiError>)
    ensures
        r is Ok <==> forall|k: int| 0 <= k < text_lines(text@).len() ==> distance_fields_readable(
            split_spaces(#[trigger] text_lines(text@)[k]),
        ),
        r matches Ok(ls) ==> ls@.len() == text_lines(text@).len() && forall|k: int| 0 <= k < ls@.len() ==> {
            let ps = split_spaces(#[trigger] text_lines(text@)[k]);
            &&& ls@[k].from@ == ps[0]
            &&& ls@[k].to@ == ps[1]
            &&& ls@[k].distance == decimal_value(ps[2])
        },
        r matches Err(e) ==> e is ParseFailure,
{
    let pieces = split_text(text, '\n');
    let ghost all = split_on(text@, '\n');
    let ghost keep = |l: Seq<char>| l.len() > 0;
    let mut out: Vec<DistanceLine> = Vec::new();
    let mut i: usize = 0;
    proof {
        assert(all.take(0).filter(keep) =~= Seq::<Seq<char>>::empty());
    }
    while i < pieces.len()
        invariant
            all == split_on(text@, '\n'),
            names_of(pieces@) == all,
            keep == (|l: Seq<char>| l.len() > 0),
            i <= pieces@.len(),
            out@.len() == all.take(i as int).filter(keep).len(),
            forall|k: int| 0 <= k < out@.len() ==> {
                let ps = split_spaces(#[trigger] all.take(i as int).filter(keep)[k]);
                &&& out@[k].from@ == ps[0]
                &&& out@[k].to@ == ps[1]
                &&& out@[k].distance == decimal_value(ps[2])
            },
            forall|k: int| 0 <= k < out@.len() ==> distance_fields_readable(
                split_spaces(#[trigger] all.take(i as int).filter(keep)[k]),
            ),
        decreases pieces@.len() - i,
    {
        let ghost t = all.take(i as int);
        let ghost t1 = all.take(i + 1);
        proof {
            assert(t1.drop_last() =~= t);
            assert(t1.last() == pieces@[i as int]@);
            assert(t1.filter(keep) == if keep(t1.last()) {
                t.filter(keep).push(t1.last())
            } else {
                t.filter(keep)
            }) by {
                reveal(Seq::filter);
            }
        }
        if pieces[i].as_str().unicode_len() > 0 {
            match parse_distance_line(pieces[i].as_str()) {
                Ok(l) => {
                    let ghost before = out@;
                    out.push(l);
                    proof {
                        assert forall|k: int| 0 <= k < out@.len() implies {
                            let ps = split_spaces(#[trigger] t1.filter(keep)[k]);
                            &&& out@[k].from@ == ps[0]
                            &&& out@[k].to@ == ps[1]
                            &&& out@[k].distance == decimal_value(ps[2])
                        } && distance_fields_readable(split_spaces(t1.filter(keep)[k])) by {
                            if k < before.len() {
                                assert(out@[k] == before[k]);
                                assert(t1.filter(keep)[k] == t.filter(keep)[k]);
                            }
                        }
                    }
                },
                Err(e) => {
                    proof {
                        lemma_filter_prefix(all, i as int + 1, keep);
                        let k = t.filter(keep).len() as int;
                        assert(t1.filter(keep)[k] == pieces@[i as int]@);
                        assert(all.filter(keep)[k] == t1.filter(keep)[k]);
                        assert(!distance_fields_readable(split_spaces(text_lines(text@)[k])));
                    }
                    return Err(e);
                },
            }
        }
        i = i + 1;
    }
    proof {
        assert(all.take(pieces@.len() as int) =~= all);
    }
    Ok(out)
}

/// A prefix of a sequence filters to a prefix of its filtered form.
proof fn lemma_filter_prefix(s: Seq<Seq<char>>, i: int, keep: spec_fn(Seq<char>) -> bool)
    requires
        0 <= i <= s.len(),
    ensures
        s.take(i).filter(keep).len() <= s.filter(keep).len(),
        forall|k: int| 0 <= k < s.take(i).filter(keep).len() ==> #[trigger] s.filter(keep)[k] == s.take(i).filter(keep)[k],
    decreases s.len() - i,
{
    if i < s.len() {
        lemma_filter_prefix(s, i + 1, keep);
        let t = s.take(i);
        let t1 = s.take(i + 1);
        assert(t1.drop_last() =~= t);
        assert(t1.filter(keep) == if keep(t1.last()) {
            t.filter(keep).push(t1.last())
        } else {
            t.filter(keep)
        }) by {
            reveal(Seq::filter);
        }
        assert forall|k: int| 0 <= k < t.filter(keep).len() implies #[trigger] s.filter(keep)[k] == t.filter(keep)[k] by {
            assert(s.filter(keep)[k] == t1.filter(keep)[k]);
        }
    } else {
        assert(s.take(i) =~= s);
    }
}

/// The distance that the last line naming the rooms `a` and `b`, in either order, gives.
pub open spec fn dist_lookup(ls: Seq<(Seq<char>, Seq<char>, u32)>, a: Seq<char>, b: Seq<char>) -> Option<u32>
    decreases ls.len(),
{
    if ls.len() == 0 {
        None
    } else {
        let l = ls.last();
        if (l.0 == a && l.1 == b) || (l.0 == b && l.1 == a) {
            Some(l.2)
        } else {
            dist_lookup(ls.drop_last(), a, b)
        }
    }
}

/// Distances between the rooms of a room set, symmetric by construction.
pub struct DistanceTable {
    n: usize,
    cells: Vec<Option<u32>>,
    lines: Ghost<Seq<(Seq<char>, Seq<char>, u32)>>,
    names: Ghost<Seq<Seq<char>>>,
}

impl DistanceTable {
    /// The lines that the table was built from.
    pub closed spec fn spec_lines(&self) -> Seq<(Seq<char>, Seq<char>, u32)> {
        self.lines@
    }

    /// The rooms that the table covers.
    pub closed spec fn spec_names(&self) -> Seq<Seq<char>> {
        self.names@
    }

    /// The distance between rooms `a` and `b`, if it is known.
    pub open spec fn distance(&self, a: Seq<char>, b: Seq<char>) -> Option<u32> {
        dist_lookup(self.spec_lines(), a, b)
    }

    pub closed spec fn wf(&self) -> bool {
        &&& self.n == self.names@.len()
        &&& self.n * self.n <= usize::MAX
        &&& self.cells@.len() == self.n * self.n
        &&& forall|i: int, j: int|
            0 <= i < self.n && 0 <= j < self.n ==> #[trigger] self.cells@[cell(self.n as int, i, j)]
                == dist_lookup(self.lines@, self.names@[i], self.names@[j])
    }

    /// The table of the distances that `lines` give between the rooms of `rooms`; a line
    /// that names a room outside `rooms` can never be looked up and is left out.
    pub fn build(lines: &Vec<DistanceLine>, rooms: &RoomSet) -> (r: Result<DistanceTable, OptiError>)
        requires
            rooms.wf(),
        ensures
            r is Ok <==> rooms.spec_names().len() * rooms.spec_names().len() <= usize::MAX,
            r matches Ok(t) ==> t.wf() && t.spec_names() == rooms.spec_names() && t.spec_lines() == lines_view(lines@),
            r matches Err(e) ==> e is CountOverflow,
    {
        let ghost names = rooms.spec_names();
        let ghost lv = lines_view(lines@);
        let n = rooms.len();
        proof {
            assert((n as int) * (n as int) <= (usize::MAX as int) * (usize::MAX as int)) by (nonlinear_arith)
                requires
                    0 <= n <= usize::MAX,
            ;
        }
        if (n as u128) * (n as u128) > usize::MAX as u128 {
            return Err(OptiError::CountOverflow);
        }
        let nn = n * n;
        let mut cells: Vec<Option<u32>> = Vec::new();
        let mut y: usize = 0;
        while y < nn
            invariant
                nn == n * n,
                y <= nn,
                cells@.len() == y,
                forall|j: int| 0 <= j < y ==> cells@[j] is None,
            decreases nn - y,
        {
            cells.push(None);
            y = y + 1;
        }
        proof {
            assert(lv.take(0) =~= Seq::<(Seq<char>, Seq<char>, u32)>::empty());
            assert forall|i: int, j: int| 0 <= i < n && 0 <= j < n implies #[trigger] cells@[cell(n as int, i, j)]
                == dist_lookup(lv.take(0), names[i], names[j]) by {
                crate::congestion::lemma_cell(n as int, i, j, i, j);
            }
        }
        let mut k: usize = 0;
        while k < lines.len()
            invariant
                rooms.wf(),
                names == rooms.spec_names(),
                n == names.len(),
                lv == lines_view(lines@),
                n * n <= usize::MAX,
                cells@.len() == n * n,
                k <= lines@.len(),
                forall|i: int, j: int| 0 <= i < n && 0 <= j < n ==> #[trigger] cells@[cell(n as int, i, j)]
                    == dist_lookup(lv.take(k as int), names[i], names[j]),
            decreases lines@.len() - k,
        {
            let line = &lines[k];
            let ghost t = lv.take(k as int);
            let ghost t1 = lv.take(k + 1);
            proof {
                assert(t1.drop_last() =~= t);
                assert(t1.last() == line_view(*line));
            }
            let a = rooms.find(&line.from);
            let b = rooms.find(&line.to);
            match (a, b) {
                (Some(ia), Some(ib)) => {
                    proof {
                        crate::congestion::lemma_cell(n as int, ia as int, ib as int, ib as int, ia as int);
                        crate::congestion::lemma_cell(n as int, ib as int, ia as int, ia as int, ib as int);
                    }
                    let c1 = ia * n + ib;
                    let c2 = ib * n + ia;
                    let ghost old_cells = cells@;
                    cells.set(c1, Some(line.distance));
                    cells.set(c2, Some(line.distance));
                    proof {
                        assert forall|i: int, j: int| 0 <= i < n && 0 <= j < n implies #[trigger] cells@[cell(
                            n as int,
                            i,
                            j,
                        )] == dist_lookup(t1, names[i], names[j]) by {
                            crate::congestion::lemma_cell(n as int, i, j, ia as int, ib as int);
                            crate::congestion::lemma_cell(n as int, i, j, ib as int, ia as int);
                            assert(old_cells[cell(n as int, i, j)] == dist_lookup(t, names[i], names[j]));
                            if names[i] == line.from@ {
                                assert(i == ia as int);
                            }
                            if names[j] == line.from@ {
                                assert(j == ia as int);
                            }
                            if names[i] == line.to@ {
                                assert(i == ib as int);
                            }
                            if names[j] == line.to@ {
                                assert(j == ib as int);
                            }
                        }
                    }
                },
                _ => {
                    proof {
                        assert forall|i: int, j: int| 0 <= i < n && 0 <= j < n implies #[trigger] cells@[cell(
                            n as int,
                            i,
                            j,
                        )] == dist_lookup(t1, names[i], names[j]) by {
                            if a is None {
                                assert(names[i] != line.from@);
                                assert(names[j] != line.from@);
                            } else {
                                assert(names[i] != line.to@);
                                assert(names[j] != line.to@);
                            }
                        }
                    }
                },
            }
            k = k + 1;
        }
        proof {
            assert(lv.take(lines@.len() as int) =~= lv);
        }
        Ok(DistanceTable { n, cells, lines: Ghost(lv), names: Ghost(names) })
    }

    /// The distance between rooms `a` and `b` of the room set.
    pub fn get(&self, a: usize, b: usize) -> (r: Option<u32>)
        requires
            self.wf(),
            (a as int) < self.spec_names().len(),
            (b as int) < self.spec_names().len(),
        ensures
            r == self.distance(self.spec_names()[a as int], self.spec_names()[b as int]),
    {
        proof {
            crate::congestion::lemma_cell(self.n as int, a as int, b as int, a as int, b as int);
        }
        self.cells[a * self.n + b]
    }
}

} // verus!
