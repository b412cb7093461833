use vstd::prelude::*;

verus! {

/// The pieces of `s` between occurrences of `sep`, as `str::split(sep)` yields them.
pub open spec fn split_on(s: Seq<char>, sep: char) -> Seq<Seq<char>>
    decreases s.len(),
{
    if s.len() == 0 {
        seq![Seq::<char>::empty()]
    } else {
        let prev = split_on(s.drop_last(), sep);
        if s.last() == sep {
            prev.push(Seq::<char>::empty())
        } else {
            prev.update(prev.len() - 1, prev.last().push(s.last()))
        }
    }
}

/// The pieces of `s` between single spaces.
pub open spec fn split_spaces(s: Seq<char>) -> Seq<Seq<char>> {
    split_on(s, ' ')
}

/// The token that stands for being outside the building.
pub open spec fn outside_token() -> Seq<char> {
    seq!['G']
}

/// Whether a token names a room that congestion accounting counts.
pub open spec fn is_room_token(t: Seq<char>) -> bool {
    t.len() > 0 && t != outside_token()
}

/// The tokens of `ts` that name counted rooms, in order.
pub open spec fn keep_rooms(ts: Seq<Seq<char>>) -> Seq<Seq<char>>
    decreases ts.len(),
{
    if ts.len() == 0 {
        Seq::<Seq<char>>::empty()
    } else if is_room_token(ts.last()) {
        keep_rooms(ts.drop_last()).push(ts.last())
    } else {
        keep_rooms(ts.drop_last())
    }
}

/// Neither an empty token nor the outside token is ever counted as a room.
pub proof fn lemma_rooms_are_counted(ts: Seq<Seq<char>>)
    ensures
        forall|k: int| 0 <= k < keep_rooms(ts).len() ==> is_room_token(#[trigger] keep_rooms(ts)[k]),
    decreases ts.len(),
{
    if ts.len() > 0 {
        lemma_rooms_are_counted(ts.drop_last());
        let p = keep_rooms(ts.drop_last());
        if is_room_token(ts.last()) {
            assert forall|k: int| 0 <= k < keep_rooms(ts).len() implies is_room_token(#[trigger] keep_rooms(ts)[k]) by {
                if k < p.len() {
                    assert(keep_rooms(ts)[k] == p[k]);
                }
            }
        }
    }
}

/// The rooms that a stored route visits, in order.
pub open spec fn route_rooms(s: Seq<char>) -> Seq<Seq<char>> {
    keep_rooms(split_spaces(s))
}

pub open spec fn names_of(v: Seq<String>) -> Seq<Seq<char>> {
    v.map_values(|t: String| t@)
}

/// Whether `rooms` lists no name twice.
pub open spec fn distinct_names(rooms: Seq<Seq<char>>) -> bool {
    forall|i: int, j: int| 0 <= i < j < rooms.len() ==> rooms[i] != rooms[j]
}

/// Whether `name` is listed in `rooms`.
pub open spec fn is_listed(rooms: Seq<Seq<char>>, name: Seq<char>) -> bool {
    exists|i: int| 0 <= i < rooms.len() && rooms[i] == name
}

/// `idx` names, position by position, the rooms of `toks` within `rooms`.
pub open spec fn resolves_to(rooms: Seq<Seq<char>>, toks: Seq<Seq<char>>, idx: Seq<usize>) -> bool {
    &&& idx.len() == toks.len()
    &&& forall|k: int| 0 <= k < idx.len() ==> (#[trigger] idx[k] as int) < rooms.len() && rooms[idx[k] as int] == toks[k]
}

/// Splits a stored route at every space.
pub fn split_route(s: &str) -> (r: Vec<String>)
    ensures
        names_of(r@) == split_spaces(s@),
{
    split_text(s, ' ')
}

/// Splits `s` at every occurrence of `sep`.
pub fn split_text(s: &str, sep: char) -> (r: Vec<String>)
    ensures
        names_of(r@) == split_on(s@, sep),
{
    let n = s.unicode_len();
    let mut done: Vec<String> = Vec::new();
    let mut start: usize = 0;
    let mut i: usize = 0;
    proof {
        assert(s@.subrange(0, 0) =~= Seq::<char>::empty());
    }
    while i < n
        invariant
            n == s@.len(),
            start <= i <= n,
            split_on(s@.subrange(0, i as int), sep) == names_of(done@).push(s@.subrange(start as int, i as int)),
        decreases n - i,
    {
        let c = s.get_char(i);
        proof {
            assert(s@.subrange(0, i + 1).drop_last() =~= s@.subrange(0, i as int));
        }
        if c == sep {
            let piece = s.substring_char(start, i).to_owned();
            proof {
                assert(names_of(done@.push(piece)) =~= names_of(done@).push(piece@));
            }
            done.push(piece);
            start = i + 1;
            proof {
                assert(s@.subrange(start as int, i + 1) =~= Seq::<char>::empty());
            }
        } else {
            proof {
                assert(s@.subrange(start as int, i + 1) =~= s@.subrange(start as int, i as int).push(c));
                let prev = names_of(done@).push(s@.subrange(start as int, i as int));
                assert(prev.update(prev.len() - 1, prev.last().push(c))
                    =~= names_of(done@).push(s@.subrange(start as int, i + 1)));
            }
        }
        i = i + 1;
    }
    let last = s.substring_char(start, n).to_owned();
    proof {
        assert(s@.subrange(0, n as int) =~= s@);
        assert(names_of(done@.push(last)) =~= names_of(done@).push(last@));
    }
    done.push(last);
    done
}

/// Whether a token names a counted room: it is neither empty nor `"G"`.
pub fn is_counted_token(t: &String) -> (r: bool)
    ensures
        r == is_room_token(t@),
{
    let g = "G";
    proof {
        reveal_strlit("G");
        assert(g@ =~= outside_token());
    }
    if t.as_str().unicode_len() == 0 {
        false
    } else {
        let gs = g.to_owned();
        !t.eq(&gs)
    }
}

/// The rooms of the building, each with a fixed index.
pub struct RoomSet {
    names: Vec<String>,
}

impl RoomSet {
    pub closed spec fn spec_names(&self) -> Seq<Seq<char>> {
        names_of(self.names@)
    }

    pub open spec fn wf(&self) -> bool {
        distinct_names(self.spec_names())
    }

    /// A room set over `names`, or `None` where a name is listed twice.
    pub fn new(names: Vec<String>) -> (r: Option<RoomSet>)
        ensures
            r is Some <==> distinct_names(names_of(names@)),
            r matches Some(rs) ==> rs.wf() && rs.spec_names() == names_of(names@),
    {
        let n = names.len();
        let mut i: usize = 0;
        while i < n
            invariant
                n == names@.len(),
                i <= n,
                forall|a: int, b: int| 0 <= a < b < n && a < i ==> names@[a]@ != names@[b]@,
            decreases n - i,
        {
            let mut j: usize = i + 1;
            while j < n
                invariant
                    n == names@.len(),
                    i < n,
                    i + 1 <= j <= n,
                    forall|a: int, b: int| 0 <= a < b < n && a < i ==> names@[a]@ != names@[b]@,
                    forall|b: int| i < b < j ==> names@[i as int]@ != names@[b]@,
                decreases n - j,
            {
                if names[i].eq(&names[j]) {
                    proof {
                        assert(names_of(names@)[i as int] == names_of(names@)[j as int]);
                    }
                    return None;
                }
                j = j + 1;
            }
            i = i + 1;
        }
        proof {
            assert forall|a: int, b: int| 0 <= a < b < names_of(names@).len() implies names_of(
                names@,
            )[a] != names_of(names@)[b] by {
                assert(names_of(names@)[a] == names@[a]@);
                assert(names_of(names@)[b] == names@[b]@);
            }
        }
        Some(RoomSet { names })
    }

    pub fn len(&self) -> (r: usize)
        ensures
            r == self.spec_names().len(),
    {
        self.names.len()
    }

    /// The name of room `i`.
    pub fn name(&self, i: usize) -> (r: &String)
        requires
            i < self.spec_names().len(),
        ensures
            r@ == self.spec_names()[i as int],
    {
        &self.names[i]
    }

    /// The index of the room called `t`, if it is listed.
    pub fn find(&self, t: &String) -> (r: Option<usize>)
        requires
            self.wf(),
        ensures
            r is Some <==> is_listed(self.spec_names(), t@),
            r matches Some(i) ==> i < self.spec_names().len() && self.spec_names()[i as int] == t@,
    {
        let n = self.names.len();
        let mut i: usize = 0;
        while i < n
            invariant
                n == self.names@.len(),
                i <= n,
                forall|k: int| 0 <= k < i ==> self.spec_names()[k] != t@,
            decreases n - i,
        {
            if self.names[i].eq(t) {
                proof {
                    assert(self.spec_names()[i as int] == self.names@[i as int]@);
                }
                return Some(i);
            }
            i = i + 1;
        }
        None
    }

    /// The room indices that a stored route visits, or the first token that names no
    /// listed room.
    pub fn resolve_route(&self, s: &str) -> (r: Result<Vec<usize>, String>)
        requires
            self.wf(),
        ensures
            r is Ok <==> forall|k: int| 0 <= k < route_rooms(s@).len()
                ==> is_listed(self.spec_names(), #[trigger] route_rooms(s@)[k]),
            r matches Ok(v) ==> resolves_to(self.spec_names(), route_rooms(s@), v@),
            r matches Err(t) ==> route_rooms(s@).contains(t@) && !is_listed(self.spec_names(), t@),
    {
        let toks = split_route(s);
        let ghost all = names_of(toks@);
        let mut out: Vec<usize> = Vec::new();
        let mut i: usize = 0;
        proof {
            assert(all.subrange(0, 0) =~= Seq::<Seq<char>>::empty());
        }
        while i < toks.len()
            invariant
                self.wf(),
                all == names_of(toks@),
                all == split_spaces(s@),
                i <= toks@.len(),
                resolves_to(self.spec_names(), keep_rooms(all.subrange(0, i as int)), out@),
            decreases toks@.len() - i,
        {
            proof {
                assert(all.subrange(0, i + 1).drop_last() =~= all.subrange(0, i as int));
                assert(all.subrange(0, i + 1).last() == all[i as int]);
                assert(all[i as int] == toks@[i as int]@);
            }
            if is_counted_token(&toks[i]) {
                match self.find(&toks[i]) {
                    Some(k) => {
                        let ghost before = out@;
                        out.push(k);
                        proof {
                            let kr = keep_rooms(all.subrange(0, i as int));
                            assert(keep_rooms(all.subrange(0, i + 1)) == kr.push(all[i as int]));
                            assert forall|m: int| 0 <= m < out@.len() implies (out@[m] as int)
                                < self.spec_names().len() && self.spec_names()[out@[m] as int]
                                == kr.push(all[i as int])[m] by {
                                if m < before.len() {
                                    assert(out@[m] == before[m]);
                                    assert(kr.push(all[i as int])[m] == kr[m]);
                                } else {
                                    assert(out@[m] == k);
                                    assert(kr.push(all[i as int])[m] == all[i as int]);
                                }
                            }
                        }
                    },
                    None => {
                        let t = toks[i].clone();
                        proof {
                            lemma_keep_rooms_contains(all, i as int);
                            assert(all[i as int] == t@);
                            assert(route_rooms(s@) == keep_rooms(all));
                            assert(!is_listed(self.spec_names(), t@));
                            let k = choose|k: int| 0 <= k < route_rooms(s@).len() && route_rooms(s@)[k] == t@;
                            assert(!is_listed(self.spec_names(), route_rooms(s@)[k]));
                        }
                        return Err(t);
                    },
                }
            } else {
                proof {
                    assert(keep_rooms(all.subrange(0, i + 1)) == keep_rooms(all.subrange(0, i as int)));
                }
            }
            i = i + 1;
        }
        proof {
            assert(all.subrange(0, toks@.len() as int) =~= all);
            assert forall|k: int| 0 <= k < route_rooms(s@).len() implies is_listed(
                self.spec_names(),
                #[trigger] route_rooms(s@)[k],
            ) by {
                let j = out@[k] as int;
                assert(self.spec_names()[j] == route_rooms(s@)[k]);
            }
        }
        Ok(out)
    }
}

/// A counted token at position `i` of `ts` is among the rooms kept from `ts`.
proof fn lemma_keep_rooms_contains(ts: Seq<Seq<char>>, i: int)
    requires
        0 <= i < ts.len(),
        is_room_token(ts[i]),
    ensures
        keep_rooms(ts).contains(ts[i]),
    decreases ts.len(),
{
    let p = ts.drop_last();
    if i == ts.len() - 1 {
        assert(keep_rooms(ts).last() == ts[i]);
    } else {
        lemma_keep_rooms_contains(p, i);
        let k = choose|k: int| 0 <= k < keep_rooms(p).len() && keep_rooms(p)[k] == ts[i];
        if is_room_token(ts.last()) {
            assert(keep_rooms(ts)[k] == ts[i]);
        }
    }
}

} // verus!
