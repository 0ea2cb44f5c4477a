use crate::text::{chars_of, decimal, labelled_number, lines, lines_of, rows};
use std::collections::HashSet;
use vstd::prelude::*;

verus! {

broadcast use vstd::std_specs::hash::group_hash_axioms;

pub struct DayTwentyThree;

/// Elves on a grid, and the direction that they consider first.
pub struct Grove {
    pub elves: Vec<(i64, i64)>,
    pub preference: usize,
}

/// The number under which a position is kept in a set: its two coordinates,
/// counted from the least number of 64 bits, side by side.
pub open spec fn key(c: (int, int)) -> u128 {
    ((c.0 - i64::MIN) * 0x1_0000_0000_0000_0000 + (c.1 - i64::MIN)) as u128
}

/// The position, its coordinates as integers.
pub open spec fn at(c: (i64, i64)) -> (int, int) {
    (c.0 as int, c.1 as int)
}

/// Both coordinates fit in 64 bits.
pub open spec fn on_grid(c: (int, int)) -> bool {
    i64::MIN <= c.0 <= i64::MAX && i64::MIN <= c.1 <= i64::MAX
}

/// The positions that the set holds.
pub open spec fn cells(keys: Set<u128>) -> Set<(int, int)> {
    Set::new(|c: (int, int)| on_grid(c) && keys.contains(key(c)))
}

/// The number under which a position is kept.
fn key_of(c: (i64, i64)) -> (k: u128)
    ensures
        k == key(at(c)),
{
    ((c.0 as i128 - i64::MIN as i128) as u128) * 0x1_0000_0000_0000_0000 + (c.1 as i128
        - i64::MIN as i128) as u128
}

/// Adds a position to the set.
fn occupy(coords: &mut HashSet<u128>, c: (i64, i64))
    ensures
        cells(final(coords)@) == cells(old(coords)@).insert(at(c)),
{
    coords.insert(key_of(c));
    assert(cells(coords@) =~= cells(old(coords)@).insert(at(c)));
}

/// Whether the position is in the set.
fn occupied(coords: &HashSet<u128>, c: (i64, i64)) -> (b: bool)
    ensures
        b == cells(coords@).contains(at(c)),
{
    let k = key_of(c);
    coords.contains(&k)
}

/// The positions of the elves.
pub open spec fn places(elves: Seq<(i64, i64)>) -> Set<(int, int)> {
    Set::new(|c: (int, int)| exists|i: int| 0 <= i < elves.len() && at(#[trigger] elves[i]) == c)
}

/// The eight positions around `c`.
pub open spec fn around(c: (int, int), k: int) -> (int, int) {
    if k == 0 {
        (c.0 - 1, c.1 + 1)
    } else if k == 1 {
        (c.0 - 1, c.1)
    } else if k == 2 {
        (c.0 - 1, c.1 - 1)
    } else if k == 3 {
        (c.0, c.1 - 1)
    } else if k == 4 {
        (c.0, c.1 + 1)
    } else if k == 5 {
        (c.0 + 1, c.1 - 1)
    } else if k == 6 {
        (c.0 + 1, c.1)
    } else {
        (c.0 + 1, c.1 + 1)
    }
}

/// No elf stands around `c`.
pub open spec fn is_alone(taken: Set<(int, int)>, c: (int, int)) -> bool {
    forall|k: int| 0 <= k < 8 ==> !taken.contains(#[trigger] around(c, k))
}

/// The three positions on one side of `c`, the one straight ahead first:
/// north, south, west and east are the sides 0 to 3, and north is up, where
/// the second coordinate is smaller.
pub open spec fn side(c: (int, int), dir: int, k: int) -> (int, int) {
    let across = if k == 0 {
        0int
    } else if k == 1 {
        1int
    } else {
        -1int
    };
    if dir == 0 {
        (c.0 + across, c.1 - 1)
    } else if dir == 1 {
        (c.0 + across, c.1 + 1)
    } else if dir == 2 {
        (c.0 - 1, c.1 - across)
    } else {
        (c.0 + 1, c.1 - across)
    }
}

/// No elf stands on that side of `c`.
pub open spec fn side_free(taken: Set<(int, int)>, c: (int, int), dir: int) -> bool {
    forall|k: int| 0 <= k < 3 ==> !taken.contains(#[trigger] side(c, dir, k))
}

/// The step that an elf at `c` proposes once it has found the first `i`
/// sides in its order of preference taken.
pub open spec fn proposal_from(taken: Set<(int, int)>, preference: int, c: (int, int), i: int) -> Option<
    (int, int),
>
    decreases 4 - i,
{
    if i >= 4 || i < 0 {
        None
    } else if side_free(taken, c, (i + preference) % 4) {
        Some(side(c, (i + preference) % 4, 0))
    } else {
        proposal_from(taken, preference, c, i + 1)
    }
}

/// The step that an elf at `c` proposes: none where no elf stands around it;
/// else one step to the first side in its order of preference on which no
/// elf stands; none where there is no such side.
pub open spec fn proposal(taken: Set<(int, int)>, preference: int, c: (int, int)) -> Option<
    (int, int),
> {
    if is_alone(taken, c) {
        None
    } else {
        proposal_from(taken, preference, c, 0)
    }
}

/// What every elf proposes.
pub open spec fn proposals(elves: Seq<(i64, i64)>, preference: int) -> Seq<Option<(int, int)>> {
    Seq::new(elves.len(), |i: int| proposal(places(elves), preference, at(elves[i])))
}

/// Another elf proposes the same as elf `i`.
pub open spec fn contested(props: Seq<Option<(int, int)>>, i: int) -> bool {
    exists|j: int| 0 <= j < props.len() && j != i && #[trigger] props[j] == props[i]
}

/// Elf `i` moves: it proposes a step that no other elf proposes.
pub open spec fn moves(props: Seq<Option<(int, int)>>, i: int) -> bool {
    props[i] is Some && !contested(props, i)
}

/// The position, its coordinates as numbers of 64 bits.
pub open spec fn landing(c: (int, int)) -> (i64, i64) {
    (c.0 as i64, c.1 as i64)
}

/// The elves after a round.
pub open spec fn after_round(elves: Seq<(i64, i64)>, preference: int) -> Seq<(i64, i64)> {
    let props = proposals(elves, preference);
    Seq::new(
        elves.len(),
        |i: int|
            if moves(props, i) {
                landing(props[i]->0)
            } else {
                elves[i]
            },
    )
}

/// Some elf moves in the round.
pub open spec fn any_moves(elves: Seq<(i64, i64)>, preference: int) -> bool {
    exists|i: int| 0 <= i < elves.len() && #[trigger] moves(proposals(elves, preference), i)
}

/// No elf stands at the limits of 64 bits: the positions around each can be
/// numbered.
pub open spec fn has_room(elves: Seq<(i64, i64)>) -> bool {
    forall|i: int|
        0 <= i < elves.len() ==> i64::MIN < (#[trigger] elves[i]).0 < i64::MAX && i64::MIN
            < elves[i].1 < i64::MAX
}

/// The elves after `n` rounds, the order of preference turning by one side
/// with each round.
pub open spec fn after_rounds(elves: Seq<(i64, i64)>, preference: int, n: int) -> Seq<(i64, i64)>
    decreases n,
{
    if n <= 0 {
        elves
    } else {
        after_round(after_rounds(elves, preference, n - 1), (preference + n - 1) % 4)
    }
}

impl Grove {
    /// Whether no elf stands at the limits of 64 bits.
    fn roomy(&self) -> (b: bool)
        ensures
            b == has_room(self.elves@),
    {
        let mut i: usize = 0;
        while i < self.elves.len()
            invariant
                i <= self.elves.len(),
                forall|k: int|
                    0 <= k < i ==> i64::MIN < (#[trigger] self.elves@[k]).0 < i64::MAX && i64::MIN
                        < self.elves@[k].1 < i64::MAX,
            decreases self.elves.len() - i,
        {
            let e = self.elves[i];
            if !(e.0 > i64::MIN && e.0 < i64::MAX && e.1 > i64::MIN && e.1 < i64::MAX) {
                return false;
            }
            i += 1;
        }
        true
    }

    /// The step that the elf at `coord` proposes.
    pub fn move_elf(&self, coord: (i64, i64), current_elves: &HashSet<u128>) -> (r: Option<(i64, i64)>)
        requires
            self.preference < 4,
            i64::MIN < coord.0 < i64::MAX,
            i64::MIN < coord.1 < i64::MAX,
        ensures
            match r {
                Some(t) => proposal(cells(current_elves@), self.preference as int, at(coord)) == Some(
                    at(t),
                ),
                None => proposal(cells(current_elves@), self.preference as int, at(coord)) is None,
            },
    {
        let (x, y) = coord;
        let ghost taken = cells(current_elves@);
        let ghost c = at(coord);
        let any_near = occupied(current_elves, (x - 1, y + 1)) || occupied(
            current_elves,
            (x - 1, y),
        ) || occupied(current_elves, (x - 1, y - 1)) || occupied(current_elves, (x, y - 1))
            || occupied(current_elves, (x, y + 1)) || occupied(current_elves, (x + 1, y - 1))
            || occupied(current_elves, (x + 1, y)) || occupied(current_elves, (x + 1, y + 1));
        proof {
            assert(around(c, 0) == at(((x - 1) as i64, (y + 1) as i64)));
            assert(around(c, 1) == at(((x - 1) as i64, y)));
            assert(around(c, 2) == at(((x - 1) as i64, (y - 1) as i64)));
            assert(around(c, 3) == at((x, (y - 1) as i64)));
            assert(around(c, 4) == at((x, (y + 1) as i64)));
            assert(around(c, 5) == at(((x + 1) as i64, (y - 1) as i64)));
            assert(around(c, 6) == at(((x + 1) as i64, y)));
            assert(around(c, 7) == at(((x + 1) as i64, (y + 1) as i64)));
            assert(any_near == !is_alone(taken, c));
        }
        if !any_near {
            return None;
        }
        let mut i: usize = 0;
        while i < 4
            invariant
                i <= 4,
                self.preference < 4,
                i64::MIN < x < i64::MAX,
                i64::MIN < y < i64::MAX,
                taken == cells(current_elves@),
                c == (x as int, y as int),
                c == at(coord),
                !is_alone(taken, c),
                proposal_from(taken, self.preference as int, c, 0) == proposal_from(
                    taken,
                    self.preference as int,
                    c,
                    i as int,
                ),
            decreases 4 - i,
        {
            let dir = (i + self.preference) % 4;
            let trials: ((i64, i64), (i64, i64), (i64, i64)) = if dir == 0 {
                ((x, y - 1), (x + 1, y - 1), (x - 1, y - 1))
            } else if dir == 1 {
                ((x, y + 1), (x + 1, y + 1), (x - 1, y + 1))
            } else if dir == 2 {
                ((x - 1, y), (x - 1, y - 1), (x - 1, y + 1))
            } else {
                ((x + 1, y), (x + 1, y - 1), (x + 1, y + 1))
            };
            proof {
                assert(side(c, dir as int, 0) == at(trials.0));
                assert(side(c, dir as int, 1) == at(trials.1));
                assert(side(c, dir as int, 2) == at(trials.2));
            }
            if !(occupied(current_elves, trials.0) || occupied(current_elves, trials.1) || occupied(
                current_elves,
                trials.2,
            )) {
                assert(side_free(taken, c, dir as int));
                return Some(trials.0);
            }
            i += 1;
        }
        return None;
    }
}

/// Some elf among the first `k` proposes `t`.
pub open spec fn proposed(props: Seq<Option<(int, int)>>, k: int, t: (int, int)) -> bool {
    exists|j: int| 0 <= j < k && j < props.len() && #[trigger] props[j] == Some(t)
}

/// Two elves among the first `k` propose `t`.
pub open spec fn proposed_twice(props: Seq<Option<(int, int)>>, k: int, t: (int, int)) -> bool {
    exists|i: int, j: int|
        0 <= i < j < k && j < props.len() && #[trigger] props[i] == Some(t) && #[trigger] props[j]
            == Some(t)
}

/// The steps proposed, as positions of 64 bits.
pub open spec fn steps(v: Seq<Option<(i64, i64)>>) -> Seq<Option<(int, int)>> {
    Seq::new(
        v.len(),
        |i: int|
            match v[i] {
                Some(t) => Some(at(t)),
                None => None,
            },
    )
}

impl Grove {
    /// Plays a round where no elf stands at the limits of 64 bits and says
    /// whether an elf has moved; does nothing and says nothing where one
    /// does.
    pub fn try_move_elves(&mut self) -> (r: Option<bool>)
        requires
            old(self).preference < 4,
        ensures
            final(self).preference < 4,
            r is Some <==> has_room(old(self).elves@),
            r is None ==> *final(self) == *old(self),
            r matches Some(moved) ==> final(self).elves@ == after_round(
                old(self).elves@,
                old(self).preference as int,
            ) && final(self).preference == (old(self).preference + 1) % 4 && moved == any_moves(
                old(self).elves@,
                old(self).preference as int,
            ),
    {
        if !self.roomy() {
            return None;
        }
        let ghost elves = self.elves@;
        let ghost preference = self.preference as int;
        let n = self.elves.len();
        let mut current_elves: HashSet<u128> = HashSet::new();
        let mut i: usize = 0;
        assert(cells(current_elves@) =~= places(elves.take(0)));
        while i < n
            invariant
                i <= n,
                n == elves.len(),
                self.elves@ == elves,
                cells(current_elves@) == places(elves.take(i as int)),
            decreases n - i,
        {
            occupy(&mut current_elves, self.elves[i]);
            proof {
                let a = elves.take(i as int);
                let b = elves.take(i + 1);
                assert forall|c: (int, int)| places(b).contains(c) <==> places(a).insert(
                    at(elves[i as int]),
                ).contains(c) by {
                    if places(b).contains(c) {
                        let j = choose|j: int| 0 <= j < b.len() && at(#[trigger] b[j]) == c;
                        if j < i {
                            assert(a[j] == b[j]);
                        }
                    }
                    if places(a).contains(c) {
                        let j = choose|j: int| 0 <= j < a.len() && at(#[trigger] a[j]) == c;
                        assert(b[j] == a[j]);
                    }
                    if c == at(elves[i as int]) {
                        assert(b[i as int] == elves[i as int]);
                    }
                }
                assert(cells(current_elves@) =~= places(b));
            }
            i += 1;
        }
        assert(elves.take(n as int) =~= elves);
        let ghost taken = places(elves);
        let ghost props = proposals(elves, preference);
        let mut elf_moves: Vec<Option<(i64, i64)>> = Vec::new();
        let mut once: HashSet<u128> = HashSet::new();
        let mut twice: HashSet<u128> = HashSet::new();
        let mut i: usize = 0;
        while i < n
            invariant
                i <= n,
                n == elves.len(),
                self.elves@ == elves,
                self.preference == preference,
                preference < 4,
                has_room(elves),
                taken == places(elves),
                cells(current_elves@) == taken,
                props == proposals(elves, preference),
                elf_moves.len() == i,
                forall|k: int| 0 <= k < i ==> #[trigger] steps(elf_moves@)[k] == props[k],
                forall|t: (int, int)|
                    on_grid(t) ==> (#[trigger] cells(once@).contains(t) <==> proposed(
                        props,
                        i as int,
                        t,
                    )),
                forall|t: (int, int)|
                    on_grid(t) ==> (#[trigger] cells(twice@).contains(t) <==> proposed_twice(
                        props,
                        i as int,
                        t,
                    )),
            decreases n - i,
        {
            let elf = self.elves[i];
            let elf_move = self.move_elf(elf, &current_elves);
            let ghost once_before = cells(once@);
            let ghost twice_before = cells(twice@);
            if let Some(target) = elf_move {
                if occupied(&once, target) {
                    occupy(&mut twice, target);
                } else {
                    occupy(&mut once, target);
                }
            }
            let ghost moves_before = elf_moves@;
            elf_moves.push(elf_move);
            proof {
                assert(steps(elf_moves@)[i as int] == props[i as int]);
                assert forall|k: int| 0 <= k < i + 1 implies #[trigger] steps(elf_moves@)[k]
                    == props[k] by {
                    if k < i {
                        assert(steps(moves_before)[k] == props[k]);
                        assert(elf_moves@[k] == moves_before[k]);
                    }
                }
                assert forall|t: (int, int)| on_grid(t) implies (#[trigger] cells(once@).contains(
                    t,
                ) <==> proposed(props, i + 1, t)) by {
                    assert(once_before.contains(t) <==> proposed(props, i as int, t));
                    if proposed(props, i + 1, t) {
                        let j = choose|j: int|
                            0 <= j < i + 1 && j < props.len() && #[trigger] props[j] == Some(t);
                        if j < i {
                            assert(proposed(props, i as int, t));
                        }
                    }
                    if proposed(props, i as int, t) {
                        let j = choose|j: int|
                            0 <= j < i && j < props.len() && #[trigger] props[j] == Some(t);
                        assert(0 <= j < i + 1);
                    }
                    if props[i as int] == Some(t) {
                        assert(proposed(props, i + 1, t));
                    }
                }
                assert forall|t: (int, int)| on_grid(t) implies (#[trigger] cells(twice@).contains(
                    t,
                ) <==> proposed_twice(props, i + 1, t)) by {
                    assert(twice_before.contains(t) <==> proposed_twice(props, i as int, t));
                    assert(once_before.contains(t) <==> proposed(props, i as int, t));
                    if proposed_twice(props, i + 1, t) {
                        let (a, b) = choose|a: int, b: int|
                            0 <= a < b < i + 1 && b < props.len() && #[trigger] props[a] == Some(t)
                                && #[trigger] props[b] == Some(t);
                        if b < i {
                            assert(proposed_twice(props, i as int, t));
                        } else {
                            assert(proposed(props, i as int, t));
                        }
                    }
                    if proposed_twice(props, i as int, t) {
                        let (a, b) = choose|a: int, b: int|
                            0 <= a < b < i && b < props.len() && #[trigger] props[a] == Some(t)
                                && #[trigger] props[b] == Some(t);
                        assert(0 <= a < b < i + 1);
                    }
                    if props[i as int] == Some(t) && proposed(props, i as int, t) {
                        let j = choose|j: int|
                            0 <= j < i && j < props.len() && #[trigger] props[j] == Some(t);
                        assert(0 <= j < i < i + 1 && props[j] == Some(t) && props[i as int] == Some(t));
                    }
                }
            }
            i += 1;
        }
        self.preference = (self.preference + 1) % 4;
        let mut moved = false;
        let ghost mut mover: int = 0;
        let mut i: usize = 0;
        while i < n
            invariant
                i <= n,
                n == elves.len(),
                self.elves@.len() == n,
                self.preference == (preference + 1) % 4,
                has_room(elves),
                props == proposals(elves, preference),
                props.len() == n,
                elf_moves.len() == n,
                forall|k: int| 0 <= k < n ==> #[trigger] steps(elf_moves@)[k] == props[k],
                forall|t: (int, int)|
                    on_grid(t) ==> (#[trigger] cells(twice@).contains(t) <==> proposed_twice(
                        props,
                        n as int,
                        t,
                    )),
                forall|k: int| 0 <= k < i ==> self.elves@[k] == after_round(elves, preference)[k],
                forall|k: int| i <= k < n ==> self.elves@[k] == elves[k],
                moved ==> 0 <= mover < n && moves(props, mover),
                !moved ==> forall|k: int| 0 <= k < i ==> !moves(props, k),
            decreases n - i,
        {
            assert(steps(elf_moves@)[i as int] == props[i as int]);
            if let Some(elf_move) = elf_moves[i] {
                let is_contested = occupied(&twice, elf_move);
                proof {
                    let t = at(elf_move);
                    if proposed_twice(props, n as int, t) {
                        let (a, b) = choose|a: int, b: int|
                            0 <= a < b < n && b < props.len() && #[trigger] props[a] == Some(t)
                                && #[trigger] props[b] == Some(t);
                        if a != i {
                            assert(props[a] == props[i as int]);
                        } else {
                            assert(props[b] == props[i as int]);
                        }
                        assert(contested(props, i as int));
                    }
                    if contested(props, i as int) {
                        let j = choose|j: int|
                            0 <= j < props.len() && j != i && #[trigger] props[j] == props[i as int];
                        if j < i {
                            assert(props[j] == Some(t) && props[i as int] == Some(t));
                        } else {
                            assert(props[i as int] == Some(t) && props[j] == Some(t));
                        }
                        assert(proposed_twice(props, n as int, t));
                    }
                }
                if !is_contested {
                    self.elves.set(i, elf_move);
                    moved = true;
                    proof {
                        mover = i as int;
                    }
                }
            }
            i += 1;
        }
        assert(self.elves@ =~= after_round(elves, preference));
        Some(moved)
    }

    /// Plays a round and says whether an elf has moved.
    pub fn move_elves(&mut self) -> (moved: bool)
        requires
            old(self).preference < 4,
            has_room(old(self).elves@),
        ensures
            final(self).preference == (old(self).preference + 1) % 4,
            final(self).elves@ == after_round(old(self).elves@, old(self).preference as int),
            moved == any_moves(old(self).elves@, old(self).preference as int),
    {
        self.try_move_elves().unwrap()
    }
}

/// The order of preference after `n` rounds.
pub open spec fn turned(preference: int, n: int) -> int {
    (preference + n) % 4
}

/// The elves have room in each of the first `n` rounds.
pub open spec fn room_for(elves: Seq<(i64, i64)>, preference: int, n: int) -> bool {
    forall|r: int| 0 <= r < n ==> has_room(#[trigger] after_rounds(elves, preference, r))
}

/// After `n` rounds no elf moves any more.
pub open spec fn still_after(elves: Seq<(i64, i64)>, preference: int, n: int) -> bool {
    !any_moves(after_rounds(elves, preference, n), turned(preference, n))
}

/// The number of the first round in which no elf moves is `n`, counted from
/// one, and the elves have room up to then.
pub open spec fn settles_in(elves: Seq<(i64, i64)>, preference: int, n: int) -> bool {
    &&& 1 <= n <= u32::MAX
    &&& still_after(elves, preference, n - 1)
    &&& forall|j: int| 0 <= j < n - 1 ==> !still_after(elves, preference, j)
    &&& room_for(elves, preference, n)
}

/// The least and greatest first coordinate and the least and greatest second
/// coordinate of the elves.
pub open spec fn bounds(elves: Seq<(i64, i64)>) -> (int, int, int, int)
    decreases elves.len(),
{
    if elves.len() == 0 {
        (0, 0, 0, 0)
    } else if elves.len() == 1 {
        (elves[0].0 as int, elves[0].0 as int, elves[0].1 as int, elves[0].1 as int)
    } else {
        let b = bounds(elves.drop_last());
        let e = elves.last();
        (
            if e.0 < b.0 {
                e.0 as int
            } else {
                b.0
            },
            if e.0 > b.1 {
                e.0 as int
            } else {
                b.1
            },
            if e.1 < b.2 {
                e.1 as int
            } else {
                b.2
            },
            if e.1 > b.3 {
                e.1 as int
            } else {
                b.3
            },
        )
    }
}

/// The number of squares without an elf in the smallest rectangle that
/// holds all elves; `None` where there is no elf, a side of the rectangle
/// does not fit in 64 bits with a sign or its area in 64 bits without, or
/// the elves are more than the squares.
pub open spec fn free_in(elves: Seq<(i64, i64)>) -> Option<int> {
    let b = bounds(elves);
    let width = b.1 - b.0 + 1;
    let height = b.3 - b.2 + 1;
    if elves.len() > 0 && width <= i64::MAX && height <= i64::MAX && width * height <= u64::MAX
        && elves.len() <= width * height {
        Some(width * height - elves.len())
    } else {
        None
    }
}

/// The elves that `input` shows: one at every `#`, its column first, in the
/// order of reading.
pub open spec fn elves_in(ls: Seq<Seq<char>>, i: int, j: int) -> Seq<(i64, i64)>
    decreases i, j,
{
    if i < 0 || j < 0 {
        Seq::empty()
    } else if j == 0 {
        if i == 0 {
            Seq::empty()
        } else {
            elves_in(ls, i - 1, ls[i - 1].len() as int)
        }
    } else if ls[i][j - 1] == '#' {
        elves_in(ls, i, j - 1).push(((j - 1) as i64, i as i64))
    } else {
        elves_in(ls, i, j - 1)
    }
}

/// The elves that `input` shows.
pub open spec fn elves_of(input: Seq<char>) -> Seq<(i64, i64)> {
    elves_in(lines(input), lines(input).len() as int, 0)
}

/// The rows and columns of `input` can be numbered in 64 bits.
pub open spec fn is_small(input: Seq<char>) -> bool {
    &&& lines(input).len() <= i64::MAX
    &&& forall|i: int| 0 <= i < lines(input).len() ==> (#[trigger] lines(input)[i]).len() <= i64::MAX
}

impl Grove {
    /// Plays `count` rounds as long as the elves have room. Returns whether
    /// it played them all.
    pub fn try_move_elves_multi(&mut self, count: u8) -> (done: bool)
        requires
            old(self).preference < 4,
        ensures
            final(self).preference < 4,
            done == room_for(old(self).elves@, old(self).preference as int, count as int),
            done ==> final(self).elves@ == after_rounds(
                old(self).elves@,
                old(self).preference as int,
                count as int,
            ) && final(self).preference == turned(old(self).preference as int, count as int),
    {
        let ghost elves = self.elves@;
        let ghost preference = self.preference as int;
        let mut k: u8 = 0;
        while k < count
            invariant
                k <= count,
                0 <= preference < 4,
                elves == old(self).elves@,
                preference == old(self).preference as int,
                self.preference == turned(preference, k as int),
                self.elves@ == after_rounds(elves, preference, k as int),
                room_for(elves, preference, k as int),
            decreases count - k,
        {
            if self.try_move_elves().is_none() {
                assert(!has_room(after_rounds(elves, preference, k as int)));
                return false;
            }
            k += 1;
        }
        true
    }

    /// Plays `count` rounds.
    pub fn move_elves_multi(&mut self, count: u8)
        requires
            old(self).preference < 4,
            room_for(old(self).elves@, old(self).preference as int, count as int),
        ensures
            final(self).elves@ == after_rounds(
                old(self).elves@,
                old(self).preference as int,
                count as int,
            ),
            final(self).preference == turned(old(self).preference as int, count as int),
    {
        let done = self.try_move_elves_multi(count);
    }

    /// Plays rounds until no elf moves and returns their number; `None` where
    /// the elves run out of room or out of numbers of 32 bits first.
    pub fn try_until_stationary(&mut self) -> (r: Option<u32>)
        requires
            old(self).preference < 4,
        ensures
            final(self).preference < 4,
            match r {
                Some(n) => settles_in(old(self).elves@, old(self).preference as int, n as int),
                None => forall|n: int| !settles_in(old(self).elves@, old(self).preference as int, n),
            },
            r matches Some(n) ==> final(self).elves@ == after_rounds(
                old(self).elves@,
                old(self).preference as int,
                n as int,
            ),
    {
        let ghost elves = self.elves@;
        let ghost preference = self.preference as int;
        let mut i: u32 = 0;
        loop
            invariant
                0 <= preference < 4,
                elves == old(self).elves@,
                preference == old(self).preference as int,
                self.preference == turned(preference, i as int),
                self.elves@ == after_rounds(elves, preference, i as int),
                room_for(elves, preference, i as int),
                forall|j: int| 0 <= j < i ==> !still_after(elves, preference, j),
            decreases u32::MAX - i,
        {
            if i == u32::MAX {
                assert forall|n: int| !settles_in(elves, preference, n) by {
                    if settles_in(elves, preference, n) {
                        assert(!still_after(elves, preference, n - 1));
                    }
                }
                return None;
            }
            i += 1;
            match self.try_move_elves() {
                None => {
                    assert(!has_room(after_rounds(elves, preference, i - 1)));
                    assert forall|n: int| !settles_in(elves, preference, n) by {
                        if settles_in(elves, preference, n) {
                            if n - 1 < i - 1 {
                                assert(!still_after(elves, preference, n - 1));
                            } else {
                                assert(has_room(after_rounds(elves, preference, i - 1)));
                            }
                        }
                    }
                    return None;
                },
                Some(moved) => {
                    assert(has_room(after_rounds(elves, preference, i - 1)));
                    assert(room_for(elves, preference, i as int));
                    if !moved {
                        assert(still_after(elves, preference, i - 1));
                        return Some(i);
                    }
                    assert(!still_after(elves, preference, i - 1));
                },
            }
        }
    }

    /// Plays rounds until no elf moves and returns their number.
    pub fn move_elves_until_stationary(&mut self) -> (n: u32)
        requires
            old(self).preference < 4,
            exists|n: int| settles_in(old(self).elves@, old(self).preference as int, n),
        ensures
            settles_in(old(self).elves@, old(self).preference as int, n as int),
            final(self).elves@ == after_rounds(
                old(self).elves@,
                old(self).preference as int,
                n as int,
            ),
    {
        self.try_until_stationary().unwrap()
    }

    /// The number of squares without an elf in the smallest rectangle that
    /// holds all elves.
    pub fn try_free_squares(&self) -> (r: Option<u64>)
        ensures
            match r {
                Some(n) => free_in(self.elves@) == Some(n as int),
                None => free_in(self.elves@) is None,
            },
    {
        if self.elves.len() == 0 {
            return None;
        }
        let first = self.elves[0];
        let mut x_min = first.0;
        let mut x_max = first.0;
        let mut y_min = first.1;
        let mut y_max = first.1;
        let mut i: usize = 1;
        assert(self.elves@.take(1).len() == 1);
        assert(self.elves@.take(1)[0] == self.elves@[0]);
        while i < self.elves.len()
            invariant
                1 <= i <= self.elves.len(),
                bounds(self.elves@.take(i as int)) == (
                    x_min as int,
                    x_max as int,
                    y_min as int,
                    y_max as int,
                ),
            decreases self.elves.len() - i,
        {
            let e = self.elves[i];
            proof {
                assert(self.elves@.take(i + 1).drop_last() =~= self.elves@.take(i as int));
                assert(self.elves@.take(i + 1).last() == e);
            }
            if e.0 < x_min {
                x_min = e.0;
            }
            if e.0 > x_max {
                x_max = e.0;
            }
            if e.1 < y_min {
                y_min = e.1;
            }
            if e.1 > y_max {
                y_max = e.1;
            }
            i += 1;
        }
        assert(self.elves@.take(i as int) =~= self.elves@);
        let width: i128 = x_max as i128 - x_min as i128 + 1;
        let height: i128 = y_max as i128 - y_min as i128 + 1;
        if width > 0x7fff_ffff_ffff_ffff || height > 0x7fff_ffff_ffff_ffff || width <= 0 || height <= 0 {
            proof {
                lemma_bounds_ordered(self.elves@);
            }
            return None;
        }
        let w = width as u64;
        let h = height as u64;
        let fits = w <= u64::MAX / h;
        assert(fits == (w * h <= u64::MAX)) by (nonlinear_arith)
            requires
                fits == (w <= u64::MAX / h),
                h > 0,
                0 <= w,
        ;
        if !fits {
            return None;
        }
        let area = w * h;
        if self.elves.len() as u64 > area {
            return None;
        }
        Some(area - self.elves.len() as u64)
    }

    /// The number of squares without an elf in the smallest rectangle that
    /// holds all elves.
    pub fn free_squares(&self) -> (n: u64)
        requires
            free_in(self.elves@) is Some,
        ensures
            free_in(self.elves@) == Some(n as int),
    {
        self.try_free_squares().unwrap()
    }

    /// The elves that `input` shows; `None` where its rows or columns cannot
    /// be numbered in 64 bits.
    pub fn try_new(input: &str) -> (r: Option<Grove>)
        ensures
            r is Some <==> is_small(input@),
            r matches Some(grove) ==> grove.elves@ == elves_of(input@) && grove.preference == 0,
    {
        let text = chars_of(input);
        let ls = lines_of(&text);
        let ghost all = lines(input@);
        if ls.len() as u64 > 0x7fff_ffff_ffff_ffff {
            return None;
        }
        let mut elves: Vec<(i64, i64)> = Vec::new();
        let mut i: usize = 0;
        while i < ls.len()
            invariant
                i <= ls.len(),
                ls.len() <= i64::MAX,
                all == rows(ls@),
                all == lines(input@),
                forall|k: int| 0 <= k < i ==> (#[trigger] all[k]).len() <= i64::MAX,
                elves@ == elves_in(all, i as int, 0),
            decreases ls.len() - i,
        {
            let line = &ls[i];
            assert(all[i as int] == line@);
            if line.len() as u64 > 0x7fff_ffff_ffff_ffff {
                return None;
            }
            let mut j: usize = 0;
            while j < line.len()
                invariant
                    j <= line.len(),
                    i < ls.len(),
                    ls.len() <= i64::MAX,
                    line.len() <= i64::MAX,
                    all == rows(ls@),
                    all[i as int] == line@,
                    elves@ == elves_in(all, i as int, j as int),
                decreases line.len() - j,
            {
                if line[j] == '#' {
                    elves.push((j as i64, i as i64));
                }
                j += 1;
            }
            i += 1;
        }
        Some(Grove { elves, preference: 0 })
    }

    /// The elves that `input` shows.
    pub fn new(input: &str) -> (grove: Grove)
        requires
            is_small(input@),
        ensures
            grove.elves@ == elves_of(input@),
            grove.preference == 0,
    {
        Grove::try_new(input).unwrap()
    }
}

/// The least coordinates are not greater than the greatest.
proof fn lemma_bounds_ordered(elves: Seq<(i64, i64)>)
    requires
        elves.len() > 0,
    ensures
        bounds(elves).0 <= bounds(elves).1,
        bounds(elves).2 <= bounds(elves).3,
        i64::MIN <= bounds(elves).0 && bounds(elves).1 <= i64::MAX,
        i64::MIN <= bounds(elves).2 && bounds(elves).3 <= i64::MAX,
    decreases elves.len(),
{
    if elves.len() > 1 {
        lemma_bounds_ordered(elves.drop_last());
    }
}

/// The number of free squares after ten rounds; `None` where it cannot be
/// worked out.
pub open spec fn free_after_ten(input: Seq<char>) -> Option<int> {
    if is_small(input) && room_for(elves_of(input), 0, 10) {
        free_in(after_rounds(elves_of(input), 0, 10))
    } else {
        None
    }
}

/// The rounds of `input` come to an end.
pub open spec fn comes_to_rest(input: Seq<char>) -> bool {
    is_small(input) && exists|n: int| settles_in(elves_of(input), 0, n)
}

impl DayTwentyThree {
    /// The first answer; `None` where it cannot be worked out.
    pub fn try_part_one(&self, input: &str) -> (r: Option<String>)
        ensures
            match r {
                Some(out) => free_after_ten(input@) is Some && out@ == "Free squares: "@ + decimal(
                    free_after_ten(input@)->0 as nat,
                ),
                None => free_after_ten(input@) is None,
            },
    {
        let mut map = match Grove::try_new(input) {
            None => {
                return None;
            },
            Some(m) => m,
        };
        if !map.try_move_elves_multi(10) {
            return None;
        }
        match map.try_free_squares() {
            None => None,
            Some(free_squares) => Some(labelled_number("Free squares: ", free_squares)),
        }
    }

    /// Reports the number of free squares after ten rounds.
    pub fn part_one(&self, input: &str) -> (out: String)
        requires
            free_after_ten(input@) is Some,
        ensures
            out@ == "Free squares: "@ + decimal(free_after_ten(input@)->0 as nat),
    {
        self.try_part_one(input).unwrap()
    }

    /// The second answer; `None` where the rounds do not come to an end.
    pub fn try_part_two(&self, input: &str) -> (r: Option<String>)
        ensures
            r is Some <==> comes_to_rest(input@),
            r matches Some(out) ==> exists|n: int|
                settles_in(elves_of(input@), 0, n) && out@ == "Moves until stationary: "@ + decimal(
                    n as nat,
                ),
    {
        let mut map = match Grove::try_new(input) {
            None => {
                return None;
            },
            Some(m) => m,
        };
        match map.try_until_stationary() {
            None => None,
            Some(moves) => Some(labelled_number("Moves until stationary: ", moves as u64)),
        }
    }

    /// Reports the number of the first round in which no elf moves.
    pub fn part_two(&self, input: &str) -> (out: String)
        requires
            comes_to_rest(input@),
        ensures
            exists|n: int|
                settles_in(elves_of(input@), 0, n) && out@ == "Moves until stationary: "@ + decimal(
                    n as nat,
                ),
    {
        self.try_part_two(input).unwrap()
    }
}

} // verus!
