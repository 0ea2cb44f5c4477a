use crate::grid::{cells, occupied, occupy};
use crate::text::{chars_of, decimal, labelled_number, lines, lines_of, rows};
use std::collections::HashSet;
use vstd::prelude::*;

verus! {

broadcast use vstd::std_specs::hash::group_hash_axioms;

pub struct DayTwentyFour;

#[derive(Debug, Clone, Copy, PartialEq, Eq, Structural)]
pub enum Direction {
    Up,
    Down,
    Left,
    Right,
}

/// A valley with blizzards: for every square the direction of the blizzard
/// that starts there, if one does, and the numbers of columns and rows,
/// walls counted in.
pub struct Valley {
    blizzards: Vec<Vec<Option<Direction>>>,
    x_extent: u32,
    y_extent: u32,
}

/// The valley as it is drawn: the blizzards row by row, the number of
/// columns and the number of rows.
pub struct Chart {
    pub blizzards: Seq<Seq<Option<Direction>>>,
    pub width: int,
    pub height: int,
}

impl View for Valley {
    type V = Chart;

    closed spec fn view(&self) -> Chart {
        Chart {
            blizzards: Seq::new(self.blizzards@.len(), |i: int| self.blizzards@[i]@),
            width: self.x_extent as int,
            height: self.y_extent as int,
        }
    }
}

/// Where the blizzard that starts in column `j` of row `i` is after `m`
/// minutes: it moves one square a minute and comes in again on the far side
/// where it meets the wall, the walls being one square thick.
pub open spec fn blown_to(c: Chart, d: Direction, j: int, i: int, m: int) -> (int, int) {
    match d {
        Direction::Up => (j, (i - m - 1) % (c.height - 2) + 1),
        Direction::Down => (j, (i + m - 1) % (c.height - 2) + 1),
        Direction::Left => ((j - m - 1) % (c.width - 2) + 1, i),
        Direction::Right => ((j + m - 1) % (c.width - 2) + 1, i),
    }
}

/// A blizzard is at `p` after `m` minutes.
pub open spec fn is_blown(c: Chart, p: (int, int), m: int) -> bool {
    exists|i: int, j: int|
        0 <= i < c.blizzards.len() && 0 <= j < c.blizzards[i].len() && c.blizzards[i][j] is Some
            && #[trigger] blown_to(c, c.blizzards[i][j]->0, j, i, m) == p
}

/// The way in, in the upper wall.
pub open spec fn entry() -> (int, int) {
    (1, 0)
}

/// The way out, in the lower wall.
pub open spec fn exit(c: Chart) -> (int, int) {
    (c.width - 2, c.height - 1)
}

/// One may be at `p` after `m` minutes: `p` is the way in or out, or lies
/// within the walls and no blizzard is there then.
pub open spec fn is_clear(c: Chart, p: (int, int), m: int) -> bool {
    p == exit(c) || p == entry() || (0 < p.0 < c.width - 1 && 0 < p.1 < c.height - 1 && !is_blown(
        c,
        p,
        m,
    ))
}

/// Where move `j` of five leads from `p`: to the right, down, to the left,
/// up, or nowhere else; `None` where the move would lead below zero.
pub open spec fn move_to(p: (int, int), j: int) -> Option<(int, int)> {
    if j == 0 {
        Some((p.0 + 1, p.1))
    } else if j == 1 {
        Some((p.0, p.1 + 1))
    } else if j == 2 {
        if p.0 > 0 {
            Some((p.0 - 1, p.1))
        } else {
            None
        }
    } else if j == 3 {
        if p.1 > 0 {
            Some((p.0, p.1 - 1))
        } else {
            None
        }
    } else {
        Some(p)
    }
}

/// From `p` one gets to `q` within a minute.
pub open spec fn is_move(p: (int, int), q: (int, int)) -> bool {
    exists|j: int| 0 <= j < 5 && #[trigger] move_to(p, j) == Some(q)
}

/// The squares at which one can be after `m` minutes, having been at `from`
/// after `start` minutes.
pub open spec fn within_reach(c: Chart, from: (int, int), start: int, m: int) -> Set<(int, int)>
    decreases m - start,
{
    if m <= start {
        set![from]
    } else {
        Set::new(
            |q: (int, int)|
                exists|p: (int, int)|
                    within_reach(c, from, start, m - 1).contains(p) && #[trigger] is_move(p, q)
                        && is_clear(c, q, m),
        )
    }
}

/// The valley is three squares wide and high at least, so that there is
/// room within the walls; it has as many rows as it is high, and no row is
/// longer than it is wide.
pub open spec fn has_room(c: Chart) -> bool {
    &&& c.width >= 3
    &&& c.height >= 3
    &&& c.blizzards.len() == c.height
    &&& forall|i: int| 0 <= i < c.blizzards.len() ==> (#[trigger] c.blizzards[i]).len() <= c.width
}

/// The last minute for which the places of the blizzards can be worked out
/// in 32 bits.
pub open spec fn last_minute(c: Chart) -> int {
    i32::MAX - c.width - c.height - 2
}

/// `t` is the first minute from `start` on at which one can be at `to`.
pub open spec fn is_first_at(c: Chart, from: (int, int), to: (int, int), start: int, t: int) -> bool {
    &&& start <= t
    &&& within_reach(c, from, start, t).contains(to)
    &&& forall|m: int| start <= m < t ==> !within_reach(c, from, start, m).contains(to)
}

/// The end of a crossing that begins at the way in, or at the way out where
/// `reverse` is set.
pub open spec fn ends(c: Chart, reverse: bool) -> ((int, int), (int, int)) {
    if reverse {
        (exit(c), entry())
    } else {
        (entry(), exit(c))
    }
}

/// The position as a pair of integers.
pub open spec fn at(p: (u32, u32)) -> (int, int) {
    (p.0 as int, p.1 as int)
}

/// The places of the blizzards that start before column `j` of row `i`, in
/// the order of reading, after `m` minutes.
pub open spec fn blown_before(c: Chart, m: int, i: int, j: int) -> Set<(int, int)> {
    Set::new(
        |p: (int, int)|
            exists|i2: int, j2: int|
                (i2 < i || (i2 == i && j2 < j)) && 0 <= i2 < c.blizzards.len() && 0 <= j2
                    < c.blizzards[i2].len() && c.blizzards[i2][j2] is Some && #[trigger] blown_to(
                    c,
                    c.blizzards[i2][j2]->0,
                    j2,
                    i2,
                    m,
                ) == p,
    )
}

/// The squares reached from the first `k` of the squares `from`, and by the
/// first `j` moves from the next, that are clear after `m` minutes.
pub open spec fn reached_from(c: Chart, from: Seq<(u32, u32)>, m: int, k: int, j: int) -> Set<(int, int)> {
    Set::new(
        |q: (int, int)|
            is_clear(c, q, m) && exists|k2: int, j2: int|
                (k2 < k || (k2 == k && j2 < j)) && 0 <= k2 < from.len() && 0 <= j2 < 5
                    && #[trigger] move_to(at(from[k2]), j2) == Some(q),
    )
}

/// The squares of the sequence.
pub open spec fn squares_of(from: Seq<(u32, u32)>) -> Set<(int, int)> {
    Set::new(|p: (int, int)| exists|k: int| 0 <= k < from.len() && at(#[trigger] from[k]) == p)
}

/// Once no square is within reach, none comes within reach again.
proof fn lemma_out_of_reach(c: Chart, from: (int, int), start: int, t: int, m: int)
    requires
        start <= t <= m,
        forall|p: (int, int)| !within_reach(c, from, start, t).contains(p),
    ensures
        forall|p: (int, int)| !within_reach(c, from, start, m).contains(p),
    decreases m - t,
{
    if t < m {
        lemma_out_of_reach(c, from, start, t, m - 1);
        assert forall|q: (int, int)| !within_reach(c, from, start, m).contains(q) by {
            if within_reach(c, from, start, m).contains(q) {
                let p = choose|p: (int, int)|
                    within_reach(c, from, start, m - 1).contains(p) && #[trigger] is_move(p, q)
                        && is_clear(c, q, m);
                assert(!within_reach(c, from, start, m - 1).contains(p));
            }
        }
    }
}

impl Valley {
    /// The valley has room within its walls.
    pub open spec fn wf(self) -> bool {
        has_room(self@)
    }

    /// The places of the blizzards after `move_num` minutes.
    fn update_blizzards(&self, move_num: u32) -> (blown: HashSet<u64>)
        requires
            self.wf(),
            move_num <= last_minute(self@),
        ensures
            forall|p: (int, int)| cells(blown@).contains(p) <==> is_blown(self@, p, move_num as int),
    {
        let ghost c = self@;
        let ghost m = move_num as int;
        let mut blizzards: HashSet<u64> = HashSet::new();
        let mut i: usize = 0;
        assert(cells(blizzards@) =~= blown_before(c, m, 0, 0));
        while i < self.blizzards.len()
            invariant
                i <= self.blizzards.len(),
                self.wf(),
                c == self@,
                m == move_num,
                move_num <= last_minute(c),
                cells(blizzards@) == blown_before(c, m, i as int, 0),
            decreases self.blizzards.len() - i,
        {
            let line = &self.blizzards[i];
            assert(c.blizzards[i as int] == line@);
            let mut j: usize = 0;
            while j < line.len()
                invariant
                    j <= line.len(),
                    i < self.blizzards.len(),
                    self.wf(),
                    c == self@,
                    c.blizzards[i as int] == line@,
                    m == move_num,
                    move_num <= last_minute(c),
                    cells(blizzards@) == blown_before(c, m, i as int, j as int),
                decreases line.len() - j,
            {
                let ghost before = cells(blizzards@);
                if let Some(direction) = line[j] {
                    let x_b = j as i64;
                    let y_b = i as i64;
                    let t = move_num as i64;
                    let h = self.y_extent as i64 - 2;
                    let w = self.x_extent as i64 - 2;
                    let blizzard_coord: (u32, u32) = match direction {
                        Direction::Up => (
                            x_b as u32,
                            ((y_b - t - 1).checked_rem_euclid(h).unwrap() + 1) as u32,
                        ),
                        Direction::Down => (
                            x_b as u32,
                            ((y_b + t - 1).checked_rem_euclid(h).unwrap() + 1) as u32,
                        ),
                        Direction::Left => (
                            ((x_b - t - 1).checked_rem_euclid(w).unwrap() + 1) as u32,
                            y_b as u32,
                        ),
                        Direction::Right => (
                            ((x_b + t - 1).checked_rem_euclid(w).unwrap() + 1) as u32,
                            y_b as u32,
                        ),
                    };
                    assert(at(blizzard_coord) == blown_to(c, direction, j as int, i as int, m));
                    occupy(&mut blizzards, blizzard_coord);
                }
                proof {
                    let here = blown_before(c, m, i as int, j as int);
                    let next = blown_before(c, m, i as int, j + 1);
                    assert forall|p: (int, int)| next.contains(p) <==> here.contains(p) || (line@[j as int]
                        is Some && blown_to(c, line@[j as int]->0, j as int, i as int, m) == p) by {
                        if next.contains(p) {
                            let (i2, j2) = choose|i2: int, j2: int|
                                (i2 < i || (i2 == i && j2 < j + 1)) && 0 <= i2 < c.blizzards.len()
                                    && 0 <= j2 < c.blizzards[i2].len() && c.blizzards[i2][j2] is Some
                                    && #[trigger] blown_to(c, c.blizzards[i2][j2]->0, j2, i2, m)
                                    == p;
                            if !(i2 == i && j2 == j) {
                                assert(here.contains(p));
                            }
                        }
                        if here.contains(p) {
                            let (i2, j2) = choose|i2: int, j2: int|
                                (i2 < i || (i2 == i && j2 < j)) && 0 <= i2 < c.blizzards.len() && 0
                                    <= j2 < c.blizzards[i2].len() && c.blizzards[i2][j2] is Some
                                    && #[trigger] blown_to(c, c.blizzards[i2][j2]->0, j2, i2, m)
                                    == p;
                            assert(i2 < i || (i2 == i && j2 < j + 1));
                        }
                        if line@[j as int] is Some && blown_to(
                            c,
                            line@[j as int]->0,
                            j as int,
                            i as int,
                            m,
                        ) == p {
                            assert(c.blizzards[i as int][j as int] is Some && blown_to(
                                c,
                                c.blizzards[i as int][j as int]->0,
                                j as int,
                                i as int,
                                m,
                            ) == p);
                        }
                    }
                    assert(cells(blizzards@) =~= next);
                }
                j += 1;
            }
            proof {
                let here = blown_before(c, m, i as int, j as int);
                let next = blown_before(c, m, i + 1, 0);
                assert forall|p: (int, int)| next.contains(p) <==> here.contains(p) by {
                    if next.contains(p) {
                        let (i2, j2) = choose|i2: int, j2: int|
                            (i2 < i + 1 || (i2 == i + 1 && j2 < 0)) && 0 <= i2 < c.blizzards.len()
                                && 0 <= j2 < c.blizzards[i2].len() && c.blizzards[i2][j2] is Some
                                && #[trigger] blown_to(c, c.blizzards[i2][j2]->0, j2, i2, m) == p;
                        assert(i2 < i || (i2 == i && j2 < j));
                    }
                    if here.contains(p) {
                        let (i2, j2) = choose|i2: int, j2: int|
                            (i2 < i || (i2 == i && j2 < j)) && 0 <= i2 < c.blizzards.len() && 0
                                <= j2 < c.blizzards[i2].len() && c.blizzards[i2][j2] is Some
                                && #[trigger] blown_to(c, c.blizzards[i2][j2]->0, j2, i2, m) == p;
                        assert(i2 < i + 1);
                    }
                }
                assert(here =~= next);
            }
            i += 1;
        }
        proof {
            assert forall|p: (int, int)| cells(blizzards@).contains(p) <==> is_blown(c, p, m) by {
                if is_blown(c, p, m) {
                    let (i2, j2) = choose|i2: int, j2: int|
                        0 <= i2 < c.blizzards.len() && 0 <= j2 < c.blizzards[i2].len()
                            && c.blizzards[i2][j2] is Some && #[trigger] blown_to(
                            c,
                            c.blizzards[i2][j2]->0,
                            j2,
                            i2,
                            m,
                        ) == p;
                    assert(i2 < i);
                    assert(blown_before(c, m, i as int, 0).contains(p));
                }
                if cells(blizzards@).contains(p) {
                    assert(blown_before(c, m, i as int, 0).contains(p));
                }
            }
        }
        blizzards
    }

    /// Whether one may be at `(x, y)` after `move_num` minutes, the places of
    /// the blizzards then being `blown`.
    fn can_move(&self, x: u32, y: u32, blown: &HashSet<u64>, Ghost(move_num): Ghost<int>) -> (b: bool)
        requires
            self.wf(),
            forall|p: (int, int)| cells(blown@).contains(p) <==> is_blown(self@, p, move_num),
        ensures
            b == is_clear(self@, (x as int, y as int), move_num),
    {
        if x == self.x_extent - 2 && y == self.y_extent - 1 {
            return true;
        }
        if x == 1 && y == 0 {
            return true;
        }
        if x == 0 || y == 0 || x >= self.x_extent - 1 || y >= self.y_extent - 1 {
            return false;
        }
        return !occupied(blown, (x, y));
    }
}

impl Valley {
    /// The first minute from `start_num` on at which one can be at the far
    /// end of the valley, having been at the near end after `start_num`
    /// minutes; the near end is the way in, or the way out where `reverse` is
    /// set. `None` where there is no such minute up to the last for which the
    /// blizzards can be placed.
    pub fn minimum_moves(&mut self, start_num: u32, reverse: bool) -> (r: Option<u32>)
        requires
            old(self).wf(),
        ensures
            *final(self) == *old(self),
            r is Some <==> comes_across(old(self)@, reverse, start_num as int),
            match r {
                Some(t) => t <= last_minute(old(self)@) && is_first_at(
                    old(self)@,
                    ends(old(self)@, reverse).0,
                    ends(old(self)@, reverse).1,
                    start_num as int,
                    t as int,
                ),
                None => forall|m: int|
                    start_num <= m <= last_minute(old(self)@) ==> !within_reach(
                        old(self)@,
                        ends(old(self)@, reverse).0,
                        start_num as int,
                        m,
                    ).contains(ends(old(self)@, reverse).1),
            },
    {
        let ghost c = self@;
        let (from, to): ((u32, u32), (u32, u32)) = if reverse {
            ((self.x_extent - 2, self.y_extent - 1), (1, 0))
        } else {
            ((1, 0), (self.x_extent - 2, self.y_extent - 1))
        };
        let ghost start = start_num as int;
        let limit: i64 = 0x7fff_ffff - self.x_extent as i64 - self.y_extent as i64 - 2;
        let mut members: Vec<(u32, u32)> = Vec::new();
        members.push(from);
        let mut t: u32 = start_num;
        proof {
            assert(squares_of(members@) =~= within_reach(c, at(from), start, start)) by {
                assert(at(members@[0]) == at(from));
            }
        }
        loop
            invariant
                *self == *old(self),
                self.wf(),
                c == self@,
                start == start_num,
                start <= t,
                start < t ==> t <= limit,
                limit == last_minute(c),
                at(from) == ends(c, reverse).0,
                at(to) == ends(c, reverse).1,
                at(from) != at(to),
                squares_of(members@) == within_reach(c, at(from), start, t as int),
                forall|m: int| start <= m < t ==> !within_reach(c, at(from), start, m).contains(at(to)),
                forall|k2: int|
                    0 <= k2 < members.len() ==> (#[trigger] members@[k2]).0 < c.width
                        && members@[k2].1 < c.height,
            decreases limit - t,
        {
            let mut found = false;
            let mut k: usize = 0;
            while k < members.len()
                invariant
                    k <= members.len(),
                    found == exists|k2: int| 0 <= k2 < k && at(#[trigger] members@[k2]) == at(to),
                decreases members.len() - k,
            {
                if members[k].0 == to.0 && members[k].1 == to.1 {
                    found = true;
                }
                k += 1;
            }
            assert(found == squares_of(members@).contains(at(to)));
            if found {
                proof {
                    if t == start {
                        assert(within_reach(c, at(from), start, start) == set![at(from)]);
                    }
                    assert(within_reach(c, ends(c, reverse).0, start, t as int).contains(
                        ends(c, reverse).1,
                    ));
                }
                return Some(t);
            }
            if t as i64 >= limit {
                return None;
            }
            if members.len() == 0 {
                proof {
                    assert forall|m: int| start <= m <= last_minute(c) implies !within_reach(
                        c,
                        at(from),
                        start,
                        m,
                    ).contains(at(to)) by {
                        if m >= t {
                            assert forall|p: (int, int)| !within_reach(
                                c,
                                at(from),
                                start,
                                t as int,
                            ).contains(p) by {
                                assert(!squares_of(members@).contains(p));
                            }
                            lemma_out_of_reach(c, at(from), start, t as int, m);
                        }
                    }
                }
                return None;
            }
            let blown = self.update_blizzards(t + 1);
            let mut next: Vec<(u32, u32)> = Vec::new();
            let mut next_keys: HashSet<u64> = HashSet::new();
            let ghost m = t + 1;
            let mut k: usize = 0;
            assert(cells(next_keys@) =~= reached_from(c, members@, m, 0, 0));
            assert(squares_of(next@) =~= cells(next_keys@));
            while k < members.len()
                invariant
                    k <= members.len(),
                    self.wf(),
                    c == self@,
                    m == t + 1,
                    t < limit,
                    limit == last_minute(c),
                    forall|p: (int, int)| cells(blown@).contains(p) <==> is_blown(c, p, m),
                    cells(next_keys@) == reached_from(c, members@, m, k as int, 0),
                    squares_of(next@) == cells(next_keys@),
                    forall|k2: int|
                        0 <= k2 < members.len() ==> (#[trigger] members@[k2]).0 < c.width
                            && members@[k2].1 < c.height,
                decreases members.len() - k,
            {
                let (x, y) = members[k];
                let mut j: usize = 0;
                while j < 5
                    invariant
                        j <= 5,
                        k < members.len(),
                        (x, y) == members@[k as int],
                        x < c.width && y < c.height,
                        self.wf(),
                        c == self@,
                        forall|p: (int, int)| cells(blown@).contains(p) <==> is_blown(c, p, m),
                        cells(next_keys@) == reached_from(c, members@, m, k as int, j as int),
                        squares_of(next@) == cells(next_keys@),
                    decreases 5 - j,
                {
                    let square: Option<(u32, u32)> = if j == 0 {
                        Some((x + 1, y))
                    } else if j == 1 {
                        Some((x, y + 1))
                    } else if j == 2 {
                        if x > 0 {
                            Some(((x - 1) as u32, y))
                        } else {
                            None
                        }
                    } else if j == 3 {
                        if y > 0 {
                            Some((x, (y - 1) as u32))
                        } else {
                            None
                        }
                    } else {
                        Some((x, y))
                    };
                    let ghost held = cells(next_keys@);
                    let ghost listed = next@;
                    let mut added = false;
                    if let Some(q) = square {
                        if !occupied(&next_keys, q) && self.can_move(q.0, q.1, &blown, Ghost(m)) {
                            occupy(&mut next_keys, q);
                            next.push(q);
                            added = true;
                        }
                    }
                    proof {
                        let target = move_to(at((x, y)), j as int);
                        assert(target == (match square {
                            Some(q) => Some(at(q)),
                            None => None,
                        }));
                        let here = reached_from(c, members@, m, k as int, j as int);
                        let after = reached_from(c, members@, m, k as int, j + 1);
                        assert forall|q: (int, int)| after.contains(q) <==> here.contains(q) || (
                        target == Some(q) && is_clear(c, q, m)) by {
                            if after.contains(q) {
                                let (k2, j2) = choose|k2: int, j2: int|
                                    (k2 < k || (k2 == k && j2 < j + 1)) && 0 <= k2 < members@.len()
                                        && 0 <= j2 < 5 && #[trigger] move_to(at(members@[k2]), j2)
                                        == Some(q);
                                if !(k2 == k && j2 == j) {
                                    assert(here.contains(q));
                                }
                            }
                            if here.contains(q) {
                                let (k2, j2) = choose|k2: int, j2: int|
                                    (k2 < k || (k2 == k && j2 < j)) && 0 <= k2 < members@.len() && 0
                                        <= j2 < 5 && #[trigger] move_to(at(members@[k2]), j2)
                                        == Some(q);
                                assert(k2 < k || (k2 == k && j2 < j + 1));
                            }
                            if target == Some(q) && is_clear(c, q, m) {
                                assert(move_to(at(members@[k as int]), j as int) == Some(q));
                            }
                        }
                        assert(cells(next_keys@) =~= after);
                        assert forall|p: (int, int)| squares_of(next@).contains(p) <==> squares_of(
                            listed,
                        ).contains(p) || (added && target == Some(p)) by {
                            if squares_of(next@).contains(p) {
                                let k2 = choose|k2: int|
                                    0 <= k2 < next@.len() && at(#[trigger] next@[k2]) == p;
                                if k2 < listed.len() {
                                    assert(listed[k2] == next@[k2]);
                                }
                            }
                            if squares_of(listed).contains(p) {
                                let k2 = choose|k2: int|
                                    0 <= k2 < listed.len() && at(#[trigger] listed[k2]) == p;
                                assert(next@[k2] == listed[k2]);
                            }
                            if added && target == Some(p) {
                                assert(at(next@[next@.len() - 1]) == p);
                            }
                        }
                        assert(squares_of(next@) =~= cells(next_keys@));
                    }
                    j += 1;
                }
                proof {
                    let here = reached_from(c, members@, m, k as int, 5);
                    let after = reached_from(c, members@, m, k + 1, 0);
                    assert forall|q: (int, int)| after.contains(q) <==> here.contains(q) by {
                        if after.contains(q) {
                            let (k2, j2) = choose|k2: int, j2: int|
                                (k2 < k + 1 || (k2 == k + 1 && j2 < 0)) && 0 <= k2 < members@.len()
                                    && 0 <= j2 < 5 && #[trigger] move_to(at(members@[k2]), j2)
                                    == Some(q);
                            assert(k2 < k || (k2 == k && j2 < 5));
                        }
                        if here.contains(q) {
                            let (k2, j2) = choose|k2: int, j2: int|
                                (k2 < k || (k2 == k && j2 < 5)) && 0 <= k2 < members@.len() && 0
                                    <= j2 < 5 && #[trigger] move_to(at(members@[k2]), j2) == Some(
                                    q,
                                );
                            assert(k2 < k + 1);
                        }
                    }
                    assert(here =~= after);
                }
                k += 1;
            }
            proof {
                let before = within_reach(c, at(from), start, t as int);
                let after = within_reach(c, at(from), start, m);
                let got = reached_from(c, members@, m, members@.len() as int, 0);
                assert forall|q: (int, int)| after.contains(q) <==> got.contains(q) by {
                    if after.contains(q) {
                        let p = choose|p: (int, int)|
                            before.contains(p) && #[trigger] is_move(p, q) && is_clear(c, q, m);
                        assert(squares_of(members@).contains(p));
                        let k2 = choose|k2: int|
                            0 <= k2 < members@.len() && at(#[trigger] members@[k2]) == p;
                        let j2 = choose|j2: int| 0 <= j2 < 5 && #[trigger] move_to(p, j2) == Some(q);
                        assert(move_to(at(members@[k2]), j2) == Some(q));
                    }
                    if got.contains(q) {
                        let (k2, j2) = choose|k2: int, j2: int|
                            (k2 < members@.len() || (k2 == members@.len() && j2 < 0)) && 0 <= k2
                                < members@.len() && 0 <= j2 < 5 && #[trigger] move_to(
                                at(members@[k2]),
                                j2,
                            ) == Some(q);
                        let p = at(members@[k2]);
                        assert(squares_of(members@).contains(p));
                        assert(is_move(p, q));
                    }
                }
                assert(after =~= got);
                assert forall|k2: int| 0 <= k2 < next@.len() implies (#[trigger] next@[k2]).0
                    < c.width && next@[k2].1 < c.height by {
                    assert(squares_of(next@).contains(at(next@[k2])));
                    assert(got.contains(at(next@[k2])));
                }
            }
            members = next;
            t += 1;
        }
    }
}

/// The blizzard that a character stands for, if it stands for one.
pub open spec fn blizzard_of(c: char) -> Option<Direction> {
    if c == '^' {
        Some(Direction::Up)
    } else if c == '>' {
        Some(Direction::Right)
    } else if c == '<' {
        Some(Direction::Left)
    } else if c == 'v' {
        Some(Direction::Down)
    } else {
        None
    }
}

/// The valley that `input` draws, one row per line: it is as wide as the
/// first line is long.
pub open spec fn chart_of(input: Seq<char>) -> Chart {
    let ls = lines(input);
    Chart {
        blizzards: Seq::new(ls.len(), |i: int| Seq::new(ls[i].len(), |j: int| blizzard_of(ls[i][j]))),
        width: ls[0].len() as int,
        height: ls.len() as int,
    }
}

/// `input` draws a valley with room within its walls, in plain characters,
/// whose size fits in 32 bits.
pub open spec fn is_valley(input: Seq<char>) -> bool {
    let ls = lines(input);
    &&& 3 <= ls.len() <= u32::MAX
    &&& 3 <= ls[0].len() <= u32::MAX
    &&& forall|j: int| 0 <= j < ls[0].len() ==> (#[trigger] ls[0][j]) as u32 <= 0x7f
    &&& forall|i: int| 0 <= i < ls.len() ==> (#[trigger] ls[i]).len() <= ls[0].len()
}

/// `t` is the first minute at which one can be at the way out, having set
/// out from the way in.
pub open spec fn is_crossing(c: Chart, t: int) -> bool {
    is_first_at(c, entry(), exit(c), 0, t)
}

/// `t` is the first minute at which one can be at the way out for the
/// second time, having gone back to the way in as early as could be after
/// being at the way out as early as could be.
pub open spec fn is_round_trip(c: Chart, t: int) -> bool {
    exists|t1: int, t2: int|
        #[trigger] is_first_at(c, entry(), exit(c), 0, t1) && #[trigger] is_first_at(
            c,
            exit(c),
            entry(),
            t1,
            t2,
        ) && is_first_at(c, entry(), exit(c), t2, t)
}

impl Valley {
    /// Reads a valley; `None` where `input` draws none.
    pub fn try_new(input: &str) -> (r: Option<Valley>)
        ensures
            r is Some <==> is_valley(input@),
            r matches Some(valley) ==> valley.wf() && valley@ == chart_of(input@),
    {
        let text = chars_of(input);
        let ls = lines_of(&text);
        let ghost all = lines(input@);
        if ls.len() < 3 || ls.len() as u64 > 0xffff_ffff {
            return None;
        }
        assert(all[0] == ls@[0]@);
        if ls[0].len() < 3 || ls[0].len() as u64 > 0xffff_ffff {
            return None;
        }
        let y_extent = ls.len() as u32;
        let x_extent = ls[0].len() as u32;
        let mut j: usize = 0;
        while j < ls[0].len()
            invariant
                j <= ls@[0]@.len(),
                ls.len() >= 3,
                all == rows(ls@),
                all == lines(input@),
                forall|k: int| 0 <= k < j ==> (#[trigger] all[0][k]) as u32 <= 0x7f,
            decreases ls@[0]@.len() - j,
        {
            assert(all[0] == ls@[0]@);
            if ls[0][j] as u32 > 0x7f {
                return None;
            }
            j += 1;
        }
        let mut map: Vec<Vec<Option<Direction>>> = Vec::new();
        let mut i: usize = 0;
        while i < ls.len()
            invariant
                i <= ls.len(),
                ls.len() >= 3,
                all == rows(ls@),
                all == lines(input@),
                x_extent == all[0].len(),
                map.len() == i,
                forall|k: int| 0 <= k < i ==> (#[trigger] all[k]).len() <= all[0].len(),
                forall|k: int| 0 <= k < i ==> (#[trigger] map@[k])@ == chart_of(input@).blizzards[k],
            decreases ls.len() - i,
        {
            let line = &ls[i];
            assert(all[i as int] == line@);
            if line.len() > x_extent as usize {
                return None;
            }
            let mut row: Vec<Option<Direction>> = Vec::new();
            let mut j: usize = 0;
            while j < line.len()
                invariant
                    j <= line.len(),
                    row.len() == j,
                    forall|k: int| 0 <= k < j ==> row@[k] == blizzard_of(line@[k]),
                decreases line.len() - j,
            {
                let character = line[j];
                row.push(
                    if character == '^' {
                        Some(Direction::Up)
                    } else if character == '>' {
                        Some(Direction::Right)
                    } else if character == '<' {
                        Some(Direction::Left)
                    } else if character == 'v' {
                        Some(Direction::Down)
                    } else {
                        None
                    },
                );
                j += 1;
            }
            assert(row@ =~= chart_of(input@).blizzards[i as int]);
            map.push(row);
            i += 1;
        }
        let valley = Valley { blizzards: map, x_extent, y_extent };
        proof {
            assert(valley@.blizzards =~= chart_of(input@).blizzards);
            assert forall|k: int| 0 <= k < valley@.blizzards.len() implies (
            #[trigger] valley@.blizzards[k]).len() <= valley@.width by {
                assert(all[k].len() <= all[0].len());
            }
        }
        Some(valley)
    }

    /// Reads a valley.
    pub fn new(input: &str) -> (valley: Valley)
        requires
            is_valley(input@),
        ensures
            valley.wf(),
            valley@ == chart_of(input@),
    {
        Valley::try_new(input).unwrap()
    }
}

impl DayTwentyFour {
    /// The first answer; `None` where `input` draws no valley or the way out
    /// is not reached.
    pub fn try_part_one(&self, input: &str) -> (r: Option<String>)
        ensures
            r is Some <==> is_valley(input@) && exists|t: int|
                0 <= t <= last_minute(chart_of(input@)) && #[trigger] is_crossing(
                    chart_of(input@),
                    t,
                ),
            r matches Some(out) ==> is_valley(input@) && exists|t: int|
                0 <= t && #[trigger] is_crossing(chart_of(input@), t) && out@ == "Minimum moves: "@
                    + decimal(t as nat),
            r is None ==> !is_valley(input@) || forall|t: int|
                0 <= t <= last_minute(chart_of(input@)) ==> !#[trigger] is_crossing(
                    chart_of(input@),
                    t,
                ),
    {
        let mut map = match Valley::try_new(input) {
            None => {
                return None;
            },
            Some(m) => m,
        };
        let ghost c = map@;
        match map.minimum_moves(0, false) {
            None => {
                assert forall|t: int| 0 <= t <= last_minute(chart_of(input@)) implies !#[trigger] is_crossing(
                    chart_of(input@),
                    t,
                ) by {
                    assert(c == chart_of(input@));
                    assert(ends(c, false) == (entry(), exit(c)));
                    assert(!within_reach(c, ends(c, false).0, 0, t).contains(ends(c, false).1));
                }
                None
            },
            Some(moves) => {
                let out = labelled_number("Minimum moves: ", moves as u64);
                assert(is_crossing(chart_of(input@), moves as int));
                Some(out)
            },
        }
    }

    /// Reports the first minute at which one can be at the way out.
    pub fn part_one(&self, input: &str) -> (out: String)
        requires
            is_valley(input@),
            exists|t: int|
                0 <= t <= last_minute(chart_of(input@)) && #[trigger] is_crossing(chart_of(input@), t),
        ensures
            exists|t: int|
                0 <= t && #[trigger] is_crossing(chart_of(input@), t) && out@ == "Minimum moves: "@
                    + decimal(t as nat),
    {
        self.try_part_one(input).unwrap()
    }

    /// The second answer; `None` where `input` draws no valley or one of the
    /// three crossings does not come to its end by the last minute for which
    /// the blizzards can be placed.
    pub fn try_part_two(&self, input: &str) -> (r: Option<String>)
        ensures
            r is Some <==> is_valley(input@) && exists|t: int| #[trigger]
                is_round_trip_in_time(chart_of(input@), t),
            r matches Some(out) ==> exists|t: int|
                0 <= t && #[trigger] is_round_trip_in_time(chart_of(input@), t) && out@
                    == "Minimum moves: "@ + decimal(t as nat),
            r matches Some(out) ==> is_valley(input@) && exists|t: int|
                0 <= t && #[trigger] is_round_trip(chart_of(input@), t) && out@
                    == "Minimum moves: "@ + decimal(t as nat),
    {
        let mut map = match Valley::try_new(input) {
            None => {
                return None;
            },
            Some(m) => m,
        };
        let ghost c = chart_of(input@);
        let leg_1 = match map.minimum_moves(0, false) {
            None => {
                proof {
                    lemma_no_round_trip(c, 0, 0, 0);
                }
                return None;
            },
            Some(t) => t,
        };
        let leg_2 = match map.minimum_moves(leg_1, true) {
            None => {
                proof {
                    lemma_no_round_trip(c, 1, leg_1 as int, 0);
                }
                return None;
            },
            Some(t) => t,
        };
        let leg_3 = match map.minimum_moves(leg_2, false) {
            None => {
                proof {
                    lemma_no_round_trip(c, 2, leg_1 as int, leg_2 as int);
                }
                return None;
            },
            Some(t) => t,
        };
        let out = labelled_number("Minimum moves: ", leg_3 as u64);
        proof {
            assert(is_first_at(c, entry(), exit(c), 0, leg_1 as int));
            assert(is_first_at(c, exit(c), entry(), leg_1 as int, leg_2 as int));
            assert(is_first_at(c, entry(), exit(c), leg_2 as int, leg_3 as int));
            assert(is_round_trip(c, leg_3 as int));
            assert(is_round_trip_in_time(c, leg_3 as int));
        }
        Some(out)
    }

    /// Reports the first minute at which one can be at the way out for the
    /// second time.
    pub fn part_two(&self, input: &str) -> (out: String)
        requires
            self.round_trip_ends(input@),
        ensures
            exists|t: int|
                0 <= t && #[trigger] is_round_trip(chart_of(input@), t) && out@
                    == "Minimum moves: "@ + decimal(t as nat),
    {
        let mut map = Valley::new(input);
        let ghost c = chart_of(input@);
        assert(comes_across(c, false, 0));
        let leg_1 = map.minimum_moves(0, false).unwrap();
        assert(comes_across(c, true, leg_1 as int));
        let leg_2 = map.minimum_moves(leg_1, true).unwrap();
        assert(comes_across(c, false, leg_2 as int));
        let leg_3 = map.minimum_moves(leg_2, false).unwrap();
        let out = labelled_number("Minimum moves: ", leg_3 as u64);
        proof {
            let c = chart_of(input@);
            assert(is_first_at(c, entry(), exit(c), 0, leg_1 as int));
            assert(is_first_at(c, exit(c), entry(), leg_1 as int, leg_2 as int));
            assert(is_first_at(c, entry(), exit(c), leg_2 as int, leg_3 as int));
            assert(is_round_trip(c, leg_3 as int));
        }
        out
    }

    /// `input` draws a valley, and each of the three crossings comes to its
    /// end by the last minute for which the blizzards can be placed,
    /// whenever it begins.
    pub open spec fn round_trip_ends(self, input: Seq<char>) -> bool {
        let c = chart_of(input);
        &&& is_valley(input)
        &&& comes_across(c, false, 0)
        &&& forall|reverse: bool, start: int|
            0 <= start <= last_minute(c) ==> #[trigger] comes_across(c, reverse, start)
    }
}

/// `t` is the minute at which a round trip ends, and each of its three
/// crossings ends by the last minute for which the blizzards can be placed.
pub open spec fn is_round_trip_in_time(c: Chart, t: int) -> bool {
    exists|t1: int, t2: int|
        #[trigger] is_first_at(c, entry(), exit(c), 0, t1) && #[trigger] is_first_at(
            c,
            exit(c),
            entry(),
            t1,
            t2,
        ) && is_first_at(c, entry(), exit(c), t2, t) && t1 <= last_minute(c) && t2 <= last_minute(c)
            && t <= last_minute(c)
}

/// Where one of the three crossings does not come to its end in time, the
/// crossings before it having ended at `t1` and `t2`, no round trip ends in
/// time: crossing `failed` is the one, counted from zero.
proof fn lemma_no_round_trip(c: Chart, failed: int, t1: int, t2: int)
    requires
        0 <= failed <= 2,
        !comes_across(c, false, 0) || (failed >= 1 && is_first_at(c, entry(), exit(c), 0, t1)),
        failed == 1 ==> !comes_across(c, true, t1),
        failed == 2 ==> is_first_at(c, exit(c), entry(), t1, t2) && !comes_across(c, false, t2),
    ensures
        forall|t: int| !#[trigger] is_round_trip_in_time(c, t),
{
    assert forall|t: int| !#[trigger] is_round_trip_in_time(c, t) by {
        if is_round_trip_in_time(c, t) {
            let (a, b) = choose|a: int, b: int|
                #[trigger] is_first_at(c, entry(), exit(c), 0, a) && #[trigger] is_first_at(
                    c,
                    exit(c),
                    entry(),
                    a,
                    b,
                ) && is_first_at(c, entry(), exit(c), b, t) && a <= last_minute(c) && b
                    <= last_minute(c) && t <= last_minute(c);
            assert(within_reach(c, ends(c, false).0, 0, a).contains(ends(c, false).1));
            assert(comes_across(c, false, 0));
            assert(a == t1) by {
                if a < t1 {
                    assert(!within_reach(c, entry(), 0, a).contains(exit(c)));
                }
                if t1 < a {
                    assert(!within_reach(c, entry(), 0, t1).contains(exit(c)));
                }
            }
            assert(within_reach(c, ends(c, true).0, a, b).contains(ends(c, true).1));
            assert(comes_across(c, true, t1));
            assert(b == t2) by {
                if b < t2 {
                    assert(!within_reach(c, exit(c), a, b).contains(entry()));
                }
                if t2 < b {
                    assert(!within_reach(c, exit(c), a, t2).contains(entry()));
                }
            }
            assert(within_reach(c, ends(c, false).0, b, t).contains(ends(c, false).1));
            assert(comes_across(c, false, t2));
        }
    }
}

/// A crossing that begins after `start` minutes comes to its end by the last
/// minute for which the blizzards can be placed.
pub open spec fn comes_across(c: Chart, reverse: bool, start: int) -> bool {
    exists|t: int|
        start <= t <= last_minute(c) && #[trigger] within_reach(c, ends(c, reverse).0, start, t).contains(
            ends(c, reverse).1,
        )
}

} // verus!
