use crate::text::{chars_of, decimal, labelled_number};
use std::collections::HashSet;
use vstd::prelude::*;

verus! {

broadcast use vstd::std_specs::hash::group_hash_axioms;

pub struct DaySeventeen;

#[derive(Debug, Clone, Copy, PartialEq, Eq, Structural)]
pub enum Direction {
    Left,
    Right,
}

/// A chamber seven units wide in which rocks come to rest, with the jets of
/// gas that push them.
pub struct Pyroclastic {
    height: u64,
    coords: HashSet<u128>,
    directions: Vec<Direction>,
    direction_count: usize,
}

/// The number under which a position is kept in a set: its two coordinates
/// side by side.
pub open spec fn key(c: (int, int)) -> u128 {
    (c.0 * 0x1_0000_0000_0000_0000 + c.1) as u128
}

/// The position lies in the part of the plane that can be numbered.
pub open spec fn on_grid(c: (int, int)) -> bool {
    0 <= c.0 <= u32::MAX && 0 <= c.1 <= u64::MAX
}

/// The positions that the set holds.
pub open spec fn cells(keys: Set<u128>) -> Set<(int, int)> {
    Set::new(|c: (int, int)| on_grid(c) && keys.contains(key(c)))
}

/// The number of units of a shape; there are five shapes.
pub open spec fn shape_len(s: int) -> int {
    if s == 1 || s == 2 {
        5
    } else {
        4
    }
}

/// Unit `k` of shape `s`, counted from the lower left corner of the shape:
/// a bar lying, a cross, an angle, a bar standing, a square.
pub open spec fn shape_cell(s: int, k: int) -> (int, int) {
    if s == 0 {
        (k, 0)
    } else if s == 1 {
        if k == 0 {
            (1, 0)
        } else if k == 4 {
            (1, 2)
        } else {
            (k - 1, 1)
        }
    } else if s == 2 {
        if k < 3 {
            (k, 0)
        } else {
            (2, k - 2)
        }
    } else if s == 3 {
        (0, k)
    } else {
        (k / 2, k % 2)
    }
}

/// How far the highest unit of a shape lies above its lowest.
pub open spec fn shape_top(s: int) -> int {
    if s == 0 {
        0
    } else if s == 1 || s == 2 {
        2
    } else if s == 3 {
        3
    } else {
        1
    }
}

/// No unit of the shape, its corner at `(x, y)`, is taken.
pub open spec fn is_empty(taken: Set<(int, int)>, s: int, x: int, y: int) -> bool {
    forall|k: int|
        0 <= k < shape_len(s) ==> !taken.contains(
            ((#[trigger] shape_cell(s, k)).0 + x, shape_cell(s, k).1 + y),
        )
}

/// The shape, its corner in column `x`, lies between the walls: the columns
/// are numbered from 1 to 7.
pub open spec fn in_chamber(s: int, x: int) -> bool {
    x > 0 && forall|k: int| 0 <= k < shape_len(s) ==> (#[trigger] shape_cell(s, k)).0 + x <= 7
}

/// The column of a rock after the jet has pushed it, where it can give
/// way.
pub open spec fn pushed(taken: Set<(int, int)>, jet: Direction, s: int, x: int, y: int) -> int {
    let x_trial = if jet == Direction::Right {
        x + 1
    } else {
        x - 1
    };
    if in_chamber(s, x_trial) && is_empty(taken, s, x_trial, y) {
        x_trial
    } else {
        x
    }
}

/// Where a rock comes to rest that is at `(x, y)` with jet `jet_index`
/// next, and the jet that is next then: the rock is pushed and sinks by
/// one, again and again, until it cannot sink. `None` where the rock is
/// being watched and the first jet comes up again after its first move.
pub open spec fn falls(
    taken: Set<(int, int)>,
    jets: Seq<Direction>,
    s: int,
    x: int,
    y: int,
    jet_index: int,
    first_move: bool,
    watched: bool,
) -> Option<(int, int, int)>
    decreases y,
{
    if watched && jet_index == 0 && !first_move {
        None
    } else {
        let x2 = pushed(taken, jets[jet_index], s, x, y);
        let next = (jet_index + 1) % (jets.len() as int);
        if y > 1 && is_empty(taken, s, x2, y - 1) {
            falls(taken, jets, s, x2, y - 1, next, false, watched)
        } else {
            Some((x2, y, next))
        }
    }
}

/// The position of unit `k` of a shape with its corner at `(x, y)`.
pub open spec fn unit_at(s: int, x: int, y: int, k: int) -> (int, int) {
    (shape_cell(s, k).0 + x, shape_cell(s, k).1 + y)
}

/// The first `n` units of a shape with its corner at `(x, y)`.
pub open spec fn rock_part(s: int, x: int, y: int, n: int) -> Set<(int, int)> {
    Set::new(|c: (int, int)| exists|k: int| 0 <= k < n && #[trigger] unit_at(s, x, y, k) == c)
}

/// The units of a shape with its corner at `(x, y)`.
pub open spec fn rock_at(s: int, x: int, y: int) -> Set<(int, int)> {
    rock_part(s, x, y, shape_len(s))
}

/// A tower of rocks: its height, the positions taken, and the jet that is
/// next.
pub struct Tower {
    pub height: int,
    pub taken: Set<(int, int)>,
    pub jet_index: int,
}

/// The tower after `n` rocks have been let go, and the number of the rock at
/// which the watch has stopped it, if it has. Rock `i` has the shape
/// `i % 5`, is let go in column 3 and four above the tower, and is watched
/// where a watch is kept and it is not rock 0 but has shape 0.
pub open spec fn after_rocks(t: Tower, jets: Seq<Direction>, n: int, watch: bool) -> (Tower, Option<int>)
    decreases n,
{
    if n <= 0 {
        (t, None)
    } else {
        let (before, stopped) = after_rocks(t, jets, n - 1, watch);
        if stopped is Some {
            (before, stopped)
        } else {
            let s = (n - 1) % 5;
            match falls(
                before.taken,
                jets,
                s,
                3,
                before.height + 4,
                before.jet_index,
                true,
                watch && n - 1 != 0 && s == 0,
            ) {
                None => (before, Some(n - 1)),
                Some((x, y, next)) => (
                    Tower {
                        height: if before.height >= y + shape_top(s) {
                            before.height
                        } else {
                            y + shape_top(s)
                        },
                        taken: before.taken.union(rock_at(s, x, y)),
                        jet_index: next,
                    },
                    None,
                ),
            }
        }
    }
}

/// The tower is low enough for the next rock to be numbered in 64 bits.
pub open spec fn has_headroom(t: Tower) -> bool {
    t.height <= u64::MAX - 8
}

/// The tower has headroom before each of the first `n` rocks, as far as the
/// watch lets them go.
pub open spec fn can_let_go(t: Tower, jets: Seq<Direction>, n: int, watch: bool) -> bool {
    forall|i: int|
        0 <= i < n && (#[trigger] after_rocks(t, jets, i, watch)).1 is None ==> has_headroom(
            after_rocks(t, jets, i, watch).0,
        )
}

/// Unit `k` of shape `s`.
fn shape_unit(s: usize, k: usize) -> (c: (u32, u32))
    requires
        s < 5,
        k < shape_len(s as int),
    ensures
        (c.0 as int, c.1 as int) == shape_cell(s as int, k as int),
        c.0 <= 3 && c.1 <= 3,
        c.1 <= shape_top(s as int),
{
    if s == 0 {
        (k as u32, 0)
    } else if s == 1 {
        if k == 0 {
            (1, 0)
        } else if k == 4 {
            (1, 2)
        } else {
            ((k - 1) as u32, 1)
        }
    } else if s == 2 {
        if k < 3 {
            (k as u32, 0)
        } else {
            (2, (k - 2) as u32)
        }
    } else if s == 3 {
        (0, k as u32)
    } else {
        ((k / 2) as u32, (k % 2) as u32)
    }
}

/// The number of units of shape `s`.
fn shape_size(s: usize) -> (n: usize)
    requires
        s < 5,
    ensures
        n == shape_len(s as int),
{
    if s == 1 || s == 2 {
        5
    } else {
        4
    }
}

/// How far the highest unit of shape `s` lies above its lowest.
fn shape_height(s: usize) -> (n: u64)
    requires
        s < 5,
    ensures
        n == shape_top(s as int),
{
    if s == 0 {
        0
    } else if s == 1 || s == 2 {
        2
    } else if s == 3 {
        3
    } else {
        1
    }
}

/// The number under which a position is kept.
fn key_of(x: u32, y: u64) -> (k: u128)
    ensures
        k == key((x as int, y as int)),
{
    (x as u128) * 0x1_0000_0000_0000_0000 + y as u128
}

impl Pyroclastic {
    /// The tower as it stands, with `jet_index` as the jet that is next.
    pub closed spec fn tower(self, jet_index: int) -> Tower {
        Tower { height: self.height as int, taken: cells(self.coords@), jet_index }
    }

    /// The jets of gas, in the order in which they blow.
    pub closed spec fn jets(self) -> Seq<Direction> {
        self.directions@
    }

    /// There is a jet, and the jets are as many as is said.
    pub closed spec fn wf(self) -> bool {
        self.direction_count == self.directions@.len() && self.direction_count > 0
    }

    /// Whether no unit of the shape, its corner at `(x, y)`, is taken.
    fn empty_space(&self, s: usize, x: u32, y: u64) -> (b: bool)
        requires
            s < 5,
            x <= 8,
            y <= u64::MAX - 3,
        ensures
            b == is_empty(cells(self.coords@), s as int, x as int, y as int),
    {
        let n = shape_size(s);
        let mut k: usize = 0;
        while k < n
            invariant
                k <= n,
                s < 5,
                x <= 8,
                y <= u64::MAX - 3,
                n == shape_len(s as int),
                forall|j: int|
                    0 <= j < k ==> !cells(self.coords@).contains(
                        ((#[trigger] shape_cell(s as int, j)).0 + x, shape_cell(s as int, j).1 + y),
                    ),
            decreases n - k,
        {
            let c = shape_unit(s, k);
            let key = key_of(c.0 + x, c.1 as u64 + y);
            if self.coords.contains(&key) {
                assert(cells(self.coords@).contains(
                    (shape_cell(s as int, k as int).0 + x, shape_cell(s as int, k as int).1 + y),
                ));
                return false;
            }
            k += 1;
        }
        true
    }

    /// Whether the shape, its corner in column `x`, lies between the walls.
    fn fits_chamber(s: usize, x: u32) -> (b: bool)
        requires
            s < 5,
            x <= 8,
        ensures
            b == in_chamber(s as int, x as int),
    {
        if x == 0 {
            return false;
        }
        let n = shape_size(s);
        let mut k: usize = 0;
        while k < n
            invariant
                k <= n,
                s < 5,
                x <= 8,
                n == shape_len(s as int),
                forall|j: int| 0 <= j < k ==> (#[trigger] shape_cell(s as int, j)).0 + x <= 7,
            decreases n - k,
        {
            let c = shape_unit(s, k);
            if c.0 + x > 7 {
                return false;
            }
            k += 1;
        }
        true
    }

    /// Adds the units of the shape, its corner at `(x, y)`, to the tower.
    fn place(&mut self, s: usize, x: u32, y: u64)
        requires
            s < 5,
            x <= 8,
            y <= u64::MAX - 3,
        ensures
            cells(final(self).coords@) == cells(old(self).coords@).union(
                rock_at(s as int, x as int, y as int),
            ),
            final(self).height == old(self).height,
            final(self).directions == old(self).directions,
            final(self).direction_count == old(self).direction_count,
    {
        let n = shape_size(s);
        let ghost before = cells(self.coords@);
        let mut k: usize = 0;
        assert(cells(self.coords@) =~= before.union(rock_part(s as int, x as int, y as int, 0)));
        while k < n
            invariant
                k <= n,
                s < 5,
                x <= 8,
                y <= u64::MAX - 3,
                n == shape_len(s as int),
                self.height == old(self).height,
                self.directions == old(self).directions,
                self.direction_count == old(self).direction_count,
                cells(self.coords@) == before.union(rock_part(s as int, x as int, y as int, k as int)),
            decreases n - k,
        {
            let c = shape_unit(s, k);
            let ghost held = cells(self.coords@);
            let ghost p = unit_at(s as int, x as int, y as int, k as int);
            self.coords.insert(key_of(c.0 + x, c.1 as u64 + y));
            proof {
                assert(cells(self.coords@) =~= held.insert(p));
                assert forall|q: (int, int)|
                    rock_part(s as int, x as int, y as int, k + 1).contains(q) <==> rock_part(
                        s as int,
                        x as int,
                        y as int,
                        k as int,
                    ).contains(q) || q == p by {
                    if rock_part(s as int, x as int, y as int, k + 1).contains(q) {
                        let j = choose|j: int|
                            0 <= j < k + 1 && #[trigger] unit_at(s as int, x as int, y as int, j) == q;
                        if j < k {
                            assert(rock_part(s as int, x as int, y as int, k as int).contains(q));
                        }
                    }
                    if rock_part(s as int, x as int, y as int, k as int).contains(q) {
                        let j = choose|j: int|
                            0 <= j < k && #[trigger] unit_at(s as int, x as int, y as int, j) == q;
                        assert(0 <= j < k + 1);
                    }
                }
                assert(cells(self.coords@) =~= before.union(
                    rock_part(s as int, x as int, y as int, k + 1),
                ));
            }
            k += 1;
        }
    }
}

/// A tower without rocks.
pub open spec fn ground() -> Tower {
    Tower { height: 0, taken: Set::empty(), jet_index: 0 }
}

/// The jet that a character stands for.
pub open spec fn jet_of(c: char) -> Option<Direction> {
    if c == '>' {
        Some(Direction::Right)
    } else if c == '<' {
        Some(Direction::Left)
    } else {
        None
    }
}

/// Every character of `input` stands for a jet, and there is at least one.
pub open spec fn is_jets(input: Seq<char>) -> bool {
    input.len() > 0 && forall|i: int| 0 <= i < input.len() ==> jet_of(#[trigger] input[i]) is Some
}

/// The jets that `input` writes.
pub open spec fn jets_of(input: Seq<char>) -> Seq<Direction> {
    Seq::new(input.len(), |i: int| jet_of(input[i])->0)
}

impl Pyroclastic {
    /// Lets `shape_total` rocks go, one after the other, where the tower has
    /// headroom for each. With `stop_at_cycle` set it keeps watch and stops
    /// at the first rock of the first shape, the very first aside, during
    /// whose fall the first jet comes up again; it then returns the number
    /// of that rock. The outer `None` says that the tower has run out of
    /// headroom.
    pub fn try_run(&mut self, shape_total: u64, stop_at_cycle: bool) -> (r: Option<Option<u64>>)
        requires
            old(self).wf(),
        ensures
            final(self).wf(),
            final(self).jets() == old(self).jets(),
            r is Some <==> can_let_go(
                old(self).tower(0),
                old(self).jets(),
                shape_total as int,
                stop_at_cycle,
            ),
            r matches Some(found) ==> {
                let after = after_rocks(
                    old(self).tower(0),
                    old(self).jets(),
                    shape_total as int,
                    stop_at_cycle,
                );
                &&& final(self).tower(after.0.jet_index) == after.0
                &&& after.1 == (match found {
                    Some(n) => Some(n as int),
                    None => None,
                })
            },
    {
        let ghost t0 = self.tower(0);
        let ghost jets = self.jets();
        let mut direction_index: usize = 0;
        let mut shape_count: u64 = 0;
        while shape_count < shape_total
            invariant
                shape_count <= shape_total,
                self.wf(),
                self.jets() == jets,
                jets == old(self).jets(),
                t0 == old(self).tower(0),
                direction_index < self.direction_count,
                after_rocks(t0, jets, shape_count as int, stop_at_cycle) == (
                    self.tower(direction_index as int),
                    None::<int>,
                ),
                forall|i: int|
                    0 <= i < shape_count && (#[trigger] after_rocks(t0, jets, i, stop_at_cycle)).1
                        is None ==> has_headroom(after_rocks(t0, jets, i, stop_at_cycle).0),
            decreases shape_total - shape_count,
        {
            if self.height > u64::MAX - 8 {
                assert(!has_headroom(after_rocks(t0, jets, shape_count as int, stop_at_cycle).0));
                return None;
            }
            let shape_index = (shape_count % 5) as usize;
            let ghost s = shape_index as int;
            let ghost taken = cells(self.coords@);
            let ghost start_y = self.height + 4;
            let ghost start_index = direction_index as int;
            let ghost watched = stop_at_cycle && shape_count != 0 && shape_index == 0;
            let mut x: u32 = 3;
            let mut y: u64 = self.height + 4;
            let mut first_move = true;
            let mut stopped = false;
            loop
                invariant_except_break
                    !stopped,
                    falls(taken, jets, s, 3, start_y, start_index, true, watched) == falls(
                        taken,
                        jets,
                        s,
                        x as int,
                        y as int,
                        direction_index as int,
                        first_move,
                        watched,
                    ),
                invariant
                    self.wf(),
                    self.jets() == jets,
                    shape_index < 5,
                    s == shape_index,
                    taken == cells(self.coords@),
                    self.height == start_y - 4,
                    watched == (stop_at_cycle && shape_count != 0 && shape_index == 0),
                    direction_index < self.direction_count,
                    1 <= x <= 7,
                    1 <= y <= start_y,
                    start_y <= u64::MAX - 4,
                ensures
                    stopped ==> falls(taken, jets, s, 3, start_y, start_index, true, watched) is None,
                    !stopped ==> falls(taken, jets, s, 3, start_y, start_index, true, watched) == Some(
                        (x as int, y as int, direction_index as int),
                    ),
                decreases y,
            {
                if stop_at_cycle && shape_count != 0 && shape_index == 0 && direction_index == 0
                    && !first_move {
                    stopped = true;
                    break ;
                }
                let direction = self.directions[direction_index];
                let ghost jet_index = direction_index as int;
                direction_index = (direction_index + 1) % self.direction_count;
                first_move = false;
                let x_trial: u32 = match direction {
                    Direction::Right => x + 1,
                    Direction::Left => (x - 1) as u32,
                };
                if Pyroclastic::fits_chamber(shape_index, x_trial) && self.empty_space(
                    shape_index,
                    x_trial,
                    y,
                ) {
                    assert(in_chamber(s, x_trial as int));
                    assert(shape_cell(s, 0).0 + x_trial <= 7);
                    x = x_trial;
                }
                if y > 1 && self.empty_space(shape_index, x, y - 1) {
                    y -= 1;
                } else {
                    break ;
                }
            }
            if stopped {
                assert(after_rocks(t0, jets, shape_count + 1, stop_at_cycle).1 == Some(
                    shape_count as int,
                ));
                proof {
                    lemma_stopped_stays(t0, jets, shape_count + 1, shape_total as int, stop_at_cycle);
                    assert forall|i: int|
                        0 <= i < shape_total && (#[trigger] after_rocks(
                            t0,
                            jets,
                            i,
                            stop_at_cycle,
                        )).1 is None implies has_headroom(after_rocks(t0, jets, i, stop_at_cycle).0) by {
                        if i > shape_count {
                            lemma_stopped_stays(t0, jets, shape_count + 1, i, stop_at_cycle);
                        }
                    }
                }
                return Some(Some(shape_count));
            }
            let top = y + shape_height(shape_index);
            if top > self.height {
                self.height = top;
            }
            self.place(shape_index, x, y);
            shape_count += 1;
        }
        Some(None)
    }
}

/// Once the watch has stopped the rocks, it stays so.
proof fn lemma_stopped_stays(t: Tower, jets: Seq<Direction>, k: int, n: int, watch: bool)
    requires
        0 <= k <= n,
        after_rocks(t, jets, k, watch).1 is Some,
    ensures
        after_rocks(t, jets, n, watch) == after_rocks(t, jets, k, watch),
    decreases n - k,
{
    if k < n {
        lemma_stopped_stays(t, jets, k, n - 1, watch);
    }
}

impl Pyroclastic {
    /// The height of the tower.
    pub fn height(&self) -> (h: u64)
        ensures
            forall|j: int| self.tower(j).height == h,
    {
        self.height
    }

    /// Lets `shape_total` rocks go; see `try_run`.
    pub fn run(&mut self, shape_total: u64, stop_at_cycle: bool) -> (found: Option<u64>)
        requires
            old(self).wf(),
            can_let_go(old(self).tower(0), old(self).jets(), shape_total as int, stop_at_cycle),
        ensures
            final(self).wf(),
            final(self).jets() == old(self).jets(),
            ({
                let after = after_rocks(
                    old(self).tower(0),
                    old(self).jets(),
                    shape_total as int,
                    stop_at_cycle,
                );
                &&& final(self).tower(after.0.jet_index) == after.0
                &&& after.1 == (match found {
                    Some(n) => Some(n as int),
                    None => None,
                })
            }),
    {
        self.try_run(shape_total, stop_at_cycle).unwrap()
    }

    /// An empty chamber with the jets that `input` writes; `None` where a
    /// character stands for no jet or there is none.
    pub fn try_new(input: &str) -> (r: Option<Pyroclastic>)
        ensures
            r is Some <==> is_jets(input@),
            r matches Some(p) ==> p.wf() && p.jets() == jets_of(input@) && p.tower(0) == ground(),
    {
        let text = chars_of(input);
        let mut directions: Vec<Direction> = Vec::new();
        let mut i: usize = 0;
        while i < text.len()
            invariant
                i <= text.len(),
                text@ == input@,
                directions.len() == i,
                forall|k: int| 0 <= k < i ==> jet_of(#[trigger] text@[k]) == Some(directions@[k]),
            decreases text.len() - i,
        {
            let direction = text[i];
            if direction == '>' {
                directions.push(Direction::Right);
            } else if direction == '<' {
                directions.push(Direction::Left);
            } else {
                assert(jet_of(input@[i as int]) is None);
                return None;
            }
            i += 1;
        }
        let direction_count = directions.len();
        if direction_count == 0 {
            return None;
        }
        let p = Pyroclastic { height: 0, coords: HashSet::new(), directions, direction_count };
        proof {
            assert(p.jets() =~= jets_of(input@));
            assert(cells(p.coords@) =~= Set::<(int, int)>::empty());
        }
        Some(p)
    }

    /// An empty chamber with the jets that `input` writes.
    pub fn new(input: &str) -> (p: Pyroclastic)
        requires
            is_jets(input@),
        ensures
            p.wf(),
            p.jets() == jets_of(input@),
            p.tower(0) == ground(),
    {
        Pyroclastic::try_new(input).unwrap()
    }
}

/// The height of the tower after 2022 rocks; `None` where it cannot be
/// worked out.
pub open spec fn first_answer(input: Seq<char>) -> Option<int> {
    if is_jets(input) && can_let_go(ground(), jets_of(input), 2022, false) {
        Some(after_rocks(ground(), jets_of(input), 2022, false).0.height)
    } else {
        None
    }
}

/// A million millions.
pub open spec fn many() -> int {
    1000000000000
}

/// What is reported for a million million rocks: the watch stops the rocks
/// at rock `n`; the height of the tower then is counted for every `n` rocks
/// that go into a million millions, and the height of a tower of as many
/// rocks as are left over is added. `None` where it cannot be worked out.
pub open spec fn second_answer(input: Seq<char>) -> Option<int> {
    if is_jets(input) && can_let_go(ground(), jets_of(input), many(), true) {
        let watched = after_rocks(ground(), jets_of(input), many(), true);
        match watched.1 {
            None => None,
            Some(n) => if n > 0 && can_let_go(ground(), jets_of(input), many() % n, false) {
                let rest = after_rocks(ground(), jets_of(input), many() % n, false);
                let height = watched.0.height * (many() / n) + rest.0.height;
                if height <= u64::MAX {
                    Some(height)
                } else {
                    None
                }
            } else {
                None
            },
        }
    } else {
        None
    }
}

impl DaySeventeen {
    /// The first answer; `None` where it cannot be worked out.
    pub fn try_part_one(&self, input: &str) -> (r: Option<String>)
        ensures
            r is Some <==> first_answer(input@) is Some,
            r matches Some(out) ==> out@ == "Height: "@ + decimal(first_answer(input@)->0 as nat),
    {
        let mut pyroclastic = match Pyroclastic::try_new(input) {
            None => {
                return None;
            },
            Some(p) => p,
        };
        match pyroclastic.try_run(2022, false) {
            None => None,
            Some(_) => {
                let height = pyroclastic.height();
                Some(labelled_number("Height: ", height))
            },
        }
    }

    /// Reports the height of the tower after 2022 rocks.
    pub fn part_one(&self, input: &str) -> (out: String)
        requires
            first_answer(input@) is Some,
        ensures
            out@ == "Height: "@ + decimal(first_answer(input@)->0 as nat),
    {
        self.try_part_one(input).unwrap()
    }

    /// The second answer; `None` where it cannot be worked out.
    pub fn try_part_two(&self, input: &str) -> (r: Option<String>)
        ensures
            r is Some <==> second_answer(input@) is Some,
            r matches Some(out) ==> out@ == "Height: "@ + decimal(second_answer(input@)->0 as nat),
    {
        let mut pyroclastic_cycle = match Pyroclastic::try_new(input) {
            None => {
                return None;
            },
            Some(p) => p,
        };
        let cycle = match pyroclastic_cycle.try_run(1000000000000, true) {
            None => {
                return None;
            },
            Some(None) => {
                return None;
            },
            Some(Some(n)) => n,
        };
        if cycle == 0 {
            return None;
        }
        let cycle_height = pyroclastic_cycle.height();
        let mut pyroclastic = Pyroclastic::new(input);
        if pyroclastic.try_run(1000000000000 % cycle, false).is_none() {
            return None;
        }
        let times: u64 = 1000000000000 / cycle;
        let last = pyroclastic.height();
        if times == 0 {
            assert(cycle_height * times + last == last) by (nonlinear_arith)
                requires
                    times == 0,
            ;
            return Some(labelled_number("Height: ", last));
        }
        let room: u64 = (u64::MAX - last) / times;
        let fits = cycle_height <= room;
        assert(fits == (cycle_height * times + last <= u64::MAX)) by (nonlinear_arith)
            requires
                fits == (cycle_height <= room),
                room == (u64::MAX - last) as int / times as int,
                times > 0,
                0 <= cycle_height,
                0 <= last <= u64::MAX,
        ;
        if !fits {
            return None;
        }
        let height = cycle_height * times + last;
        Some(labelled_number("Height: ", height))
    }

    /// Reports what is taken to be the height of the tower after a million
    /// million rocks.
    pub fn part_two(&self, input: &str) -> (out: String)
        requires
            second_answer(input@) is Some,
        ensures
            out@ == "Height: "@ + decimal(second_answer(input@)->0 as nat),
    {
        self.try_part_two(input).unwrap()
    }
}

} // verus!
