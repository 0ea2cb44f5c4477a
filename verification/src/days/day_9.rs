use crate::pattern::{captures, group_texts, regex_captures};
use crate::text::{
    chars_of, decimal, labelled_number, lines, lines_of, parse_u64, parse_within, rows, string_of,
    trim, trimmed,
};
use vstd::prelude::*;

verus! {

pub struct DayNine {}

#[derive(Debug, Eq, PartialEq, Clone, Copy, Structural)]
pub enum Direction {
    Up,
    Down,
    Left,
    Right,
}

/// An order to move the head `count` steps in one direction.
#[derive(Clone, Copy, Debug)]
pub struct Move {
    pub direction: Direction,
    pub count: u8,
}

/// A rope of knots, the head first, with the positions that its tail has
/// visited and the moves that its head is to make.
pub struct Rope {
    pub knots: Vec<(i32, i32)>,
    pub knot_count: usize,
    pub tail_visited: Vec<(i32, i32)>,
    pub head_moves: Vec<Move>,
}

/// No coordinate of the two positions differs by more than one.
pub open spec fn touching(a: (i32, i32), b: (i32, i32)) -> bool {
    -1 <= a.0 - b.0 <= 1 && -1 <= a.1 - b.1 <= 1
}

/// No coordinate of the two positions differs by more than two.
pub open spec fn near(a: (i32, i32), b: (i32, i32)) -> bool {
    -2 <= a.0 - b.0 <= 2 && -2 <= a.1 - b.1 <= 2
}

/// One step towards `ahead` along one axis.
pub open spec fn towards(from: int, ahead: int) -> int {
    if ahead > from {
        from + 1
    } else {
        from - 1
    }
}

/// Where a knot goes that has lost touch with the knot ahead of it: next to
/// it in the row or column that they share or nearly share, or one step
/// along both axes where it is two steps off along both.
pub open spec fn follow(ahead: (i32, i32), knot: (i32, i32)) -> (i32, i32) {
    let dx = ahead.0 - knot.0;
    let dy = ahead.1 - knot.1;
    if (dy == 2 || dy == -2) && -1 <= dx <= 1 {
        (ahead.0, towards(knot.1 as int, ahead.1 as int) as i32)
    } else if (dx == 2 || dx == -2) && -1 <= dy <= 1 {
        (towards(knot.0 as int, ahead.0 as int) as i32, ahead.1)
    } else {
        (towards(knot.0 as int, ahead.0 as int) as i32, towards(knot.1 as int, ahead.1 as int) as i32)
    }
}

/// Where the head goes with one step.
pub open spec fn head_step(head: (i32, i32), direction: Direction) -> (int, int) {
    match direction {
        Direction::Up => (head.0 as int, head.1 + 1),
        Direction::Down => (head.0 as int, head.1 - 1),
        Direction::Right => (head.0 + 1, head.1 as int),
        Direction::Left => (head.0 - 1, head.1 as int),
    }
}

/// The knots from number `i` on follow the knot ahead of them, one after the
/// other, until one is still in touch: the knots behind it stay.
pub open spec fn settle(knots: Seq<(i32, i32)>, i: int) -> Seq<(i32, i32)>
    decreases knots.len() - i,
{
    if i < 1 || i >= knots.len() || touching(knots[i - 1], knots[i]) {
        knots
    } else {
        settle(knots.update(i, follow(knots[i - 1], knots[i])), i + 1)
    }
}

/// The knots after the head has made one step.
pub open spec fn stepped(knots: Seq<(i32, i32)>, direction: Direction) -> Seq<(i32, i32)> {
    let head = head_step(knots[0], direction);
    settle(knots.update(0, (head.0 as i32, head.1 as i32)), 1)
}

/// The head can make the step without leaving the range of 32 bits.
pub open spec fn can_step(knots: Seq<(i32, i32)>, direction: Direction) -> bool {
    let head = head_step(knots[0], direction);
    knots.len() > 0 && i32::MIN <= head.0 <= i32::MAX && i32::MIN <= head.1 <= i32::MAX
}

/// Every knot is in touch with the knot ahead of it.
pub open spec fn in_touch(knots: Seq<(i32, i32)>) -> bool {
    forall|i: int| 1 <= i < knots.len() ==> #[trigger] joined_at(knots, i)
}

/// Knot `i` is in touch with the knot ahead of it.
pub open spec fn joined_at(knots: Seq<(i32, i32)>, i: int) -> bool {
    touching(knots[i - 1], knots[i])
}

/// The visited positions after a step: the new position of the tail is added
/// where the tail has moved. The head of a rope of one knot leaves no trace.
pub open spec fn visited_after(
    visited: Set<(i32, i32)>,
    before: Seq<(i32, i32)>,
    after: Seq<(i32, i32)>,
) -> Set<(i32, i32)> {
    if before.len() >= 2 && after.last() != before.last() {
        visited.insert(after.last())
    } else {
        visited
    }
}

/// The regular expression of a move: letters for the direction, a blank and a
/// number.
pub open spec fn move_pattern() -> Seq<char> {
    r"^(?P<direction>[RLUD]+)\s(?P<count>[0-9]+)\s*$"@
}

/// The direction that a letter names.
pub open spec fn direction_of(text: Seq<char>) -> Option<Direction> {
    if text.len() != 1 {
        None
    } else if text[0] == 'R' {
        Some(Direction::Right)
    } else if text[0] == 'L' {
        Some(Direction::Left)
    } else if text[0] == 'U' {
        Some(Direction::Up)
    } else if text[0] == 'D' {
        Some(Direction::Down)
    } else {
        None
    }
}

/// The move that the two capture groups of a match write: one letter and a
/// number of at most 255. `None` where there is no match or a group does not
/// qualify.
pub open spec fn move_of(groups: Option<Seq<Option<Seq<char>>>>) -> Option<(Direction, int)> {
    match groups {
        Some(g) => if g.len() == 3 && g[1] is Some && g[2] is Some {
            match (direction_of(g[1]->0), parse_within(g[2]->0, false, 0, u8::MAX as int)) {
                (Some(direction), Some(count)) => Some((direction, count)),
                _ => None,
            }
        } else {
            None
        },
        None => None,
    }
}

/// The move that `line` writes, white space around it aside.
pub open spec fn move_in(line: Seq<char>) -> Option<(Direction, int)> {
    move_of(regex_captures(move_pattern(), trimmed(line)))
}

impl Move {
    /// The move that this value holds.
    pub open spec fn view(self) -> (Direction, int) {
        (self.direction, self.count as int)
    }

    /// The move that the capture groups of a match write.
    pub fn from_captures(groups: &Option<Vec<Option<String>>>) -> (r: Option<Move>)
        ensures
            match r {
                Some(m) => move_of(group_texts(*groups)) == Some(m.view()),
                None => move_of(group_texts(*groups)) is None,
            },
    {
        match groups {
            None => None,
            Some(g) => {
                if g.len() != 3 {
                    return None;
                }
                let ghost texts = group_texts(*groups)->0;
                assert(texts[1] == (match g@[1] {
                    Some(s) => Some(s@),
                    None => None,
                }));
                assert(texts[2] == (match g@[2] {
                    Some(s) => Some(s@),
                    None => None,
                }));
                match (&g[1], &g[2]) {
                    (Some(direction_str), Some(count_str)) => {
                        let letters = chars_of(direction_str.as_str());
                        if letters.len() != 1 {
                            return None;
                        }
                        let direction = if letters[0] == 'R' {
                            Direction::Right
                        } else if letters[0] == 'L' {
                            Direction::Left
                        } else if letters[0] == 'U' {
                            Direction::Up
                        } else if letters[0] == 'D' {
                            Direction::Down
                        } else {
                            return None;
                        };
                        match parse_u64(&chars_of(count_str.as_str())) {
                            None => None,
                            Some(count) => if count <= 255 {
                                Some(Move { direction, count: count as u8 })
                            } else {
                                None
                            },
                        }
                    },
                    _ => None,
                }
            },
        }
    }

    /// The move that `line` writes; `None` where it writes none.
    pub fn parse(line: &Vec<char>) -> (r: Option<Move>)
        ensures
            match r {
                Some(m) => move_in(line@) == Some(m.view()),
                None => move_in(line@) is None,
            },
    {
        let text = string_of(&trim(line));
        let groups = captures(r"^(?P<direction>[RLUD]+)\s(?P<count>[0-9]+)\s*$", text.as_str());
        Move::from_captures(&groups)
    }
}

/// The moves that the lines write.
pub open spec fn moves_of(ls: Seq<Seq<char>>) -> Seq<(Direction, int)> {
    Seq::new(ls.len(), |i: int| move_in(ls[i])->0)
}

/// Every line of `input` writes a move.
pub open spec fn is_plan(input: Seq<char>) -> bool {
    forall|i: int| 0 <= i < lines(input).len() ==> move_in(#[trigger] lines(input)[i]) is Some
}

/// The moves that the values of `s` hold.
pub open spec fn moves_view(s: Seq<Move>) -> Seq<(Direction, int)> {
    Seq::new(s.len(), |i: int| s[i].view())
}

/// The knots after the head has made `count` steps in one direction.
pub open spec fn knots_after_steps(knots: Seq<(i32, i32)>, direction: Direction, count: int) -> Seq<
    (i32, i32),
>
    decreases count,
{
    if count <= 0 {
        knots
    } else {
        stepped(knots_after_steps(knots, direction, count - 1), direction)
    }
}

/// The visited positions after the head has made `count` steps in one
/// direction.
pub open spec fn visited_after_steps(
    visited: Set<(i32, i32)>,
    knots: Seq<(i32, i32)>,
    direction: Direction,
    count: int,
) -> Set<(i32, i32)>
    decreases count,
{
    if count <= 0 {
        visited
    } else {
        let before = knots_after_steps(knots, direction, count - 1);
        visited_after(
            visited_after_steps(visited, knots, direction, count - 1),
            before,
            stepped(before, direction),
        )
    }
}

/// The head can make `count` steps in one direction.
pub open spec fn can_make_steps(knots: Seq<(i32, i32)>, direction: Direction, count: int) -> bool {
    forall|k: int| 0 <= k < count ==> can_step(#[trigger] knots_after_steps(knots, direction, k), direction)
}

/// The knots after the moves.
pub open spec fn knots_after(knots: Seq<(i32, i32)>, moves: Seq<(Direction, int)>) -> Seq<(i32, i32)>
    decreases moves.len(),
{
    if moves.len() == 0 {
        knots
    } else {
        knots_after_steps(knots_after(knots, moves.drop_last()), moves.last().0, moves.last().1)
    }
}

/// The visited positions after the moves.
pub open spec fn visited_after_moves(
    visited: Set<(i32, i32)>,
    knots: Seq<(i32, i32)>,
    moves: Seq<(Direction, int)>,
) -> Set<(i32, i32)>
    decreases moves.len(),
{
    if moves.len() == 0 {
        visited
    } else {
        visited_after_steps(
            visited_after_moves(visited, knots, moves.drop_last()),
            knots_after(knots, moves.drop_last()),
            moves.last().0,
            moves.last().1,
        )
    }
}

/// The head can make all the moves.
pub open spec fn can_make_moves(knots: Seq<(i32, i32)>, moves: Seq<(Direction, int)>) -> bool {
    forall|i: int|
        0 <= i < moves.len() ==> can_make_steps(
            #[trigger] knots_after(knots, moves.take(i)),
            moves[i].0,
            moves[i].1,
        )
}

/// A knot that follows comes into touch with the knot ahead of it and goes
/// no more than one step along either axis.
proof fn lemma_follow(ahead: (i32, i32), knot: (i32, i32))
    requires
        near(ahead, knot),
        !touching(ahead, knot),
    ensures
        touching(ahead, follow(ahead, knot)),
        touching(follow(ahead, knot), knot),
{
    let dx = ahead.0 - knot.0;
    let dy = ahead.1 - knot.1;
    let fx = towards(knot.0 as int, ahead.0 as int);
    let fy = towards(knot.1 as int, ahead.1 as int);
    assert(i32::MIN <= fx <= i32::MAX || -1 <= dx <= 1);
    assert(i32::MIN <= fy <= i32::MAX || -1 <= dy <= 1);
}

/// Settling keeps the number of knots and leaves them in touch, provided
/// that they were in touch but for knot `i`, which is near the knot ahead.
proof fn lemma_settle(knots: Seq<(i32, i32)>, i: int)
    requires
        1 <= i <= knots.len(),
        forall|k: int| 1 <= k < knots.len() && k != i ==> #[trigger] joined_at(knots, k),
        i < knots.len() ==> near(knots[i - 1], knots[i]),
    ensures
        settle(knots, i).len() == knots.len(),
        in_touch(settle(knots, i)),
        forall|k: int| 0 <= k < i ==> settle(knots, i)[k] == knots[k],
    decreases knots.len() - i,
{
    if i < knots.len() && !touching(knots[i - 1], knots[i]) {
        let moved = follow(knots[i - 1], knots[i]);
        let next = knots.update(i, moved);
        lemma_follow(knots[i - 1], knots[i]);
        assert forall|k: int| 1 <= k < next.len() && k != i + 1 implies #[trigger] joined_at(
            next,
            k,
        ) by {
            if k != i {
                assert(joined_at(knots, k));
            }
        }
        if i + 1 < next.len() {
            assert(joined_at(knots, i + 1));
            lemma_near_after_follow(moved, knots[i], knots[i + 1]);
        }
        lemma_settle(next, i + 1);
        assert forall|k: int| 0 <= k < i implies settle(knots, i)[k] == knots[k] by {
            assert(settle(next, i + 1)[k] == next[k]);
        }
    }
}

/// A knot that was in touch with the knot ahead of it stays near it when
/// that knot goes one step along each axis at most.
proof fn lemma_near_after_follow(moved: (i32, i32), ahead: (i32, i32), knot: (i32, i32))
    requires
        touching(moved, ahead),
        touching(ahead, knot),
    ensures
        near(moved, knot),
{
}

impl Rope {
    /// The rope has as many knots as it says and at least one, all in touch;
    /// no visited position is recorded twice.
    pub open spec fn wf(self) -> bool {
        &&& self.knots@.len() == self.knot_count
        &&& self.knot_count >= 1
        &&& in_touch(self.knots@)
        &&& self.tail_visited@.no_duplicates()
    }

    /// The positions that the tail has visited.
    pub open spec fn visited(self) -> Set<(i32, i32)> {
        self.tail_visited@.to_set()
    }

    /// Puts a knot in a new position and records it where the knot is the
    /// tail.
    fn update_knot(&mut self, coord: (i32, i32), knot_index: usize)
        requires
            knot_index < old(self).knots@.len(),
            old(self).knots@.len() == old(self).knot_count,
            old(self).tail_visited@.no_duplicates(),
        ensures
            final(self).knots@ == old(self).knots@.update(knot_index as int, coord),
            final(self).knot_count == old(self).knot_count,
            final(self).head_moves == old(self).head_moves,
            final(self).tail_visited@.no_duplicates(),
            final(self).visited() == (if knot_index == old(self).knot_count - 1 {
                old(self).visited().insert(coord)
            } else {
                old(self).visited()
            }),
    {
        self.knots.set(knot_index, coord);
        if knot_index == self.knot_count - 1 {
            let mut known = false;
            let mut k: usize = 0;
            while k < self.tail_visited.len()
                invariant
                    k <= self.tail_visited.len(),
                    known == exists|j: int| 0 <= j < k && self.tail_visited@[j] == coord,
                decreases self.tail_visited.len() - k,
            {
                let seen = self.tail_visited[k];
                if seen.0 == coord.0 && seen.1 == coord.1 {
                    known = true;
                }
                k += 1;
            }
            assert(known == self.tail_visited@.contains(coord));
            if !known {
                let ghost before = self.tail_visited@;
                self.tail_visited.push(coord);
                assert(self.tail_visited@.to_set() =~= before.to_set().insert(coord)) by {
                    assert forall|p: (i32, i32)| self.tail_visited@.contains(p) <==> (before.contains(
                        p,
                    ) || p == coord) by {
                        if before.contains(p) {
                            let j = choose|j: int| 0 <= j < before.len() && before[j] == p;
                            assert(self.tail_visited@[j] == p);
                        }
                        if p == coord {
                            assert(self.tail_visited@[before.len() as int] == p);
                        }
                    }
                }
            } else {
                assert(self.tail_visited@.to_set() =~= self.tail_visited@.to_set().insert(coord));
            }
        }
    }

    /// Moves the head one step and lets the other knots follow.
    pub fn do_move(&mut self, direction: &Direction)
        requires
            old(self).wf(),
            can_step(old(self).knots@, *direction),
        ensures
            final(self).wf(),
            final(self).knots@ == stepped(old(self).knots@, *direction),
            final(self).knot_count == old(self).knot_count,
            final(self).head_moves == old(self).head_moves,
            final(self).visited() == visited_after(
                old(self).visited(),
                old(self).knots@,
                final(self).knots@,
            ),
    {
        let head = self.knots[0];
        let moved = match direction {
            Direction::Up => (head.0, head.1 + 1),
            Direction::Down => (head.0, head.1 - 1),
            Direction::Right => (head.0 + 1, head.1),
            Direction::Left => (head.0 - 1, head.1),
        };
        self.knots.set(0, moved);
        let ghost start = self.knots@;
        proof {
            assert forall|k: int| 1 <= k < start.len() && k != 1 implies #[trigger] joined_at(
                start,
                k,
            ) by {
                assert(joined_at(old(self).knots@, k));
            }
            if 1 < start.len() {
                assert(joined_at(old(self).knots@, 1));
            }
            lemma_settle(start, 1);
        }
        let mut i: usize = 1;
        while i < self.knot_count
            invariant
                1 <= i <= self.knot_count,
                self.knots@.len() == self.knot_count,
                self.knot_count == old(self).knot_count,
                self.head_moves == old(self).head_moves,
                self.tail_visited@.no_duplicates(),
                start.len() == self.knot_count,
                settle(self.knots@, i as int) == settle(start, 1),
                forall|k: int|
                    1 <= k < self.knots@.len() && k != i ==> #[trigger] joined_at(self.knots@, k),
                i < self.knot_count ==> near(self.knots@[i - 1], self.knots@[i as int]),
                i < self.knot_count ==> self.knots@[self.knot_count - 1] == old(self).knots@[self.knot_count
                    - 1] && self.visited() == old(self).visited(),
                i == self.knot_count ==> self.visited() == visited_after(
                    old(self).visited(),
                    old(self).knots@,
                    self.knots@,
                ),
                old(self).knots@.len() == self.knot_count,
            ensures
                self.knots@ == settle(start, 1),
                in_touch(self.knots@),
                self.knots@.len() == self.knot_count,
                self.knot_count == old(self).knot_count,
                self.head_moves == old(self).head_moves,
                self.tail_visited@.no_duplicates(),
                self.visited() == visited_after(old(self).visited(), old(self).knots@, self.knots@),
            decreases self.knot_count - i,
        {
            let knot = self.knots[i];
            let knot_ahead = self.knots[i - 1];
            let x_diff: i32 = knot_ahead.0 - knot.0;
            let y_diff: i32 = knot_ahead.1 - knot.1;
            if -1 <= x_diff && x_diff <= 1 && -1 <= y_diff && y_diff <= 1 {
                proof {
                    assert(in_touch(self.knots@));
                    if self.knot_count >= 2 {
                        assert(self.knots@.last() == old(self).knots@.last());
                    }
                }
                break ;
            }
            let ghost held = self.knots@;
            let x_step: i32 = if x_diff > 0 {
                1
            } else {
                -1
            };
            let y_step: i32 = if y_diff > 0 {
                1
            } else {
                -1
            };
            let target = if (y_diff == 2 || y_diff == -2) && -1 <= x_diff && x_diff <= 1 {
                (knot_ahead.0, knot.1 + y_step)
            } else if (x_diff == 2 || x_diff == -2) && -1 <= y_diff && y_diff <= 1 {
                (knot.0 + x_step, knot_ahead.1)
            } else {
                (knot.0 + x_step, knot.1 + y_step)
            };
            assert(target == follow(knot_ahead, knot));
            self.update_knot(target, i);
            proof {
                let next = self.knots@;
                assert forall|k: int| 1 <= k < next.len() && k != i + 1 implies #[trigger] joined_at(
                    next,
                    k,
                ) by {
                    if k != i {
                        assert(joined_at(held, k));
                    }
                }
                assert(joined_at(next, i as int));
                if i + 1 < next.len() {
                    assert(joined_at(held, i + 1));
                } else {
                    assert(next.last() == target);
                    assert(old(self).knots@.last() == knot);
                    assert(in_touch(next));
                }
            }
            i += 1;
        }
    }

    /// Whether the head can make the step without leaving the range of 32
    /// bits.
    fn head_can_step(&self, direction: &Direction) -> (b: bool)
        requires
            self.knots@.len() > 0,
        ensures
            b == can_step(self.knots@, *direction),
    {
        let head = self.knots[0];
        match direction {
            Direction::Up => head.1 < i32::MAX,
            Direction::Down => head.1 > i32::MIN,
            Direction::Right => head.0 < i32::MAX,
            Direction::Left => head.0 > i32::MIN,
        }
    }

    /// Makes the moves of the head, one step at a time, as long as the head
    /// stays within the range of 32 bits. Returns whether it made them all.
    pub fn try_moves(&mut self) -> (done: bool)
        requires
            old(self).wf(),
        ensures
            done == can_make_moves(old(self).knots@, moves_view(old(self).head_moves@)),
            final(self).wf(),
            final(self).head_moves == old(self).head_moves,
            final(self).knot_count == old(self).knot_count,
            done ==> final(self).knots@ == knots_after(
                old(self).knots@,
                moves_view(old(self).head_moves@),
            ),
            done ==> final(self).visited() == visited_after_moves(
                old(self).visited(),
                old(self).knots@,
                moves_view(old(self).head_moves@),
            ),
    {
        let ghost moves = moves_view(self.head_moves@);
        let ghost knots0 = self.knots@;
        let ghost visited0 = self.visited();
        let mut i: usize = 0;
        assert(moves.take(0) =~= Seq::<(Direction, int)>::empty());
        while i < self.head_moves.len()
            invariant
                i <= self.head_moves.len(),
                self.wf(),
                self.head_moves == old(self).head_moves,
                self.knot_count == old(self).knot_count,
                moves == moves_view(self.head_moves@),
                knots0 == old(self).knots@,
                forall|j: int|
                    0 <= j < i ==> can_make_steps(
                        #[trigger] knots_after(knots0, moves.take(j)),
                        moves[j].0,
                        moves[j].1,
                    ),
                self.knots@ == knots_after(knots0, moves.take(i as int)),
                self.visited() == visited_after_moves(visited0, knots0, moves.take(i as int)),
            decreases self.head_moves.len() - i,
        {
            let head_move = self.head_moves[i];
            let ghost from = self.knots@;
            let ghost seen = self.visited();
            proof {
                assert(moves[i as int] == head_move.view());
                assert(moves.take(i + 1).drop_last() =~= moves.take(i as int));
                assert(moves.take(i + 1).last() == moves[i as int]);
            }
            let mut k: u8 = 0;
            while k < head_move.count
                invariant
                    k <= head_move.count,
                    self.wf(),
                    self.head_moves == old(self).head_moves,
                    self.knot_count == old(self).knot_count,
                    moves == moves_view(self.head_moves@),
                    knots0 == old(self).knots@,
                    i < moves.len(),
                    moves[i as int] == head_move.view(),
                    from == knots_after(knots0, moves.take(i as int)),
                    forall|j: int|
                        0 <= j < k ==> can_step(
                            #[trigger] knots_after_steps(from, head_move.direction, j),
                            head_move.direction,
                        ),
                    self.knots@ == knots_after_steps(from, head_move.direction, k as int),
                    self.visited() == visited_after_steps(seen, from, head_move.direction, k as int),
                decreases head_move.count - k,
            {
                if !self.head_can_step(&head_move.direction) {
                    proof {
                        assert(!can_step(
                            knots_after_steps(from, head_move.direction, k as int),
                            head_move.direction,
                        ));
                        assert(!can_make_steps(
                            knots_after(knots0, moves.take(i as int)),
                            moves[i as int].0,
                            moves[i as int].1,
                        ));
                    }
                    return false;
                }
                self.do_move(&head_move.direction);
                k += 1;
            }
            assert(can_make_steps(from, moves[i as int].0, moves[i as int].1));
            i += 1;
        }
        assert(moves.take(i as int) =~= moves);
        true
    }

    /// Makes all the moves of the head, one step at a time.
    pub fn do_moves(&mut self)
        requires
            old(self).wf(),
            can_make_moves(old(self).knots@, moves_view(old(self).head_moves@)),
        ensures
            final(self).wf(),
            final(self).head_moves == old(self).head_moves,
            final(self).knot_count == old(self).knot_count,
            final(self).knots@ == knots_after(old(self).knots@, moves_view(old(self).head_moves@)),
            final(self).visited() == visited_after_moves(
                old(self).visited(),
                old(self).knots@,
                moves_view(old(self).head_moves@),
            ),
    {
        let done = self.try_moves();
    }

    /// A rope of `knot_count` knots, all at the origin, with the moves that
    /// `input` writes, one per line; `None` where a line writes no move.
    pub fn try_new(input: &str, knot_count: usize) -> (r: Option<Rope>)
        ensures
            r is Some <==> is_plan(input@),
            r matches Some(rope) ==> rope.is_fresh(input@, knot_count),
    {
        let text = chars_of(input);
        let ls = lines_of(&text);
        let ghost all = lines(input@);
        let mut i: usize = 0;
        while i < ls.len()
            invariant
                i <= ls.len(),
                all == rows(ls@),
                all == lines(input@),
                forall|k: int| 0 <= k < i ==> move_in(#[trigger] all[k]) is Some,
            decreases ls.len() - i,
        {
            assert(all[i as int] == ls@[i as int]@);
            if Move::parse(&ls[i]).is_none() {
                return None;
            }
            i += 1;
        }
        Some(Rope::new(input, knot_count))
    }

    /// This is the rope that `new` makes of `input`.
    pub open spec fn is_fresh(self, input: Seq<char>, knot_count: usize) -> bool {
        &&& moves_view(self.head_moves@) == moves_of(lines(input))
        &&& self.knot_count == knot_count
        &&& self.knots@ == Seq::new(knot_count as nat, |i: int| (0i32, 0i32))
        &&& self.tail_visited@ == seq![(0i32, 0i32)]
    }

    /// A rope of `knot_count` knots, all at the origin, with the moves that
    /// `input` writes, one per line.
    pub fn new(input: &str, knot_count: usize) -> (rope: Rope)
        requires
            is_plan(input@),
        ensures
            rope.is_fresh(input@, knot_count),
    {
        let text = chars_of(input);
        let ls = lines_of(&text);
        let ghost all = lines(input@);
        let mut head_moves: Vec<Move> = Vec::new();
        let mut i: usize = 0;
        while i < ls.len()
            invariant
                i <= ls.len(),
                all == rows(ls@),
                all == lines(input@),
                is_plan(input@),
                head_moves.len() == i,
                forall|k: int| 0 <= k < i ==> (#[trigger] head_moves@[k]).view() == move_in(all[k])->0,
            decreases ls.len() - i,
        {
            assert(all[i as int] == ls@[i as int]@);
            head_moves.push(Move::parse(&ls[i]).unwrap());
            i += 1;
        }
        let mut tail_visited: Vec<(i32, i32)> = Vec::new();
        tail_visited.push((0, 0));
        let mut knots: Vec<(i32, i32)> = Vec::new();
        let mut k: usize = 0;
        while k < knot_count
            invariant
                k <= knot_count,
                knots.len() == k,
                forall|j: int| 0 <= j < k ==> knots@[j] == (0i32, 0i32),
            decreases knot_count - k,
        {
            knots.push((0, 0));
            k += 1;
        }
        let rope = Rope { knots, knot_count, tail_visited, head_moves };
        proof {
            assert(moves_view(rope.head_moves@) =~= moves_of(lines(input@)));
            assert(rope.knots@ =~= Seq::new(knot_count as nat, |i: int| (0i32, 0i32)));
            assert(rope.tail_visited@ =~= seq![(0i32, 0i32)]);
        }
        rope
    }
}

/// The knots of a rope that has not moved.
pub open spec fn at_origin(knot_count: nat) -> Seq<(i32, i32)> {
    Seq::new(knot_count, |i: int| (0i32, 0i32))
}

/// The moves of `input` can be made by a rope that starts at the origin.
pub open spec fn can_run(input: Seq<char>, knot_count: nat) -> bool {
    is_plan(input) && can_make_moves(at_origin(knot_count), moves_of(lines(input)))
}

/// The number of positions that the tail of a rope of `knot_count` knots
/// visits when its head makes the moves of `input`.
pub open spec fn tail_positions(input: Seq<char>, knot_count: nat) -> nat {
    visited_after_moves(set![(0i32, 0i32)], at_origin(knot_count), moves_of(lines(input))).len()
}

/// Runs a rope over the moves of `input` and counts the positions of its
/// tail.
fn count_tail_positions(input: &str, knot_count: usize) -> (count: usize)
    requires
        knot_count >= 1,
        can_run(input@, knot_count as nat),
    ensures
        count == tail_positions(input@, knot_count as nat),
{
    let mut rope = Rope::new(input, knot_count);
    proof {
        assert(rope.tail_visited@.to_set() =~= set![(0i32, 0i32)]) by {
            assert(rope.tail_visited@[0] == (0i32, 0i32));
            assert forall|p: (i32, i32)| rope.tail_visited@.contains(p) implies p == (0i32, 0i32) by {
                let j = choose|j: int| 0 <= j < rope.tail_visited@.len() && rope.tail_visited@[j] == p;
            }
        }
        assert(rope.knots@ =~= at_origin(knot_count as nat));
        assert(rope.tail_visited@.no_duplicates());
    }
    rope.do_moves();
    proof {
        rope.tail_visited@.unique_seq_to_set();
    }
    rope.tail_visited.len()
}

/// Whether the moves of `input` can be made by a rope that starts at the
/// origin.
fn can_run_with(input: &str, knot_count: usize) -> (b: bool)
    requires
        knot_count >= 1,
    ensures
        b == can_run(input@, knot_count as nat),
{
    match Rope::try_new(input, knot_count) {
        None => false,
        Some(rope) => {
            let mut rope = rope;
            assert(rope.knots@ =~= at_origin(knot_count as nat));
            rope.try_moves()
        },
    }
}

impl DayNine {
    /// Both answers; `None` where a line of `input` writes no move or the
    /// head would leave the range of 32 bits.
    pub fn solve(&self, input: &str) -> (r: Option<(String, String)>)
        ensures
            r is Some <==> can_run(input@, 2) && can_run(input@, 10),
            r matches Some(answers) ==> answers.0@ == "Number of positions visited by tail: "@
                + decimal(tail_positions(input@, 2)) && answers.1@
                == "Number of positions visited by tail: "@ + decimal(tail_positions(input@, 10)),
    {
        if can_run_with(input, 2) && can_run_with(input, 10) {
            Some((self.part_one(input), self.part_two(input)))
        } else {
            None
        }
    }

    /// Reports how many positions the tail of a rope of two knots visits.
    pub fn part_one(&self, input: &str) -> (out: String)
        requires
            can_run(input@, 2),
        ensures
            out@ == "Number of positions visited by tail: "@ + decimal(tail_positions(input@, 2)),
    {
        let visited_count = count_tail_positions(input, 2);
        labelled_number("Number of positions visited by tail: ", visited_count as u64)
    }

    /// Reports how many positions the tail of a rope of ten knots visits.
    pub fn part_two(&self, input: &str) -> (out: String)
        requires
            can_run(input@, 10),
        ensures
            out@ == "Number of positions visited by tail: "@ + decimal(tail_positions(input@, 10)),
    {
        let visited_count = count_tail_positions(input, 10);
        labelled_number("Number of positions visited by tail: ", visited_count as u64)
    }
}

} // verus!
