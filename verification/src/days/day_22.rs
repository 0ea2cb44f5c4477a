use crate::pattern::{captures_all, group_texts, match_texts, regex_all_captures};
use crate::text::{
    chars_of, decimal, labelled_number, lines, lines_of, parse_u64, parse_within, rows, split,
    split_on, string_of,
};
use vstd::prelude::*;

verus! {

pub struct DayTwentyTwo;

#[derive(Debug, Clone, Copy, PartialEq, Eq, Structural)]
pub enum Direction {
    Up,
    Down,
    Left,
    Right,
}

impl Direction {
    /// The direction a quarter turn to the right.
    pub fn clockwise(&self) -> (d: Direction)
        ensures
            d == turned(*self, true),
    {
        match self {
            Direction::Up => Direction::Right,
            Direction::Right => Direction::Down,
            Direction::Down => Direction::Left,
            Direction::Left => Direction::Up,
        }
    }

    /// The direction a quarter turn to the left.
    pub fn anticlockwise(&self) -> (d: Direction)
        ensures
            d == turned(*self, false),
    {
        match self {
            Direction::Up => Direction::Left,
            Direction::Left => Direction::Down,
            Direction::Down => Direction::Right,
            Direction::Right => Direction::Up,
        }
    }

    /// What the direction counts for in the score.
    pub fn score(&self) -> (n: u32)
        ensures
            n == facing(*self),
    {
        match self {
            Direction::Right => 0,
            Direction::Down => 1,
            Direction::Left => 2,
            Direction::Up => 3,
        }
    }
}

/// The direction a quarter turn to the right or, where `clockwise` is not
/// set, to the left.
pub open spec fn turned(d: Direction, clockwise: bool) -> Direction {
    if clockwise {
        match d {
            Direction::Up => Direction::Right,
            Direction::Right => Direction::Down,
            Direction::Down => Direction::Left,
            Direction::Left => Direction::Up,
        }
    } else {
        match d {
            Direction::Up => Direction::Left,
            Direction::Left => Direction::Down,
            Direction::Down => Direction::Right,
            Direction::Right => Direction::Up,
        }
    }
}

/// What a direction counts for in the score.
pub open spec fn facing(d: Direction) -> int {
    match d {
        Direction::Right => 0,
        Direction::Down => 1,
        Direction::Left => 2,
        Direction::Up => 3,
    }
}

#[derive(Debug, Clone, Copy, PartialEq, Eq, Structural)]
pub enum Square {
    Open,
    Wall,
    Empty,
}

/// A board of squares with the square and direction of the walker and the
/// instructions still to follow: a quarter turn each, to the right where the
/// first part is set, and a number of steps.
pub struct Board {
    pub current_square: (usize, usize),
    pub current_direction: Direction,
    pub rows: Vec<Vec<Square>>,
    pub row_count: usize,
    pub col_count: usize,
    pub instructions: Vec<(bool, u8)>,
}

/// The squares of the board, row by row.
pub open spec fn squares(rows: Seq<Vec<Square>>) -> Seq<Seq<Square>> {
    Seq::new(rows.len(), |i: int| rows[i]@)
}

/// The walker on a board: its column and row, and its direction.
pub struct Walker {
    pub x: int,
    pub y: int,
    pub direction: Direction,
}

/// The square `k` steps from `(x, y)` in the direction `d`, going round from
/// the last row or column to the first; `None` where the way leads off the
/// first row or column, for there the count of rows or columns cannot go
/// below zero.
pub open spec fn ahead(b: Seq<Seq<Square>>, cols: int, x: int, y: int, d: Direction, k: int) -> Option<
    (int, int),
> {
    match d {
        Direction::Up => if y - k >= 0 {
            Some((x, y - k))
        } else {
            None
        },
        Direction::Left => if x - k >= 0 {
            Some((x - k, y))
        } else {
            None
        },
        Direction::Down => Some((x, (y + k) % (b.len() as int))),
        Direction::Right => Some(((x + k) % cols, y)),
    }
}

/// Where one step takes the walker once the first `k - 1` squares ahead of
/// it have proved empty: onto the first square ahead that is not empty, if
/// that is open; nowhere, if it is a wall. The outer `None` says that the
/// way leads off the board.
pub open spec fn step_from(b: Seq<Seq<Square>>, cols: int, x: int, y: int, d: Direction, k: int) -> Option<
    Option<(int, int)>,
>
    decreases b.len() + cols + 1 - k,
{
    if k > b.len() + cols || k < 1 {
        None
    } else {
        match ahead(b, cols, x, y, d, k) {
            None => None,
            Some(n) => match b[n.1][n.0] {
                Square::Empty => step_from(b, cols, x, y, d, k + 1),
                Square::Open => Some(Some(n)),
                Square::Wall => Some(None),
            },
        }
    }
}

/// The board has `cols` squares in every row, and the walker stands on an
/// open square of it.
pub open spec fn stands_on(b: Seq<Seq<Square>>, cols: int, w: Walker) -> bool {
    &&& b.len() > 0
    &&& cols > 0
    &&& forall|i: int| 0 <= i < b.len() ==> (#[trigger] b[i]).len() == cols
    &&& 0 <= w.y < b.len()
    &&& 0 <= w.x < cols
    &&& b[w.y][w.x] == Square::Open
}

/// The walker after up to `n` steps straight on: it stops before a wall.
/// `None` where the way leads off the board.
pub open spec fn walked(b: Seq<Seq<Square>>, cols: int, w: Walker, n: int) -> Option<Walker>
    decreases n,
{
    if n <= 0 {
        Some(w)
    } else {
        match step_from(b, cols, w.x, w.y, w.direction, 1) {
            None => None,
            Some(None) => Some(w),
            Some(Some(p)) => walked(b, cols, Walker { x: p.0, y: p.1, ..w }, n - 1),
        }
    }
}

/// The walker after the instructions, each a turn and then steps.
pub open spec fn followed(b: Seq<Seq<Square>>, cols: int, w: Walker, ins: Seq<(bool, u8)>) -> Option<
    Walker,
>
    decreases ins.len(),
{
    if ins.len() == 0 {
        Some(w)
    } else {
        match followed(b, cols, w, ins.drop_last()) {
            None => None,
            Some(before) => walked(
                b,
                cols,
                Walker { direction: turned(before.direction, ins.last().0), ..before },
                ins.last().1 as int,
            ),
        }
    }
}

/// The score of a walker: a thousand times its row, four times its column,
/// both counted from one, and what its direction counts for. `None` where
/// row, column or score do not fit in 32 bits.
pub open spec fn score_of(w: Walker) -> Option<int> {
    let score = 1000 * (w.y + 1) + 4 * (w.x + 1) + facing(w.direction);
    if w.x < u32::MAX && w.y < u32::MAX && score <= u32::MAX {
        Some(score)
    } else {
        None
    }
}

impl Board {
    /// The walker of the board.
    pub open spec fn walker(self) -> Walker {
        Walker {
            x: self.current_square.0 as int,
            y: self.current_square.1 as int,
            direction: self.current_direction,
        }
    }

    /// The counts of rows and columns are those of the board, and the walker
    /// stands on an open square.
    pub open spec fn wf(self) -> bool {
        &&& self.row_count == self.rows@.len()
        &&& stands_on(squares(self.rows@), self.col_count as int, self.walker())
    }

    /// The score of the walker; `None` where it does not fit in 32 bits.
    pub fn try_score(&self) -> (r: Option<u32>)
        ensures
            match r {
                Some(n) => score_of(self.walker()) == Some(n as int),
                None => score_of(self.walker()) is None,
            },
    {
        let x = self.current_square.0 as u64;
        let y = self.current_square.1 as u64;
        if x >= 0xffff_ffff || y >= 0xffff_ffff {
            return None;
        }
        let score: u64 = 1000 * (y + 1) + 4 * (x + 1) + self.current_direction.score() as u64;
        if score > 0xffff_ffff {
            None
        } else {
            Some(score as u32)
        }
    }

    /// The score of the walker.
    pub fn score(&self) -> (n: u32)
        requires
            score_of(self.walker()) is Some,
        ensures
            score_of(self.walker()) == Some(n as int),
    {
        self.try_score().unwrap()
    }

    /// Takes one step and says whether the walker has moved; `None` where
    /// the way leads off the board.
    pub fn move_one(&mut self) -> (r: Option<bool>)
        requires
            old(self).wf(),
        ensures
            final(self).wf(),
            final(self).rows == old(self).rows,
            final(self).col_count == old(self).col_count,
            final(self).instructions == old(self).instructions,
            final(self).current_direction == old(self).current_direction,
            match r {
                Some(true) => step_from(
                    squares(old(self).rows@),
                    old(self).col_count as int,
                    old(self).walker().x,
                    old(self).walker().y,
                    old(self).current_direction,
                    1,
                ) == Some(Some((final(self).walker().x, final(self).walker().y))),
                Some(false) => step_from(
                    squares(old(self).rows@),
                    old(self).col_count as int,
                    old(self).walker().x,
                    old(self).walker().y,
                    old(self).current_direction,
                    1,
                ) == Some(None::<(int, int)>) && *final(self) == *old(self),
                None => step_from(
                    squares(old(self).rows@),
                    old(self).col_count as int,
                    old(self).walker().x,
                    old(self).walker().y,
                    old(self).current_direction,
                    1,
                ) is None && *final(self) == *old(self),
            },
    {
        let ghost b = squares(self.rows@);
        let ghost cols = self.col_count as int;
        let ghost x0 = self.current_square.0 as int;
        let ghost y0 = self.current_square.1 as int;
        let ghost d = self.current_direction;
        let mut new_square = self.current_square;
        let mut k: usize = 0;
        proof {
            vstd::arithmetic::div_mod::lemma_small_mod(x0 as nat, cols as nat);
            vstd::arithmetic::div_mod::lemma_small_mod(y0 as nat, b.len());
        }
        loop
            invariant
                *self == *old(self),
                self.wf(),
                b == squares(self.rows@),
                cols == self.col_count,
                x0 == self.current_square.0,
                y0 == self.current_square.1,
                d == self.current_direction,
                k <= b.len() + cols,
                ahead(b, cols, x0, y0, d, k as int) == Some(
                    (new_square.0 as int, new_square.1 as int),
                ),
                new_square.0 < cols,
                new_square.1 < b.len(),
                step_from(b, cols, x0, y0, d, 1) == step_from(b, cols, x0, y0, d, k + 1),
                forall|j: int|
                    1 <= j <= k ==> match #[trigger] ahead(b, cols, x0, y0, d, j) {
                        Some(n) => 0 <= n.1 < b.len() && 0 <= n.0 < cols && b[n.1][n.0]
                            == Square::Empty,
                        None => false,
                    },
            decreases b.len() + cols - k,
        {
            proof {
                lemma_way_round(b, cols, x0, y0, d, k as int);
                lemma_next_ahead(b, cols, x0, y0, d, k as int);
                if new_square.1 > 0 {
                    vstd::arithmetic::div_mod::lemma_small_mod((new_square.1 - 1) as nat, b.len());
                }
                if new_square.0 > 0 {
                    vstd::arithmetic::div_mod::lemma_small_mod((new_square.0 - 1) as nat, cols as nat);
                }
            }
            new_square =
            match self.current_direction {
                Direction::Up => {
                    if new_square.1 == 0 {
                        return None;
                    }
                    (new_square.0, (new_square.1 - 1) % self.row_count)
                },
                Direction::Down => (new_square.0, (new_square.1 + 1) % self.row_count),
                Direction::Left => {
                    if new_square.0 == 0 {
                        return None;
                    }
                    ((new_square.0 - 1) % self.col_count, new_square.1)
                },
                Direction::Right => ((new_square.0 + 1) % self.col_count, new_square.1),
            };
            k += 1;
            proof {
                assert(ahead(b, cols, x0, y0, d, k as int) == Some(
                    (new_square.0 as int, new_square.1 as int),
                ));
                assert(b[new_square.1 as int] == self.rows@[new_square.1 as int]@);
            }
            match self.rows[new_square.1][new_square.0] {
                Square::Empty => {
                    continue ;
                },
                Square::Open => {
                    self.current_square = new_square;
                    return Some(true);
                },
                Square::Wall => {
                    return Some(false);
                },
            }
        }
    }
}

/// Going on by one from the square `k` steps ahead leads to the square
/// `k + 1` steps ahead.
proof fn lemma_next_ahead(b: Seq<Seq<Square>>, cols: int, x: int, y: int, d: Direction, k: int)
    requires
        b.len() > 0,
        cols > 0,
        0 <= x < cols,
        0 <= y < b.len(),
        k >= 0,
    ensures
        match d {
            Direction::Down => ahead(b, cols, x, y, d, k + 1) == Some(
                (x, (((y + k) % (b.len() as int)) + 1) % (b.len() as int)),
            ),
            Direction::Right => ahead(b, cols, x, y, d, k + 1) == Some(
                ((((x + k) % cols) + 1) % cols, y),
            ),
            _ => true,
        },
{
    let n = b.len() as int;
    vstd::arithmetic::div_mod::lemma_add_mod_noop(y + k, 1, n);
    vstd::arithmetic::div_mod::lemma_add_mod_noop(x + k, 1, cols);
    vstd::arithmetic::div_mod::lemma_mod_twice(y + k, n);
    vstd::arithmetic::div_mod::lemma_mod_twice(x + k, cols);
    if n > 1 {
        vstd::arithmetic::div_mod::lemma_small_mod(1, n as nat);
    }
    if cols > 1 {
        vstd::arithmetic::div_mod::lemma_small_mod(1, cols as nat);
    }
}

/// As long as all squares ahead have proved empty, the walker has not come
/// round to its own square, which is open: fewer steps have been taken than
/// the row or column is long.
proof fn lemma_way_round(b: Seq<Seq<Square>>, cols: int, x: int, y: int, d: Direction, k: int)
    requires
        b.len() > 0,
        cols > 0,
        0 <= x < cols,
        0 <= y < b.len(),
        b[y][x] == Square::Open,
        k >= 0,
        forall|j: int|
            1 <= j <= k ==> match #[trigger] ahead(b, cols, x, y, d, j) {
                Some(n) => 0 <= n.1 < b.len() && 0 <= n.0 < cols && b[n.1][n.0] == Square::Empty,
                None => false,
            },
    ensures
        match d {
            Direction::Down => k < b.len(),
            Direction::Right => k < cols,
            Direction::Up => k <= y,
            Direction::Left => k <= x,
        },
{
    let n = b.len() as int;
    match d {
        Direction::Down => {
            if k >= n {
                assert(ahead(b, cols, x, y, d, n) == Some((x, y))) by {
                    vstd::arithmetic::div_mod::lemma_mod_add_multiples_vanish(y, n);
                    vstd::arithmetic::div_mod::lemma_small_mod(y as nat, n as nat);
                }
            }
        },
        Direction::Right => {
            if k >= cols {
                assert(ahead(b, cols, x, y, d, cols) == Some((x, y))) by {
                    vstd::arithmetic::div_mod::lemma_mod_add_multiples_vanish(x, cols);
                    vstd::arithmetic::div_mod::lemma_small_mod(x as nat, cols as nat);
                }
            }
        },
        Direction::Up => {
            if k > y {
                assert(ahead(b, cols, x, y, d, k) is None);
            }
        },
        Direction::Left => {
            if k > x {
                assert(ahead(b, cols, x, y, d, k) is None);
            }
        },
    }
}

impl Board {
    /// Follows the instructions, each a turn and then steps up to a wall.
    /// Returns whether the way stayed on the board; where it did not, the
    /// walker stands where it could go no further.
    pub fn try_do_instructions(&mut self) -> (done: bool)
        requires
            old(self).wf(),
        ensures
            final(self).wf(),
            final(self).rows == old(self).rows,
            final(self).col_count == old(self).col_count,
            final(self).instructions == old(self).instructions,
            done == followed(
                squares(old(self).rows@),
                old(self).col_count as int,
                old(self).walker(),
                old(self).instructions@,
            ) is Some,
            done ==> Some(final(self).walker()) == followed(
                squares(old(self).rows@),
                old(self).col_count as int,
                old(self).walker(),
                old(self).instructions@,
            ),
    {
        let ghost b = squares(self.rows@);
        let ghost cols = self.col_count as int;
        let ghost w0 = self.walker();
        let ghost ins = self.instructions@;
        let mut i: usize = 0;
        assert(ins.take(0) =~= Seq::<(bool, u8)>::empty());
        while i < self.instructions.len()
            invariant
                i <= self.instructions.len(),
                self.wf(),
                self.rows == old(self).rows,
                self.col_count == old(self).col_count,
                self.instructions == old(self).instructions,
                b == squares(self.rows@),
                cols == self.col_count,
                w0 == old(self).walker(),
                ins == self.instructions@,
                followed(b, cols, w0, ins.take(i as int)) == Some(self.walker()),
            decreases self.instructions.len() - i,
        {
            let instruction = self.instructions[i];
            proof {
                assert(ins.take(i + 1).drop_last() =~= ins.take(i as int));
                assert(ins.take(i + 1).last() == instruction);
            }
            self.current_direction =
            if instruction.0 {
                self.current_direction.clockwise()
            } else {
                self.current_direction.anticlockwise()
            };
            let ghost turned_walker = self.walker();
            let ghost goal = walked(b, cols, turned_walker, instruction.1 as int);
            assert(followed(b, cols, w0, ins.take(i + 1)) == goal);
            let mut k: u8 = 0;
            while k < instruction.1
                invariant
                    k <= instruction.1,
                    i < self.instructions.len(),
                    self.wf(),
                    self.rows == old(self).rows,
                    self.col_count == old(self).col_count,
                    self.instructions == old(self).instructions,
                    b == squares(self.rows@),
                    cols == self.col_count,
                    w0 == old(self).walker(),
                    ins == self.instructions@,
                    followed(b, cols, w0, ins.take(i + 1)) == goal,
                    goal == walked(b, cols, self.walker(), instruction.1 - k),
                ensures
                    goal == Some(self.walker()),
                    followed(b, cols, w0, ins.take(i + 1)) == goal,
                decreases instruction.1 - k,
            {
                match self.move_one() {
                    None => {
                        proof {
                            assert(goal is None);
                            lemma_followed_none(b, cols, w0, ins, i + 1);
                        }
                        return false;
                    },
                    Some(able_to_move) => {
                        if !able_to_move {
                            break ;
                        }
                    },
                }
                k += 1;
            }
            i += 1;
        }
        assert(ins.take(i as int) =~= ins);
        true
    }

    /// Follows the instructions.
    pub fn do_instructions(&mut self)
        requires
            old(self).wf(),
            followed(
                squares(old(self).rows@),
                old(self).col_count as int,
                old(self).walker(),
                old(self).instructions@,
            ) is Some,
        ensures
            final(self).wf(),
            final(self).rows == old(self).rows,
            final(self).col_count == old(self).col_count,
            final(self).instructions == old(self).instructions,
            Some(final(self).walker()) == followed(
                squares(old(self).rows@),
                old(self).col_count as int,
                old(self).walker(),
                old(self).instructions@,
            ),
    {
        let done = self.try_do_instructions();
    }
}

/// Once the way leads off the board, it stays off.
proof fn lemma_followed_none(b: Seq<Seq<Square>>, cols: int, w: Walker, ins: Seq<(bool, u8)>, k: int)
    requires
        1 <= k <= ins.len(),
        followed(b, cols, w, ins.take(k)) is None,
    ensures
        followed(b, cols, w, ins) is None,
    decreases ins.len() - k,
{
    if k < ins.len() {
        assert(ins.take(k + 1).drop_last() =~= ins.take(k));
        lemma_followed_none(b, cols, w, ins, k + 1);
    } else {
        assert(ins.take(k) =~= ins);
    }
}

/// The square that a character stands for: a blank for none, a dot for an
/// open one, a hash for a wall.
pub open spec fn square_of(c: char) -> Option<Square> {
    if c == ' ' {
        Some(Square::Empty)
    } else if c == '.' {
        Some(Square::Open)
    } else if c == '#' {
        Some(Square::Wall)
    } else {
        None
    }
}

/// The length of the longest of the lines.
pub open spec fn widest(ls: Seq<Seq<char>>) -> int
    decreases ls.len(),
{
    if ls.len() == 0 {
        0
    } else if ls.last().len() > widest(ls.drop_last()) {
        ls.last().len() as int
    } else {
        widest(ls.drop_last())
    }
}

/// Every character of the line stands for a square.
pub open spec fn is_row(line: Seq<char>) -> bool {
    forall|i: int| 0 <= i < line.len() ==> square_of(#[trigger] line[i]) is Some
}

/// The squares that the line stands for, filled up to `cols` with no
/// squares.
pub open spec fn row_of(line: Seq<char>, cols: int) -> Seq<Square> {
    Seq::new(
        cols as nat,
        |i: int|
            if i < line.len() {
                square_of(line[i])->0
            } else {
                Square::Empty
            },
    )
}

/// The place of the first open square of the row; its length where it has
/// none.
pub open spec fn first_open(row: Seq<Square>) -> int
    decreases row.len(),
{
    if row.len() == 0 || row[0] == Square::Open {
        0
    } else {
        1 + first_open(row.skip(1))
    }
}

/// The regular expression of an instruction: a letter for the turn and the
/// number of steps.
pub open spec fn turn_pattern() -> Seq<char> {
    r"(?P<lr>[LR])(?P<number>[0-9]+)"@
}

/// The instruction that the capture groups of a match write: L or R, and a
/// number of at most 255.
pub open spec fn turn_of(groups: Seq<Option<Seq<char>>>) -> Option<(bool, u8)> {
    if groups.len() == 3 && groups[1] is Some && groups[2] is Some {
        let letter = groups[1]->0;
        match parse_within(groups[2]->0, false, 0, u8::MAX as int) {
            Some(n) => if letter.len() == 1 && letter[0] == 'L' {
                Some((false, n as u8))
            } else if letter.len() == 1 && letter[0] == 'R' {
                Some((true, n as u8))
            } else {
                None
            },
            None => None,
        }
    } else {
        None
    }
}

/// What `input` sets up: the board of its first part, the walker on the
/// first open square of the first row, heading up, and the instructions of
/// its second part, before which a turn to the right is put. `None` where
/// it sets up nothing.
pub open spec fn set_up(input: Seq<char>) -> Option<(Seq<Seq<Square>>, int, Walker, Seq<(bool, u8)>)> {
    let parts = split(input, seq!['\n', '\n']);
    if parts.len() < 2 {
        None
    } else {
        let ls = lines(parts[0]);
        let cols = widest(ls);
        let found = regex_all_captures(turn_pattern(), seq!['R'] + parts[1]);
        if ls.len() > 0 && (forall|i: int| 0 <= i < ls.len() ==> is_row(#[trigger] ls[i]))
            && first_open(row_of(ls[0], cols)) < cols && found is Some && (forall|i: int|
            0 <= i < found->0.len() ==> turn_of(#[trigger] found->0[i]) is Some) {
            Some(
                (
                    Seq::new(ls.len(), |i: int| row_of(ls[i], cols)),
                    cols,
                    Walker { x: first_open(row_of(ls[0], cols)), y: 0, direction: Direction::Up },
                    Seq::new(found->0.len(), |i: int| turn_of(found->0[i])->0),
                ),
            )
        } else {
            None
        }
    }
}

/// The score for `input`; `None` where it cannot be worked out.
pub open spec fn final_score(input: Seq<char>) -> Option<int> {
    match set_up(input) {
        None => None,
        Some((b, cols, w, ins)) => match followed(b, cols, w, ins) {
            None => None,
            Some(end) => score_of(end),
        },
    }
}

/// The place found is the place of the first open square.
proof fn lemma_first_open(row: Seq<Square>, k: int)
    requires
        0 <= k <= row.len(),
        forall|i: int| 0 <= i < k ==> row[i] != Square::Open,
        k < row.len() ==> row[k] == Square::Open,
    ensures
        first_open(row) == k,
    decreases k,
{
    if k > 0 {
        assert(row[0] != Square::Open);
        assert forall|i: int| 0 <= i < k - 1 implies row.skip(1)[i] != Square::Open by {
            assert(row.skip(1)[i] == row[i + 1]);
        }
        if k < row.len() {
            assert(row.skip(1)[k - 1] == row[k]);
        }
        lemma_first_open(row.skip(1), k - 1);
    }
}

impl Board {
    /// This is the board that `input` sets up.
    pub open spec fn is_set_up(self, input: Seq<char>) -> bool {
        &&& self.wf()
        &&& set_up(input) == Some(
            (squares(self.rows@), self.col_count as int, self.walker(), self.instructions@),
        )
    }

    /// Reads a board with its instructions; `None` where `input` sets up
    /// none.
    fn read(input: &str) -> (r: Option<Board>)
        ensures
            r is Some <==> set_up(input@) is Some,
            r matches Some(board) ==> board.is_set_up(input@),
    {
        let text = chars_of(input);
        let mut gap: Vec<char> = Vec::new();
        gap.push('\n');
        gap.push('\n');
        assert(gap@ =~= seq!['\n', '\n']);
        let map_instructions = split_on(&text, &gap);
        let ghost parts = split(input@, seq!['\n', '\n']);
        if map_instructions.len() < 2 {
            return None;
        }
        assert(parts[0] == map_instructions@[0]@);
        assert(parts[1] == map_instructions@[1]@);
        let ls = lines_of(&map_instructions[0]);
        let ghost all = lines(parts[0]);
        let row_count = ls.len();
        if row_count == 0 {
            return None;
        }
        let mut col_count: usize = 0;
        let mut i: usize = 0;
        assert(all.take(0) =~= Seq::<Seq<char>>::empty());
        while i < ls.len()
            invariant
                i <= ls.len(),
                all == rows(ls@),
                col_count == widest(all.take(i as int)),
            decreases ls.len() - i,
        {
            assert(all[i as int] == ls@[i as int]@);
            assert(all.take(i + 1).drop_last() =~= all.take(i as int));
            assert(all.take(i + 1).last() == all[i as int]);
            if ls[i].len() > col_count {
                col_count = ls[i].len();
            }
            i += 1;
        }
        assert(all.take(i as int) =~= all);
        let ghost cols = col_count as int;
        let mut board_rows: Vec<Vec<Square>> = Vec::new();
        let mut i: usize = 0;
        while i < ls.len()
            invariant
                i <= ls.len(),
                all == crate::text::rows(ls@),
                all == lines(parts[0]),
                cols == col_count,
                cols == widest(all),
                parts == split(input@, seq!['\n', '\n']),
                parts.len() >= 2,
                board_rows.len() == i,
                forall|k: int| 0 <= k < i ==> is_row(#[trigger] all[k]),
                forall|k: int| 0 <= k < i ==> (#[trigger] board_rows@[k])@ == row_of(all[k], cols),
            decreases ls.len() - i,
        {
            let line = &ls[i];
            assert(all[i as int] == line@);
            let mut row: Vec<Square> = Vec::new();
            let mut j: usize = 0;
            while j < col_count
                invariant
                    j <= col_count,
                    i < ls.len(),
                    all == crate::text::rows(ls@),
                    all[i as int] == line@,
                    all == lines(parts[0]),
                    parts == split(input@, seq!['\n', '\n']),
                    parts.len() >= 2,
                    cols == col_count,
                    row.len() == j,
                    forall|k: int| 0 <= k < j && k < line@.len() ==> square_of(#[trigger] line@[k]) is Some,
                    forall|k: int| 0 <= k < j ==> row@[k] == row_of(line@, cols)[k],
                decreases col_count - j,
            {
                if j >= line.len() {
                    row.push(Square::Empty);
                } else {
                    let c = line[j];
                    if c == ' ' {
                        row.push(Square::Empty);
                    } else if c == '.' {
                        row.push(Square::Open);
                    } else if c == '#' {
                        row.push(Square::Wall);
                    } else {
                        assert(!is_row(all[i as int]));
                        return None;
                    }
                }
                j += 1;
            }
            proof {
                lemma_widest_bounds(all, i as int);
                assert(row@ =~= row_of(line@, cols));
            }
            board_rows.push(row);
            i += 1;
        }
        let mut start: usize = 0;
        while start < col_count && !is_open(&board_rows[0][start])
            invariant
                start <= col_count,
                board_rows.len() > 0,
                board_rows@[0]@.len() == col_count,
                forall|k: int| 0 <= k < start ==> board_rows@[0]@[k] != Square::Open,
            decreases col_count - start,
        {
            start += 1;
        }
        proof {
            lemma_first_open(board_rows@[0]@, start as int);
        }
        if start >= col_count {
            return None;
        }
        let mut line: Vec<char> = Vec::new();
        line.push('R');
        let mut rest = slice_all(&map_instructions[1]);
        line.append(&mut rest);
        assert(line@ =~= seq!['R'] + parts[1]);
        let found = captures_all(r"(?P<lr>[LR])(?P<number>[0-9]+)", string_of(&line).as_str());
        let ghost matches = regex_all_captures(turn_pattern(), seq!['R'] + parts[1]);
        let caps = match found {
            None => {
                return None;
            },
            Some(c) => c,
        };
        let mut instructions: Vec<(bool, u8)> = Vec::new();
        let mut i: usize = 0;
        while i < caps.len()
            invariant
                i <= caps.len(),
                matches == match_texts(Some(caps)),
                matches is Some,
                matches == regex_all_captures(turn_pattern(), seq!['R'] + parts[1]),
                parts == split(input@, seq!['\n', '\n']),
                parts.len() >= 2,
                instructions.len() == i,
                forall|k: int| 0 <= k < i ==> turn_of(#[trigger] matches->0[k]) is Some,
                forall|k: int| 0 <= k < i ==> Some(instructions@[k]) == turn_of(matches->0[k]),
            decreases caps.len() - i,
        {
            match read_turn(&caps[i]) {
                None => {
                    assert(turn_of(matches->0[i as int]) is None);
                    return None;
                },
                Some(t) => {
                    instructions.push(t);
                },
            }
            i += 1;
        }
        let board = Board {
            current_square: (start, 0),
            current_direction: Direction::Up,
            rows: board_rows,
            row_count: row_count,
            col_count: col_count,
            instructions: instructions,
        };
        proof {
            assert(squares(board.rows@) =~= Seq::new(all.len(), |i: int| row_of(all[i], cols)));
            assert(board.instructions@ =~= Seq::new(
                matches->0.len(),
                |i: int| turn_of(matches->0[i])->0,
            ));
            assert(squares(board.rows@)[0] == row_of(all[0], cols));
        }
        Some(board)
    }

    /// Reads a board with its instructions; `None` where `input` sets up
    /// none.
    pub fn try_new(input: &str) -> (r: Option<Board>)
        ensures
            r is Some <==> set_up(input@) is Some,
            r matches Some(board) ==> board.is_set_up(input@),
    {
        match Board::read(input) {
            None => None,
            Some(_) => Some(Board::new(input)),
        }
    }

    /// Reads a board with its instructions.
    pub fn new(input: &str) -> (board: Board)
        requires
            set_up(input@) is Some,
        ensures
            board.is_set_up(input@),
    {
        Board::read(input).unwrap()
    }
}

/// No line is longer than the longest.
proof fn lemma_widest_bounds(ls: Seq<Seq<char>>, i: int)
    requires
        0 <= i < ls.len(),
    ensures
        ls[i].len() <= widest(ls),
    decreases ls.len(),
{
    if i < ls.len() - 1 {
        lemma_widest_bounds(ls.drop_last(), i);
    }
}

/// Whether the square is open.
fn is_open(s: &Square) -> (b: bool)
    ensures
        b == (*s == Square::Open),
{
    match s {
        Square::Open => true,
        _ => false,
    }
}

/// The characters of `v` as a vector of their own.
fn slice_all(v: &Vec<char>) -> (r: Vec<char>)
    ensures
        r@ == v@,
{
    let r = crate::text::slice_of(v, 0, v.len());
    assert(r@ =~= v@);
    r
}

/// The instruction that the capture groups of a match write.
fn read_turn(groups: &Vec<Option<String>>) -> (r: Option<(bool, u8)>)
    ensures
        r == turn_of(group_texts(Some(*groups))->0),
{
    if groups.len() != 3 {
        return None;
    }
    let ghost texts = group_texts(Some(*groups))->0;
    assert(texts[1] == (match groups@[1] {
        Some(s) => Some(s@),
        None => None,
    }));
    assert(texts[2] == (match groups@[2] {
        Some(s) => Some(s@),
        None => None,
    }));
    match (&groups[1], &groups[2]) {
        (Some(lr), Some(number)) => {
            let letter = chars_of(lr.as_str());
            match parse_u64(&chars_of(number.as_str())) {
                None => None,
                Some(n) => if n > 255 {
                    None
                } else if letter.len() == 1 && letter[0] == 'L' {
                    Some((false, n as u8))
                } else if letter.len() == 1 && letter[0] == 'R' {
                    Some((true, n as u8))
                } else {
                    None
                },
            }
        },
        _ => None,
    }
}

/// Works out the score.
fn work_out(input: &str) -> (r: Option<u32>)
    ensures
        match r {
            Some(n) => final_score(input@) == Some(n as int),
            None => final_score(input@) is None,
        },
{
    let mut map = match Board::try_new(input) {
        None => {
            return None;
        },
        Some(m) => m,
    };
    if !map.try_do_instructions() {
        return None;
    }
    map.try_score()
}

impl DayTwentyTwo {
    /// Both answers; `None` where the score cannot be worked out.
    pub fn solve(&self, input: &str) -> (r: Option<(String, String)>)
        ensures
            r is Some <==> final_score(input@) is Some,
            r matches Some(answers) ==> answers.0@ == "Score: "@ + decimal(
                final_score(input@)->0 as nat,
            ) && answers.1@ == "Not yet implemented"@,
    {
        if work_out(input).is_some() {
            Some((self.part_one(input), self.part_two(input)))
        } else {
            None
        }
    }

    /// Reports the score of the walker after it has followed the
    /// instructions.
    pub fn part_one(&self, input: &str) -> (out: String)
        requires
            final_score(input@) is Some,
        ensures
            out@ == "Score: "@ + decimal(final_score(input@)->0 as nat),
    {
        let score = work_out(input).unwrap();
        labelled_number("Score: ", score as u64)
    }

    /// Reports that there is nothing to compute.
    pub fn part_two(&self, _input: &str) -> (out: String)
        ensures
            out@ == "Not yet implemented"@,
    {
        string_of(&chars_of("Not yet implemented"))
    }
}

} // verus!
