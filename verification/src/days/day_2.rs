use crate::numbers::{ints_u32, sum, total_u32};
use crate::text::{chars_of, decimal, labelled_number, one_char, rows, split, split_on, trim, trimmed};
use vstd::prelude::*;

verus! {

pub struct DayTwo {}

/// How the second column of a round is read.
#[derive(Clone, Copy, PartialEq, Eq, Debug)]
pub enum Reading {
    /// As the shape that the player shows.
    Action,
    /// As the outcome that the player is to bring about.
    Outcome,
}

/// `val` reduced to the range from 0 up to `modulus`.
pub fn modulo(val: isize, modulus: isize) -> (r: u8)
    requires
        0 < modulus <= 256,
    ensures
        r == (val as int) % (modulus as int),
{
    if val >= 0 {
        (val % modulus) as u8
    } else {
        let below = -(val + 1);
        let rem = below % modulus;
        proof {
            let q = below as int / modulus as int;
            vstd::arithmetic::div_mod::lemma_fundamental_div_mod(below as int, modulus as int);
            assert(val == (-(q + 1)) * modulus + (modulus - 1 - rem)) by (nonlinear_arith)
                requires
                    below == modulus * q + rem,
                    val == -below - 1,
            ;
            vstd::arithmetic::div_mod::lemma_fundamental_div_mod_converse(
                val as int,
                modulus as int,
                -(q + 1),
                modulus - 1 - rem,
            );
        }
        (modulus - 1 - rem) as u8
    }
}

/// What the outcome of a round is worth: 3 for a draw, 6 for a win of the
/// player, 0 for a loss. Each shape beats the one before it, the first beats
/// the last.
pub open spec fn outcome_score(opponent: int, player: int) -> int {
    let c = (player - opponent) % 3;
    if c == 0 {
        3
    } else if c == 1 {
        6
    } else {
        0
    }
}

/// What the outcome of a round is worth.
pub fn comparison_score(opponent: u8, player: u8) -> (score: u32)
    ensures
        score == outcome_score(opponent as int, player as int),
{
    let comparison = modulo(player as isize - opponent as isize, 3);
    if comparison == 0 {
        3
    } else if comparison == 1 {
        6
    } else {
        0
    }
}

/// What the shape that the player shows is worth.
pub fn player_score(player: u8) -> (score: u32)
    requires
        1 <= player <= 3,
    ensures
        score == player,
{
    if player == 1 {
        1
    } else if player == 2 {
        2
    } else {
        3
    }
}

/// The second column holds one of the letters X, Y and Z.
pub open spec fn is_player_code(player: Seq<char>) -> bool {
    player.len() == 1 && (player[0] == 'X' || player[0] == 'Y' || player[0] == 'Z')
}

/// The shape that the player shows where the second column names it.
pub open spec fn action_of(player: Seq<char>) -> int {
    if player[0] == 'X' {
        1
    } else if player[0] == 'Y' {
        2
    } else {
        3
    }
}

/// The shape that the player shows where the second column names the
/// outcome: X to lose, Y to draw, Z to win.
pub open spec fn result_of(opponent: int, player: Seq<char>) -> int {
    if player[0] == 'X' {
        (opponent - 2) % 3 + 1
    } else if player[0] == 'Y' {
        opponent
    } else {
        opponent % 3 + 1
    }
}

/// The one character of `code`.
fn code_letter(code: &Vec<char>) -> (c: Option<char>)
    ensures
        match c {
            Some(x) => code@.len() == 1 && code@[0] == x,
            None => code@.len() != 1,
        },
{
    if code.len() == 1 {
        Some(code[0])
    } else {
        None
    }
}

/// The shape that the player shows, the second column naming it.
pub fn player_as_action(_opponent: u8, player: &str) -> (shape: u8)
    requires
        is_player_code(player@),
    ensures
        shape == action_of(player@),
{
    let letter = code_letter(&chars_of(player)).unwrap();
    if letter == 'X' {
        1
    } else if letter == 'Y' {
        2
    } else {
        3
    }
}

/// The shape that the player shows, the second column naming the outcome.
pub fn player_as_result(opponent: u8, player: &str) -> (shape: u8)
    requires
        is_player_code(player@),
    ensures
        shape == result_of(opponent as int, player@),
{
    let letter = code_letter(&chars_of(player)).unwrap();
    if letter == 'X' {
        modulo(opponent as isize - 2, 3) + 1
    } else if letter == 'Y' {
        opponent
    } else {
        modulo(opponent as isize, 3) + 1
    }
}

/// The shape that the first column names: A, B or C.
pub open spec fn opponent_of(code: Seq<char>) -> Option<int> {
    if code.len() != 1 {
        None
    } else if code[0] == 'A' {
        Some(1)
    } else if code[0] == 'B' {
        Some(2)
    } else if code[0] == 'C' {
        Some(3)
    } else {
        None
    }
}

/// The line holds, between white space, a shape of the opponent, one blank
/// and a code of the player; more columns may follow.
pub open spec fn is_round(line: Seq<char>) -> bool {
    let columns = split(trimmed(line), seq![' ']);
    columns.len() >= 2 && opponent_of(columns[0]) is Some && is_player_code(columns[1])
}

/// What the round that `line` describes is worth to the player.
pub open spec fn round_score(line: Seq<char>, reading: Reading) -> int {
    let columns = split(trimmed(line), seq![' ']);
    let opponent = opponent_of(columns[0])->0;
    let player = match reading {
        Reading::Action => action_of(columns[1]),
        Reading::Outcome => result_of(opponent, columns[1]),
    };
    outcome_score(opponent, player) + player
}

/// The scores of the rounds that the lines describe; empty lines count for
/// nothing.
pub open spec fn round_scores(lines: Seq<Seq<char>>, reading: Reading) -> Seq<int>
    decreases lines.len(),
{
    if lines.len() == 0 {
        Seq::empty()
    } else if lines.last().len() == 0 {
        round_scores(lines.drop_last(), reading)
    } else {
        round_scores(lines.drop_last(), reading).push(round_score(lines.last(), reading))
    }
}

/// Every line of `input` that is not empty describes a round.
pub open spec fn well_formed(input: Seq<char>) -> bool {
    let lines = split(input, seq!['\n']);
    forall|i: int| 0 <= i < lines.len() ==> (#[trigger] lines[i]).len() == 0 || is_round(lines[i])
}

/// No score is greater than nine, and there are at most as many as lines.
proof fn lemma_round_scores_bounds(lines: Seq<Seq<char>>, reading: Reading)
    requires
        forall|i: int| 0 <= i < lines.len() ==> (#[trigger] lines[i]).len() == 0 || is_round(lines[i]),
    ensures
        round_scores(lines, reading).len() <= lines.len(),
        forall|i: int|
            0 <= i < round_scores(lines, reading).len() ==> 1 <= #[trigger] round_scores(
                lines,
                reading,
            )[i] <= 9,
    decreases lines.len(),
{
    if lines.len() > 0 {
        lemma_round_scores_bounds(lines.drop_last(), reading);
        assert forall|i: int| 0 <= i < lines.drop_last().len() implies (
        #[trigger] lines.drop_last()[i]).len() == 0 || is_round(lines.drop_last()[i]) by {
            assert(lines.drop_last()[i] == lines[i]);
        }
    }
}

/// The score of every round of `input`, in order.
pub fn parse(input: &str, reading: Reading) -> (rounds: Vec<u32>)
    requires
        well_formed(input@),
    ensures
        ints_u32(rounds@) == round_scores(split(input@, seq!['\n']), reading),
{
    let text = chars_of(input);
    let lines = split_on(&text, &one_char('\n'));
    let ghost all = split(input@, seq!['\n']);
    let mut rounds: Vec<u32> = Vec::new();
    let mut i: usize = 0;
    assert(all.take(0) =~= Seq::<Seq<char>>::empty());
    while i < lines.len()
        invariant
            i <= lines.len(),
            all == rows(lines@),
            forall|k: int| 0 <= k < all.len() ==> (#[trigger] all[k]).len() == 0 || is_round(all[k]),
            ints_u32(rounds@) == round_scores(all.take(i as int), reading),
        decreases lines.len() - i,
    {
        assert(all[i as int] == lines@[i as int]@);
        assert(all.take(i + 1).drop_last() =~= all.take(i as int));
        assert(all.take(i + 1).last() == all[i as int]);
        if lines[i].len() != 0 {
            let opponent_player = split_on(&trim(&lines[i]), &one_char(' '));
            assert(rows(opponent_player@)[0] == opponent_player@[0]@);
            assert(rows(opponent_player@)[1] == opponent_player@[1]@);
            let code = code_letter(&opponent_player[0]).unwrap();
            let opponent: u8 = if code == 'A' {
                1
            } else if code == 'B' {
                2
            } else {
                3
            };
            let letter = code_letter(&opponent_player[1]).unwrap();
            let player: u8 = match reading {
                Reading::Action => if letter == 'X' {
                    1
                } else if letter == 'Y' {
                    2
                } else {
                    3
                },
                Reading::Outcome => if letter == 'X' {
                    modulo(opponent as isize - 2, 3) + 1
                } else if letter == 'Y' {
                    opponent
                } else {
                    modulo(opponent as isize, 3) + 1
                },
            };
            let round_score: u32 = comparison_score(opponent, player) + player_score(player);
            let ghost before = rounds@;
            rounds.push(round_score);
            assert(ints_u32(rounds@) =~= ints_u32(before).push(round_score as int));
        }
        i += 1;
    }
    assert(all.take(i as int) =~= all);
    rounds
}

/// The sum of nine-or-less scores, one per line at most, fits in 32 bits
/// where the lines are few enough.
pub open spec fn few_lines(input: Seq<char>) -> bool {
    split(input, seq!['\n']).len() * 9 <= u32::MAX
}

/// A sum of numbers of at most nine is at most nine times their count.
proof fn lemma_sum_at_most(s: Seq<int>)
    requires
        forall|i: int| 0 <= i < s.len() ==> 1 <= #[trigger] s[i] <= 9,
    ensures
        0 <= sum(s) <= 9 * s.len(),
    decreases s.len(),
{
    if s.len() > 0 {
        lemma_sum_at_most(s.drop_last());
    }
}

/// Both answers can be worked out for `input`.
pub open spec fn can_solve(input: Seq<char>) -> bool {
    well_formed(input) && few_lines(input)
}

/// Whether the line describes a round.
fn describes_round(line: &Vec<char>) -> (b: bool)
    ensures
        b == is_round(line@),
{
    let columns = split_on(&trim(line), &one_char(' '));
    assert(rows(columns@)[0] == columns@[0]@);
    if columns.len() < 2 {
        return false;
    }
    assert(rows(columns@)[1] == columns@[1]@);
    let opponent = match code_letter(&columns[0]) {
        None => {
            return false;
        },
        Some(c) => c,
    };
    if !(opponent == 'A' || opponent == 'B' || opponent == 'C') {
        return false;
    }
    match code_letter(&columns[1]) {
        None => false,
        Some(c) => c == 'X' || c == 'Y' || c == 'Z',
    }
}

/// `out` is the first answer for `input`.
pub open spec fn is_first_answer(input: Seq<char>, out: Seq<char>) -> bool {
    out == "Total score: "@ + decimal(
        sum(round_scores(split(input, seq!['\n']), Reading::Action)) as nat,
    )
}

/// `out` is the second answer for `input`.
pub open spec fn is_second_answer(input: Seq<char>, out: Seq<char>) -> bool {
    out == "Total score: "@ + decimal(
        sum(round_scores(split(input, seq!['\n']), Reading::Outcome)) as nat,
    )
}

impl DayTwo {
    /// Both answers; `None` where a line describes no round or the lines are
    /// too many.
    pub fn solve(&self, input: &str) -> (r: Option<(String, String)>)
        ensures
            r is Some <==> can_solve(input@),
            r matches Some(answers) ==> is_first_answer(input@, answers.0@) && is_second_answer(
                input@,
                answers.1@,
            ),
    {
        let text = chars_of(input);
        let lines = split_on(&text, &one_char('\n'));
        let ghost all = split(input@, seq!['\n']);
        if lines.len() as u64 > 0xffff_ffff / 9 {
            return None;
        }
        let mut i: usize = 0;
        while i < lines.len()
            invariant
                i <= lines.len(),
                all == rows(lines@),
                all == split(input@, seq!['\n']),
                forall|k: int| 0 <= k < i ==> (#[trigger] all[k]).len() == 0 || is_round(all[k]),
            decreases lines.len() - i,
        {
            assert(all[i as int] == lines@[i as int]@);
            if lines[i].len() != 0 && !describes_round(&lines[i]) {
                return None;
            }
            i += 1;
        }
        Some((self.part_one(input), self.part_two(input)))
    }

    /// Reports the total score with the second column read as a shape.
    pub fn part_one(&self, input: &str) -> (out: String)
        requires
            well_formed(input@),
            few_lines(input@),
        ensures
            is_first_answer(input@, out@),
    {
        let rounds: Vec<u32> = parse(input, Reading::Action);
        proof {
            lemma_round_scores_bounds(split(input@, seq!['\n']), Reading::Action);
            lemma_sum_at_most(ints_u32(rounds@));
        }
        let total: u32 = total_u32(&rounds);
        labelled_number("Total score: ", total as u64)
    }

    /// Reports the total score with the second column read as an outcome.
    pub fn part_two(&self, input: &str) -> (out: String)
        requires
            well_formed(input@),
            few_lines(input@),
        ensures
            is_second_answer(input@, out@),
    {
        let rounds: Vec<u32> = parse(input, Reading::Outcome);
        proof {
            lemma_round_scores_bounds(split(input@, seq!['\n']), Reading::Outcome);
            lemma_sum_at_most(ints_u32(rounds@));
        }
        let total: u32 = total_u32(&rounds);
        labelled_number("Total score: ", total as u64)
    }
}

} // verus!
