use crate::numbers::{
    ints_i32, is_descending_order_of, is_max_of, max_i32, sorted_descending, sum,
};
use crate::text::{
    chars_of, decimal_int, labelled_int, one_char, parse_i64, parse_within, rows, split, split_on,
    string_of, trim, trimmed,
};
use vstd::prelude::*;

verus! {

pub struct DayOne {}

/// The number that a line writes, white space around it aside.
pub open spec fn calories(line: Seq<char>) -> Option<int> {
    parse_within(trimmed(line), true, i32::MIN as int, i32::MAX as int)
}

/// The totals closed so far and the total that is still open, after the
/// lines have been read in order: a number adds to the open total, a blank
/// line closes it and opens a new one at zero.
pub open spec fn tally(lines: Seq<Seq<char>>) -> (Seq<int>, int)
    decreases lines.len(),
{
    if lines.len() == 0 {
        (Seq::empty(), 0)
    } else {
        let (closed, open) = tally(lines.drop_last());
        if trimmed(lines.last()).len() == 0 {
            (closed.push(open), 0)
        } else {
            (closed, open + calories(lines.last())->0)
        }
    }
}

/// The totals that the blank lines of `input` close. What follows the last
/// blank line belongs to no total.
pub open spec fn elf_totals(input: Seq<char>) -> Seq<int> {
    tally(split(input, seq!['\n'])).0
}

/// Every line of `input` is blank or writes a number of 32 bits, and the
/// open total fits in 32 bits after every line.
pub open spec fn well_formed(input: Seq<char>) -> bool {
    let lines = split(input, seq!['\n']);
    forall|i: int|
        0 <= i < lines.len() ==> (trimmed(#[trigger] lines[i]).len() == 0 || calories(lines[i])
            is Some) && i32::MIN <= tally(lines.take(i + 1)).1 <= i32::MAX
}

/// The totals of the groups of numbers that blank lines close; `None` where
/// a line writes no number or a total does not fit in 32 bits.
pub fn try_parse(input: &str) -> (r: Option<Vec<i32>>)
    ensures
        r is Some <==> well_formed(input@),
        r matches Some(elf_scores) ==> ints_i32(elf_scores@) == elf_totals(input@),
{
    let text = chars_of(input);
    let lines = split_on(&text, &one_char('\n'));
    let ghost all = split(input@, seq!['\n']);
    let mut sum: i64 = 0;
    let mut i: usize = 0;
    assert(all.take(0) =~= Seq::<Seq<char>>::empty());
    while i < lines.len()
        invariant
            i <= lines.len(),
            all == rows(lines@),
            all == split(input@, seq!['\n']),
            sum == tally(all.take(i as int)).1,
            i32::MIN <= sum <= i32::MAX,
            forall|k: int|
                0 <= k < i ==> (trimmed(#[trigger] all[k]).len() == 0 || calories(all[k]) is Some)
                    && i32::MIN <= tally(all.take(k + 1)).1 <= i32::MAX,
        decreases lines.len() - i,
    {
        assert(all[i as int] == lines@[i as int]@);
        assert(all.take(i + 1).drop_last() =~= all.take(i as int));
        assert(all.take(i + 1).last() == all[i as int]);
        let line = trim(&lines[i]);
        if line.len() == 0 {
            sum = 0;
        } else {
            match parse_i64(&line) {
                None => {
                    return None;
                },
                Some(x) => {
                    if x < -0x8000_0000 || x > 0x7fff_ffff {
                        return None;
                    }
                    sum = sum + x;
                    if sum < -0x8000_0000 || sum > 0x7fff_ffff {
                        return None;
                    }
                },
            }
        }
        i += 1;
    }
    Some(parse(input))
}

/// The totals of the groups of numbers that blank lines close.
pub fn parse(input: &str) -> (elf_scores: Vec<i32>)
    requires
        well_formed(input@),
    ensures
        ints_i32(elf_scores@) == elf_totals(input@),
{
    let text = chars_of(input);
    let lines = split_on(&text, &one_char('\n'));
    let ghost all = split(input@, seq!['\n']);
    let mut sum: i32 = 0;
    let mut elf_scores: Vec<i32> = Vec::new();
    let mut i: usize = 0;
    assert(all.take(0) =~= Seq::<Seq<char>>::empty());
    while i < lines.len()
        invariant
            i <= lines.len(),
            all == rows(lines@),
            well_formed(input@),
            all == split(input@, seq!['\n']),
            ints_i32(elf_scores@) == tally(all.take(i as int)).0,
            sum == tally(all.take(i as int)).1,
        decreases lines.len() - i,
    {
        assert(all[i as int] == lines@[i as int]@);
        assert(all.take(i + 1).drop_last() =~= all.take(i as int));
        assert(all.take(i + 1).last() == all[i as int]);
        let line = trim(&lines[i]);
        if line.len() == 0 {
            let ghost before = elf_scores@;
            elf_scores.push(sum);
            assert(ints_i32(elf_scores@) =~= ints_i32(before).push(sum as int));
            sum = 0;
        } else {
            let x = parse_i64(&line).unwrap();
            sum = sum + x as i32;
        }
        i += 1;
    }
    assert(all.take(i as int) =~= all);
    elf_scores
}

/// The sum of the first three numbers of `s`, or of all where there are
/// fewer, fits in 32 bits at every step.
pub open spec fn top_three_fit(s: Seq<int>) -> bool {
    forall|k: int| 0 <= k <= 3 && k <= s.len() ==> i32::MIN <= #[trigger] sum(s.take(k)) <= i32::MAX
}

/// Both answers can be worked out for `input`.
pub open spec fn can_solve(input: Seq<char>) -> bool {
    well_formed(input) && forall|t: Seq<int>| #[trigger]
        is_descending_order_of(t, elf_totals(input)) ==> top_three_fit(t)
}

/// `out` is the first answer for `input`.
pub open spec fn is_first_answer(input: Seq<char>, out: Seq<char>) -> bool {
    &&& (elf_totals(input).len() == 0 ==> out == "No elf totals found"@)
    &&& (elf_totals(input).len() > 0 ==> exists|m: int|
        is_max_of(m, elf_totals(input)) && out == "Maximum elf score: "@ + decimal_int(
            m,
        ))
}

/// `out` is the second answer for `input`.
pub open spec fn is_second_answer(input: Seq<char>, out: Seq<char>) -> bool {
    exists|t: Seq<int>| #[trigger]
        is_descending_order_of(t, elf_totals(input)) && out
            == "Sum of top 3 elf scores: "@ + decimal_int(
            sum(
                t.take(
                    if t.len() < 3 {
                        t.len() as int
                    } else {
                        3
                    },
                ),
            ),
        )
}

impl DayOne {
    /// Both answers; `None` where a line writes no number or a sum does not
    /// fit in 32 bits.
    pub fn solve(&self, input: &str) -> (r: Option<(String, String)>)
        ensures
            r is Some <==> can_solve(input@),
            r matches Some(answers) ==> is_first_answer(input@, answers.0@) && is_second_answer(
                input@,
                answers.1@,
            ),
    {
        let elf_scores = match try_parse(input) {
            None => {
                return None;
            },
            Some(v) => v,
        };
        let ordered = sorted_descending(&elf_scores);
        let ghost t = ints_i32(ordered@);
        let count: usize = if ordered.len() < 3 {
            ordered.len()
        } else {
            3
        };
        let mut total: i64 = 0;
        let mut i: usize = 0;
        assert(t.take(0) =~= Seq::<int>::empty());
        while i < count
            invariant
                i <= count <= 3,
                count <= ordered.len(),
                count == (if t.len() < 3 {
                    t.len() as int
                } else {
                    3
                }),
                t == ints_i32(ordered@),
                is_descending_order_of(t, elf_totals(input@)),
                total == sum(t.take(i as int)),
                i32::MIN <= total <= i32::MAX,
                forall|k: int| 0 <= k <= i ==> i32::MIN <= #[trigger] sum(t.take(k)) <= i32::MAX,
            decreases count - i,
        {
            assert(t.take(i + 1).drop_last() =~= t.take(i as int));
            total = total + ordered[i] as i64;
            if total < -0x8000_0000 || total > 0x7fff_ffff {
                assert(!(i32::MIN <= sum(t.take(i + 1)) <= i32::MAX));
                assert(!top_three_fit(t));
                return None;
            }
            i += 1;
        }
        proof {
            assert(top_three_fit(t));
            assert forall|u: Seq<int>| #[trigger]
                is_descending_order_of(u, elf_totals(input@)) implies top_three_fit(u) by {
                crate::numbers::lemma_descending_unique(u, t, elf_totals(input@));
            }
        }
        Some((self.part_one(input), self.part_two(input)))
    }

    /// Reports the greatest total, or that there is none.
    pub fn part_one(&self, input: &str) -> (out: String)
        requires
            well_formed(input@),
        ensures
            is_first_answer(input@, out@),
    {
        let elf_scores = parse(input);
        let max_value = max_i32(&elf_scores);
        match max_value {
            Some(max) => {
                let out = labelled_int("Maximum elf score: ", max as i64);
                assert(is_max_of(max as int, elf_totals(input@)));
                out
            },
            None => {
                let out = string_of(&chars_of("No elf totals found"));
                assert(ints_i32(elf_scores@).len() == 0);
                out
            },
        }
    }

    /// Reports the sum of the three greatest totals, or of all where there
    /// are fewer.
    pub fn part_two(&self, input: &str) -> (out: String)
        requires
            well_formed(input@),
            forall|t: Seq<int>| #[trigger]
                is_descending_order_of(t, elf_totals(input@)) ==> top_three_fit(t),
        ensures
            is_second_answer(input@, out@),
    {
        let elf_scores = parse(input);
        let ordered = sorted_descending(&elf_scores);
        let ghost t = ints_i32(ordered@);
        assert(is_descending_order_of(t, elf_totals(input@)));
        let count: usize = if ordered.len() < 3 {
            ordered.len()
        } else {
            3
        };
        let mut top_3_total: i32 = 0;
        let mut i: usize = 0;
        assert(t.take(0) =~= Seq::<int>::empty());
        while i < count
            invariant
                i <= count <= 3,
                count <= ordered.len(),
                t == ints_i32(ordered@),
                top_three_fit(t),
                top_3_total == sum(t.take(i as int)),
            decreases count - i,
        {
            assert(t.take(i + 1).drop_last() =~= t.take(i as int));
            assert(i32::MIN <= sum(t.take(i + 1)) <= i32::MAX);
            top_3_total = top_3_total + ordered[i];
            i += 1;
        }
        labelled_int("Sum of top 3 elf scores: ", top_3_total as i64)
    }
}

} // verus!
