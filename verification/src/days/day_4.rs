use crate::text::{
    chars_of, decimal_int, labelled_int, one_char, parse_i64, parse_within, rows, split, split_on,
    trim, trimmed,
};
use vstd::prelude::*;

verus! {

pub struct DayFour {}

/// Which pairs of ranges count as overlapping.
#[derive(Clone, Copy, PartialEq, Eq, Debug)]
pub enum OverlapRule {
    /// One range lies within the other.
    Strict,
    /// The ranges have a section in common.
    Lenient,
}

/// One range lies within the other.
pub open spec fn contains_other(start_a: int, end_a: int, start_b: int, end_b: int) -> bool {
    (start_a <= start_b && end_a >= end_b) || (start_a >= start_b && end_a <= end_b)
}

/// Neither range ends before the other begins.
pub open spec fn touches(start_a: int, end_a: int, start_b: int, end_b: int) -> bool {
    !(end_b < start_a) && !(end_a < start_b)
}

/// 1 where one range lies within the other, else 0.
pub fn check_for_overlap_strict(start_a: i32, end_a: i32, start_b: i32, end_b: i32) -> (r: i32)
    ensures
        r == (if contains_other(start_a as int, end_a as int, start_b as int, end_b as int) {
            1int
        } else {
            0int
        }),
{
    if start_a <= start_b && end_a >= end_b {
        return 1
    } else if start_a >= start_b && end_a <= end_b {
        return 1
    } else {
        return 0
    }
}

/// 1 where the ranges have a section in common, else 0.
pub fn check_for_overlap_lenient(start_a: i32, end_a: i32, start_b: i32, end_b: i32) -> (r: i32)
    ensures
        r == (if touches(start_a as int, end_a as int, start_b as int, end_b as int) {
            1int
        } else {
            0int
        }),
{
    if end_b < start_a {
        return 0
    } else if end_a < start_b {
        return 0
    } else {
        return 1
    }
}

/// The range that `elf` writes as two numbers with a hyphen between them.
pub open spec fn elf_range(elf: Seq<char>) -> Option<(int, int)> {
    let p = split(elf, seq!['-']);
    if p.len() == 2 {
        match (
            parse_within(p[0], true, i32::MIN as int, i32::MAX as int),
            parse_within(p[1], true, i32::MIN as int, i32::MAX as int),
        ) {
            (Some(lo), Some(hi)) => Some((lo, hi)),
            _ => None,
        }
    } else {
        None
    }
}

/// The two ranges that `line` writes with a comma between them, white space
/// around the line aside.
pub open spec fn elf_pair(line: Seq<char>) -> Option<((int, int), (int, int))> {
    let e = split(trimmed(line), seq![',']);
    if e.len() == 2 {
        match (elf_range(e[0]), elf_range(e[1])) {
            (Some(a), Some(b)) => Some((a, b)),
            _ => None,
        }
    } else {
        None
    }
}

/// What a line counts for under `rule`.
pub open spec fn line_score(line: Seq<char>, rule: OverlapRule) -> int {
    let (a, b) = elf_pair(line)->0;
    let hit = match rule {
        OverlapRule::Strict => contains_other(a.0, a.1, b.0, b.1),
        OverlapRule::Lenient => touches(a.0, a.1, b.0, b.1),
    };
    if hit {
        1
    } else {
        0
    }
}

/// The number of lines whose ranges overlap under `rule`.
pub open spec fn overlap_count(lines: Seq<Seq<char>>, rule: OverlapRule) -> int
    decreases lines.len(),
{
    if lines.len() == 0 {
        0
    } else {
        overlap_count(lines.drop_last(), rule) + line_score(lines.last(), rule)
    }
}

/// Every line of `input` writes a pair of ranges, and the lines are few
/// enough to be counted in 32 bits.
pub open spec fn well_formed(input: Seq<char>) -> bool {
    let lines = split(input, seq!['\n']);
    &&& lines.len() <= i32::MAX
    &&& forall|i: int| 0 <= i < lines.len() ==> elf_pair(#[trigger] lines[i]) is Some
}

/// Parses a number of 32 bits.
fn parse_i32(v: &Vec<char>) -> (r: Option<i32>)
    ensures
        match r {
            Some(x) => parse_within(v@, true, i32::MIN as int, i32::MAX as int) == Some(x as int),
            None => parse_within(v@, true, i32::MIN as int, i32::MAX as int) is None,
        },
{
    match parse_i64(v) {
        None => None,
        Some(x) => if -0x8000_0000 <= x && x <= 0x7fff_ffff {
            Some(x as i32)
        } else {
            None
        },
    }
}

/// Parses a range; `None` where the text does not write one.
fn read_elf(elf: &Vec<char>) -> (r: Option<(i32, i32)>)
    ensures
        match r {
            Some(x) => elf_range(elf@) == Some((x.0 as int, x.1 as int)),
            None => elf_range(elf@) is None,
        },
{
    let min_max = split_on(elf, &one_char('-'));
    assert(rows(min_max@)[0] == min_max@[0]@);
    if min_max.len() != 2 {
        return None;
    }
    assert(rows(min_max@)[1] == min_max@[1]@);
    match (parse_i32(&min_max[0]), parse_i32(&min_max[1])) {
        (Some(lo), Some(hi)) => Some((lo, hi)),
        _ => None,
    }
}

/// Parses a range written as two numbers with a hyphen between them.
pub fn parse_elf(elf: &str) -> (r: (i32, i32))
    requires
        elf_range(elf@) is Some,
    ensures
        elf_range(elf@) == Some((r.0 as int, r.1 as int)),
{
    read_elf(&chars_of(elf)).unwrap()
}

/// Parses a line; `None` where it does not write a pair of ranges.
fn read_pair(line: &Vec<char>) -> (r: Option<((i32, i32), (i32, i32))>)
    ensures
        match r {
            Some(x) => elf_pair(line@) == Some(
                ((x.0.0 as int, x.0.1 as int), (x.1.0 as int, x.1.1 as int)),
            ),
            None => elf_pair(line@) is None,
        },
{
    let elves = split_on(&trim(line), &one_char(','));
    assert(rows(elves@)[0] == elves@[0]@);
    if elves.len() != 2 {
        return None;
    }
    assert(rows(elves@)[1] == elves@[1]@);
    match (read_elf(&elves[0]), read_elf(&elves[1])) {
        (Some(a), Some(b)) => Some((a, b)),
        _ => None,
    }
}

/// Counts the lines of `input` whose two ranges overlap under `rule`.
pub fn get_overlap_count(input: &str, rule: OverlapRule) -> (count: i32)
    requires
        well_formed(input@),
    ensures
        count == overlap_count(split(input@, seq!['\n']), rule),
{
    let text = chars_of(input);
    let lines = split_on(&text, &one_char('\n'));
    let ghost all = split(input@, seq!['\n']);
    let mut overlap_count: i32 = 0;
    let mut i: usize = 0;
    assert(all.take(0) =~= Seq::<Seq<char>>::empty());
    while i < lines.len()
        invariant
            i <= lines.len() <= i32::MAX,
            all == rows(lines@),
            forall|k: int| 0 <= k < all.len() ==> elf_pair(#[trigger] all[k]) is Some,
            overlap_count == self::overlap_count(all.take(i as int), rule),
            0 <= overlap_count <= i,
        decreases lines.len() - i,
    {
        assert(all[i as int] == lines@[i as int]@);
        assert(all.take(i + 1).drop_last() =~= all.take(i as int));
        let (a, b) = read_pair(&lines[i]).unwrap();
        overlap_count +=
        match rule {
            OverlapRule::Strict => check_for_overlap_strict(a.0, a.1, b.0, b.1),
            OverlapRule::Lenient => check_for_overlap_lenient(a.0, a.1, b.0, b.1),
        };
        i += 1;
    }
    assert(all.take(i as int) =~= all);
    overlap_count
}

/// `out` is the first answer for `input`.
pub open spec fn is_first_answer(input: Seq<char>, out: Seq<char>) -> bool {
    out == "Overlap count: "@ + decimal_int(
        overlap_count(split(input, seq!['\n']), OverlapRule::Strict),
    )
}

/// `out` is the second answer for `input`.
pub open spec fn is_second_answer(input: Seq<char>, out: Seq<char>) -> bool {
    out == "Overlap count: "@ + decimal_int(
        overlap_count(split(input, seq!['\n']), OverlapRule::Lenient),
    )
}

impl DayFour {
    /// Both answers; `None` where a line writes no pair of ranges or the
    /// lines are too many.
    pub fn solve(&self, input: &str) -> (r: Option<(String, String)>)
        ensures
            r is Some <==> well_formed(input@),
            r matches Some(answers) ==> is_first_answer(input@, answers.0@) && is_second_answer(
                input@,
                answers.1@,
            ),
    {
        let text = chars_of(input);
        let lines = split_on(&text, &one_char('\n'));
        let ghost all = split(input@, seq!['\n']);
        if lines.len() as u64 > 0x7fff_ffff {
            return None;
        }
        let mut i: usize = 0;
        while i < lines.len()
            invariant
                i <= lines.len(),
                all == rows(lines@),
                all == split(input@, seq!['\n']),
                forall|k: int| 0 <= k < i ==> elf_pair(#[trigger] all[k]) is Some,
            decreases lines.len() - i,
        {
            assert(all[i as int] == lines@[i as int]@);
            if read_pair(&lines[i]).is_none() {
                return None;
            }
            i += 1;
        }
        Some((self.part_one(input), self.part_two(input)))
    }

    /// Reports how many lines hold a range that lies within the other.
    pub fn part_one(&self, input: &str) -> (out: String)
        requires
            well_formed(input@),
        ensures
            is_first_answer(input@, out@),
    {
        let overlap_count = get_overlap_count(input, OverlapRule::Strict);
        labelled_int("Overlap count: ", overlap_count as i64)
    }

    /// Reports how many lines hold two ranges with a section in common.
    pub fn part_two(&self, input: &str) -> (out: String)
        requires
            well_formed(input@),
        ensures
            is_second_answer(input@, out@),
    {
        let overlap_count = get_overlap_count(input, OverlapRule::Lenient);
        labelled_int("Overlap count: ", overlap_count as i64)
    }
}

} // verus!
