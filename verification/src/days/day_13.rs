use crate::pattern::{captures, count_groups, group, group_count, group_text, regex_captures};
use crate::text::{
    chars_of, decimal, labelled_number, lines, lines_of, parse_u64, parse_within, rows, slice_of,
    split, split_on, string_of,
};
use vstd::prelude::*;

verus! {

pub struct DayThirteen;

/// What a comparison of two packets comes to.
#[derive(Debug, Clone, Copy, PartialEq, Eq, Structural)]
pub enum Comparison {
    Correct,
    Incorrect,
    Undetermined,
}

/// The regular expression for the end of a list: the bracket, a comma or
/// none, and what remains.
pub open spec fn end_pattern() -> Seq<char> {
    r"^\](,)?(?P<remaining>[0-9\s\]\[,]*)$"@
}

/// The regular expression for a number: its digits, a comma or none, and
/// what remains.
pub open spec fn value_pattern() -> Seq<char> {
    r"^(?P<num>[0-9]+)(,)?(?P<remaining>[0-9\s\]\[,]*)$"@
}

/// The number of opening brackets in `s`.
pub open spec fn openings(s: Seq<char>) -> nat
    decreases s.len(),
{
    if s.len() == 0 {
        0
    } else {
        openings(s.drop_last()) + (if s.last() == '[' {
            1nat
        } else {
            0nat
        })
    }
}

/// The weight of what is left of a packet: its length, an opening bracket
/// counting three.
pub open spec fn weight(s: Seq<char>) -> nat {
    s.len() + 2 * openings(s)
}

/// What remains of `s` behind the end of a list; `None` where `s` does not
/// begin with the end of a list as the regular expression has it, or what
/// remains does not weigh less than `s`.
pub open spec fn behind_end(s: Seq<char>) -> Option<Seq<char>> {
    let groups = regex_captures(end_pattern(), s);
    match group_text(groups, 2) {
        Some(rest) => if group_count(groups) == 3 && weight(rest) < weight(s) {
            Some(rest)
        } else {
            None
        },
        None => None,
    }
}

/// The number with which `s` begins, where it fits in 32 bits, and what
/// remains behind it; `None` where `s` does not begin with a number as the
/// regular expression has it, or what remains does not weigh less than
/// `s`.
pub open spec fn behind_value(s: Seq<char>) -> Option<(int, Seq<char>)> {
    let groups = regex_captures(value_pattern(), s);
    match (group_text(groups, 1), group_text(groups, 3)) {
        (Some(digits), Some(rest)) => match parse_within(digits, false, 0, u32::MAX as int) {
            Some(n) => if group_count(groups) == 4 && weight(rest) < weight(s) {
                Some((n, rest))
            } else {
                None
            },
            None => None,
        },
        _ => None,
    }
}

/// What the comparison of what is left of two packets comes to, and what is
/// left of them then. The two are worked off from the front: the ends of two
/// lists go together; a list that ends before the other does is in order; two
/// lists are entered together; a list is held against the first character
/// of a number, taken as a list of its own; two numbers are compared. Where
/// one of them is used up, the other decides. `None` where a piece cannot be
/// read.
pub open spec fn compared(left: Seq<char>, right: Seq<char>) -> Option<
    (Comparison, Seq<char>, Seq<char>),
>
    decreases weight(left) + weight(right),
{
    if left.len() == 0 && right.len() == 0 {
        Some((Comparison::Undetermined, left, right))
    } else if left.len() == 0 {
        Some((Comparison::Correct, left, right))
    } else if right.len() == 0 {
        Some((Comparison::Incorrect, left, right))
    } else if left[0] == ']' && right[0] == ']' {
        match (behind_end(left), behind_end(right)) {
            (Some(l), Some(r)) => compared(l, r),
            _ => None,
        }
    } else if left[0] == ']' {
        Some((Comparison::Correct, left, right))
    } else if right[0] == ']' {
        Some((Comparison::Incorrect, left, right))
    } else if left[0] == '[' && right[0] == '[' {
        if weight(left.skip(1)) + weight(right.skip(1)) < weight(left) + weight(right) {
            went_on(compared(left.skip(1), right.skip(1)), None, None, weight(left) + weight(right))
        } else {
            None
        }
    } else if left[0] == '[' {
        let single = seq![right[0], ']'];
        if right[0] as u32 <= 0x7f && weight(left.skip(1)) + weight(single) < weight(left) + weight(
            right,
        ) {
            went_on(
                compared(left.skip(1), single),
                None,
                Some(right.skip(1)),
                weight(left) + weight(right),
            )
        } else {
            None
        }
    } else if right[0] == '[' {
        let single = seq![left[0], ']'];
        if left[0] as u32 <= 0x7f && weight(single) + weight(right.skip(1)) < weight(left) + weight(
            right,
        ) {
            went_on(
                compared(single, right.skip(1)),
                Some(left.skip(1)),
                None,
                weight(left) + weight(right),
            )
        } else {
            None
        }
    } else {
        match (behind_value(left), behind_value(right)) {
            (Some((a, l)), Some((b, r))) => if a < b {
                Some((Comparison::Correct, l, r))
            } else if a > b {
                Some((Comparison::Incorrect, l, r))
            } else {
                compared(l, r)
            },
            _ => None,
        }
    }
}

/// How the comparison goes on after two lists have been entered: a decision
/// stands; without one, it goes on with what is left, or with `left` or
/// `right` in its place where one is given, provided that this weighs less
/// than `bound`.
pub open spec fn went_on(
    inner: Option<(Comparison, Seq<char>, Seq<char>)>,
    left: Option<Seq<char>>,
    right: Option<Seq<char>>,
    bound: nat,
) -> Option<(Comparison, Seq<char>, Seq<char>)>
    decreases bound, 0nat,
{
    match inner {
        None => None,
        Some((c, l, r)) => {
            let l2 = match left {
                Some(x) => x,
                None => l,
            };
            let r2 = match right {
                Some(x) => x,
                None => r,
            };
            if c != Comparison::Undetermined {
                Some((c, l2, r2))
            } else if weight(l2) + weight(r2) < bound {
                compared(l2, r2)
            } else {
                None
            }
        },
    }
}

/// The weight of what is left of a packet, as far as it fits in a machine
/// word.
fn weigh(s: &Vec<char>) -> (w: Option<usize>)
    ensures
        match w {
            Some(x) => x == weight(s@),
            None => weight(s@) > usize::MAX,
        },
{
    let mut count: usize = 0;
    let mut i: usize = 0;
    assert(s@.take(0) =~= Seq::<char>::empty());
    while i < s.len()
        invariant
            i <= s.len(),
            count == openings(s@.take(i as int)),
            count <= i,
        decreases s.len() - i,
    {
        assert(s@.take(i + 1).drop_last() =~= s@.take(i as int));
        if s[i] == '[' {
            count += 1;
        }
        i += 1;
    }
    assert(s@.take(i as int) =~= s@);
    if count > (usize::MAX - s.len()) / 2 {
        None
    } else {
        Some(s.len() + 2 * count)
    }
}

/// Whether `a` weighs less than `b`.
fn lighter(a: &Vec<char>, b: &Vec<char>) -> (r: bool)
    ensures
        r == (weight(a@) < weight(b@)),
{
    match (weigh(a), weigh(b)) {
        (Some(x), Some(y)) => x < y,
        (Some(_), None) => true,
        (None, Some(_)) => false,
        (None, None) => {
            proof {
                lemma_weight_bound(a@);
                lemma_weight_bound(b@);
            }
            weigh_wide(a) < weigh_wide(b)
        },
    }
}

/// The weight of what is left of a packet.
fn weigh_wide(s: &Vec<char>) -> (w: u128)
    ensures
        w == weight(s@),
        w <= 3 * usize::MAX,
{
    let mut count: u128 = 0;
    let mut i: usize = 0;
    assert(s@.take(0) =~= Seq::<char>::empty());
    while i < s.len()
        invariant
            i <= s.len(),
            count == openings(s@.take(i as int)),
            count <= i,
        decreases s.len() - i,
    {
        assert(s@.take(i + 1).drop_last() =~= s@.take(i as int));
        if s[i] == '[' {
            count += 1;
        }
        i += 1;
    }
    assert(s@.take(i as int) =~= s@);
    s.len() as u128 + 2 * count
}

/// A packet has no more opening brackets than characters.
proof fn lemma_weight_bound(s: Seq<char>)
    ensures
        openings(s) <= s.len(),
    decreases s.len(),
{
    if s.len() > 0 {
        lemma_weight_bound(s.drop_last());
    }
}

/// What remains behind the end of a list.
fn read_end(s: &Vec<char>) -> (r: Option<Vec<char>>)
    ensures
        match r {
            Some(rest) => behind_end(s@) == Some(rest@),
            None => behind_end(s@) is None,
        },
{
    let groups = captures(r"^\](,)?(?P<remaining>[0-9\s\]\[,]*)$", string_of(s).as_str());
    if count_groups(&groups) != 3 {
        return None;
    }
    match group(&groups, 2) {
        None => None,
        Some(rest) => if lighter(&rest, s) {
            Some(rest)
        } else {
            None
        },
    }
}

/// The number at the front and what remains behind it.
fn read_value(s: &Vec<char>) -> (r: Option<(u32, Vec<char>)>)
    ensures
        match r {
            Some((n, rest)) => behind_value(s@) == Some((n as int, rest@)),
            None => behind_value(s@) is None,
        },
{
    let groups = captures(r"^(?P<num>[0-9]+)(,)?(?P<remaining>[0-9\s\]\[,]*)$", string_of(s).as_str());
    if count_groups(&groups) != 4 {
        return None;
    }
    match (group(&groups, 1), group(&groups, 3)) {
        (Some(digits), Some(rest)) => match parse_u64(&digits) {
            None => None,
            Some(n) => if n <= 0xffff_ffff && lighter(&rest, s) {
                Some((n as u32, rest))
            } else {
                None
            },
        },
        _ => None,
    }
}

/// `s` without its first character.
fn behead(s: &Vec<char>) -> (r: Vec<char>)
    requires
        s.len() > 0,
    ensures
        r@ == s@.skip(1),
{
    let r = slice_of(s, 1, s.len());
    assert(r@ =~= s@.skip(1));
    r
}

/// The character `c` taken as a list of its own, its opening bracket
/// aside.
fn single_of(c: char) -> (r: Vec<char>)
    ensures
        r@ == seq![c, ']'],
{
    let mut r: Vec<char> = Vec::new();
    r.push(c);
    r.push(']');
    assert(r@ =~= seq![c, ']']);
    r
}

/// Whether the two together weigh less than the other two together.
fn lighter_pair(a: &Vec<char>, b: &Vec<char>, c: &Vec<char>, d: &Vec<char>) -> (r: bool)
    ensures
        r == (weight(a@) + weight(b@) < weight(c@) + weight(d@)),
{
    weigh_wide(a) + weigh_wide(b) < weigh_wide(c) + weigh_wide(d)
}

/// The characters of `s` as a vector of their own.
fn copy_of(s: &Vec<char>) -> (r: Vec<char>)
    ensures
        r@ == s@,
{
    let r = slice_of(s, 0, s.len());
    assert(r@ =~= s@);
    r
}

/// Works off what is left of two packets; see `compared`.
fn compare_line_recursive(left: &Vec<char>, right: &Vec<char>) -> (r: Option<
    (Comparison, Vec<char>, Vec<char>),
>)
    ensures
        match r {
            Some((c, l, r2)) => compared(left@, right@) == Some((c, l@, r2@)),
            None => compared(left@, right@) is None,
        },
    decreases weight(left@) + weight(right@),
{
    if left.len() == 0 && right.len() == 0 {
        return Some((Comparison::Undetermined, copy_of(left), copy_of(right)));
    } else if left.len() == 0 {
        return Some((Comparison::Correct, copy_of(left), copy_of(right)));
    } else if right.len() == 0 {
        return Some((Comparison::Incorrect, copy_of(left), copy_of(right)));
    }
    if left[0] == ']' && right[0] == ']' {
        return match (read_end(left), read_end(right)) {
            (Some(l), Some(r)) => compare_line_recursive(&l, &r),
            _ => None,
        };
    }
    if left[0] == ']' {
        return Some((Comparison::Correct, copy_of(left), copy_of(right)));
    }
    if right[0] == ']' {
        return Some((Comparison::Incorrect, copy_of(left), copy_of(right)));
    }
    if left[0] == '[' && right[0] == '[' {
        let l = behead(left);
        let r = behead(right);
        if !lighter_pair(&l, &r, left, right) {
            return None;
        }
        proof {
            reveal_with_fuel(went_on, 2);
            assert(compared(left@, right@) == went_on(
                compared(l@, r@),
                None,
                None,
                weight(left@) + weight(right@),
            ));
        }
        return match compare_line_recursive(&l, &r) {
            None => None,
            Some((c, l2, r2)) => {
                if c != Comparison::Undetermined {
                    Some((c, l2, r2))
                } else if lighter_pair(&l2, &r2, left, right) {
                    compare_line_recursive(&l2, &r2)
                } else {
                    None
                }
            },
        };
    }
    if left[0] == '[' {
        let l = behead(left);
        let tmp = single_of(right[0]);
        if right[0] as u32 > 0x7f || !lighter_pair(&l, &tmp, left, right) {
            return None;
        }
        let r_rest = behead(right);
        proof {
            reveal_with_fuel(went_on, 2);
            assert(compared(left@, right@) == went_on(
                compared(l@, tmp@),
                None,
                Some(r_rest@),
                weight(left@) + weight(right@),
            ));
        }
        return match compare_line_recursive(&l, &tmp) {
            None => None,
            Some((c, l2, _)) => {
                if c != Comparison::Undetermined {
                    Some((c, l2, r_rest))
                } else if lighter_pair(&l2, &r_rest, left, right) {
                    compare_line_recursive(&l2, &r_rest)
                } else {
                    None
                }
            },
        };
    }
    if right[0] == '[' {
        let r = behead(right);
        let tmp = single_of(left[0]);
        if left[0] as u32 > 0x7f || !lighter_pair(&tmp, &r, left, right) {
            return None;
        }
        let l_rest = behead(left);
        proof {
            reveal_with_fuel(went_on, 2);
            assert(compared(left@, right@) == went_on(
                compared(tmp@, r@),
                Some(l_rest@),
                None,
                weight(left@) + weight(right@),
            ));
        }
        return match compare_line_recursive(&tmp, &r) {
            None => None,
            Some((c, _, r2)) => {
                if c != Comparison::Undetermined {
                    Some((c, l_rest, r2))
                } else if lighter_pair(&l_rest, &r2, left, right) {
                    compare_line_recursive(&l_rest, &r2)
                } else {
                    None
                }
            },
        };
    }
    match (read_value(left), read_value(right)) {
        (Some((left_val, l)), Some((right_val, r))) => {
            if left_val < right_val {
                Some((Comparison::Correct, l, r))
            } else if left_val > right_val {
                Some((Comparison::Incorrect, l, r))
            } else {
                compare_line_recursive(&l, &r)
            }
        },
        _ => None,
    }
}

/// What the comparison of two packets comes to; `None` where a piece
/// cannot be read.
pub open spec fn verdict(line1: Seq<char>, line2: Seq<char>) -> Option<Comparison> {
    match compared(line1, line2) {
        Some((c, _, _)) => Some(c),
        None => None,
    }
}

/// What the comparison of two packets comes to; `None` where a piece
/// cannot be read.
pub fn try_compare_line(line1: &Vec<char>, line2: &Vec<char>) -> (r: Option<Comparison>)
    ensures
        r == verdict(line1@, line2@),
{
    match compare_line_recursive(line1, line2) {
        None => None,
        Some((c, _, _)) => Some(c),
    }
}

/// What the comparison of two packets comes to.
pub fn compare_line(line1: &str, line2: &str) -> (c: Comparison)
    requires
        verdict(line1@, line2@) is Some,
    ensures
        verdict(line1@, line2@) == Some(c),
{
    try_compare_line(&chars_of(line1), &chars_of(line2)).unwrap()
}

/// What the comparison of two packets comes to; `None` where a piece
/// cannot be read.
pub fn checked_compare_line(line1: &str, line2: &str) -> (r: Option<Comparison>)
    ensures
        r == verdict(line1@, line2@),
{
    let decided = try_compare_line(&chars_of(line1), &chars_of(line2));
    match decided {
        None => None,
        Some(_) => Some(compare_line(line1, line2)),
    }
}

/// The sum of the numbers, counted from one, of the first `k` pairs whose
/// packets are in order; `None` where a pair has fewer than two lines, its
/// comparison comes to nothing, or a number does not fit in 32 bits.
pub open spec fn score_of(pairs: Seq<Seq<char>>, k: int) -> Option<int>
    decreases k,
{
    if k <= 0 {
        Some(0)
    } else if k > pairs.len() {
        None
    } else {
        let ls = lines(pairs[k - 1]);
        match score_of(pairs, k - 1) {
            None => None,
            Some(total) => if ls.len() < 2 {
                None
            } else {
                match verdict(ls[0], ls[1]) {
                    Some(Comparison::Incorrect) => Some(total),
                    Some(Comparison::Correct) => if k <= u32::MAX && total + k <= u32::MAX {
                        Some(total + k)
                    } else {
                        None
                    },
                    _ => None,
                }
            },
        }
    }
}

/// The first answer: the pairs stand with an empty line between them.
pub open spec fn first_answer(input: Seq<char>) -> Option<int> {
    let pairs = split(input, seq!['\n', '\n']);
    score_of(pairs, pairs.len() as int)
}

/// The number of the first `k` lines that are not empty and in order before
/// the divider; `None` where a comparison cannot be worked out or the
/// number does not fit in 32 bits.
pub open spec fn before_divider(divider: Seq<char>, ls: Seq<Seq<char>>, k: int) -> Option<int>
    decreases k,
{
    if k <= 0 {
        Some(0)
    } else if k > ls.len() {
        None
    } else {
        match before_divider(divider, ls, k - 1) {
            None => None,
            Some(n) => if ls[k - 1].len() == 0 {
                Some(n)
            } else {
                match verdict(ls[k - 1], divider) {
                    Some(Comparison::Correct) => if n + 1 <= u32::MAX {
                        Some(n + 1)
                    } else {
                        None
                    },
                    Some(_) => Some(n),
                    None => None,
                }
            },
        }
    }
}

/// The place of the divider among the packets, counted from one.
pub open spec fn divider_place(divider: Seq<char>, input: Seq<char>) -> Option<int> {
    match before_divider(divider, lines(input), lines(input).len() as int) {
        Some(n) => if n + 1 <= u32::MAX {
            Some(n + 1)
        } else {
            None
        },
        None => None,
    }
}

/// The second answer: the place of the first divider times one more than
/// that of the second, each found without regard to the other.
pub open spec fn second_answer(input: Seq<char>) -> Option<int> {
    match (divider_place("[[2]]"@, input), divider_place("[[6]]"@, input)) {
        (Some(a), Some(b)) => if b + 1 <= u32::MAX && a * (b + 1) <= u32::MAX {
            Some(a * (b + 1))
        } else {
            None
        },
        _ => None,
    }
}

/// Works out the first answer.
fn compare(input: &str) -> (r: Option<u32>)
    ensures
        match r {
            Some(n) => first_answer(input@) == Some(n as int),
            None => first_answer(input@) is None,
        },
{
    let text = chars_of(input);
    let mut gap: Vec<char> = Vec::new();
    gap.push('\n');
    gap.push('\n');
    assert(gap@ =~= seq!['\n', '\n']);
    let pairs = split_on(&text, &gap);
    let ghost all = split(input@, seq!['\n', '\n']);
    let mut score: u32 = 0;
    let mut i: usize = 0;
    while i < pairs.len()
        invariant
            i <= pairs.len(),
            all == rows(pairs@),
            all == split(input@, seq!['\n', '\n']),
            score_of(all, i as int) == Some(score as int),
        decreases pairs.len() - i,
    {
        assert(all[i as int] == pairs@[i as int]@);
        let ls = lines_of(&pairs[i]);
        if ls.len() < 2 {
            proof {
                assert(score_of(all, i + 1) is None);
                lemma_score_fails(all, i + 1);
            }
            return None;
        }
        assert(rows(ls@)[0] == ls@[0]@);
        assert(rows(ls@)[1] == ls@[1]@);
        match try_compare_line(&ls[0], &ls[1]) {
            Some(Comparison::Incorrect) => {},
            Some(Comparison::Correct) => {
                if i as u64 + 1 > 0xffff_ffff || score as u64 + i as u64 + 1 > 0xffff_ffff {
                    proof {
                        assert(score_of(all, i + 1) is None);
                        lemma_score_fails(all, i + 1);
                    }
                    return None;
                }
                score += i as u32 + 1;
            },
            _ => {
                proof {
                    assert(score_of(all, i + 1) is None);
                    lemma_score_fails(all, i + 1);
                }
                return None;
            },
        }
        i += 1;
    }
    Some(score)
}

/// Once the score cannot be worked out up to a pair, it cannot be worked
/// out at all.
proof fn lemma_score_fails(pairs: Seq<Seq<char>>, k: int)
    requires
        1 <= k <= pairs.len(),
        score_of(pairs, k) is None,
    ensures
        score_of(pairs, pairs.len() as int) is None,
    decreases pairs.len() - k,
{
    if k < pairs.len() {
        lemma_score_fails(pairs, k + 1);
    }
}

/// Once the packets before the divider cannot be counted up to a line,
/// they cannot be counted at all.
proof fn lemma_count_fails(divider: Seq<char>, ls: Seq<Seq<char>>, k: int)
    requires
        1 <= k <= ls.len(),
        before_divider(divider, ls, k) is None,
    ensures
        before_divider(divider, ls, ls.len() as int) is None,
    decreases ls.len() - k,
{
    if k < ls.len() {
        lemma_count_fails(divider, ls, k + 1);
    }
}

/// The place of the divider among the packets.
fn divider_packet_index(divider: &str, input: &str) -> (r: Option<u32>)
    ensures
        match r {
            Some(n) => divider_place(divider@, input@) == Some(n as int),
            None => divider_place(divider@, input@) is None,
        },
{
    let text = chars_of(input);
    let ls = lines_of(&text);
    let mark = chars_of(divider);
    let ghost all = lines(input@);
    let mut less_than_count: u32 = 0;
    let mut i: usize = 0;
    while i < ls.len()
        invariant
            i <= ls.len(),
            all == rows(ls@),
            all == lines(input@),
            mark@ == divider@,
            before_divider(divider@, all, i as int) == Some(less_than_count as int),
        decreases ls.len() - i,
    {
        assert(all[i as int] == ls@[i as int]@);
        if ls[i].len() != 0 {
            match try_compare_line(&ls[i], &mark) {
                Some(Comparison::Correct) => {
                    if less_than_count == u32::MAX {
                        proof {
                            lemma_count_fails(divider@, all, i + 1);
                        }
                        return None;
                    }
                    less_than_count += 1;
                },
                Some(_) => {},
                None => {
                    proof {
                        lemma_count_fails(divider@, all, i + 1);
                    }
                    return None;
                },
            }
        }
        i += 1;
    }
    if less_than_count == u32::MAX {
        return None;
    }
    Some(less_than_count + 1)
}

/// Works out the second answer.
fn divider_packets(input: &str) -> (r: Option<u32>)
    ensures
        match r {
            Some(n) => second_answer(input@) == Some(n as int),
            None => second_answer(input@) is None,
        },
{
    let divider_1 = "[[2]]";
    let divider_2 = "[[6]]";
    let divider_1_index = divider_packet_index(divider_1, input);
    let divider_2_index = divider_packet_index(divider_2, input);
    match (divider_1_index, divider_2_index) {
        (Some(a), Some(b)) => {
            if b == u32::MAX {
                return None;
            }
            assert(a * (b + 1) <= 0xffff_ffff * 0x1_0000_0000) by (nonlinear_arith)
                requires
                    0 <= a <= 0xffff_ffff,
                    0 <= b + 1 <= 0x1_0000_0000,
            ;
            let product = (a as u64) * (b as u64 + 1);
            if product > 0xffff_ffff {
                None
            } else {
                Some(product as u32)
            }
        },
        _ => None,
    }
}

impl DayThirteen {
    /// Both answers; `None` where one of them cannot be worked out.
    pub fn solve(&self, input: &str) -> (r: Option<(String, String)>)
        ensures
            r is Some <==> first_answer(input@) is Some && second_answer(input@) is Some,
            r matches Some(answers) ==> answers.0@ == "Score: "@ + decimal(
                first_answer(input@)->0 as nat,
            ) && answers.1@ == "Score: "@ + decimal(second_answer(input@)->0 as nat),
    {
        if compare(input).is_some() && divider_packets(input).is_some() {
            Some((self.part_one(input), self.part_two(input)))
        } else {
            None
        }
    }

    /// Reports the sum of the numbers of the pairs that are in order.
    pub fn part_one(&self, input: &str) -> (out: String)
        requires
            first_answer(input@) is Some,
        ensures
            out@ == "Score: "@ + decimal(first_answer(input@)->0 as nat),
    {
        let score = compare(input).unwrap();
        labelled_number("Score: ", score as u64)
    }

    /// Reports the product made of the places of the two dividers.
    pub fn part_two(&self, input: &str) -> (out: String)
        requires
            second_answer(input@) is Some,
        ensures
            out@ == "Score: "@ + decimal(second_answer(input@)->0 as nat),
    {
        let score = divider_packets(input).unwrap();
        labelled_number("Score: ", score as u64)
    }
}

} // verus!
