use crate::numbers::{ints_u32, sum, total_u32};
use crate::text::{
    chars_of, decimal, labelled_number, one_char, rows, slice_of, split, split_on, trim, trimmed,
};
use vstd::prelude::*;
use vstd::string::*;

verus! {

pub struct DayThree {}

/// The priority of an item: 1 to 26 for the small letters, 27 to 52 for the
/// capital letters, none for any other character.
pub open spec fn priority(c: char) -> Option<int> {
    if 'a' <= c <= 'z' {
        Some(c as int - 'a' as int + 1)
    } else if 'A' <= c <= 'Z' {
        Some(c as int - 'A' as int + 27)
    } else {
        None
    }
}

/// The priority of a letter.
pub fn convert_char_to_int(character: char) -> (p: u32)
    requires
        priority(character) is Some,
    ensures
        p == priority(character)->0,
{
    if character >= 'a' && character <= 'z' {
        character as u32 - ('a' as u32) + 1
    } else {
        character as u32 - ('A' as u32) + 27
    }
}

/// The two halves of a line of an even number of characters.
pub fn split_string_in_half(line: &str) -> (halves: (&str, &str))
    requires
        line.is_ascii(),
        line@.len() % 2 == 0,
    ensures
        halves.0@ == line@.take(line@.len() as int / 2),
        halves.1@ == line@.skip(line@.len() as int / 2),
{
    let strlen = line.unicode_len();
    (line.substring_ascii(0, strlen / 2), line.substring_ascii(strlen / 2, strlen))
}

/// The characters of `a` that occur in `b` too, each once, in the order in
/// which they first occur in `a`.
pub open spec fn common(a: Seq<char>, b: Seq<char>) -> Seq<char>
    decreases a.len(),
{
    if a.len() == 0 {
        Seq::empty()
    } else if b.contains(a.last()) && !a.drop_last().contains(a.last()) {
        common(a.drop_last(), b).push(a.last())
    } else {
        common(a.drop_last(), b)
    }
}

/// `common(a, b)` holds exactly the characters that occur in both `a` and
/// `b`, and none of them twice.
pub proof fn lemma_common_is_intersection(a: Seq<char>, b: Seq<char>)
    ensures
        common(a, b).no_duplicates(),
        forall|c: char| common(a, b).contains(c) <==> a.contains(c) && b.contains(c),
    decreases a.len(),
{
    if a.len() > 0 {
        let front = a.drop_last();
        let x = a.last();
        lemma_common_is_intersection(front, b);
        let r = common(front, b);
        assert forall|c: char| a.contains(c) <==> front.contains(c) || c == x by {
            if a.contains(c) {
                let i = choose|i: int| 0 <= i < a.len() && a[i] == c;
                if i < a.len() - 1 {
                    assert(front[i] == c);
                }
            }
            if front.contains(c) {
                let i = choose|i: int| 0 <= i < front.len() && front[i] == c;
                assert(a[i] == c);
            }
            if c == x {
                assert(a[a.len() - 1] == c);
            }
        }
        if b.contains(x) && !front.contains(x) {
            assert forall|c: char| r.push(x).contains(c) <==> r.contains(c) || c == x by {
                if r.push(x).contains(c) {
                    let i = choose|i: int| 0 <= i < r.push(x).len() && r.push(x)[i] == c;
                    if i < r.len() {
                        assert(r[i] == c);
                    }
                }
                if r.contains(c) {
                    let i = choose|i: int| 0 <= i < r.len() && r[i] == c;
                    assert(r.push(x)[i] == c);
                }
                if c == x {
                    assert(r.push(x)[r.len() as int] == c);
                }
            }
            assert(!r.contains(x));
        }
    }
}

/// Whether `c` occurs among `v[from..to]`.
fn occurs(v: &Vec<char>, from: usize, to: usize, c: char) -> (b: bool)
    requires
        from <= to <= v.len(),
    ensures
        b == v@.subrange(from as int, to as int).contains(c),
{
    let ghost w = v@.subrange(from as int, to as int);
    let mut i: usize = from;
    while i < to
        invariant
            from <= i <= to <= v.len(),
            w == v@.subrange(from as int, to as int),
            forall|k: int| 0 <= k < i - from ==> w[k] != c,
        decreases to - i,
    {
        if v[i] == c {
            assert(w[i - from] == c);
            return true;
        }
        i += 1;
    }
    false
}

/// The characters of `a` that occur in `b` too, each once.
fn common_of(a: &Vec<char>, b: &Vec<char>) -> (r: Vec<char>)
    ensures
        r@ == common(a@, b@),
{
    let mut r: Vec<char> = Vec::new();
    let mut i: usize = 0;
    assert(a@.take(0) =~= Seq::<char>::empty());
    assert(b@.subrange(0, b.len() as int) =~= b@);
    while i < a.len()
        invariant
            i <= a.len(),
            b@.subrange(0, b.len() as int) == b@,
            r@ == common(a@.take(i as int), b@),
        decreases a.len() - i,
    {
        assert(a@.take(i + 1).drop_last() =~= a@.take(i as int));
        assert(a@.subrange(0, i as int) =~= a@.take(i as int));
        if occurs(b, 0, b.len(), a[i]) && !occurs(a, 0, i, a[i]) {
            r.push(a[i]);
        }
        i += 1;
    }
    assert(a@.take(i as int) =~= a@);
    r
}

/// The items that both halves of a line hold, white space around the line
/// aside.
pub open spec fn line_doubles(line: Seq<char>) -> Seq<char> {
    let t = trimmed(line);
    common(t.take(t.len() as int / 2), t.skip(t.len() as int / 2))
}

/// The items that both halves of the line hold, each once.
pub fn get_doubles_line(line: &str) -> (doubles: Vec<char>)
    requires
        trimmed(line@).len() % 2 == 0,
    ensures
        doubles@ == line_doubles(line@),
{
    doubles_of(&chars_of(line))
}

/// The items that both halves of the line hold, each once.
fn doubles_of(line: &Vec<char>) -> (doubles: Vec<char>)
    requires
        trimmed(line@).len() % 2 == 0,
    ensures
        doubles@ == line_doubles(line@),
{
    let t = trim(line);
    let n = t.len();
    let split1 = slice_of(&t, 0, n / 2);
    let split2 = slice_of(&t, n / 2, n);
    common_of(&split1, &split2)
}

/// The doubles of all lines that are not empty, in the order of the lines.
pub open spec fn doubles(lines: Seq<Seq<char>>) -> Seq<char>
    decreases lines.len(),
{
    if lines.len() == 0 {
        Seq::empty()
    } else if lines.last().len() == 0 {
        doubles(lines.drop_last())
    } else {
        doubles(lines.drop_last()) + line_doubles(lines.last())
    }
}

/// Every line holds, between white space, an even number of characters.
pub open spec fn even_lines(input: Seq<char>) -> bool {
    let lines = split(input, seq!['\n']);
    forall|i: int| 0 <= i < lines.len() ==> trimmed(#[trigger] lines[i]).len() % 2 == 0
}

/// The items that both halves of a line hold, for all lines of `input`.
pub fn get_doubles_input(input: &str) -> (r: Vec<char>)
    requires
        even_lines(input@),
    ensures
        r@ == doubles(split(input@, seq!['\n'])),
{
    let text = chars_of(input);
    let lines = split_on(&text, &one_char('\n'));
    let ghost all = split(input@, seq!['\n']);
    let mut doubles: Vec<char> = Vec::new();
    let mut i: usize = 0;
    assert(all.take(0) =~= Seq::<Seq<char>>::empty());
    while i < lines.len()
        invariant
            i <= lines.len(),
            all == rows(lines@),
            forall|k: int| 0 <= k < all.len() ==> trimmed(#[trigger] all[k]).len() % 2 == 0,
            doubles@ == self::doubles(all.take(i as int)),
        decreases lines.len() - i,
    {
        assert(all[i as int] == lines@[i as int]@);
        assert(all.take(i + 1).drop_last() =~= all.take(i as int));
        assert(all.take(i + 1).last() == all[i as int]);
        if lines[i].len() != 0 {
            let mut doubles_line = doubles_of(&lines[i]);
            doubles.append(&mut doubles_line);
        }
        i += 1;
    }
    assert(all.take(i as int) =~= all);
    doubles
}

/// Every character of `s` is a letter.
pub open spec fn all_letters(s: Seq<char>) -> bool {
    forall|i: int| 0 <= i < s.len() ==> priority(#[trigger] s[i]) is Some
}

/// The priorities of the letters of `s`.
pub open spec fn priorities(s: Seq<char>) -> Seq<int> {
    Seq::new(s.len(), |i: int| priority(s[i])->0)
}

/// The priorities of the letters of `items`.
fn priorities_of(items: &Vec<char>) -> (r: Vec<u32>)
    requires
        all_letters(items@),
    ensures
        ints_u32(r@) == priorities(items@),
{
    let mut r: Vec<u32> = Vec::new();
    let mut i: usize = 0;
    while i < items.len()
        invariant
            i <= items.len(),
            all_letters(items@),
            r.len() == i,
            forall|k: int| 0 <= k < i ==> r@[k] == priority(items@[k])->0,
        decreases items.len() - i,
    {
        r.push(convert_char_to_int(items[i]));
        i += 1;
    }
    assert(ints_u32(r@) =~= priorities(items@));
    r
}

/// The priorities of the items that both halves of a line hold.
pub fn get_priorities_input(input: &str) -> (r: Vec<u32>)
    requires
        even_lines(input@),
        all_letters(doubles(split(input@, seq!['\n']))),
    ensures
        ints_u32(r@) == priorities(doubles(split(input@, seq!['\n']))),
{
    priorities_of(&get_doubles_input(input))
}

/// The one item that all three texts hold; `None` where there is none or
/// more than one.
pub open spec fn group_badge(a: Seq<char>, b: Seq<char>, c: Seq<char>) -> Option<char> {
    let shared = common(common(a, b), c);
    if shared.len() == 1 {
        Some(shared[0])
    } else {
        None
    }
}

/// The one item that the three members of a group all hold.
fn get_badges_group(group: &Vec<Vec<char>>) -> (badge: char)
    requires
        group.len() == 3,
        group_badge(group@[0]@, group@[1]@, group@[2]@) is Some,
    ensures
        Some(badge) == group_badge(group@[0]@, group@[1]@, group@[2]@),
{
    let badges = common_of(&common_of(&group[0], &group[1]), &group[2]);
    badges[0]
}

/// The badge of every group of three lines, in order. Lines beyond the last
/// full group are left aside.
pub open spec fn badges(lines: Seq<Seq<char>>) -> Seq<char>
    decreases lines.len(),
{
    if lines.len() < 3 {
        Seq::empty()
    } else {
        let n = lines.len() - lines.len() % 3;
        badges(lines.take(n - 3)).push(
            group_badge(
                trimmed(lines[n - 3]),
                trimmed(lines[n - 2]),
                trimmed(lines[n - 1]),
            )->0,
        )
    }
}

/// The lines come in groups of three, and the members of each group have
/// exactly one item in common.
pub open spec fn grouped(input: Seq<char>) -> bool {
    let lines = split(input, seq!['\n']);
    &&& lines.len() % 3 == 0
    &&& forall|g: int|
        0 <= g < lines.len() / 3 ==> (#[trigger] group_badge(
            trimmed(lines[3 * g]),
            trimmed(lines[3 * g + 1]),
            trimmed(lines[3 * g + 2]),
        )) is Some
}

/// The badge of every group of three lines.
pub fn get_badges_input(input: &str) -> (r: Vec<char>)
    requires
        grouped(input@),
    ensures
        r@ == badges(split(input@, seq!['\n'])),
{
    let text = chars_of(input);
    let lines = split_on(&text, &one_char('\n'));
    let ghost all = split(input@, seq!['\n']);
    let mut badges: Vec<char> = Vec::new();
    let mut i: usize = 0;
    assert(all.take(0) =~= Seq::<Seq<char>>::empty());
    while i < lines.len()
        invariant
            i <= lines.len(),
            i % 3 == 0,
            lines.len() % 3 == 0,
            all == rows(lines@),
            grouped(input@),
            all == split(input@, seq!['\n']),
            badges@ == self::badges(all.take(i as int)),
        decreases lines.len() - i,
    {
        let mut group: Vec<Vec<char>> = Vec::new();
        group.push(trim(&lines[i]));
        group.push(trim(&lines[i + 1]));
        group.push(trim(&lines[i + 2]));
        proof {
            let g = i as int / 3;
            assert(3 * g == i);
            assert(all[i as int] == lines@[i as int]@);
            assert(all[i + 1] == lines@[i + 1]@);
            assert(all[i + 2] == lines@[i + 2]@);
            assert(group_badge(
                trimmed(all[3 * g]),
                trimmed(all[3 * g + 1]),
                trimmed(all[3 * g + 2]),
            ) is Some);
            let next = all.take(i + 3);
            assert(next.len() % 3 == 0);
            assert(next.take(next.len() - 3) =~= all.take(i as int));
        }
        let badge = get_badges_group(&group);
        badges.push(badge);
        i += 3;
    }
    assert(all.take(i as int) =~= all);
    badges
}

/// The priorities of the badges of the groups.
pub fn get_badge_priorities_input(input: &str) -> (r: Vec<u32>)
    requires
        grouped(input@),
        all_letters(badges(split(input@, seq!['\n']))),
    ensures
        ints_u32(r@) == priorities(badges(split(input@, seq!['\n']))),
{
    priorities_of(&get_badges_input(input))
}

/// The first answer can be worked out for `input`.
pub open spec fn can_solve_one(input: Seq<char>) -> bool {
    &&& even_lines(input)
    &&& all_letters(doubles(split(input, seq!['\n'])))
    &&& sum(priorities(doubles(split(input, seq!['\n'])))) <= u32::MAX
}

/// The second answer can be worked out for `input`.
pub open spec fn can_solve_two(input: Seq<char>) -> bool {
    &&& grouped(input)
    &&& all_letters(badges(split(input, seq!['\n'])))
    &&& sum(priorities(badges(split(input, seq!['\n'])))) <= u32::MAX
}

/// Whether all items are letters whose priorities can be added up in 32
/// bits.
fn can_total(items: &Vec<char>) -> (b: bool)
    ensures
        b == (all_letters(items@) && sum(priorities(items@)) <= u32::MAX),
{
    let mut total: u64 = 0;
    let mut i: usize = 0;
    let ghost p = priorities(items@);
    assert(p.take(0) =~= Seq::<int>::empty());
    while i < items.len()
        invariant
            i <= items.len(),
            p == priorities(items@),
            forall|k: int| 0 <= k < i ==> priority(#[trigger] items@[k]) is Some,
            total == sum(p.take(i as int)),
            total <= u32::MAX,
        decreases items.len() - i,
    {
        let c = items[i];
        if !((c >= 'a' && c <= 'z') || (c >= 'A' && c <= 'Z')) {
            assert(priority(items@[i as int]) is None);
            return false;
        }
        assert(p.take(i + 1).drop_last() =~= p.take(i as int));
        total = total + convert_char_to_int(c) as u64;
        if total > 0xffff_ffff {
            proof {
                if all_letters(items@) {
                    assert forall|k: int| 0 <= k < p.len() implies p[k] >= 0 by {
                        assert(priority(items@[k]) is Some);
                    }
                    crate::numbers::lemma_sum_prefix(p, i + 1);
                }
            }
            return false;
        }
        i += 1;
    }
    assert(p.take(i as int) =~= p);
    true
}

/// Whether every line holds an even number of characters.
fn has_even_lines(input: &str) -> (b: bool)
    ensures
        b == even_lines(input@),
{
    let text = chars_of(input);
    let lines = split_on(&text, &one_char('\n'));
    let ghost all = split(input@, seq!['\n']);
    let mut i: usize = 0;
    while i < lines.len()
        invariant
            i <= lines.len(),
            all == rows(lines@),
            all == split(input@, seq!['\n']),
            forall|k: int| 0 <= k < i ==> trimmed(#[trigger] all[k]).len() % 2 == 0,
        decreases lines.len() - i,
    {
        assert(all[i as int] == lines@[i as int]@);
        if trim(&lines[i]).len() % 2 != 0 {
            return false;
        }
        i += 1;
    }
    true
}

/// Whether the lines come in groups of three with one badge each.
fn is_grouped(input: &str) -> (b: bool)
    ensures
        b == grouped(input@),
{
    let text = chars_of(input);
    let lines = split_on(&text, &one_char('\n'));
    let ghost all = split(input@, seq!['\n']);
    if lines.len() % 3 != 0 {
        return false;
    }
    let mut i: usize = 0;
    while i < lines.len()
        invariant
            i <= lines.len(),
            i % 3 == 0,
            lines.len() % 3 == 0,
            all == rows(lines@),
            all == split(input@, seq!['\n']),
            forall|g: int|
                0 <= g < i / 3 ==> (#[trigger] group_badge(
                    trimmed(all[3 * g]),
                    trimmed(all[3 * g + 1]),
                    trimmed(all[3 * g + 2]),
                )) is Some,
        decreases lines.len() - i,
    {
        assert(all[i as int] == lines@[i as int]@);
        assert(all[i + 1] == lines@[i + 1]@);
        assert(all[i + 2] == lines@[i + 2]@);
        let shared = common_of(
            &common_of(&trim(&lines[i]), &trim(&lines[i + 1])),
            &trim(&lines[i + 2]),
        );
        if shared.len() != 1 {
            proof {
                let g = i as int / 3;
                assert(3 * g == i);
                assert(group_badge(
                    trimmed(all[3 * g]),
                    trimmed(all[3 * g + 1]),
                    trimmed(all[3 * g + 2]),
                ) is None);
            }
            return false;
        }
        proof {
            let g = i as int / 3;
            assert(3 * g == i);
            assert forall|h: int| 0 <= h < (i + 3) / 3 implies (#[trigger] group_badge(
                trimmed(all[3 * h]),
                trimmed(all[3 * h + 1]),
                trimmed(all[3 * h + 2]),
            )) is Some by {
                if h == g {
                } else {
                    assert(h < i / 3);
                }
            }
        }
        i += 3;
    }
    true
}

/// `out` is the first answer for `input`.
pub open spec fn is_first_answer(input: Seq<char>, out: Seq<char>) -> bool {
    out == "Total score: "@ + decimal(
        sum(priorities(doubles(split(input, seq!['\n'])))) as nat,
    )
}

/// `out` is the second answer for `input`.
pub open spec fn is_second_answer(input: Seq<char>, out: Seq<char>) -> bool {
    out == "Total score: "@ + decimal(
        sum(priorities(badges(split(input, seq!['\n'])))) as nat,
    )
}

impl DayThree {
    /// Both answers; `None` where one of them cannot be worked out.
    pub fn solve(&self, input: &str) -> (r: Option<(String, String)>)
        ensures
            r is Some <==> can_solve_one(input@) && can_solve_two(input@),
            r matches Some(answers) ==> is_first_answer(input@, answers.0@) && is_second_answer(
                input@,
                answers.1@,
            ),
    {
        if !has_even_lines(input) || !is_grouped(input) {
            return None;
        }
        if !can_total(&get_doubles_input(input)) || !can_total(&get_badges_input(input)) {
            return None;
        }
        Some((self.part_one(input), self.part_two(input)))
    }

    /// Reports the sum of the priorities of the items that both halves of a
    /// line hold.
    pub fn part_one(&self, input: &str) -> (out: String)
        requires
            even_lines(input@),
            all_letters(doubles(split(input@, seq!['\n']))),
            sum(priorities(doubles(split(input@, seq!['\n'])))) <= u32::MAX,
        ensures
            is_first_answer(input@, out@),
    {
        let priorities = get_priorities_input(input);
        let total: u32 = total_u32(&priorities);
        labelled_number("Total score: ", total as u64)
    }

    /// Reports the sum of the priorities of the badges of the groups.
    pub fn part_two(&self, input: &str) -> (out: String)
        requires
            grouped(input@),
            all_letters(badges(split(input@, seq!['\n']))),
            sum(priorities(badges(split(input@, seq!['\n'])))) <= u32::MAX,
        ensures
            is_second_answer(input@, out@),
    {
        let badges = get_badge_priorities_input(input);
        let total: u32 = total_u32(&badges);
        labelled_number("Total score: ", total as u64)
    }
}

} // verus!
