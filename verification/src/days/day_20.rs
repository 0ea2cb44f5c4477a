use crate::text::{
    chars_of, decimal_int, labelled_int, lines, lines_of, parse_i64, parse_within, rows,
};
use std::collections::VecDeque;
use vstd::prelude::*;

verus! {

broadcast use vstd::std_specs::vecdeque::group_vec_dequeue_axioms;

pub struct DayTwenty;

/// A ring of numbers, each with the place that it had at the outset.
pub struct Cipher {
    content: VecDeque<(i64, usize)>,
}

/// The place of the first entry that had place `tag` at the outset; the
/// length of the ring where there is none.
pub open spec fn place_of(s: Seq<(i64, usize)>, tag: int) -> int
    decreases s.len(),
{
    if s.len() == 0 {
        0
    } else if s[0].1 == tag {
        0
    } else {
        1 + place_of(s.skip(1), tag)
    }
}

/// The place of the first entry whose number is zero; the length of the ring
/// where there is none.
pub open spec fn place_of_zero(s: Seq<(i64, usize)>) -> int
    decreases s.len(),
{
    if s.len() == 0 {
        0
    } else if s[0].0 == 0 {
        0
    } else {
        1 + place_of_zero(s.skip(1))
    }
}

/// The ring after the entry that had place `tag` at the outset has moved by
/// its number: it is taken out and put back as many places further on, the
/// ring without it being closed.
pub open spec fn moved(s: Seq<(i64, usize)>, tag: int) -> Seq<(i64, usize)> {
    let from = place_of(s, tag);
    let entry = s[from];
    let rest = s.remove(from);
    rest.insert((from + entry.0) % (rest.len() as int), entry)
}

/// The ring after the entries that had the first `k` places at the outset
/// have moved, in that order.
pub open spec fn mixed_up_to(s: Seq<(i64, usize)>, k: int) -> Seq<(i64, usize)>
    decreases k,
{
    if k <= 0 {
        s
    } else {
        moved(mixed_up_to(s, k - 1), k - 1)
    }
}

/// The ring after `runs` rounds, in each of which every entry moves once.
pub open spec fn mixed(s: Seq<(i64, usize)>, runs: int) -> Seq<(i64, usize)>
    decreases runs,
{
    if runs <= 0 {
        s
    } else {
        mixed_up_to(mixed(s, runs - 1), s.len() as int)
    }
}

/// Every place of the outset occurs in the ring, and no number is so great
/// that adding a place to it leaves the range of 64 bits.
pub open spec fn is_ring(s: Seq<(i64, usize)>) -> bool {
    &&& forall|tag: int| 0 <= tag < s.len() ==> place_of(s, tag) < s.len()
    &&& forall|i: int| 0 <= i < s.len() ==> (#[trigger] s[i]).0 + s.len() <= i64::MAX
    &&& s.len() != 1
    &&& s.len() <= i64::MAX
}

/// The sum of the numbers 1000, 2000 and 3000 places after the zero.
pub open spec fn grove_sum(s: Seq<(i64, usize)>) -> int {
    let zero = place_of_zero(s);
    let n = s.len() as int;
    s[(zero + 1000) % n].0 + s[(zero + 2000) % n].0 + s[(zero + 3000) % n].0
}

/// The ring holds a zero, the three places can be worked out in a machine
/// word, and their numbers can be added up in 64 bits.
pub open spec fn can_sum(s: Seq<(i64, usize)>) -> bool {
    let zero = place_of_zero(s);
    let n = s.len() as int;
    &&& zero < n
    &&& n + 3000 <= usize::MAX
    &&& i64::MIN <= s[(zero + 1000) % n].0 + s[(zero + 2000) % n].0 <= i64::MAX
    &&& i64::MIN <= grove_sum(s) <= i64::MAX
}

/// The place found is a place of the ring, and the entry there has the tag.
proof fn lemma_place_of(s: Seq<(i64, usize)>, tag: int)
    ensures
        0 <= place_of(s, tag) <= s.len(),
        place_of(s, tag) < s.len() ==> s[place_of(s, tag)].1 == tag,
        forall|i: int| 0 <= i < place_of(s, tag) ==> (#[trigger] s[i]).1 != tag,
    decreases s.len(),
{
    if s.len() > 0 && s[0].1 != tag {
        lemma_place_of(s.skip(1), tag);
        assert forall|i: int| 0 <= i < place_of(s, tag) implies (#[trigger] s[i]).1 != tag by {
            if i > 0 {
                assert(s.skip(1)[i - 1] == s[i]);
            }
        }
    }
}

/// Where the first `k` entries do not have the tag and the next has it, the
/// place of the tag is `k`.
proof fn lemma_place_found(s: Seq<(i64, usize)>, tag: int, k: int)
    requires
        0 <= k <= s.len(),
        forall|i: int| 0 <= i < k ==> (#[trigger] s[i]).1 != tag,
        k < s.len() ==> s[k].1 == tag,
    ensures
        place_of(s, tag) == k,
    decreases k,
{
    if k > 0 {
        assert(s[0].1 != tag);
        assert forall|i: int| 0 <= i < k - 1 implies (#[trigger] s.skip(1)[i]).1 != tag by {
            assert(s.skip(1)[i] == s[i + 1]);
        }
        if k < s.len() {
            assert(s.skip(1)[k - 1] == s[k]);
        }
        lemma_place_found(s.skip(1), tag, k - 1);
    }
}

/// The same for the place of the zero.
proof fn lemma_zero_found(s: Seq<(i64, usize)>, k: int)
    requires
        0 <= k <= s.len(),
        forall|i: int| 0 <= i < k ==> (#[trigger] s[i]).0 != 0,
        k < s.len() ==> s[k].0 == 0,
    ensures
        place_of_zero(s) == k,
    decreases k,
{
    if k > 0 {
        assert(s[0].0 != 0);
        assert forall|i: int| 0 <= i < k - 1 implies (#[trigger] s.skip(1)[i]).0 != 0 by {
            assert(s.skip(1)[i] == s[i + 1]);
        }
        if k < s.len() {
            assert(s.skip(1)[k - 1] == s[k]);
        }
        lemma_zero_found(s.skip(1), k - 1);
    }
}

/// A move leaves a ring a ring.
proof fn lemma_moved_is_ring(s: Seq<(i64, usize)>, tag: int)
    requires
        is_ring(s),
        0 <= tag < s.len(),
    ensures
        is_ring(moved(s, tag)),
        moved(s, tag).len() == s.len(),
{
    lemma_place_of(s, tag);
    let from = place_of(s, tag);
    let entry = s[from];
    let rest = s.remove(from);
    let to = (from + entry.0) % (rest.len() as int);
    let after = rest.insert(to, entry);
    assert forall|i: int| 0 <= i < after.len() implies (#[trigger] after[i]).0 + after.len()
        <= i64::MAX by {
        if i < to {
            assert(after[i] == rest[i]);
            if i < from {
                assert(rest[i] == s[i]);
            } else {
                assert(rest[i] == s[i + 1]);
            }
        } else if i > to {
            assert(after[i] == rest[i - 1]);
            if i - 1 < from {
                assert(rest[i - 1] == s[i - 1]);
            } else {
                assert(rest[i - 1] == s[i]);
            }
        }
    }
    assert forall|t: int| 0 <= t < after.len() implies place_of(after, t) < after.len() by {
        lemma_place_of(s, t);
        lemma_place_of(after, t);
        let old_place = place_of(s, t);
        let mid = if old_place < from {
            old_place
        } else {
            old_place - 1
        };
        if old_place == from {
            assert(after[to] == entry);
            assert(after[to].1 == t);
        } else {
            assert(rest[mid] == s[old_place]);
            let new_place = if mid < to {
                mid
            } else {
                mid + 1
            };
            assert(after[new_place] == rest[mid]);
            assert(after[new_place].1 == t);
        }
    }
}

/// Moving the first `k` entries leaves a ring a ring.
proof fn lemma_mixed_up_to_is_ring(s: Seq<(i64, usize)>, k: int)
    requires
        is_ring(s),
        0 <= k <= s.len(),
    ensures
        is_ring(mixed_up_to(s, k)),
        mixed_up_to(s, k).len() == s.len(),
    decreases k,
{
    if k > 0 {
        lemma_mixed_up_to_is_ring(s, k - 1);
        lemma_moved_is_ring(mixed_up_to(s, k - 1), k - 1);
    }
}

impl View for Cipher {
    type V = Seq<(i64, usize)>;

    closed spec fn view(&self) -> Seq<(i64, usize)> {
        self.content@
    }
}

impl Cipher {
    /// Lets every entry move once, `run_count` times over.
    pub fn decrypt(&mut self, run_count: u32)
        requires
            is_ring(old(self)@),
        ensures
            final(self)@ == mixed(old(self)@, run_count as int),
            is_ring(final(self)@),
    {
        let ghost start = self@;
        let n = self.content.len();
        let mut run: u32 = 0;
        while run < run_count
            invariant
                run <= run_count,
                n == start.len(),
                self@.len() == n,
                is_ring(self@),
                self@ == mixed(start, run as int),
            decreases run_count - run,
        {
            let ghost at_run = self@;
            let mut i: usize = 0;
            while i < n
                invariant
                    i <= n,
                    n == start.len(),
                    at_run.len() == n,
                    self@.len() == n,
                    is_ring(at_run),
                    is_ring(self@),
                    self@ == mixed_up_to(at_run, i as int),
                decreases n - i,
            {
                let ghost held = self@;
                let mut index: usize = 0;
                while index < n && self.content[index].1 != i
                    invariant
                        index <= n,
                        self@ == held,
                        held.len() == n,
                        forall|k: int| 0 <= k < index ==> (#[trigger] held[k]).1 != i,
                    decreases n - index,
                {
                    index += 1;
                }
                proof {
                    lemma_place_found(held, i as int, index as int);
                    lemma_moved_is_ring(held, i as int);
                }
                let element = self.content.remove(index).unwrap();
                let new_index = (index as i64 + element.0).checked_rem_euclid(
                    self.content.len() as i64,
                ).unwrap() as usize;
                self.content.insert(new_index, element);
                i += 1;
            }
            run += 1;
        }
    }

    /// The sum of the numbers 1000, 2000 and 3000 places after the zero.
    pub fn get_sum(&self) -> (sum: i64)
        requires
            can_sum(self@),
        ensures
            sum == grove_sum(self@),
    {
        self.try_get_sum().unwrap()
    }

    /// The sum of the numbers 1000, 2000 and 3000 places after the zero,
    /// where it can be worked out.
    pub fn try_get_sum(&self) -> (r: Option<i64>)
        ensures
            r is Some <==> can_sum(self@),
            r matches Some(sum) ==> sum == grove_sum(self@),
    {
        let n = self.content.len();
        let mut zero_index: usize = 0;
        while zero_index < n && self.content[zero_index].0 != 0
            invariant
                zero_index <= n,
                n == self@.len(),
                forall|k: int| 0 <= k < zero_index ==> (#[trigger] self@[k]).0 != 0,
            decreases n - zero_index,
        {
            zero_index += 1;
        }
        proof {
            lemma_zero_found(self@, zero_index as int);
        }
        if zero_index >= n || n > usize::MAX - 3000 {
            return None;
        }
        let a = self.content[(zero_index + 1000) % n].0 as i128;
        let b = self.content[(zero_index + 2000) % n].0 as i128;
        let c = self.content[(zero_index + 3000) % n].0 as i128;
        if a + b < -0x8000_0000_0000_0000 || a + b > 0x7fff_ffff_ffff_ffff || a + b + c
            < -0x8000_0000_0000_0000 || a + b + c > 0x7fff_ffff_ffff_ffff {
            return None;
        }
        Some((a + b + c) as i64)
    }

    /// Whether every entry can move.
    fn can_mix(&self) -> (b: bool)
        requires
            forall|i: int| 0 <= i < self@.len() ==> (#[trigger] self@[i]).1 == i,
        ensures
            b == is_ring(self@),
    {
        let n = self.content.len();
        proof {
            assert forall|tag: int| 0 <= tag < self@.len() implies place_of(self@, tag)
                < self@.len() by {
                lemma_place_found(self@, tag, tag);
            }
        }
        if n == 1 || n as u64 > 0x7fff_ffff_ffff_ffff {
            return false;
        }
        let mut i: usize = 0;
        while i < n
            invariant
                i <= n,
                n == self@.len(),
                n <= i64::MAX,
                forall|k: int| 0 <= k < i ==> (#[trigger] self@[k]).0 + n <= i64::MAX,
            decreases n - i,
        {
            if self.content[i].0 as i128 + n as i128 > 0x7fff_ffff_ffff_ffff {
                return false;
            }
            i += 1;
        }
        true
    }

    /// Reads one number per line and multiplies each by the key; `None`
    /// where a line writes no number of 64 bits or a product leaves their
    /// range.
    pub fn try_new(input: &str, decryption_key: i64) -> (r: Option<Cipher>)
        ensures
            r is Some <==> is_list(input@, decryption_key as int),
            r matches Some(cipher) ==> cipher@ == ring_of(input@, decryption_key as int) && forall|
                i: int,
            |
                0 <= i < cipher@.len() ==> (#[trigger] cipher@[i]).1 == i,
    {
        let text = chars_of(input);
        let ls = lines_of(&text);
        let ghost all = lines(input@);
        let mut content: VecDeque<(i64, usize)> = VecDeque::new();
        let mut i: usize = 0;
        while i < ls.len()
            invariant
                i <= ls.len(),
                all == rows(ls@),
                all == lines(input@),
                content@.len() == i,
                forall|k: int|
                    0 <= k < i ==> parse_within(
                        #[trigger] all[k],
                        true,
                        i64::MIN as int,
                        i64::MAX as int,
                    ) is Some && i64::MIN <= number_at(input@, k) * decryption_key <= i64::MAX,
                forall|k: int| 0 <= k < i ==> content@[k] == ring_of(input@, decryption_key as int)[k],
            decreases ls.len() - i,
        {
            assert(all[i as int] == ls@[i as int]@);
            let num = match parse_i64(&ls[i]) {
                None => {
                    return None;
                },
                Some(num) => num,
            };
            assert(num == number_at(input@, i as int));
            assert(-0x8000_0000_0000_0000 * 0x8000_0000_0000_0000 <= num * decryption_key
                <= 0x8000_0000_0000_0000 * 0x8000_0000_0000_0000) by (nonlinear_arith)
                requires
                    -0x8000_0000_0000_0000 <= num <= 0x7fff_ffff_ffff_ffff,
                    -0x8000_0000_0000_0000 <= decryption_key <= 0x7fff_ffff_ffff_ffff,
            ;
            let product = num as i128 * decryption_key as i128;
            if product < -0x8000_0000_0000_0000 || product > 0x7fff_ffff_ffff_ffff {
                return None;
            }
            content.push_back((product as i64, i));
            i += 1;
        }
        let cipher = Cipher { content };
        assert(cipher@ =~= ring_of(input@, decryption_key as int));
        Some(cipher)
    }

    /// Reads one number per line and multiplies each by the key.
    pub fn new(input: &str, decryption_key: i64) -> (cipher: Cipher)
        requires
            is_list(input@, decryption_key as int),
        ensures
            cipher@ == ring_of(input@, decryption_key as int),
    {
        Cipher::try_new(input, decryption_key).unwrap()
    }
}

/// The number that line `i` of `input` writes.
pub open spec fn number_at(input: Seq<char>, i: int) -> int {
    parse_within(lines(input)[i], true, i64::MIN as int, i64::MAX as int)->0
}

/// Every line of `input` writes a number of 64 bits whose product with the
/// key fits in 64 bits.
pub open spec fn is_list(input: Seq<char>, key: int) -> bool {
    forall|i: int|
        0 <= i < lines(input).len() ==> parse_within(
            #[trigger] lines(input)[i],
            true,
            i64::MIN as int,
            i64::MAX as int,
        ) is Some && i64::MIN <= number_at(input, i) * key <= i64::MAX
}

/// The ring that `input` writes: its numbers, each multiplied by the key,
/// with their places.
pub open spec fn ring_of(input: Seq<char>, key: int) -> Seq<(i64, usize)> {
    Seq::new(lines(input).len(), |i: int| ((number_at(input, i) * key) as i64, i as usize))
}

/// The answer for `input` with a key and a number of rounds.
pub open spec fn answer(input: Seq<char>, key: int, runs: int) -> int {
    grove_sum(mixed(ring_of(input, key), runs))
}

/// The answer for `input` can be worked out.
pub open spec fn can_answer(input: Seq<char>, key: int, runs: int) -> bool {
    &&& is_list(input, key)
    &&& is_ring(ring_of(input, key))
    &&& can_sum(mixed(ring_of(input, key), runs))
}

impl DayTwenty {
    /// The sum after `runs` rounds with the numbers multiplied by `key`,
    /// where it can be worked out.
    pub fn try_answer(&self, input: &str, key: i64, runs: u32) -> (r: Option<i64>)
        ensures
            r is Some <==> can_answer(input@, key as int, runs as int),
            r matches Some(sum) ==> sum == answer(input@, key as int, runs as int),
    {
        let mut cipher = match Cipher::try_new(input, key) {
            None => {
                return None;
            },
            Some(cipher) => cipher,
        };
        if !cipher.can_mix() {
            return None;
        }
        cipher.decrypt(runs);
        cipher.try_get_sum()
    }

    /// Both answers; `None` where one of them cannot be worked out.
    pub fn solve(&self, input: &str) -> (r: Option<(String, String)>)
        ensures
            r is Some <==> can_answer(input@, 1, 1) && can_answer(input@, 811589153, 10),
            r matches Some(a) ==> a.0@ == "Sum: "@ + decimal_int(answer(input@, 1, 1)) && a.1@
                == "Sum: "@ + decimal_int(answer(input@, 811589153, 10)),
    {
        match (self.try_answer(input, 1, 1), self.try_answer(input, 811589153, 10)) {
            (Some(one), Some(two)) => Some((labelled_int("Sum: ", one), labelled_int("Sum: ", two))),
            _ => None,
        }
    }

    /// Reports the sum after one round with the numbers as written.
    pub fn part_one(&self, input: &str) -> (out: String)
        requires
            can_answer(input@, 1, 1),
        ensures
            out@ == "Sum: "@ + decimal_int(answer(input@, 1, 1)),
    {
        let mut cipher = Cipher::new(input, 1);
        cipher.decrypt(1);
        let sum = cipher.get_sum();
        labelled_int("Sum: ", sum)
    }

    /// Reports the sum after ten rounds with the numbers multiplied by the
    /// key.
    pub fn part_two(&self, input: &str) -> (out: String)
        requires
            can_answer(input@, 811589153, 10),
        ensures
            out@ == "Sum: "@ + decimal_int(answer(input@, 811589153, 10)),
    {
        let mut cipher = Cipher::new(input, 811589153);
        cipher.decrypt(10);
        let sum = cipher.get_sum();
        labelled_int("Sum: ", sum)
    }
}

} // verus!
