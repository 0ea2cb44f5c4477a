use crate::text::{chars_of, labelled, lines, lines_of, rows, same_chars, string_of, trim, trimmed};
use vstd::prelude::*;

verus! {

pub struct DayTwentyFive;

/// The distinct numerals of an input, each with the number it writes.
pub struct SnafuDecoder {
    numerals: Vec<Vec<char>>,
    values: Vec<i64>,
}

/// What a digit of the notation stands for: 2, 1, 0, minus one and minus two.
pub open spec fn snafu_digit(c: char) -> Option<int> {
    if c == '2' {
        Some(2)
    } else if c == '1' {
        Some(1)
    } else if c == '0' {
        Some(0)
    } else if c == '-' {
        Some(-1)
    } else if c == '=' {
        Some(-2)
    } else {
        None
    }
}

/// Every character of `s` is a digit of the notation.
pub open spec fn is_snafu(s: Seq<char>) -> bool {
    forall|i: int| 0 <= i < s.len() ==> snafu_digit(#[trigger] s[i]) is Some
}

/// The number that `s` writes in base five with the digits 2, 1, 0, - and =,
/// the most significant first.
pub open spec fn snafu_value(s: Seq<char>) -> int
    decreases s.len(),
{
    if s.len() == 0 {
        0
    } else {
        snafu_value(s.drop_last()) * 5 + snafu_digit(s.last())->0
    }
}

/// The digit of the notation that stands for `d`.
pub open spec fn snafu_char(d: int) -> char {
    if d == 2 {
        '2'
    } else if d == 1 {
        '1'
    } else if d == 0 {
        '0'
    } else if d == -1 {
        '-'
    } else {
        '='
    }
}

/// The numeral of `v`: its last digit is what `v + 2` leaves on division by
/// five, less two; the digits before it are the numeral of the quotient,
/// unless that is zero.
pub open spec fn snafu_of(v: int) -> Seq<char>
    decreases v + 2,
{
    if v < -2 {
        Seq::empty()
    } else {
        let d = (v + 2) % 5 - 2;
        let rest = (v + 2) / 5;
        if rest == 0 {
            seq![snafu_char(d)]
        } else {
            snafu_of(rest).push(snafu_char(d))
        }
    }
}

/// Five to the power of `e`.
pub open spec fn pow5(e: nat) -> int
    decreases e,
{
    if e == 0 {
        1
    } else {
        5 * pow5((e - 1) as nat)
    }
}

/// A numeral writes the number it was made for.
pub proof fn lemma_encode_then_decode(v: int)
    requires
        v >= -2,
    ensures
        is_snafu(snafu_of(v)),
        snafu_value(snafu_of(v)) == v,
        snafu_of(v).len() > 0,
    decreases v + 2,
{
    let d = (v + 2) % 5 - 2;
    let rest = (v + 2) / 5;
    assert(snafu_digit(snafu_char(d)) == Some(d));
    assert(v + 2 == 5 * rest + (d + 2));
    if rest == 0 {
        let s = seq![snafu_char(d)];
        assert(s.drop_last() =~= Seq::<char>::empty());
        assert(s.last() == snafu_char(d));
        assert(snafu_value(s.drop_last()) == 0);
        assert(snafu_value(s) == d);
    } else {
        lemma_encode_then_decode(rest);
        let s = snafu_of(rest).push(snafu_char(d));
        assert(s.drop_last() =~= snafu_of(rest));
        assert(s.last() == snafu_char(d));
        assert(snafu_value(s) == rest * 5 + d);
    }
}

/// A numeral of `k` digits writes a number below five to the `k`, halved.
proof fn lemma_value_bound(s: Seq<char>)
    requires
        is_snafu(s),
    ensures
        -pow5(s.len()) < 2 * snafu_value(s) < pow5(s.len()),
    decreases s.len(),
{
    if s.len() > 0 {
        assert forall|i: int| 0 <= i < s.drop_last().len() implies snafu_digit(
            #[trigger] s.drop_last()[i],
        ) is Some by {
            assert(s.drop_last()[i] == s[i]);
        }
        lemma_value_bound(s.drop_last());
    }
}

/// Five to the 27 is below two to the 63.
proof fn lemma_pow5_27()
    ensures
        pow5(27) == 7450580596923828125,
{
    reveal_with_fuel(pow5, 28);
}

/// The powers of five grow.
proof fn lemma_pow5_grows(a: nat, b: nat)
    requires
        a <= b,
    ensures
        0 < pow5(a) <= pow5(b),
    decreases b,
{
    if a < b {
        lemma_pow5_grows(a, (b - 1) as nat);
    } else if a > 0 {
        lemma_pow5_grows((a - 1) as nat, (a - 1) as nat);
    }
}

/// Appends the numeral of `val`.
fn push_snafu(out: &mut Vec<char>, val: i64)
    requires
        -2 <= val <= i64::MAX - 2,
    ensures
        final(out)@ == old(out)@ + snafu_of(val as int),
    decreases val + 2,
{
    let digit = (val + 2) % 5;
    let rest = (val + 2) / 5;
    if rest != 0 {
        push_snafu(out, rest);
    }
    out.push(
        if digit == 4 {
            '2'
        } else if digit == 3 {
            '1'
        } else if digit == 2 {
            '0'
        } else if digit == 1 {
            '-'
        } else {
            '='
        },
    );
    assert(final(out)@ =~= old(out)@ + snafu_of(val as int));
}

/// The sum of the positive numbers of `s`.
pub open spec fn sum_above(s: Seq<i64>) -> int
    decreases s.len(),
{
    if s.len() == 0 {
        0
    } else {
        sum_above(s.drop_last()) + (if s.last() > 0 {
            s.last() as int
        } else {
            0
        })
    }
}

/// The sum of the negative numbers of `s`.
pub open spec fn sum_below(s: Seq<i64>) -> int
    decreases s.len(),
{
    if s.len() == 0 {
        0
    } else {
        sum_below(s.drop_last()) + (if s.last() < 0 {
            s.last() as int
        } else {
            0
        })
    }
}

/// The sum of the numbers of `s`.
pub open spec fn sum_all(s: Seq<i64>) -> int {
    sum_above(s) + sum_below(s)
}

/// The positive part of a prefix is at most that of the whole, the negative
/// part at least.
proof fn lemma_parts_prefix(s: Seq<i64>, k: int)
    requires
        0 <= k <= s.len(),
    ensures
        0 <= sum_above(s.take(k)) <= sum_above(s),
        sum_below(s) <= sum_below(s.take(k)) <= 0,
    decreases s.len() - k,
{
    if k < s.len() {
        lemma_parts_prefix(s, k + 1);
        assert(s.take(k + 1).drop_last() =~= s.take(k));
        lemma_parts_signs(s.take(k));
    } else {
        assert(s.take(k) =~= s);
        lemma_parts_signs(s);
    }
}

/// The positive part is not negative, the negative part not positive.
proof fn lemma_parts_signs(s: Seq<i64>)
    ensures
        0 <= sum_above(s),
        sum_below(s) <= 0,
    decreases s.len(),
{
    if s.len() > 0 {
        lemma_parts_signs(s.drop_last());
    }
}

/// The lines of `ls`, each cleared of white space around it, without those
/// that repeat an earlier one.
pub open spec fn numerals(ls: Seq<Seq<char>>) -> Seq<Seq<char>>
    decreases ls.len(),
{
    if ls.len() == 0 {
        Seq::empty()
    } else if numerals(ls.drop_last()).contains(trimmed(ls.last())) {
        numerals(ls.drop_last())
    } else {
        numerals(ls.drop_last()).push(trimmed(ls.last()))
    }
}

/// The numbers that the numerals write.
pub open spec fn values_of(ns: Seq<Seq<char>>) -> Seq<i64> {
    Seq::new(ns.len(), |i: int| snafu_value(ns[i]) as i64)
}

/// Every line of `input` is, white space around it aside, a numeral of at
/// most 27 digits: such a numeral writes a number of 64 bits.
pub open spec fn well_formed(input: Seq<char>) -> bool {
    let ls = lines(input);
    forall|i: int|
        0 <= i < ls.len() ==> is_snafu(trimmed(#[trigger] ls[i])) && trimmed(ls[i]).len() <= 27
}

/// Whatever the order in which the numbers are added up, every partial sum
/// fits in 64 bits, and the sum can be written as a numeral.
pub open spec fn summable(s: Seq<i64>) -> bool {
    &&& sum_above(s) <= i64::MAX - 2
    &&& sum_below(s) >= i64::MIN
    &&& sum_all(s) >= -2
}

impl SnafuDecoder {
    /// The distinct numerals, in the order in which they first occurred.
    pub closed spec fn numerals(self) -> Seq<Seq<char>> {
        rows(self.numerals@)
    }

    /// The number that each numeral writes.
    pub closed spec fn values(self) -> Seq<i64> {
        self.values@
    }

    /// Whether the numbers can be added up and their sum written.
    pub fn can_sum(&self) -> (b: bool)
        ensures
            b == summable(self.values()),
    {
        let ghost v = self.values@;
        let mut above: i64 = 0;
        let mut below: i64 = 0;
        let mut i: usize = 0;
        assert(v.take(0) =~= Seq::<i64>::empty());
        while i < self.values.len()
            invariant
                i <= self.values.len(),
                v == self.values@,
                above == sum_above(v.take(i as int)),
                below == sum_below(v.take(i as int)),
                0 <= above <= i64::MAX - 2,
                below <= 0,
            decreases self.values.len() - i,
        {
            proof {
                lemma_parts_prefix(v, i + 1);
                assert(v.take(i + 1).drop_last() =~= v.take(i as int));
            }
            let x = self.values[i];
            if x > 0 {
                if x > 0x7fff_ffff_ffff_fffd - above {
                    return false;
                }
                above = above + x;
            } else if x < 0 {
                if x < -0x7fff_ffff_ffff_ffff - 1 - below {
                    return false;
                }
                below = below + x;
            }
            i += 1;
        }
        assert(v.take(i as int) =~= v);
        above as i128 + below as i128 >= -2
    }

    /// The numeral of the sum of the numbers.
    pub fn sum(&self) -> (s: String)
        requires
            summable(self.values()),
        ensures
            s@ == snafu_of(sum_all(self.values())),
    {
        let ghost v = self.values@;
        let mut sum: i64 = 0;
        let mut i: usize = 0;
        assert(v.take(0) =~= Seq::<i64>::empty());
        while i < self.values.len()
            invariant
                i <= self.values.len(),
                v == self.values@,
                summable(v),
                sum == sum_all(v.take(i as int)),
            decreases self.values.len() - i,
        {
            proof {
                lemma_parts_prefix(v, i as int);
                lemma_parts_prefix(v, i + 1);
                assert(v.take(i + 1).drop_last() =~= v.take(i as int));
            }
            sum = sum + self.values[i];
            i += 1;
        }
        assert(v.take(i as int) =~= v);
        proof {
            lemma_parts_signs(v);
        }
        SnafuDecoder::encode(sum)
    }

    /// The numeral of `snafu`.
    pub fn encode(snafu: i64) -> (s: String)
        requires
            -2 <= snafu <= i64::MAX - 2,
        ensures
            s@ == snafu_of(snafu as int),
    {
        let mut digits: Vec<char> = Vec::new();
        push_snafu(&mut digits, snafu);
        assert(digits@ =~= snafu_of(snafu as int));
        string_of(&digits)
    }

    /// The number that the numeral `snafu` writes.
    pub fn decode(snafu: &str) -> (val: i64)
        requires
            is_snafu(snafu@),
            snafu@.len() <= 27,
        ensures
            val == snafu_value(snafu@),
    {
        SnafuDecoder::decode_chars(&chars_of(snafu))
    }

    /// The number that the numeral `snafu` writes.
    fn decode_chars(snafu: &Vec<char>) -> (val: i64)
        requires
            is_snafu(snafu@),
            snafu@.len() <= 27,
        ensures
            val == snafu_value(snafu@),
    {
        let mut val: i64 = 0;
        let mut i: usize = 0;
        assert(snafu@.take(0) =~= Seq::<char>::empty());
        while i < snafu.len()
            invariant
                i <= snafu.len() <= 27,
                is_snafu(snafu@),
                val == snafu_value(snafu@.take(i as int)),
            decreases snafu.len() - i,
        {
            let character = snafu[i];
            proof {
                assert(snafu@.take(i + 1).drop_last() =~= snafu@.take(i as int));
                assert(is_snafu(snafu@.take(i as int)));
                assert(is_snafu(snafu@.take(i + 1)));
                lemma_value_bound(snafu@.take(i as int));
                lemma_value_bound(snafu@.take(i + 1));
                lemma_pow5_grows(i as nat, 27);
                lemma_pow5_grows((i + 1) as nat, 27);
                lemma_pow5_27();
            }
            let digit: i64 = if character == '2' {
                2
            } else if character == '1' {
                1
            } else if character == '0' {
                0
            } else if character == '-' {
                -1
            } else {
                -2
            };
            val = val * 5 + digit;
            i += 1;
        }
        assert(snafu@.take(i as int) =~= snafu@);
        val
    }

    /// Reads one numeral per line and keeps each distinct one with the number
    /// it writes.
    pub fn new(input: &str) -> (decoder: SnafuDecoder)
        requires
            well_formed(input@),
        ensures
            decoder.numerals() == numerals(lines(input@)),
            decoder.values() == values_of(decoder.numerals()),
    {
        let text = chars_of(input);
        let ls = lines_of(&text);
        let ghost all = lines(input@);
        let mut numerals: Vec<Vec<char>> = Vec::new();
        let mut values: Vec<i64> = Vec::new();
        let mut i: usize = 0;
        assert(all.take(0) =~= Seq::<Seq<char>>::empty());
        assert(rows(numerals@) =~= Seq::<Seq<char>>::empty());
        while i < ls.len()
            invariant
                i <= ls.len(),
                all == rows(ls@),
                well_formed(input@),
                all == lines(input@),
                rows(numerals@) == self::numerals(all.take(i as int)),
                values@ == values_of(rows(numerals@)),
            decreases ls.len() - i,
        {
            assert(all[i as int] == ls@[i as int]@);
            assert(all.take(i + 1).drop_last() =~= all.take(i as int));
            assert(all.take(i + 1).last() == all[i as int]);
            let line = trim(&ls[i]);
            let val = SnafuDecoder::decode_chars(&line);
            let mut known = false;
            let mut k: usize = 0;
            while k < numerals.len()
                invariant
                    k <= numerals.len(),
                    known == exists|j: int| 0 <= j < k && rows(numerals@)[j] == line@,
                decreases numerals.len() - k,
            {
                assert(rows(numerals@)[k as int] == numerals@[k as int]@);
                if same_chars(&numerals[k], &line) {
                    known = true;
                }
                k += 1;
            }
            assert(known == rows(numerals@).contains(line@));
            if !known {
                let ghost before = numerals@;
                numerals.push(line);
                values.push(val);
                proof {
                    assert(rows(numerals@) =~= rows(before).push(line@));
                    assert(values@ =~= values_of(rows(numerals@)));
                }
            }
            i += 1;
        }
        assert(all.take(i as int) =~= all);
        SnafuDecoder { numerals, values }
    }
}

/// Whether every line is a numeral of at most 27 digits.
fn reads_numerals(input: &str) -> (b: bool)
    ensures
        b == well_formed(input@),
{
    let text = chars_of(input);
    let ls = lines_of(&text);
    let ghost all = lines(input@);
    let mut i: usize = 0;
    while i < ls.len()
        invariant
            i <= ls.len(),
            all == rows(ls@),
            all == lines(input@),
            forall|k: int|
                0 <= k < i ==> is_snafu(trimmed(#[trigger] all[k])) && trimmed(all[k]).len() <= 27,
        decreases ls.len() - i,
    {
        assert(all[i as int] == ls@[i as int]@);
        let line = trim(&ls[i]);
        if line.len() > 27 {
            return false;
        }
        let mut k: usize = 0;
        while k < line.len()
            invariant
                k <= line.len(),
                i < ls.len(),
                all == rows(ls@),
                all == lines(input@),
                line@ == trimmed(all[i as int]),
                forall|m: int| 0 <= m < k ==> snafu_digit(#[trigger] line@[m]) is Some,
            decreases line.len() - k,
        {
            let c = line[k];
            if !(c == '2' || c == '1' || c == '0' || c == '-' || c == '=') {
                assert(snafu_digit(line@[k as int]) is None);
                return false;
            }
            k += 1;
        }
        i += 1;
    }
    true
}

impl DayTwentyFive {
    /// Both answers; `None` where a line is no numeral of at most 27 digits
    /// or the numbers cannot be added up.
    pub fn solve(&self, input: &str) -> (r: Option<(String, String)>)
        ensures
            r is Some <==> well_formed(input@) && summable(values_of(numerals(lines(input@)))),
            r matches Some(a) ==> a.0@ == "Snafu sum: "@ + snafu_of(
                sum_all(values_of(numerals(lines(input@)))),
            ) && a.1@ == "Not yet implemented"@,
    {
        if !reads_numerals(input) {
            return None;
        }
        let snafu_decoder = SnafuDecoder::new(input);
        if !snafu_decoder.can_sum() {
            return None;
        }
        Some((self.part_one(input), self.part_two(input)))
    }

    /// Reports the numeral of the sum of the distinct numerals of `input`.
    pub fn part_one(&self, input: &str) -> (out: String)
        requires
            well_formed(input@),
            summable(values_of(numerals(lines(input@)))),
        ensures
            out@ == "Snafu sum: "@ + snafu_of(sum_all(values_of(numerals(lines(input@))))),
    {
        let snafu_decoder = SnafuDecoder::new(input);
        let sum = snafu_decoder.sum();
        labelled("Snafu sum: ", &chars_of(sum.as_str()))
    }

    /// Reports that there is nothing to compute.
    pub fn part_two(&self, _input: &str) -> (out: String)
        ensures
            out@ == "Not yet implemented"@,
    {
        string_of(&chars_of("Not yet implemented"))
    }
}

} // verus!
