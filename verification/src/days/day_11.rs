use crate::pattern::{captures, count_groups, group, group_count, group_text, group_texts, regex_captures};
use crate::text::{
    chars_of, decimal, is_text, labelled_number, one_char, parse_u64, parse_within, rows, split,
    split_on, string_of, trim, trimmed,
};
use vstd::prelude::*;

verus! {

pub struct DayEleven {}

#[derive(Clone, Copy, PartialEq, Eq, Debug, Structural)]
pub enum Operation {
    Multiply,
    Add,
}

/// A monkey with the items it holds and the rules by which it passes them
/// on.
pub struct Monkey {
    pub num: u8,
    pub items_inspected: u64,
    pub items: Vec<u64>,
    pub operation: Operation,
    pub change: Option<u8>,
    pub divisible: u8,
    pub true_monkey: u8,
    pub false_monkey: u8,
    pub worry_level_divide: bool,
}

/// What a monkey is, its items as a sequence.
pub struct Ape {
    pub num: u8,
    pub inspected: nat,
    pub items: Seq<u64>,
    pub operation: Operation,
    pub change: Option<u8>,
    pub divisible: u8,
    pub true_monkey: u8,
    pub false_monkey: u8,
    pub divide: bool,
}

impl View for Monkey {
    type V = Ape;

    open spec fn view(&self) -> Ape {
        Ape {
            num: self.num,
            inspected: self.items_inspected as nat,
            items: self.items@,
            operation: self.operation,
            change: self.change,
            divisible: self.divisible,
            true_monkey: self.true_monkey,
            false_monkey: self.false_monkey,
            divide: self.worry_level_divide,
        }
    }
}

/// The worry level of an item once the monkey has inspected it: the old
/// level times or plus the change, which is the old level itself where none
/// is given.
pub open spec fn raised(a: Ape, item: u64) -> int {
    let change = match a.change {
        Some(x) => x as int,
        None => item as int,
    };
    match a.operation {
        Operation::Multiply => item * change,
        Operation::Add => item + change,
    }
}

/// The worry level with which the monkey throws the item: a third of the
/// raised level where relief is granted.
pub open spec fn worry(a: Ape, item: u64) -> int {
    if a.divide {
        raised(a, item) / 3
    } else {
        raised(a, item)
    }
}

/// The monkey that the item is thrown to.
pub open spec fn receiver(a: Ape, item: u64) -> u8 {
    if worry(a, item) % (a.divisible as int) == 0 {
        a.true_monkey
    } else {
        a.false_monkey
    }
}

/// The monkey's test does not divide by zero, and no number of its turn
/// leaves the range of 64 bits.
pub open spec fn can_play(a: Ape) -> bool {
    &&& a.divisible > 0
    &&& a.inspected + a.items.len() <= u64::MAX
    &&& forall|i: int| 0 <= i < a.items.len() ==> raised(a, #[trigger] a.items[i]) <= u64::MAX
}

/// The throws of a turn: every item, in order, with its new worry level and
/// the monkey it goes to.
pub open spec fn throws_of(a: Ape) -> Seq<(u64, u8)> {
    Seq::new(a.items.len(), |i: int| (worry(a, a.items[i]) as u64, receiver(a, a.items[i])))
}

/// The monkey after its turn: it has inspected all its items and holds
/// none.
pub open spec fn played(a: Ape) -> Ape {
    Ape { inspected: a.inspected + a.items.len() as nat, items: Seq::empty(), ..a }
}

impl Monkey {
    /// Inspects every item and says where each goes, with which worry level.
    pub fn play_round(&mut self) -> (throws: Vec<(u64, u8)>)
        requires
            can_play(old(self)@),
        ensures
            throws@ == throws_of(old(self)@),
            final(self)@ == played(old(self)@),
    {
        let mut throws: Vec<(u64, u8)> = Vec::new();
        let mut i: usize = 0;
        let ghost before = self@;
        while i < self.items.len()
            invariant
                i <= self.items.len(),
                can_play(before),
                self@ == (Ape { inspected: (before.inspected + i) as nat, ..before }),
                throws.len() == i,
                forall|k: int| 0 <= k < i ==> throws@[k] == throws_of(before)[k],
            decreases self.items.len() - i,
        {
            let item = self.items[i];
            assert(raised(before, before.items[i as int]) <= u64::MAX);
            self.items_inspected += 1;
            let change: u64 = match self.change {
                Some(x) => x as u64,
                None => item,
            };
            let mut worry_level = match self.operation {
                Operation::Multiply => {
                    assert(item * change == raised(before, item)) by (nonlinear_arith)
                        requires
                            raised(before, item) == item * change,
                    ;
                    item * change
                },
                Operation::Add => item + change,
            };
            if self.worry_level_divide {
                worry_level = worry_level / 3;
            }
            if worry_level % self.divisible as u64 == 0 {
                throws.push((worry_level, self.true_monkey));
            } else {
                throws.push((worry_level, self.false_monkey));
            }
            i += 1;
        }
        self.items = Vec::new();
        assert(throws@ =~= throws_of(before));
        throws
    }

    /// Hands the monkey an item.
    pub fn throw(&mut self, item: u64)
        ensures
            final(self)@ == (Ape { items: old(self)@.items.push(item), ..old(self)@ }),
    {
        self.items.push(item)
    }
}

/// The regular expression of a monkey's description: its number, its items,
/// its operation with the change, the divisor of its test, and the monkeys it
/// throws to.
pub open spec fn monkey_pattern() -> Seq<char> {
    r"^Monkey\s(?P<monkey_num>[0-9]+):\n\s*Starting\sitems:(?P<items>[0-9,\s]+)\n\s*Operation:\snew\s=\sold\s(?P<operation>[+*])\s(?P<change>(old|[0-9]+))\n\s*Test:\sdivisible\sby\s(?P<divisible>[0-9]+)\n\s*If\strue:\sthrow\sto\smonkey\s(?P<true_monkey>[0-9]+)\n\s*If\sfalse:\sthrow\sto\smonkey\s(?P<false_monkey>[0-9]+)$"@
}

/// The number of at most 255 that `text` writes.
pub open spec fn small_number(text: Option<Seq<char>>) -> Option<u8> {
    match text {
        Some(t) => match parse_within(t, false, 0, u8::MAX as int) {
            Some(x) => Some(x as u8),
            None => None,
        },
        None => None,
    }
}

/// The number that `piece` writes between white space.
pub open spec fn item_of(piece: Seq<char>) -> Option<int> {
    parse_within(trimmed(piece), false, 0, u64::MAX as int)
}

/// The numbers that `text` writes with commas between them.
pub open spec fn items_of(text: Option<Seq<char>>) -> Option<Seq<u64>> {
    match text {
        Some(t) => {
            let pieces = split(t, seq![',']);
            if forall|i: int| 0 <= i < pieces.len() ==> item_of(#[trigger] pieces[i]) is Some {
                Some(Seq::new(pieces.len(), |i: int| item_of(pieces[i])->0 as u64))
            } else {
                None
            }
        },
        None => None,
    }
}

/// The operation that a sign names.
pub open spec fn operation_of(text: Option<Seq<char>>) -> Option<Operation> {
    match text {
        Some(t) => if t.len() == 1 && t[0] == '+' {
            Some(Operation::Add)
        } else if t.len() == 1 && t[0] == '*' {
            Some(Operation::Multiply)
        } else {
            None
        },
        None => None,
    }
}

/// The change that `text` writes: the word old for the old level itself, or
/// a number of at most 255.
pub open spec fn change_of(text: Option<Seq<char>>) -> Option<Option<u8>> {
    match text {
        Some(t) => if t == "old"@ {
            Some(None)
        } else {
            match small_number(text) {
                Some(x) => Some(Some(x)),
                None => None,
            }
        },
        None => None,
    }
}

/// The monkey that the capture groups of a match describe; `None` where
/// there is no match or a group does not qualify.
pub open spec fn ape_of(groups: Option<Seq<Option<Seq<char>>>>, divide: bool) -> Option<Ape> {
    if group_count(groups) == 9 {
        match (
            small_number(group_text(groups, 1)),
            items_of(group_text(groups, 2)),
            operation_of(group_text(groups, 3)),
            change_of(group_text(groups, 4)),
            small_number(group_text(groups, 6)),
            small_number(group_text(groups, 7)),
            small_number(group_text(groups, 8)),
        ) {
            (
                Some(num),
                Some(items),
                Some(operation),
                Some(change),
                Some(divisible),
                Some(true_monkey),
                Some(false_monkey),
            ) => Some(
                Ape {
                    num,
                    inspected: 0,
                    items,
                    operation,
                    change,
                    divisible,
                    true_monkey,
                    false_monkey,
                    divide,
                },
            ),
            _ => None,
        }
    } else {
        None
    }
}

/// The monkey that `input` describes.
pub open spec fn ape_in(input: Seq<char>, divide: bool) -> Option<Ape> {
    ape_of(regex_captures(monkey_pattern(), input), divide)
}

/// Parses a number of at most 255.
fn read_small(text: &Option<Vec<char>>) -> (r: Option<u8>)
    ensures
        r == small_number(
            match *text {
                Some(t) => Some(t@),
                None => None,
            },
        ),
{
    match text {
        None => None,
        Some(t) => match parse_u64(t) {
            None => None,
            Some(x) => if x <= 255 {
                Some(x as u8)
            } else {
                None
            },
        },
    }
}

/// Parses numbers with commas between them.
fn read_items(text: &Option<Vec<char>>) -> (r: Option<Vec<u64>>)
    ensures
        match r {
            Some(v) => items_of(
                match *text {
                    Some(t) => Some(t@),
                    None => None,
                },
            ) == Some(v@),
            None => items_of(
                match *text {
                    Some(t) => Some(t@),
                    None => None,
                },
            ) is None,
        },
{
    match text {
        None => None,
        Some(t) => {
            let pieces = split_on(t, &one_char(','));
            let ghost all = split(t@, seq![',']);
            let mut items: Vec<u64> = Vec::new();
            let mut i: usize = 0;
            while i < pieces.len()
                invariant
                    i <= pieces.len(),
                    all == rows(pieces@),
                    all == split(t@, seq![',']),
                    *text == Some(*t),
                    items.len() == i,
                    forall|k: int| 0 <= k < i ==> item_of(#[trigger] all[k]) is Some,
                    forall|k: int| 0 <= k < i ==> items@[k] == item_of(all[k])->0 as u64,
                decreases pieces.len() - i,
            {
                assert(all[i as int] == pieces@[i as int]@);
                match parse_u64(&trim(&pieces[i])) {
                    None => {
                        assert(item_of(all[i as int]) is None);
                        return None;
                    },
                    Some(x) => {
                        items.push(x);
                    },
                }
                i += 1;
            }
            assert(items@ =~= Seq::new(all.len(), |i: int| item_of(all[i])->0 as u64));
            Some(items)
        },
    }
}

impl Monkey {
    /// The monkey that the capture groups of a match describe.
    pub fn from_captures(groups: &Option<Vec<Option<String>>>, worry_level_divide: bool) -> (r:
        Option<Monkey>)
        ensures
            match r {
                Some(m) => ape_of(group_texts(*groups), worry_level_divide) == Some(m@),
                None => ape_of(group_texts(*groups), worry_level_divide) is None,
            },
    {
        if count_groups(groups) != 9 {
            return None;
        }
        let monkey_num = read_small(&group(groups, 1));
        let items = read_items(&group(groups, 2));
        let operation = match group(groups, 3) {
            None => None,
            Some(sign) => if sign.len() == 1 && sign[0] == '+' {
                Some(Operation::Add)
            } else if sign.len() == 1 && sign[0] == '*' {
                Some(Operation::Multiply)
            } else {
                None
            },
        };
        let change_text = group(groups, 4);
        let change = match &change_text {
            None => None,
            Some(t) => if is_text(t, "old") {
                Some(None)
            } else {
                match read_small(&change_text) {
                    Some(x) => Some(Some(x)),
                    None => None,
                }
            },
        };
        let divisible = read_small(&group(groups, 6));
        let true_monkey = read_small(&group(groups, 7));
        let false_monkey = read_small(&group(groups, 8));
        match (monkey_num, items, operation, change, divisible, true_monkey, false_monkey) {
            (
                Some(num),
                Some(items),
                Some(operation),
                Some(change),
                Some(divisible),
                Some(true_monkey),
                Some(false_monkey),
            ) => Some(
                Monkey {
                    num,
                    items_inspected: 0,
                    items,
                    operation,
                    change,
                    divisible,
                    true_monkey,
                    false_monkey,
                    worry_level_divide,
                },
            ),
            _ => None,
        }
    }

    /// The monkey that `input` describes; `None` where it describes none.
    pub fn try_new(input: &str, worry_level_divide: bool) -> (r: Option<Monkey>)
        ensures
            match r {
                Some(m) => ape_in(input@, worry_level_divide) == Some(m@),
                None => ape_in(input@, worry_level_divide) is None,
            },
    {
        let groups = captures(
            r"^Monkey\s(?P<monkey_num>[0-9]+):\n\s*Starting\sitems:(?P<items>[0-9,\s]+)\n\s*Operation:\snew\s=\sold\s(?P<operation>[+*])\s(?P<change>(old|[0-9]+))\n\s*Test:\sdivisible\sby\s(?P<divisible>[0-9]+)\n\s*If\strue:\sthrow\sto\smonkey\s(?P<true_monkey>[0-9]+)\n\s*If\sfalse:\sthrow\sto\smonkey\s(?P<false_monkey>[0-9]+)$",
            input,
        );
        match Monkey::from_captures(&groups, worry_level_divide) {
            None => None,
            Some(_) => Some(Monkey::new(input, worry_level_divide)),
        }
    }

    /// The monkey that `input` describes.
    pub fn new(input: &str, worry_level_divide: bool) -> (m: Monkey)
        requires
            ape_in(input@, worry_level_divide) is Some,
        ensures
            ape_in(input@, worry_level_divide) == Some(m@),
    {
        let groups = captures(
            r"^Monkey\s(?P<monkey_num>[0-9]+):\n\s*Starting\sitems:(?P<items>[0-9,\s]+)\n\s*Operation:\snew\s=\sold\s(?P<operation>[+*])\s(?P<change>(old|[0-9]+))\n\s*Test:\sdivisible\sby\s(?P<divisible>[0-9]+)\n\s*If\strue:\sthrow\sto\smonkey\s(?P<true_monkey>[0-9]+)\n\s*If\sfalse:\sthrow\sto\smonkey\s(?P<false_monkey>[0-9]+)$",
            input,
        );
        Monkey::from_captures(&groups, worry_level_divide).unwrap()
    }

    /// Whether the monkey can take its turn.
    fn playable(&self) -> (b: bool)
        ensures
            b == can_play(self@),
    {
        if self.divisible == 0 {
            return false;
        }
        if self.items.len() as u64 > u64::MAX - self.items_inspected {
            return false;
        }
        let mut i: usize = 0;
        while i < self.items.len()
            invariant
                i <= self.items.len(),
                forall|k: int| 0 <= k < i ==> raised(self@, #[trigger] self@.items[k]) <= u64::MAX,
            decreases self.items.len() - i,
        {
            let item = self.items[i];
            let change: u64 = match self.change {
                Some(x) => x as u64,
                None => item,
            };
            let fits = match self.operation {
                Operation::Multiply => {
                    let ok = change == 0 || item <= u64::MAX / change;
                    assert(ok == (item * change <= u64::MAX)) by (nonlinear_arith)
                        requires
                            ok == (change == 0 || item <= u64::MAX / change),
                            0 <= item,
                            0 <= change,
                    ;
                    ok
                },
                Operation::Add => item <= u64::MAX - change,
            };
            if !fits {
                assert(raised(self@, self@.items[i as int]) > u64::MAX);
                return false;
            }
            i += 1;
        }
        true
    }
}

/// A troop of monkeys, in the order of their numbers, with the product of
/// the divisors of their tests.
pub struct MonkeyThrower {
    pub monkeys: Vec<Monkey>,
    pub lcm: u64,
}

/// The numbers of the monkeys of a troop.
pub open spec fn roster(troop: Seq<Ape>) -> Seq<u8> {
    Seq::new(troop.len(), |i: int| troop[i].num)
}

/// The numbers grow along the sequence.
pub open spec fn ascending(nums: Seq<u8>) -> bool {
    forall|i: int, j: int| 0 <= i < j < nums.len() ==> nums[i] < nums[j]
}

/// The place of the monkey with the number `num`; `None` where there is no
/// such monkey.
pub open spec fn slot(nums: Seq<u8>, num: u8) -> Option<int> {
    if exists|i: int| 0 <= i < nums.len() && nums[i] == num {
        Some(choose|i: int| 0 <= i < nums.len() && nums[i] == num)
    } else {
        None
    }
}

/// The troop after the monkey that a throw names has caught the item, its
/// worry level reduced by the common multiple.
pub open spec fn given(troop: Seq<Ape>, throw: (u64, u8), lcm: u64) -> Seq<Ape> {
    let k = slot(roster(troop), throw.1)->0;
    troop.update(k, Ape { items: troop[k].items.push((throw.0 % lcm) as u64), ..troop[k] })
}

/// The troop after the throws have been caught, one after the other.
pub open spec fn delivered(troop: Seq<Ape>, throws: Seq<(u64, u8)>, lcm: u64) -> Seq<Ape>
    decreases throws.len(),
{
    if throws.len() == 0 {
        troop
    } else {
        given(delivered(troop, throws.drop_last(), lcm), throws.last(), lcm)
    }
}

/// The troop after monkey `k` has taken its turn.
pub open spec fn turn(troop: Seq<Ape>, k: int, lcm: u64) -> Seq<Ape> {
    delivered(troop.update(k, played(troop[k])), throws_of(troop[k]), lcm)
}

/// Monkey `k` can take its turn: every monkey that it throws to exists, and
/// the common multiple is not zero where it throws at all.
pub open spec fn can_turn(troop: Seq<Ape>, k: int, lcm: u64) -> bool {
    &&& can_play(troop[k])
    &&& forall|i: int|
        0 <= i < throws_of(troop[k]).len() ==> lcm > 0 && slot(
            roster(troop),
            (#[trigger] throws_of(troop[k])[i]).1,
        ) is Some
}

/// The troop after the first `k` monkeys have taken their turns.
pub open spec fn turns(troop: Seq<Ape>, k: int, lcm: u64) -> Seq<Ape>
    decreases k,
{
    if k <= 0 {
        troop
    } else {
        turn(turns(troop, k - 1, lcm), k - 1, lcm)
    }
}

/// The troop after `n` rounds, in each of which every monkey takes its
/// turn.
pub open spec fn rounds(troop: Seq<Ape>, n: int, lcm: u64) -> Seq<Ape>
    decreases n,
{
    if n <= 0 {
        troop
    } else {
        turns(rounds(troop, n - 1, lcm), troop.len() as int, lcm)
    }
}

/// Every turn of `n` rounds can be taken when it comes.
pub open spec fn can_run(troop: Seq<Ape>, n: int, lcm: u64) -> bool {
    forall|r: int, k: int|
        0 <= r < n && 0 <= k < troop.len() ==> can_turn(
            #[trigger] turns(rounds(troop, r, lcm), k, lcm),
            k,
            lcm,
        )
}

/// `a` and `b` are the greatest two of the numbers of `s`.
pub open spec fn is_top_two(s: Seq<u64>, a: u64, b: u64) -> bool {
    exists|i: int, j: int|
        0 <= i < s.len() && 0 <= j < s.len() && i != j && #[trigger] s[i] == a && #[trigger] s[j]
            == b && a >= b && forall|k: int| 0 <= k < s.len() && k != i ==> s[k] <= b
}

/// How often each monkey of the troop has inspected an item.
pub open spec fn inspections(troop: Seq<Ape>) -> Seq<u64> {
    Seq::new(troop.len(), |i: int| troop[i].inspected as u64)
}

/// A catch changes neither the numbers of the monkeys nor their count.
proof fn lemma_given_keeps_roster(troop: Seq<Ape>, throw: (u64, u8), lcm: u64)
    requires
        slot(roster(troop), throw.1) is Some,
    ensures
        roster(given(troop, throw, lcm)) == roster(troop),
        given(troop, throw, lcm).len() == troop.len(),
{
    assert(roster(given(troop, throw, lcm)) =~= roster(troop));
}

impl MonkeyThrower {
    /// The monkeys of the troop.
    pub open spec fn troop(self) -> Seq<Ape> {
        Seq::new(self.monkeys@.len(), |i: int| self.monkeys@[i]@)
    }

    /// The monkeys stand in the order of their numbers.
    pub open spec fn wf(self) -> bool {
        ascending(roster(self.troop()))
    }

    /// The place of the monkey with the number `num`.
    fn find(&self, num: u8) -> (r: Option<usize>)
        requires
            self.wf(),
        ensures
            match r {
                Some(k) => slot(roster(self.troop()), num) == Some(k as int),
                None => slot(roster(self.troop()), num) is None,
            },
    {
        let ghost nums = roster(self.troop());
        let mut k: usize = 0;
        while k < self.monkeys.len()
            invariant
                k <= self.monkeys.len(),
                nums == roster(self.troop()),
                ascending(nums),
                forall|i: int| 0 <= i < k ==> nums[i] != num,
            decreases self.monkeys.len() - k,
        {
            assert(nums[k as int] == self.monkeys@[k as int].num);
            if self.monkeys[k].num == num {
                proof {
                    let c = choose|i: int| 0 <= i < nums.len() && nums[i] == num;
                    if c < k {
                        assert(nums[c] < nums[k as int]);
                    } else if c > k {
                        assert(nums[k as int] < nums[c]);
                    }
                }
                return Some(k);
            }
            k += 1;
        }
        None
    }

    /// The product of the greatest two numbers of inspections.
    pub fn score(&self) -> (product: u64)
        requires
            self.monkeys@.len() >= 2,
            forall|a: u64, b: u64| #[trigger]
                is_top_two(inspections(self.troop()), a, b) ==> a * b <= u64::MAX,
        ensures
            exists|a: u64, b: u64| #[trigger]
                is_top_two(inspections(self.troop()), a, b) && product == a * b,
    {
        let (best, next) = self.top_two();
        best * next
    }

    /// The greatest two numbers of inspections.
    fn top_two(&self) -> (r: (u64, u64))
        requires
            self.monkeys@.len() >= 2,
        ensures
            is_top_two(inspections(self.troop()), r.0, r.1),
    {
        let ghost s = inspections(self.troop());
        let first = self.monkeys[0].items_inspected;
        let second = self.monkeys[1].items_inspected;
        let mut best: u64 = if first >= second {
            first
        } else {
            second
        };
        let mut next: u64 = if first >= second {
            second
        } else {
            first
        };
        let ghost mut at: int = if first >= second {
            0
        } else {
            1
        };
        let ghost mut at_next: int = 1 - at;
        let mut i: usize = 2;
        assert(s[0] == first && s[1] == second);
        while i < self.monkeys.len()
            invariant
                2 <= i <= self.monkeys.len(),
                s == inspections(self.troop()),
                0 <= at < i && 0 <= at_next < i && at != at_next,
                s[at] == best,
                s[at_next] == next,
                best >= next,
                forall|k: int| 0 <= k < i && k != at ==> s[k] <= next,
            decreases self.monkeys.len() - i,
        {
            let x = self.monkeys[i].items_inspected;
            assert(s[i as int] == x);
            if x > best {
                next = best;
                best = x;
                proof {
                    at_next = at;
                    at = i as int;
                }
            } else if x > next {
                next = x;
                proof {
                    at_next = i as int;
                }
            }
            i += 1;
        }
        assert(is_top_two(s, best, next));
        (best, next)
    }

    /// Plays rounds as long as every turn can be taken. Returns whether it
    /// played them all.
    pub fn try_run(&mut self, round_num: u32) -> (done: bool)
        requires
            old(self).wf(),
        ensures
            done == can_run(old(self).troop(), round_num as int, old(self).lcm),
            final(self).wf(),
            final(self).lcm == old(self).lcm,
            done ==> final(self).troop() == rounds(old(self).troop(), round_num as int, old(self).lcm),
    {
        let ghost troop0 = self.troop();
        let ghost nums = roster(troop0);
        let lcm = self.lcm;
        let n = self.monkeys.len();
        let mut r: u32 = 0;
        while r < round_num
            invariant
                r <= round_num,
                self.lcm == lcm,
                lcm == old(self).lcm,
                troop0 == old(self).troop(),
                n == troop0.len(),
                self.troop().len() == n,
                roster(self.troop()) == nums,
                nums == roster(troop0),
                ascending(nums),
                self.troop() == rounds(troop0, r as int, lcm),
                forall|r2: int, k2: int|
                    0 <= r2 < r && 0 <= k2 < n ==> can_turn(
                        #[trigger] turns(rounds(troop0, r2, lcm), k2, lcm),
                        k2,
                        lcm,
                    ),
            decreases round_num - r,
        {
            let ghost at_round = self.troop();
            let mut k: usize = 0;
            while k < n
                invariant
                    k <= n,
                    r < round_num,
                    self.lcm == lcm,
                    lcm == old(self).lcm,
                    troop0 == old(self).troop(),
                    n == troop0.len(),
                    self.troop().len() == n,
                    roster(self.troop()) == nums,
                    nums == roster(troop0),
                    ascending(nums),
                    at_round == rounds(troop0, r as int, lcm),
                    self.troop() == turns(at_round, k as int, lcm),
                    forall|k2: int|
                        0 <= k2 < k ==> can_turn(#[trigger] turns(at_round, k2, lcm), k2, lcm),
                decreases n - k,
            {
                let ghost before = self.troop();
                assert(before[k as int] == self.monkeys@[k as int]@);
                if !self.monkeys[k].playable() {
                    assert(!can_turn(turns(rounds(troop0, r as int, lcm), k as int, lcm), k as int, lcm));
                    return false;
                }
                let throws = self.monkeys[k].play_round();
                let ghost base = before.update(k as int, played(before[k as int]));
                assert(self.troop() =~= base);
                assert(roster(base) =~= nums);
                let mut j: usize = 0;
                assert(throws@.take(0) =~= Seq::<(u64, u8)>::empty());
                while j < throws.len()
                    invariant
                        j <= throws.len(),
                        k < n,
                        r < round_num,
                        self.lcm == lcm,
                        lcm == old(self).lcm,
                        troop0 == old(self).troop(),
                        n == troop0.len(),
                        self.troop().len() == n,
                        roster(self.troop()) == nums,
                        roster(before) == nums,
                        nums == roster(troop0),
                        ascending(nums),
                        at_round == rounds(troop0, r as int, lcm),
                        before == turns(at_round, k as int, lcm),
                        throws@ == throws_of(before[k as int]),
                        can_play(before[k as int]),
                        self.troop() == delivered(base, throws@.take(j as int), lcm),
                        forall|i: int|
                            0 <= i < j ==> lcm > 0 && slot(nums, (#[trigger] throws@[i]).1) is Some,
                    decreases throws.len() - j,
                {
                    let (item, receiving_monkey_key) = throws[j];
                    let ghost held = self.troop();
                    proof {
                        assert(throws@.take(j + 1).drop_last() =~= throws@.take(j as int));
                        assert(throws@.take(j + 1).last() == throws@[j as int]);
                    }
                    let place = match self.find(receiving_monkey_key) {
                        None => {
                            assert(!can_turn(before, k as int, lcm));
                            assert(!can_turn(
                                turns(rounds(troop0, r as int, lcm), k as int, lcm),
                                k as int,
                                lcm,
                            ));
                            return false;
                        },
                        Some(x) => x,
                    };
                    if lcm == 0 {
                        assert(!can_turn(before, k as int, lcm));
                        assert(!can_turn(
                            turns(rounds(troop0, r as int, lcm), k as int, lcm),
                            k as int,
                            lcm,
                        ));
                        return false;
                    }
                    let reduced_item = item % lcm;
                    assert(held[place as int] == self.monkeys@[place as int]@);
                    self.monkeys[place].throw(reduced_item);
                    proof {
                        assert(self.troop() =~= given(held, throws@[j as int], lcm));
                        lemma_given_keeps_roster(held, throws@[j as int], lcm);
                    }
                    j += 1;
                }
                assert(throws@.take(j as int) =~= throws@);
                assert(can_turn(before, k as int, lcm));
                k += 1;
            }
            r += 1;
        }
        true
    }

    /// Plays `round_num` rounds.
    pub fn run(&mut self, round_num: u32)
        requires
            old(self).wf(),
            can_run(old(self).troop(), round_num as int, old(self).lcm),
        ensures
            final(self).wf(),
            final(self).lcm == old(self).lcm,
            final(self).troop() == rounds(old(self).troop(), round_num as int, old(self).lcm),
    {
        let done = self.try_run(round_num);
    }
}

/// The place of a monkey with the number `num` in a troop in ascending
/// order: behind every monkey with a smaller number.
pub open spec fn rank(nums: Seq<u8>, num: u8) -> int
    decreases nums.len(),
{
    if nums.len() == 0 || nums[0] >= num {
        0
    } else {
        1 + rank(nums.skip(1), num)
    }
}

/// The troop after a monkey has joined it: it takes the place of the monkey
/// of the same number, if there is one, or else its place in the order of
/// the numbers.
pub open spec fn enrolled(troop: Seq<Ape>, a: Ape) -> Seq<Ape> {
    let k = rank(roster(troop), a.num);
    if k < troop.len() && troop[k].num == a.num {
        troop.update(k, a)
    } else {
        troop.insert(k, a)
    }
}

/// The troop that the descriptions make up.
pub open spec fn troop_of(blocks: Seq<Seq<char>>, divide: bool) -> Seq<Ape>
    decreases blocks.len(),
{
    if blocks.len() == 0 {
        Seq::empty()
    } else {
        enrolled(troop_of(blocks.drop_last(), divide), ape_in(blocks.last(), divide)->0)
    }
}

/// The product of the divisors of the tests of all monkeys described.
pub open spec fn common_multiple(blocks: Seq<Seq<char>>, divide: bool) -> int
    decreases blocks.len(),
{
    if blocks.len() == 0 {
        1
    } else {
        common_multiple(blocks.drop_last(), divide) * ape_in(blocks.last(), divide)->0.divisible
    }
}

/// `input` describes monkeys, an empty line after each but the last, and
/// the product of the divisors of their tests fits in 64 bits up to each of
/// them.
pub open spec fn is_troop(input: Seq<char>, divide: bool) -> bool {
    let blocks = split(input, seq!['\n', '\n']);
    forall|i: int|
        0 <= i < blocks.len() ==> ape_in(#[trigger] blocks[i], divide) is Some && common_multiple(
            blocks.take(i + 1),
            divide,
        ) <= u64::MAX
}

/// Where the first `k` numbers are smaller than `num` and the next is not,
/// the place of `num` is `k`.
proof fn lemma_rank(nums: Seq<u8>, num: u8, k: int)
    requires
        0 <= k <= nums.len(),
        forall|i: int| 0 <= i < k ==> nums[i] < num,
        k < nums.len() ==> nums[k] >= num,
    ensures
        rank(nums, num) == k,
    decreases k,
{
    if k > 0 {
        assert forall|i: int| 0 <= i < k - 1 implies nums.skip(1)[i] < num by {
            assert(nums.skip(1)[i] == nums[i + 1]);
        }
        if k < nums.len() {
            assert(nums.skip(1)[k - 1] == nums[k]);
        }
        lemma_rank(nums.skip(1), num, k - 1);
    }
}

impl MonkeyThrower {
    /// Lets a monkey join the troop.
    fn enroll(&mut self, monkey: Monkey)
        requires
            old(self).wf(),
        ensures
            final(self).wf(),
            final(self).troop() == enrolled(old(self).troop(), monkey@),
            final(self).lcm == old(self).lcm,
    {
        let ghost troop = self.troop();
        let ghost nums = roster(troop);
        let mut k: usize = 0;
        while k < self.monkeys.len() && self.monkeys[k].num < monkey.num
            invariant
                k <= self.monkeys.len(),
                troop == self.troop(),
                nums == roster(troop),
                forall|i: int| 0 <= i < k ==> nums[i] < monkey.num,
            decreases self.monkeys.len() - k,
        {
            assert(nums[k as int] == self.monkeys@[k as int].num);
            k += 1;
        }
        proof {
            if k < self.monkeys.len() {
                assert(nums[k as int] == self.monkeys@[k as int].num);
            }
            lemma_rank(nums, monkey.num, k as int);
        }
        let ghost a = monkey@;
        if k < self.monkeys.len() && self.monkeys[k].num == monkey.num {
            self.monkeys.set(k, monkey);
            proof {
                assert(self.troop() =~= troop.update(k as int, a));
                assert forall|i: int, j: int| 0 <= i < j < self.troop().len() implies roster(
                    self.troop(),
                )[i] < roster(self.troop())[j] by {
                    assert(nums[i] < nums[j]);
                }
            }
        } else {
            self.monkeys.insert(k, monkey);
            proof {
                assert(self.troop() =~= troop.insert(k as int, a));
                assert forall|i: int, j: int| 0 <= i < j < self.troop().len() implies roster(
                    self.troop(),
                )[i] < roster(self.troop())[j] by {
                    let p = |x: int|
                        if x < k {
                            x
                        } else {
                            x - 1
                        };
                    assert(roster(self.troop())[i] == self.troop()[i].num);
                    assert(roster(self.troop())[j] == self.troop()[j].num);
                    if i != k && j != k {
                        assert(nums[p(i)] < nums[p(j)]);
                    } else if i == k {
                        assert(nums[k as int] == troop[k as int].num);
                        assert(nums[k as int] > a.num);
                        if j - 1 > k {
                            assert(nums[k as int] < nums[j - 1]);
                        }
                    } else {
                        assert(nums[i] < a.num);
                    }
                }
            }
        }
    }

    /// The troop that `input` describes; `None` where it describes none.
    pub fn try_new(input: &str, worry_level_divide: bool) -> (r: Option<MonkeyThrower>)
        ensures
            r is Some <==> is_troop(input@, worry_level_divide),
            r matches Some(thrower) ==> thrower.is_fresh(input@, worry_level_divide),
    {
        let text = chars_of(input);
        let mut gap: Vec<char> = Vec::new();
        gap.push('\n');
        gap.push('\n');
        assert(gap@ =~= seq!['\n', '\n']);
        let blocks = split_on(&text, &gap);
        let ghost all = split(input@, seq!['\n', '\n']);
        let mut lcm: u64 = 1;
        let mut i: usize = 0;
        assert(all.take(0) =~= Seq::<Seq<char>>::empty());
        while i < blocks.len()
            invariant
                i <= blocks.len(),
                all == rows(blocks@),
                all == split(input@, seq!['\n', '\n']),
                lcm == common_multiple(all.take(i as int), worry_level_divide),
                forall|k: int|
                    0 <= k < i ==> ape_in(#[trigger] all[k], worry_level_divide) is Some
                        && common_multiple(all.take(k + 1), worry_level_divide) <= u64::MAX,
            decreases blocks.len() - i,
        {
            assert(all[i as int] == blocks@[i as int]@);
            assert(all.take(i + 1).drop_last() =~= all.take(i as int));
            assert(all.take(i + 1).last() == all[i as int]);
            let block = string_of(&blocks[i]);
            let monkey = match Monkey::try_new(block.as_str(), worry_level_divide) {
                None => {
                    return None;
                },
                Some(m) => m,
            };
            let d = monkey.divisible as u64;
            let fits = d == 0 || lcm <= u64::MAX / d;
            assert(fits == (lcm * d <= u64::MAX)) by (nonlinear_arith)
                requires
                    fits == (d == 0 || lcm <= u64::MAX / d),
                    0 <= lcm,
                    0 <= d,
            ;
            if !fits {
                assert(common_multiple(all.take(i + 1), worry_level_divide) > u64::MAX);
                return None;
            }
            lcm = lcm * d;
            i += 1;
        }
        Some(MonkeyThrower::new(input, worry_level_divide))
    }

    /// This is the troop that `new` makes of `input`.
    pub open spec fn is_fresh(self, input: Seq<char>, divide: bool) -> bool {
        &&& self.wf()
        &&& self.troop() == troop_of(split(input, seq!['\n', '\n']), divide)
        &&& self.lcm == common_multiple(split(input, seq!['\n', '\n']), divide)
    }

    /// The troop that `input` describes.
    pub fn new(input: &str, worry_level_divide: bool) -> (thrower: MonkeyThrower)
        requires
            is_troop(input@, worry_level_divide),
        ensures
            thrower.is_fresh(input@, worry_level_divide),
    {
        let text = chars_of(input);
        let mut gap: Vec<char> = Vec::new();
        gap.push('\n');
        gap.push('\n');
        assert(gap@ =~= seq!['\n', '\n']);
        let blocks = split_on(&text, &gap);
        let ghost all = split(input@, seq!['\n', '\n']);
        let mut thrower = MonkeyThrower { monkeys: Vec::new(), lcm: 1 };
        let mut i: usize = 0;
        assert(all.take(0) =~= Seq::<Seq<char>>::empty());
        assert(thrower.troop() =~= Seq::<Ape>::empty());
        while i < blocks.len()
            invariant
                i <= blocks.len(),
                all == rows(blocks@),
                all == split(input@, seq!['\n', '\n']),
                is_troop(input@, worry_level_divide),
                thrower.wf(),
                thrower.troop() == troop_of(all.take(i as int), worry_level_divide),
                thrower.lcm == common_multiple(all.take(i as int), worry_level_divide),
            decreases blocks.len() - i,
        {
            assert(all[i as int] == blocks@[i as int]@);
            assert(all.take(i + 1).drop_last() =~= all.take(i as int));
            assert(all.take(i + 1).last() == all[i as int]);
            assert(common_multiple(all.take(i + 1), worry_level_divide) <= u64::MAX);
            let block = string_of(&blocks[i]);
            let monkey = Monkey::new(block.as_str(), worry_level_divide);
            assert(thrower.lcm * monkey.divisible == common_multiple(
                all.take(i + 1),
                worry_level_divide,
            ));
            thrower.lcm = thrower.lcm * monkey.divisible as u64;
            thrower.enroll(monkey);
            i += 1;
        }
        assert(all.take(i as int) =~= all);
        thrower
    }
}

/// What the monkey business of `input` comes to after `round_num` rounds;
/// `None` where `input` describes no troop, a turn cannot be taken, there
/// are fewer than two monkeys, or the product does not fit in 64 bits.
pub open spec fn business(input: Seq<char>, divide: bool, round_num: int) -> Option<int> {
    let blocks = split(input, seq!['\n', '\n']);
    let troop = troop_of(blocks, divide);
    let lcm = common_multiple(blocks, divide) as u64;
    let after = rounds(troop, round_num, lcm);
    if is_troop(input, divide) && can_run(troop, round_num, lcm) && after.len() >= 2 && exists|
        a: u64,
        b: u64,
    | #[trigger]
        is_top_two(inspections(after), a, b) && a * b <= u64::MAX {
        let (a, b) = choose|a: u64, b: u64| #[trigger]
            is_top_two(inspections(after), a, b) && a * b <= u64::MAX;
        Some(a * b)
    } else {
        None
    }
}

/// The greatest two numbers of a sequence are the same however they are
/// picked.
proof fn lemma_top_two_unique(s: Seq<u64>, a: u64, b: u64, c: u64, d: u64)
    requires
        is_top_two(s, a, b),
        is_top_two(s, c, d),
    ensures
        a == c && b == d,
{
    let (i, j) = choose|i: int, j: int|
        0 <= i < s.len() && 0 <= j < s.len() && i != j && #[trigger] s[i] == a && #[trigger] s[j]
            == b && a >= b && forall|k: int| 0 <= k < s.len() && k != i ==> s[k] <= b;
    let (p, q) = choose|p: int, q: int|
        0 <= p < s.len() && 0 <= q < s.len() && p != q && #[trigger] s[p] == c && #[trigger] s[q]
            == d && c >= d && forall|k: int| 0 <= k < s.len() && k != p ==> s[k] <= d;
    if i != p {
        assert(s[i] <= d);
        assert(s[p] <= b);
    }
    if j != p {
        assert(s[j] <= d);
    }
    if q != i {
        assert(s[q] <= b);
    }
}

/// Plays the rounds and works out the monkey business.
fn monkey_business(input: &str, worry_level_divide: bool, round_num: u32) -> (r: Option<u64>)
    ensures
        match r {
            Some(score) => business(input@, worry_level_divide, round_num as int) == Some(
                score as int,
            ),
            None => business(input@, worry_level_divide, round_num as int) is None,
        },
{
    let mut monkey_thrower = match MonkeyThrower::try_new(input, worry_level_divide) {
        None => {
            return None;
        },
        Some(t) => t,
    };
    if !monkey_thrower.try_run(round_num) {
        return None;
    }
    if monkey_thrower.monkeys.len() < 2 {
        return None;
    }
    let ghost after = monkey_thrower.troop();
    let (best, next) = monkey_thrower.top_two();
    if best != 0 && next > u64::MAX / best {
        proof {
            assert(best * next > u64::MAX) by (nonlinear_arith)
                requires
                    best != 0,
                    next > u64::MAX / best,
            ;
            if exists|a: u64, b: u64| #[trigger]
                is_top_two(inspections(after), a, b) && a * b <= u64::MAX {
                let (a, b) = choose|a: u64, b: u64| #[trigger]
                    is_top_two(inspections(after), a, b) && a * b <= u64::MAX;
                lemma_top_two_unique(inspections(after), a, b, best, next);
            }
        }
        return None;
    }
    proof {
        assert(best * next <= u64::MAX) by (nonlinear_arith)
            requires
                best == 0 || next <= u64::MAX / best,
                0 <= best,
                0 <= next,
        ;
        let (a, b) = choose|a: u64, b: u64| #[trigger]
            is_top_two(inspections(after), a, b) && a * b <= u64::MAX;
        lemma_top_two_unique(inspections(after), a, b, best, next);
    }
    Some(best * next)
}

impl DayEleven {
    /// Both answers; `None` where one of them is not defined.
    pub fn solve(&self, input: &str) -> (r: Option<(String, String)>)
        ensures
            r is Some <==> business(input@, true, 20) is Some && business(input@, false, 10000)
                is Some,
            r matches Some(answers) ==> answers.0@ == "Monkey business: "@ + decimal(
                business(input@, true, 20)->0 as nat,
            ) && answers.1@ == "Monkey business: "@ + decimal(
                business(input@, false, 10000)->0 as nat,
            ),
    {
        if monkey_business(input, true, 20).is_some() && monkey_business(input, false, 10000).is_some() {
            Some((self.part_one(input), self.part_two(input)))
        } else {
            None
        }
    }

    /// Reports the monkey business after 20 rounds with relief.
    pub fn part_one(&self, input: &str) -> (out: String)
        requires
            business(input@, true, 20) is Some,
        ensures
            out@ == "Monkey business: "@ + decimal(business(input@, true, 20)->0 as nat),
    {
        let score = monkey_business(input, true, 20).unwrap();
        labelled_number("Monkey business: ", score)
    }

    /// Reports the monkey business after 10000 rounds without relief.
    pub fn part_two(&self, input: &str) -> (out: String)
        requires
            business(input@, false, 10000) is Some,
        ensures
            out@ == "Monkey business: "@ + decimal(business(input@, false, 10000)->0 as nat),
    {
        let score = monkey_business(input, false, 10000).unwrap();
        labelled_number("Monkey business: ", score)
    }
}

} // verus!
