use crate::pattern::{captures, group_texts, regex_captures};
use crate::text::{
    chars_of, labelled, one_char, parse_u64, parse_within, rows, split, split_on, string_of, trim,
    trimmed,
};
use vstd::prelude::*;

verus! {

pub struct DayFive {}

/// Whether a crane sets down the crates it lifts one by one or all at once.
#[derive(Clone, Copy, PartialEq, Eq, Debug)]
pub enum Stacking {
    /// One by one: the crate lifted last comes to lie lowest.
    Lifo,
    /// All at once: the crates keep their order.
    Fifo,
}

/// An order to move `count` crates from the top of stack `from` to the top of
/// stack `to`; stacks are counted from zero.
pub struct Instruction {
    pub count: usize,
    pub from: usize,
    pub to: usize,
}

/// Stacks of crates, each from the bottom up.
pub struct Crates {
    pub crates: Vec<Vec<char>>,
    pub ordering: Stacking,
}

/// The regular expression of an order: the word move, the number of crates,
/// and the stacks from and to, counted from one.
pub open spec fn move_pattern() -> Seq<char> {
    r"^\s*move\s(?P<count>[0-9]+)\sfrom\s(?P<from>[0-9]+)\sto\s(?P<to>[0-9]+)\s*$"@
}

/// The order that the three capture groups of a match write: three numbers
/// that fit in a machine word, the stacks not zero. `None` where there is no
/// match or a number does not qualify.
pub open spec fn order_of(groups: Option<Seq<Option<Seq<char>>>>) -> Option<(int, int, int)> {
    match groups {
        Some(g) => if g.len() == 4 && g[1] is Some && g[2] is Some && g[3] is Some {
            match (
                parse_within(g[1]->0, false, 0, usize::MAX as int),
                parse_within(g[2]->0, false, 1, usize::MAX as int),
                parse_within(g[3]->0, false, 1, usize::MAX as int),
            ) {
                (Some(count), Some(from), Some(to)) => Some((count, from - 1, to - 1)),
                _ => None,
            }
        } else {
            None
        },
        None => None,
    }
}

/// The order that `line` writes, white space around it aside.
pub open spec fn order_in(line: Seq<char>) -> Option<(int, int, int)> {
    order_of(regex_captures(move_pattern(), trimmed(line)))
}

/// Parses a number that fits in a machine word and is at least `least`.
fn parse_index(text: &String, least: usize) -> (r: Option<usize>)
    ensures
        match r {
            Some(x) => parse_within(text@, false, least as int, usize::MAX as int) == Some(x as int),
            None => parse_within(text@, false, least as int, usize::MAX as int) is None,
        },
{
    match parse_u64(&chars_of(text.as_str())) {
        None => None,
        Some(x) => if x <= usize::MAX as u64 && x >= least as u64 {
            Some(x as usize)
        } else {
            None
        },
    }
}

impl Instruction {
    /// The order that this value holds.
    pub open spec fn view(self) -> (int, int, int) {
        (self.count as int, self.from as int, self.to as int)
    }

    /// The order that the capture groups of a match write.
    pub fn from_captures(groups: &Option<Vec<Option<String>>>) -> (r: Option<Instruction>)
        ensures
            match r {
                Some(ins) => order_of(group_texts(*groups)) == Some(ins.view()),
                None => order_of(group_texts(*groups)) is None,
            },
    {
        match groups {
            None => None,
            Some(g) => {
                if g.len() != 4 {
                    return None;
                }
                let ghost texts = group_texts(*groups)->0;
                assert(texts[1] == (match g@[1] {
                    Some(s) => Some(s@),
                    None => None,
                }));
                assert(texts[2] == (match g@[2] {
                    Some(s) => Some(s@),
                    None => None,
                }));
                assert(texts[3] == (match g@[3] {
                    Some(s) => Some(s@),
                    None => None,
                }));
                match (&g[1], &g[2], &g[3]) {
                    (Some(count), Some(from), Some(to)) => {
                        match (parse_index(count, 0), parse_index(from, 1), parse_index(to, 1)) {
                            (Some(count), Some(from), Some(to)) => Some(
                                Instruction { count, from: from - 1, to: to - 1 },
                            ),
                            _ => None,
                        }
                    },
                    _ => None,
                }
            },
        }
    }

    /// The order that `instruction` writes; `None` where it writes none.
    pub fn try_new(instruction: &str) -> (r: Option<Instruction>)
        ensures
            match r {
                Some(ins) => order_in(instruction@) == Some(ins.view()),
                None => order_in(instruction@) is None,
            },
    {
        let line = string_of(&trim(&chars_of(instruction)));
        let groups = captures(
            r"^\s*move\s(?P<count>[0-9]+)\sfrom\s(?P<from>[0-9]+)\sto\s(?P<to>[0-9]+)\s*$",
            line.as_str(),
        );
        match Instruction::from_captures(&groups) {
            None => None,
            Some(_) => Some(Instruction::new(instruction)),
        }
    }

    /// The order that `instruction` writes.
    pub fn new(instruction: &str) -> (ins: Instruction)
        requires
            order_in(instruction@) is Some,
        ensures
            order_in(instruction@) == Some(ins.view()),
    {
        let line = string_of(&trim(&chars_of(instruction)));
        let groups = captures(
            r"^\s*move\s(?P<count>[0-9]+)\sfrom\s(?P<from>[0-9]+)\sto\s(?P<to>[0-9]+)\s*$",
            line.as_str(),
        );
        Instruction::from_captures(&groups).unwrap()
    }
}

/// The crates of column `j` in the `k` lowest rows of a drawing, from the
/// bottom up. The last row of a drawing numbers the stacks; a crate of
/// stack `j` is drawn at position `1 + 4 * j` of its row, a blank there
/// means that the stack does not reach so high.
pub open spec fn pile(drawing: Seq<Seq<char>>, j: int, k: int) -> Seq<char>
    decreases k,
{
    if k <= 0 {
        Seq::empty()
    } else {
        let lower = pile(drawing, j, k - 1);
        let x = drawing[drawing.len() - 1 - k][1 + 4 * j];
        if x != ' ' {
            lower.push(x)
        } else {
            lower
        }
    }
}

/// The number of stacks of a drawing: the numbers of its last row are set
/// three blanks apart.
pub open spec fn stack_count(drawing: Seq<Seq<char>>) -> int {
    split(trimmed(drawing.last()), seq![' ', ' ', ' ']).len() as int
}

/// Every row of crates is long enough to hold a crate of the last stack.
pub open spec fn is_drawing(input: Seq<char>) -> bool {
    let drawing = split(input, seq!['\n']);
    forall|i: int|
        0 <= i < drawing.len() - 1 ==> (#[trigger] drawing[i]).len() > 4 * (stack_count(drawing)
            - 1) + 1
}

/// The stacks that a drawing shows.
pub open spec fn stacks_of(input: Seq<char>) -> Seq<Seq<char>> {
    let drawing = split(input, seq!['\n']);
    Seq::new(stack_count(drawing) as nat, |j: int| pile(drawing, j, drawing.len() - 1))
}

/// Both stacks of the order exist, and the one to take from holds enough
/// crates.
pub open spec fn can_move(stacks: Seq<Seq<char>>, order: (int, int, int)) -> bool {
    &&& 0 <= order.1 < stacks.len()
    &&& 0 <= order.2 < stacks.len()
    &&& 0 <= order.0 <= stacks[order.1].len()
}

/// The stacks after an order has been carried out. Moving crates onto the
/// stack they come from changes nothing.
pub open spec fn moved(stacks: Seq<Seq<char>>, order: (int, int, int), ordering: Stacking) -> Seq<
    Seq<char>,
> {
    let (count, from, to) = order;
    if from == to {
        stacks
    } else {
        let source = stacks[from];
        let taken = source.skip(source.len() - count);
        stacks.update(from, source.take(source.len() - count)).update(
            to,
            stacks[to] + (match ordering {
                Stacking::Lifo => taken.reverse(),
                Stacking::Fifo => taken,
            }),
        )
    }
}

/// The top crate of every stack.
pub open spec fn tops(stacks: Seq<Seq<char>>) -> Seq<char> {
    Seq::new(stacks.len(), |j: int| stacks[j].last())
}

/// No stack is empty.
pub open spec fn none_empty(stacks: Seq<Seq<char>>) -> bool {
    forall|j: int| 0 <= j < stacks.len() ==> (#[trigger] stacks[j]).len() > 0
}

impl View for Crates {
    type V = Seq<Seq<char>>;

    open spec fn view(&self) -> Seq<Seq<char>> {
        rows(self.crates@)
    }
}

impl Crates {
    /// Reads the stacks off a drawing.
    pub fn new(input: &str, ordering: Stacking) -> (c: Crates)
        requires
            is_drawing(input@),
        ensures
            c@ == stacks_of(input@),
            c.ordering == ordering,
    {
        let text = chars_of(input);
        let lines = split_on(&text, &one_char('\n'));
        let ghost drawing = split(input@, seq!['\n']);
        let n = lines.len();
        assert(drawing[n - 1] == lines@[n - 1]@);
        let mut blanks: Vec<char> = Vec::new();
        blanks.push(' ');
        blanks.push(' ');
        blanks.push(' ');
        assert(blanks@ =~= seq![' ', ' ', ' ']);
        let count = split_on(&trim(&lines[n - 1]), &blanks).len();
        let mut crates: Vec<Vec<char>> = Vec::new();
        let mut j: usize = 0;
        while j < count
            invariant
                j <= count,
                crates.len() == j,
                forall|k: int| 0 <= k < j ==> (#[trigger] crates@[k])@ == Seq::<char>::empty(),
            decreases count - j,
        {
            crates.push(Vec::new());
            j += 1;
        }
        let mut i: usize = 1;
        while i < n
            invariant
                1 <= i <= n,
                n == lines.len(),
                drawing == rows(lines@),
                count == stack_count(drawing),
                is_drawing(input@),
                drawing == split(input@, seq!['\n']),
                crates.len() == count,
                forall|k: int| 0 <= k < count ==> (#[trigger] crates@[k])@ == pile(drawing, k, i - 1),
            decreases n - i,
        {
            let line = &lines[n - 1 - i];
            assert(drawing[n - 1 - i] == line@);
            let mut j: usize = 0;
            while j < count
                invariant
                    1 <= i < n,
                    n == lines.len(),
                    j <= count,
                    drawing == rows(lines@),
                    drawing[n - 1 - i] == line@,
                    line.len() > 4 * (count - 1) + 1,
                    crates.len() == count,
                    forall|k: int| 0 <= k < j ==> (#[trigger] crates@[k])@ == pile(drawing, k, i as int),
                    forall|k: int|
                        j <= k < count ==> (#[trigger] crates@[k])@ == pile(drawing, k, i - 1),
                decreases count - j,
            {
                let character = line[1 + 4 * j];
                if character != ' ' {
                    crates[j].push(character);
                }
                j += 1;
            }
            i += 1;
        }
        let c = Crates { crates, ordering };
        assert(c@ =~= stacks_of(input@));
        c
    }

    /// Takes the top crate off a stack.
    fn pop(&mut self, crate_index: usize) -> (top: char)
        requires
            crate_index < old(self)@.len(),
            old(self)@[crate_index as int].len() > 0,
        ensures
            top == old(self)@[crate_index as int].last(),
            final(self)@ == old(self)@.update(
                crate_index as int,
                old(self)@[crate_index as int].drop_last(),
            ),
            final(self).ordering == old(self).ordering,
    {
        let top = self.crates[crate_index].pop().unwrap();
        assert(self@ =~= old(self)@.update(
            crate_index as int,
            old(self)@[crate_index as int].drop_last(),
        ));
        top
    }

    /// Sets a crate on top of a stack.
    fn push(&mut self, crate_index: usize, element: char)
        requires
            crate_index < old(self)@.len(),
        ensures
            final(self)@ == old(self)@.update(
                crate_index as int,
                old(self)@[crate_index as int].push(element),
            ),
            final(self).ordering == old(self).ordering,
    {
        self.crates[crate_index].push(element);
        assert(self@ =~= old(self)@.update(
            crate_index as int,
            old(self)@[crate_index as int].push(element),
        ));
    }

    /// Moves the crates one by one.
    fn do_move_lifo(&mut self, instruction: Instruction)
        requires
            can_move(old(self)@, instruction.view()),
        ensures
            final(self)@ == moved(old(self)@, instruction.view(), Stacking::Lifo),
            final(self).ordering == old(self).ordering,
    {
        let ghost before = self@;
        let ghost source = before[instruction.from as int];
        let ghost target = before[instruction.to as int];
        let mut i: usize = 0;
        assert(source.take(source.len() - 0) =~= source);
        assert(target + source.skip(source.len() - 0).reverse() =~= target);
        assert(before.update(instruction.from as int, source) =~= before);
        assert(before.update(instruction.to as int, target) =~= before);
        while i < instruction.count
            invariant
                i <= instruction.count,
                can_move(before, instruction.view()),
                source == before[instruction.from as int],
                target == before[instruction.to as int],
                self.ordering == old(self).ordering,
                instruction.from == instruction.to ==> self@ == before,
                instruction.from != instruction.to ==> self@ == before.update(
                    instruction.from as int,
                    source.take(source.len() - i),
                ).update(
                    instruction.to as int,
                    target + source.skip(source.len() - i).reverse(),
                ),
            decreases instruction.count - i,
        {
            let ghost held = self@;
            let move_element = self.pop(instruction.from);
            self.push(instruction.to, move_element);
            proof {
                if instruction.from == instruction.to {
                    assert(held[instruction.from as int].drop_last().push(move_element)
                        =~= held[instruction.from as int]);
                    assert(self@ =~= before);
                } else {
                    assert(source.take(source.len() - i).drop_last() =~= source.take(
                        source.len() - (i + 1),
                    ));
                    assert((target + source.skip(source.len() - i).reverse()).push(move_element)
                        =~= target + source.skip(source.len() - (i + 1)).reverse());
                    assert(self@ =~= before.update(
                        instruction.from as int,
                        source.take(source.len() - (i + 1)),
                    ).update(
                        instruction.to as int,
                        target + source.skip(source.len() - (i + 1)).reverse(),
                    ));
                }
            }
            i += 1;
        }
    }

    /// Moves the crates all at once.
    fn do_move_fifo(&mut self, instruction: Instruction)
        requires
            can_move(old(self)@, instruction.view()),
        ensures
            final(self)@ == moved(old(self)@, instruction.view(), Stacking::Fifo),
            final(self).ordering == old(self).ordering,
    {
        let ghost before = self@;
        let ghost source = before[instruction.from as int];
        let ghost taken = source.skip(source.len() - instruction.count);
        let mut tmp_vec: Vec<char> = Vec::new();
        let mut i: usize = 0;
        assert(source.take(source.len() - 0) =~= source);
        assert(before.update(instruction.from as int, source) =~= before);
        while i < instruction.count
            invariant
                i <= instruction.count,
                can_move(before, instruction.view()),
                source == before[instruction.from as int],
                self.ordering == old(self).ordering,
                tmp_vec@ == source.skip(source.len() - i).reverse(),
                self@ == before.update(instruction.from as int, source.take(source.len() - i)),
            decreases instruction.count - i,
        {
            let top = self.pop(instruction.from);
            tmp_vec.push(top);
            proof {
                assert(source.take(source.len() - i).drop_last() =~= source.take(
                    source.len() - (i + 1),
                ));
                assert(tmp_vec@ =~= source.skip(source.len() - (i + 1)).reverse());
                assert(self@ =~= before.update(
                    instruction.from as int,
                    source.take(source.len() - (i + 1)),
                ));
            }
            i += 1;
        }
        let ghost lifted = self@;
        let ghost target = lifted[instruction.to as int];
        let mut i: usize = 0;
        assert(taken.reverse().take(instruction.count - 0) =~= tmp_vec@);
        assert(target + taken.take(0) =~= target);
        assert(lifted.update(instruction.to as int, target) =~= lifted);
        while i < instruction.count
            invariant
                i <= instruction.count,
                can_move(before, instruction.view()),
                taken.len() == instruction.count,
                lifted.len() == before.len(),
                target == lifted[instruction.to as int],
                self.ordering == old(self).ordering,
                tmp_vec@ == taken.reverse().take(instruction.count - i),
                self@ == lifted.update(instruction.to as int, target + taken.take(i as int)),
            decreases instruction.count - i,
        {
            let top = tmp_vec.pop().unwrap();
            self.push(instruction.to, top);
            proof {
                assert(top == taken[i as int]);
                assert(tmp_vec@ =~= taken.reverse().take(instruction.count - (i + 1)));
                assert((target + taken.take(i as int)).push(top) =~= target + taken.take(i + 1));
                assert(self@ =~= lifted.update(instruction.to as int, target + taken.take(i + 1)));
            }
            i += 1;
        }
        proof {
            assert(taken.take(instruction.count as int) =~= taken);
            if instruction.from == instruction.to {
                assert(source.take(source.len() - instruction.count) + taken =~= source);
                assert(self@ =~= before);
            } else {
                assert(self@ =~= moved(before, instruction.view(), Stacking::Fifo));
            }
        }
    }

    /// Carries out an order in the way of this crane.
    pub fn do_move(&mut self, instruction: Instruction)
        requires
            can_move(old(self)@, instruction.view()),
        ensures
            final(self)@ == moved(old(self)@, instruction.view(), old(self).ordering),
            final(self).ordering == old(self).ordering,
    {
        match self.ordering {
            Stacking::Lifo => self.do_move_lifo(instruction),
            Stacking::Fifo => self.do_move_fifo(instruction),
        }
    }

    /// The top crates of all stacks, from the first stack to the last.
    pub fn get_final_str(&self) -> (s: String)
        requires
            none_empty(self@),
        ensures
            s@ == tops(self@),
    {
        let mut result: Vec<char> = Vec::new();
        let mut j: usize = 0;
        while j < self.crates.len()
            invariant
                j <= self.crates.len(),
                none_empty(self@),
                result.len() == j,
                forall|k: int| 0 <= k < j ==> result@[k] == self@[k].last(),
            decreases self.crates.len() - j,
        {
            let c = &self.crates[j];
            assert(self@[j as int] == c@);
            result.push(c[c.len() - 1]);
            j += 1;
        }
        assert(result@ =~= tops(self@));
        string_of(&result)
    }
}

/// The stacks after the orders of `lines` have been carried out in order.
pub open spec fn carried_out(stacks: Seq<Seq<char>>, lines: Seq<Seq<char>>, ordering: Stacking) -> Seq<
    Seq<char>,
>
    decreases lines.len(),
{
    if lines.len() == 0 {
        stacks
    } else {
        moved(carried_out(stacks, lines.drop_last(), ordering), order_in(lines.last())->0, ordering)
    }
}

/// What a plan makes of its drawing: the top crates after all orders.
/// `None` where the input is no plan: a drawing, an empty line, and one order
/// per line, each of which can be carried out when its turn comes, and which
/// in the end leave no stack empty.
pub open spec fn outcome(input: Seq<char>, ordering: Stacking) -> Option<Seq<char>> {
    let parts = split(input, seq!['\n', '\n']);
    if parts.len() >= 2 && is_drawing(parts[0]) {
        let orders = split(parts[1], seq!['\n']);
        let stacks = stacks_of(parts[0]);
        if (forall|i: int|
            0 <= i < orders.len() ==> order_in(#[trigger] orders[i]) is Some && can_move(
                carried_out(stacks, orders.take(i), ordering),
                order_in(orders[i])->0,
            )) && none_empty(carried_out(stacks, orders, ordering)) {
            Some(tops(carried_out(stacks, orders, ordering)))
        } else {
            None
        }
    } else {
        None
    }
}

/// Whether every row of crates of the drawing is long enough.
fn check_drawing(input: &Vec<char>) -> (b: bool)
    ensures
        b == is_drawing(input@),
{
    let lines = split_on(input, &one_char('\n'));
    let ghost drawing = split(input@, seq!['\n']);
    let n = lines.len();
    assert(drawing[n - 1] == lines@[n - 1]@);
    let mut blanks: Vec<char> = Vec::new();
    blanks.push(' ');
    blanks.push(' ');
    blanks.push(' ');
    assert(blanks@ =~= seq![' ', ' ', ' ']);
    let count = split_on(&trim(&lines[n - 1]), &blanks).len();
    let mut i: usize = 0;
    while i < n - 1
        invariant
            i <= n - 1,
            n == lines.len(),
            drawing == rows(lines@),
            count == stack_count(drawing),
            count >= 1,
            drawing == split(input@, seq!['\n']),
            forall|k: int| 0 <= k < i ==> (#[trigger] drawing[k]).len() > 4 * (count - 1) + 1,
        decreases n - 1 - i,
    {
        assert(drawing[i as int] == lines@[i as int]@);
        if lines[i].len() < 2 || (lines[i].len() - 2) / 4 < count - 1 {
            assert(!(drawing[i as int].len() > 4 * (stack_count(drawing) - 1) + 1));
            return false;
        }
        i += 1;
    }
    true
}

/// Carries out a plan; `None` where the input is no plan.
fn get_final_crates(input: &str, ordering: Stacking) -> (r: Option<String>)
    ensures
        match r {
            Some(s) => outcome(input@, ordering) == Some(s@),
            None => outcome(input@, ordering) is None,
        },
{
    let text = chars_of(input);
    let mut gap: Vec<char> = Vec::new();
    gap.push('\n');
    gap.push('\n');
    assert(gap@ =~= seq!['\n', '\n']);
    let crates_instructions = split_on(&text, &gap);
    let ghost parts = split(input@, seq!['\n', '\n']);
    if crates_instructions.len() < 2 {
        return None;
    }
    assert(parts[0] == crates_instructions@[0]@);
    assert(parts[1] == crates_instructions@[1]@);
    if !check_drawing(&crates_instructions[0]) {
        return None;
    }
    let drawing = string_of(&crates_instructions[0]);
    let mut crates = Crates::new(drawing.as_str(), ordering);
    let lines = split_on(&crates_instructions[1], &one_char('\n'));
    let ghost orders = split(parts[1], seq!['\n']);
    let ghost stacks = stacks_of(parts[0]);
    let mut i: usize = 0;
    assert(orders.take(0) =~= Seq::<Seq<char>>::empty());
    while i < lines.len()
        invariant
            i <= lines.len(),
            orders == rows(lines@),
            crates.ordering == ordering,
            crates@ == carried_out(stacks, orders.take(i as int), ordering),
            parts == split(input@, seq!['\n', '\n']),
            parts.len() >= 2,
            is_drawing(parts[0]),
            orders == split(parts[1], seq!['\n']),
            stacks == stacks_of(parts[0]),
            forall|k: int|
                0 <= k < i ==> order_in(#[trigger] orders[k]) is Some && can_move(
                    carried_out(stacks, orders.take(k), ordering),
                    order_in(orders[k])->0,
                ),
        decreases lines.len() - i,
    {
        assert(orders[i as int] == lines@[i as int]@);
        assert(orders.take(i + 1).drop_last() =~= orders.take(i as int));
        assert(orders.take(i + 1).last() == orders[i as int]);
        let instruction_str = string_of(&lines[i]);
        let instruction = match Instruction::try_new(instruction_str.as_str()) {
            None => {
                return None;
            },
            Some(x) => x,
        };
        if !(instruction.from < crates.crates.len() && instruction.to < crates.crates.len()) {
            return None;
        }
        assert(crates@[instruction.from as int] == crates.crates@[instruction.from as int]@);
        if instruction.count > crates.crates[instruction.from].len() {
            return None;
        }
        crates.do_move(instruction);
        i += 1;
    }
    assert(orders.take(i as int) =~= orders);
    let mut j: usize = 0;
    while j < crates.crates.len()
        invariant
            j <= crates.crates.len(),
            forall|k: int| 0 <= k < j ==> (#[trigger] crates@[k]).len() > 0,
            crates@ == carried_out(stacks, orders, ordering),
            parts == split(input@, seq!['\n', '\n']),
            parts.len() >= 2,
            is_drawing(parts[0]),
            orders == split(parts[1], seq!['\n']),
            stacks == stacks_of(parts[0]),
            forall|k: int|
                0 <= k < orders.len() ==> order_in(#[trigger] orders[k]) is Some && can_move(
                    carried_out(stacks, orders.take(k), ordering),
                    order_in(orders[k])->0,
                ),
        decreases crates.crates.len() - j,
    {
        assert(crates@[j as int] == crates.crates@[j as int]@);
        if crates.crates[j].len() == 0 {
            return None;
        }
        j += 1;
    }
    Some(crates.get_final_str())
}

impl DayFive {
    /// Both answers; `None` where the input is no plan for one of the cranes.
    pub fn solve(&self, input: &str) -> (r: Option<(String, String)>)
        ensures
            match r {
                Some(answers) => outcome(input@, Stacking::Lifo) is Some && outcome(
                    input@,
                    Stacking::Fifo,
                ) is Some && answers.0@ == "Top of the crates at finish: "@ + outcome(
                    input@,
                    Stacking::Lifo,
                )->0 && answers.1@ == "Top of the crates at finish: "@ + outcome(
                    input@,
                    Stacking::Fifo,
                )->0,
                None => outcome(input@, Stacking::Lifo) is None || outcome(input@, Stacking::Fifo)
                    is None,
            },
    {
        if get_final_crates(input, Stacking::Lifo).is_some() && get_final_crates(
            input,
            Stacking::Fifo,
        ).is_some() {
            Some((self.part_one(input), self.part_two(input)))
        } else {
            None
        }
    }

    /// Reports the top crates after a crane that moves crates one by one has
    /// carried out the plan.
    pub fn part_one(&self, input: &str) -> (out: String)
        requires
            outcome(input@, Stacking::Lifo) is Some,
        ensures
            out@ == "Top of the crates at finish: "@ + outcome(input@, Stacking::Lifo)->0,
    {
        let final_crates = get_final_crates(input, Stacking::Lifo).unwrap();
        labelled("Top of the crates at finish: ", &chars_of(final_crates.as_str()))
    }

    /// Reports the top crates after a crane that moves crates all at once
    /// has carried out the plan.
    pub fn part_two(&self, input: &str) -> (out: String)
        requires
            outcome(input@, Stacking::Fifo) is Some,
        ensures
            out@ == "Top of the crates at finish: "@ + outcome(input@, Stacking::Fifo)->0,
    {
        let final_crates = get_final_crates(input, Stacking::Fifo).unwrap();
        labelled("Top of the crates at finish: ", &chars_of(final_crates.as_str()))
    }
}

} // verus!
