use crate::pattern::{captures, count_groups, group, group_count, group_text, group_texts, regex_captures};
use crate::text::{
    chars_of, decimal, is_text, labelled_number, lines, lines_of, parse_u64, parse_within, rows,
    same_chars, string_of, trim, trimmed,
};
use vstd::prelude::*;

verus! {

pub struct DayTwentyOne;

#[derive(Clone, Copy, PartialEq, Eq, Debug, Structural)]
pub enum Operation {
    Add,
    Subtract,
    Multiply,
    Divide,
}

/// A monkey that calls out a number, or the result of an operation on the
/// numbers of two other monkeys.
pub struct Monkey {
    name: Vec<char>,
    sum: Option<(Vec<char>, Vec<char>, Operation)>,
    number: Option<u64>,
}

/// The monkeys of a riddle, in the order of their lines.
pub struct Monkeys {
    monkeys: Vec<Monkey>,
}

/// What a monkey is, its names as sequences.
pub struct Job {
    pub name: Seq<char>,
    pub sum: Option<(Seq<char>, Seq<char>, Operation)>,
    pub number: Option<u64>,
}

impl View for Monkey {
    type V = Job;

    closed spec fn view(&self) -> Job {
        Job {
            name: self.name@,
            sum: match self.sum {
                Some((a, b, op)) => Some((a@, b@, op)),
                None => None,
            },
            number: self.number,
        }
    }
}

/// The place of the last monkey with that name; `None` where there is none.
pub open spec fn place_of(jobs: Seq<Job>, name: Seq<char>) -> Option<int>
    decreases jobs.len(),
{
    if jobs.len() == 0 {
        None
    } else if jobs.last().name == name {
        Some(jobs.len() - 1)
    } else {
        place_of(jobs.drop_last(), name)
    }
}

/// The result of the operation in 64 bits without a sign; `None` where it
/// has none.
pub open spec fn apply(op: Operation, a: int, b: int) -> Option<int> {
    match op {
        Operation::Add => if a + b <= u64::MAX {
            Some(a + b)
        } else {
            None
        },
        Operation::Subtract => if a >= b {
            Some(a - b)
        } else {
            None
        },
        Operation::Multiply => if a * b <= u64::MAX {
            Some(a * b)
        } else {
            None
        },
        Operation::Divide => if b != 0 {
            Some(a / b)
        } else {
            None
        },
    }
}

/// The number that the monkey `name` calls out, with operations nested no
/// deeper than `depth`; `None` where a monkey is missing or has neither
/// number nor operation, an operation has no result, or the nesting goes
/// deeper.
pub open spec fn value_of(jobs: Seq<Job>, name: Seq<char>, depth: nat) -> Option<int>
    decreases depth,
{
    if depth == 0 {
        None
    } else {
        match place_of(jobs, name) {
            None => None,
            Some(k) => match (jobs[k].number, jobs[k].sum) {
                (Some(x), _) => Some(x as int),
                (None, Some((a, b, op))) => match (
                    value_of(jobs, a, (depth - 1) as nat),
                    value_of(jobs, b, (depth - 1) as nat),
                ) {
                    (Some(x), Some(y)) => apply(op, x, y),
                    _ => None,
                },
                (None, None) => None,
            },
        }
    }
}

/// The name of the one whose number is asked for.
pub open spec fn human() -> Seq<char> {
    "humn"@
}

/// Whether the number of the monkey `name` depends on that of the human;
/// the second monkey of an operation is looked at only where the first does
/// not depend on it. `None` where a monkey is missing or has neither number
/// nor operation, or the nesting goes deeper than `depth`.
pub open spec fn depends_on_human(jobs: Seq<Job>, name: Seq<char>, depth: nat) -> Option<bool>
    decreases depth,
{
    if name == human() {
        Some(true)
    } else if depth == 0 {
        None
    } else {
        match place_of(jobs, name) {
            None => None,
            Some(k) => match (jobs[k].number, jobs[k].sum) {
                (Some(x), _) => Some(false),
                (None, Some((a, b, op))) => match depends_on_human(jobs, a, (depth - 1) as nat) {
                    None => None,
                    Some(true) => Some(true),
                    Some(false) => depends_on_human(jobs, b, (depth - 1) as nat),
                },
                (None, None) => None,
            },
        }
    }
}

/// What the first number of an operation has to be for the result to be
/// `equal` with the second number `b`.
pub open spec fn first_for(op: Operation, equal: int, b: int) -> Option<int> {
    match op {
        Operation::Add => apply(Operation::Subtract, equal, b),
        Operation::Subtract => apply(Operation::Add, equal, b),
        Operation::Multiply => apply(Operation::Divide, equal, b),
        Operation::Divide => apply(Operation::Multiply, equal, b),
    }
}

/// What the second number of an operation has to be for the result to be
/// `equal` with the first number `a`.
pub open spec fn second_for(op: Operation, equal: int, a: int) -> Option<int> {
    match op {
        Operation::Add => apply(Operation::Subtract, equal, a),
        Operation::Subtract => apply(Operation::Subtract, a, equal),
        Operation::Multiply => apply(Operation::Divide, equal, a),
        Operation::Divide => apply(Operation::Divide, a, equal),
    }
}

/// The number that the human has to call out for the monkey `name` to call
/// out `equal`; `None` where it cannot be worked out.
pub open spec fn human_value(jobs: Seq<Job>, equal: int, name: Seq<char>, depth: nat) -> Option<int>
    decreases depth,
{
    if name == human() {
        Some(equal)
    } else if depth == 0 {
        None
    } else {
        match place_of(jobs, name) {
            None => None,
            Some(k) => match jobs[k].sum {
                None => None,
                Some((a, b, op)) => match depends_on_human(jobs, a, jobs.len()) {
                    None => None,
                    Some(true) => match value_of(jobs, b, jobs.len()) {
                        None => None,
                        Some(y) => match first_for(op, equal, y) {
                            None => None,
                            Some(v) => human_value(jobs, v, a, (depth - 1) as nat),
                        },
                    },
                    Some(false) => match depends_on_human(jobs, b, jobs.len()) {
                        Some(true) => match value_of(jobs, a, jobs.len()) {
                            None => None,
                            Some(x) => match second_for(op, equal, x) {
                                None => None,
                                Some(v) => human_value(jobs, v, b, (depth - 1) as nat),
                            },
                        },
                        _ => None,
                    },
                },
            },
        }
    }
}

/// The number that the human has to call out for the two numbers of the
/// root to be equal.
pub open spec fn human_answer(jobs: Seq<Job>) -> Option<int> {
    match place_of(jobs, "root"@) {
        None => None,
        Some(k) => match jobs[k].sum {
            None => None,
            Some((a, b, op)) => match depends_on_human(jobs, a, jobs.len()) {
                None => None,
                Some(true) => match value_of(jobs, b, jobs.len()) {
                    None => None,
                    Some(y) => human_value(jobs, y, a, jobs.len()),
                },
                Some(false) => match depends_on_human(jobs, b, jobs.len()) {
                    Some(true) => match value_of(jobs, a, jobs.len()) {
                        None => None,
                        Some(x) => human_value(jobs, x, b, jobs.len()),
                    },
                    _ => None,
                },
            },
        },
    }
}

/// The result of the operation.
fn compute(op: Operation, a: u64, b: u64) -> (r: Option<u64>)
    ensures
        match r {
            Some(x) => apply(op, a as int, b as int) == Some(x as int),
            None => apply(op, a as int, b as int) is None,
        },
{
    match op {
        Operation::Add => if a <= u64::MAX - b {
            Some(a + b)
        } else {
            None
        },
        Operation::Subtract => if a >= b {
            Some(a - b)
        } else {
            None
        },
        Operation::Multiply => {
            let fits = b == 0 || a <= u64::MAX / b;
            assert(fits == (a * b <= u64::MAX)) by (nonlinear_arith)
                requires
                    fits == (b == 0 || a <= u64::MAX / b),
                    0 <= a,
                    0 <= b,
            ;
            if fits {
                Some(a * b)
            } else {
                None
            }
        },
        Operation::Divide => if b != 0 {
            Some(a / b)
        } else {
            None
        },
    }
}

impl Monkeys {
    /// The monkeys of the riddle.
    pub closed spec fn jobs(self) -> Seq<Job> {
        Seq::new(self.monkeys@.len(), |i: int| self.monkeys@[i]@)
    }

    /// The place of the last monkey with that name.
    fn find(&self, name: &Vec<char>) -> (r: Option<usize>)
        ensures
            match r {
                Some(k) => place_of(self.jobs(), name@) == Some(k as int) && k < self.monkeys.len(),
                None => place_of(self.jobs(), name@) is None,
            },
    {
        let ghost jobs = self.jobs();
        let mut k: usize = self.monkeys.len();
        assert(jobs.take(k as int) =~= jobs);
        while k > 0
            invariant
                k <= self.monkeys.len(),
                jobs == self.jobs(),
                place_of(jobs, name@) == place_of(jobs.take(k as int), name@),
            decreases k,
        {
            proof {
                assert(jobs.take(k as int).last() == self.monkeys@[k - 1]@);
                assert(jobs.take(k as int).drop_last() =~= jobs.take(k - 1));
            }
            if same_chars(&self.monkeys[k - 1].name, name) {
                return Some(k - 1);
            }
            k -= 1;
        }
        None
    }

    /// Whether the number of the monkey `name` depends on that of the human,
    /// with operations nested no deeper than `depth`.
    fn depends(&self, name: &Vec<char>, depth: usize) -> (r: Option<bool>)
        ensures
            r == depends_on_human(self.jobs(), name@, depth as nat),
        decreases depth,
    {
        if is_text(name, "humn") {
            return Some(true);
        }
        if depth == 0 {
            return None;
        }
        let k = match self.find(name) {
            None => {
                return None;
            },
            Some(k) => k,
        };
        let monkey = &self.monkeys[k];
        assert(self.jobs()[k as int] == monkey@);
        if monkey.number.is_some() {
            return Some(false);
        }
        match &monkey.sum {
            None => None,
            Some((a, b, _)) => match self.depends(a, depth - 1) {
                None => None,
                Some(true) => Some(true),
                Some(false) => self.depends(b, depth - 1),
            },
        }
    }

    /// The number that the monkey `name` calls out, with operations nested no
    /// deeper than `depth`.
    fn evaluate(&self, name: &Vec<char>, depth: usize) -> (r: Option<u64>)
        ensures
            match r {
                Some(x) => value_of(self.jobs(), name@, depth as nat) == Some(x as int),
                None => value_of(self.jobs(), name@, depth as nat) is None,
            },
        decreases depth,
    {
        if depth == 0 {
            return None;
        }
        let k = match self.find(name) {
            None => {
                return None;
            },
            Some(k) => k,
        };
        let monkey = &self.monkeys[k];
        assert(self.jobs()[k as int] == monkey@);
        if let Some(x) = monkey.number {
            return Some(x);
        }
        match &monkey.sum {
            None => None,
            Some((a, b, op)) => {
                let monkey_a = self.evaluate(a, depth - 1);
                let monkey_b = self.evaluate(b, depth - 1);
                match (monkey_a, monkey_b) {
                    (Some(x), Some(y)) => compute(*op, x, y),
                    _ => None,
                }
            },
        }
    }

    /// The number that the human has to call out for the monkey `name` to
    /// call out `equal`.
    fn solve_for(&self, equal: u64, name: &Vec<char>, depth: usize) -> (r: Option<u64>)
        ensures
            match r {
                Some(x) => human_value(self.jobs(), equal as int, name@, depth as nat) == Some(
                    x as int,
                ),
                None => human_value(self.jobs(), equal as int, name@, depth as nat) is None,
            },
        decreases depth,
    {
        if is_text(name, "humn") {
            return Some(equal);
        }
        if depth == 0 {
            return None;
        }
        let k = match self.find(name) {
            None => {
                return None;
            },
            Some(k) => k,
        };
        let monkey = &self.monkeys[k];
        assert(self.jobs()[k as int] == monkey@);
        let n = self.monkeys.len();
        match &monkey.sum {
            None => None,
            Some((a, b, op)) => match self.depends(a, n) {
                None => None,
                Some(true) => match self.evaluate(b, n) {
                    None => None,
                    Some(y) => {
                        let value = match op {
                            Operation::Add => compute(Operation::Subtract, equal, y),
                            Operation::Subtract => compute(Operation::Add, equal, y),
                            Operation::Multiply => compute(Operation::Divide, equal, y),
                            Operation::Divide => compute(Operation::Multiply, equal, y),
                        };
                        match value {
                            None => None,
                            Some(v) => self.solve_for(v, a, depth - 1),
                        }
                    },
                },
                Some(false) => match self.depends(b, n) {
                    Some(true) => match self.evaluate(a, n) {
                        None => None,
                        Some(x) => {
                            let value = match op {
                                Operation::Add => compute(Operation::Subtract, equal, x),
                                Operation::Subtract => compute(Operation::Subtract, x, equal),
                                Operation::Multiply => compute(Operation::Divide, equal, x),
                                Operation::Divide => compute(Operation::Divide, x, equal),
                            };
                            match value {
                                None => None,
                                Some(v) => self.solve_for(v, b, depth - 1),
                            }
                        },
                    },
                    _ => None,
                },
            },
        }
    }

    /// Whether the number of the monkey `name` depends on that of the
    /// human.
    pub fn contains_humn(&self, name: &Vec<char>) -> (b: bool)
        requires
            depends_on_human(self.jobs(), name@, self.jobs().len()) is Some,
        ensures
            depends_on_human(self.jobs(), name@, self.jobs().len()) == Some(b),
    {
        self.depends(name, self.monkeys.len()).unwrap()
    }

    /// The number that the human has to call out for the monkey `name` to
    /// call out `equal`.
    pub fn find_humn_value(&self, equal: u64, name: &Vec<char>) -> (x: u64)
        requires
            human_value(self.jobs(), equal as int, name@, self.jobs().len()) is Some,
        ensures
            human_value(self.jobs(), equal as int, name@, self.jobs().len()) == Some(x as int),
    {
        self.solve_for(equal, name, self.monkeys.len()).unwrap()
    }

    /// The number that the human has to call out for the two numbers of the
    /// root to be equal; `None` where it cannot be worked out.
    pub fn try_humn_root_equal(&self) -> (r: Option<u64>)
        ensures
            match r {
                Some(x) => human_answer(self.jobs()) == Some(x as int),
                None => human_answer(self.jobs()) is None,
            },
    {
        let root_name = chars_of("root");
        let k = match self.find(&root_name) {
            None => {
                return None;
            },
            Some(k) => k,
        };
        let root = &self.monkeys[k];
        assert(self.jobs()[k as int] == root@);
        let n = self.monkeys.len();
        match &root.sum {
            None => None,
            Some((a, b, _)) => match self.depends(a, n) {
                None => None,
                Some(true) => match self.evaluate(b, n) {
                    None => None,
                    Some(value) => self.solve_for(value, a, n),
                },
                Some(false) => match self.depends(b, n) {
                    Some(true) => match self.evaluate(a, n) {
                        None => None,
                        Some(value) => self.solve_for(value, b, n),
                    },
                    _ => None,
                },
            },
        }
    }

    /// The number that the human has to call out for the two numbers of the
    /// root to be equal.
    pub fn find_humn_root_equal(&self) -> (x: u64)
        requires
            human_answer(self.jobs()) is Some,
        ensures
            human_answer(self.jobs()) == Some(x as int),
    {
        self.try_humn_root_equal().unwrap()
    }

    /// The number that the monkey `name` calls out; `None` where it cannot be
    /// worked out.
    pub fn try_value(&self, name: &Vec<char>) -> (r: Option<u64>)
        ensures
            match r {
                Some(x) => value_of(self.jobs(), name@, self.jobs().len()) == Some(x as int),
                None => value_of(self.jobs(), name@, self.jobs().len()) is None,
            },
    {
        self.evaluate(name, self.monkeys.len())
    }

    /// The number that the monkey `name` calls out.
    pub fn get_value(&self, name: &Vec<char>) -> (x: u64)
        requires
            value_of(self.jobs(), name@, self.jobs().len()) is Some,
        ensures
            value_of(self.jobs(), name@, self.jobs().len()) == Some(x as int),
    {
        self.try_value(name).unwrap()
    }
}

/// The regular expression of a monkey's line: its name, and either two
/// names with a sign between them or a number.
pub open spec fn monkey_pattern() -> Seq<char> {
    r"^(?P<name>[a-z]+):\s(((?P<name1>[a-z]+)\s(?P<operator>[+\-*/])\s(?P<name2>[a-z]+))|(?P<number>[0-9]+))$"@
}

/// The operation that a sign names.
pub open spec fn operation_of(text: Option<Seq<char>>) -> Option<Operation> {
    match text {
        Some(t) => if t.len() != 1 {
            None
        } else if t[0] == '+' {
            Some(Operation::Add)
        } else if t[0] == '-' {
            Some(Operation::Subtract)
        } else if t[0] == '*' {
            Some(Operation::Multiply)
        } else if t[0] == '/' {
            Some(Operation::Divide)
        } else {
            None
        },
        None => None,
    }
}

/// The monkey that the capture groups of a match describe: one with a
/// number where the group of the number took part in the match, else one
/// with an operation.
pub open spec fn job_of(groups: Option<Seq<Option<Seq<char>>>>) -> Option<Job> {
    if group_count(groups) == 8 && group_text(groups, 1) is Some {
        let name = group_text(groups, 1)->0;
        match group_text(groups, 7) {
            Some(digits) => match parse_within(digits, false, 0, u64::MAX as int) {
                Some(x) => Some(Job { name, sum: None, number: Some(x as u64) }),
                None => None,
            },
            None => match (
                group_text(groups, 4),
                group_text(groups, 6),
                operation_of(group_text(groups, 5)),
            ) {
                (Some(a), Some(b), Some(op)) => Some(Job { name, sum: Some((a, b, op)), number: None }),
                _ => None,
            },
        }
    } else {
        None
    }
}

/// The monkey that `line` describes, white space around it aside.
pub open spec fn job_in(line: Seq<char>) -> Option<Job> {
    job_of(regex_captures(monkey_pattern(), trimmed(line)))
}

/// Every line of `input` describes a monkey.
pub open spec fn is_riddle(input: Seq<char>) -> bool {
    forall|i: int| 0 <= i < lines(input).len() ==> job_in(#[trigger] lines(input)[i]) is Some
}

/// The monkeys that `input` describes.
pub open spec fn jobs_of(input: Seq<char>) -> Seq<Job> {
    Seq::new(lines(input).len(), |i: int| job_in(lines(input)[i])->0)
}

impl Monkey {
    /// The monkey that the capture groups of a match describe.
    pub fn from_captures(groups: &Option<Vec<Option<String>>>) -> (r: Option<Monkey>)
        ensures
            match r {
                Some(m) => job_of(group_texts(*groups)) == Some(m@),
                None => job_of(group_texts(*groups)) is None,
            },
    {
        if count_groups(groups) != 8 {
            return None;
        }
        let name = match group(groups, 1) {
            None => {
                return None;
            },
            Some(n) => n,
        };
        if let Some(x) = group(groups, 7) {
            return match parse_u64(&x) {
                None => None,
                Some(number) => Some(Monkey { name, sum: None, number: Some(number) }),
            };
        }
        let operator = match group(groups, 5) {
            None => None,
            Some(sign) => if sign.len() != 1 {
                None
            } else if sign[0] == '+' {
                Some(Operation::Add)
            } else if sign[0] == '-' {
                Some(Operation::Subtract)
            } else if sign[0] == '*' {
                Some(Operation::Multiply)
            } else if sign[0] == '/' {
                Some(Operation::Divide)
            } else {
                None
            },
        };
        match (group(groups, 4), group(groups, 6), operator) {
            (Some(name1), Some(name2), Some(op)) => Some(
                Monkey { name, sum: Some((name1, name2, op)), number: None },
            ),
            _ => None,
        }
    }

    /// The monkey that `line` describes; `None` where it describes none.
    fn parse(line: &Vec<char>) -> (r: Option<Monkey>)
        ensures
            match r {
                Some(m) => job_in(line@) == Some(m@),
                None => job_in(line@) is None,
            },
    {
        let text = string_of(&trim(line));
        let groups = captures(
            r"^(?P<name>[a-z]+):\s(((?P<name1>[a-z]+)\s(?P<operator>[+\-*/])\s(?P<name2>[a-z]+))|(?P<number>[0-9]+))$",
            text.as_str(),
        );
        Monkey::from_captures(&groups)
    }
}

impl Monkeys {
    /// Reads the monkeys, one per line; `None` where a line describes none.
    fn read(input: &str) -> (r: Option<Monkeys>)
        ensures
            r is Some <==> is_riddle(input@),
            r matches Some(ms) ==> ms.jobs() == jobs_of(input@),
    {
        let text = chars_of(input);
        let ls = lines_of(&text);
        let ghost all = lines(input@);
        let mut monkeys: Vec<Monkey> = Vec::new();
        let mut i: usize = 0;
        while i < ls.len()
            invariant
                i <= ls.len(),
                all == rows(ls@),
                all == lines(input@),
                monkeys.len() == i,
                forall|k: int| 0 <= k < i ==> job_in(#[trigger] all[k]) is Some,
                forall|k: int| 0 <= k < i ==> (#[trigger] monkeys@[k])@ == job_in(all[k])->0,
            decreases ls.len() - i,
        {
            assert(all[i as int] == ls@[i as int]@);
            match Monkey::parse(&ls[i]) {
                None => {
                    return None;
                },
                Some(monkey) => {
                    monkeys.push(monkey);
                },
            }
            i += 1;
        }
        let ms = Monkeys { monkeys };
        assert(ms.jobs() =~= jobs_of(input@));
        Some(ms)
    }

    /// Reads the monkeys, one per line; `None` where a line describes none.
    pub fn try_new(input: &str) -> (r: Option<Monkeys>)
        ensures
            r is Some <==> is_riddle(input@),
            r matches Some(ms) ==> ms.jobs() == jobs_of(input@),
    {
        match Monkeys::read(input) {
            None => None,
            Some(_) => Some(Monkeys::new(input)),
        }
    }

    /// Reads the monkeys, one per line.
    pub fn new(input: &str) -> (ms: Monkeys)
        requires
            is_riddle(input@),
        ensures
            ms.jobs() == jobs_of(input@),
    {
        Monkeys::read(input).unwrap()
    }
}

/// The number that the root calls out; `None` where it cannot be worked
/// out.
pub open spec fn root_number(input: Seq<char>) -> Option<int> {
    if is_riddle(input) {
        value_of(jobs_of(input), "root"@, jobs_of(input).len())
    } else {
        None
    }
}

/// The number that the human has to call out; `None` where it cannot be
/// worked out.
pub open spec fn human_number(input: Seq<char>) -> Option<int> {
    if is_riddle(input) {
        human_answer(jobs_of(input))
    } else {
        None
    }
}

/// Works out the number of the root.
fn work_out_root(input: &str) -> (r: Option<u64>)
    ensures
        match r {
            Some(n) => root_number(input@) == Some(n as int),
            None => root_number(input@) is None,
        },
{
    match Monkeys::try_new(input) {
        None => None,
        Some(monkeys) => monkeys.try_value(&chars_of("root")),
    }
}

/// Works out the number of the human.
fn work_out_human(input: &str) -> (r: Option<u64>)
    ensures
        match r {
            Some(n) => human_number(input@) == Some(n as int),
            None => human_number(input@) is None,
        },
{
    match Monkeys::try_new(input) {
        None => None,
        Some(monkeys) => monkeys.try_humn_root_equal(),
    }
}

impl DayTwentyOne {
    /// Both answers; `None` where one of them cannot be worked out.
    pub fn solve(&self, input: &str) -> (r: Option<(String, String)>)
        ensures
            r is Some <==> root_number(input@) is Some && human_number(input@) is Some,
            r matches Some(answers) ==> answers.0@ == "Root number: "@ + decimal(
                root_number(input@)->0 as nat,
            ) && answers.1@ == "humn number: "@ + decimal(human_number(input@)->0 as nat),
    {
        if work_out_root(input).is_some() && work_out_human(input).is_some() {
            Some((self.part_one(input), self.part_two(input)))
        } else {
            None
        }
    }

    /// Reports the number that the root calls out.
    pub fn part_one(&self, input: &str) -> (out: String)
        requires
            root_number(input@) is Some,
        ensures
            out@ == "Root number: "@ + decimal(root_number(input@)->0 as nat),
    {
        let root = work_out_root(input).unwrap();
        labelled_number("Root number: ", root)
    }

    /// Reports the number that the human has to call out.
    pub fn part_two(&self, input: &str) -> (out: String)
        requires
            human_number(input@) is Some,
        ensures
            out@ == "humn number: "@ + decimal(human_number(input@)->0 as nat),
    {
        let humn = work_out_human(input).unwrap();
        labelled_number("humn number: ", humn)
    }
}

} // verus!
