use crate::text::{
    chars_of, decimal_int, is_text, labelled, labelled_int, lines, lines_of, parse_i64,
    parse_within, rows, slice_of, starts_with,
};
use vstd::prelude::*;

verus! {

pub struct DayTen {}

/// A processor with one register and the display that it drives.
pub struct CathodeRay {
    sum: i32,
    cycle_count: u32,
    register: i32,
    render_buf: String,
}

/// The state of the device: the sum of the signal strengths sampled so far,
/// the number of the cycle that is about to run, the register, and what has
/// been drawn.
pub struct Crt {
    pub sum: int,
    pub cycle: int,
    pub register: int,
    pub display: Seq<char>,
}

impl View for CathodeRay {
    type V = Crt;

    closed spec fn view(&self) -> Crt {
        Crt {
            sum: self.sum as int,
            cycle: self.cycle_count as int,
            register: self.register as int,
            display: self.render_buf@,
        }
    }
}

/// The pixel drawn in a cycle: lit where the sprite, three pixels wide around
/// the register, covers the position of the beam in its row of forty.
pub open spec fn pixel(c: Crt) -> char {
    let d = (c.cycle - 1) % 40 - c.register;
    if -1 <= d <= 1 {
        '#'
    } else {
        '.'
    }
}

/// The display after the pixel of this cycle has been drawn; a row ends
/// after every fortieth cycle.
pub open spec fn rendered(c: Crt) -> Seq<char> {
    if c.cycle % 40 == 0 {
        c.display.push(pixel(c)).push('\n')
    } else {
        c.display.push(pixel(c))
    }
}

/// The state after one cycle, at whose end `add` is added to the register.
/// The signal strength, register times cycle number, is sampled on entering
/// the cycles 20, 60, 100 and so on.
pub open spec fn ticked(c: Crt, add: Option<int>) -> Crt {
    let cycle = c.cycle + 1;
    let register = c.register + (match add {
        Some(x) => x,
        None => 0,
    });
    Crt {
        sum: if cycle % 40 == 20 {
            c.sum + register * cycle
        } else {
            c.sum
        },
        cycle,
        register,
        display: rendered(c),
    }
}

/// `x` fits in 32 bits with a sign.
pub open spec fn fits_i32(x: int) -> bool {
    i32::MIN <= x <= i32::MAX
}

/// Every number that one cycle computes fits in 32 bits.
pub open spec fn tick_fits(c: Crt, add: Option<int>) -> bool {
    let next = ticked(c, add);
    &&& 1 <= c.cycle < i32::MAX
    &&& i32::MIN < (c.cycle - 1) % 40 - c.register <= i32::MAX
    &&& fits_i32(next.register)
    &&& next.cycle % 40 == 20 ==> fits_i32(next.register * next.cycle) && fits_i32(next.sum)
}

/// What a line asks for: nothing, or a number to add. An addition is written
/// as `addx`, one more character of one byte, and the number. `None` for any
/// other line.
pub open spec fn instruction(line: Seq<char>) -> Option<Option<int>> {
    if line == "noop"@ {
        Some(None)
    } else if starts_with(line, "addx"@) && line.len() >= 5 && line[4] as u32 <= 0x7f {
        match parse_within(line.skip(5), true, i32::MIN as int, i32::MAX as int) {
            Some(x) => Some(Some(x)),
            None => None,
        }
    } else {
        None
    }
}

/// The state after the instruction of `line`: one idle cycle, or one idle
/// cycle and one that adds.
pub open spec fn executed(c: Crt, line: Seq<char>) -> Crt {
    match instruction(line)->0 {
        None => ticked(c, None),
        Some(x) => ticked(ticked(c, None), Some(x)),
    }
}

/// `line` holds an instruction, and carrying it out stays within 32 bits.
pub open spec fn executable(c: Crt, line: Seq<char>) -> bool {
    match instruction(line) {
        None => false,
        Some(None) => tick_fits(c, None),
        Some(Some(x)) => tick_fits(c, None) && tick_fits(ticked(c, None), Some(x)),
    }
}

/// The state after the instructions of `lines`, in order.
pub open spec fn run(c: Crt, lines: Seq<Seq<char>>) -> Crt
    decreases lines.len(),
{
    if lines.len() == 0 {
        c
    } else {
        executed(run(c, lines.drop_last()), lines.last())
    }
}

/// Every line can be carried out in the state that the lines before it lead
/// to.
pub open spec fn runnable(c: Crt, lines: Seq<Seq<char>>) -> bool {
    runnable_up_to(c, lines, lines.len() as int)
}

/// Line `k` can be carried out in the state that the lines before it lead to.
pub open spec fn executable_at(c: Crt, lines: Seq<Seq<char>>, k: int) -> bool {
    executable(run(c, lines.take(k)), lines[k])
}

/// Each of the first `i` lines can be carried out in the state that the
/// lines before it lead to.
pub open spec fn runnable_up_to(c: Crt, lines: Seq<Seq<char>>, i: int) -> bool {
    forall|k: int| 0 <= k < i ==> #[trigger] executable_at(c, lines, k)
}

/// The state after one line more is the one that the line leads to.
proof fn lemma_run_next(c: Crt, lines: Seq<Seq<char>>, i: int)
    requires
        0 <= i < lines.len(),
    ensures
        run(c, lines.take(i + 1)) == executed(run(c, lines.take(i)), lines[i]),
{
    assert(lines.take(i + 1).drop_last() =~= lines.take(i));
    assert(lines.take(i + 1).last() == lines[i]);
}

/// The state of a device that has not run yet.
pub open spec fn initial() -> Crt {
    Crt { sum: 0, cycle: 1, register: 1, display: Seq::empty() }
}

impl CathodeRay {
    /// What has been drawn so far.
    pub fn print_display(&self) -> (display: &String)
        ensures
            display@ == self@.display,
    {
        return &self.render_buf
    }

    /// Draws the pixel of the cycle.
    fn render(&mut self)
        requires
            1 <= old(self)@.cycle <= i32::MAX,
            i32::MIN < (old(self)@.cycle - 1) % 40 - old(self)@.register <= i32::MAX,
        ensures
            final(self)@ == (Crt { display: rendered(old(self)@), ..old(self)@ }),
    {
        let pixel_position = self.cycle_count as i32 - 1;
        let d = pixel_position % 40 - self.register;
        if -1 <= d && d <= 1 {
            self.render_buf.push('#');
        } else {
            self.render_buf.push('.');
        }
        if self.cycle_count % 40 == 0 {
            self.render_buf.push('\n');
        }
    }

    /// Runs one cycle, at whose end `register` is added to the register.
    fn increment_cycle_count(&mut self, register: Option<i32>)
        requires
            tick_fits(
                old(self)@,
                match register {
                    Some(x) => Some(x as int),
                    None => None,
                },
            ),
        ensures
            final(self)@ == ticked(
                old(self)@,
                match register {
                    Some(x) => Some(x as int),
                    None => None,
                },
            ),
    {
        self.render();
        self.cycle_count += 1;
        if let Some(x) = register {
            self.register += x;
        }
        if self.cycle_count % 40 == 20 {
            self.sum += self.register * self.cycle_count as i32;
        }
    }

    /// Carries out the instructions of `input`, one per line, and returns the
    /// sum of the signal strengths sampled so far.
    pub fn process_signal(&mut self, input: &str) -> (sum: i32)
        requires
            runnable(old(self)@, lines(input@)),
        ensures
            final(self)@ == run(old(self)@, lines(input@)),
            sum == final(self)@.sum,
    {
        let text = chars_of(input);
        let ls = lines_of(&text);
        let ghost all = lines(input@);
        let ghost from = self@;
        let mut i: usize = 0;
        assert(all.take(0) =~= Seq::<Seq<char>>::empty());
        while i < ls.len()
            invariant
                i <= ls.len(),
                all == rows(ls@),
                runnable(from, all),
                self@ == run(from, all.take(i as int)),
            decreases ls.len() - i,
        {
            let line = &ls[i];
            proof {
                assert(all[i as int] == line@);
                assert(all.take(i + 1).drop_last() =~= all.take(i as int));
                assert(all.take(i + 1).last() == all[i as int]);
                assert(executable_at(from, all, i as int));
                assert(line@.skip(0) =~= line@);
            }
            if is_text(line, "noop") {
                self.increment_cycle_count(None);
            } else {
                let number = slice_of(line, 5, line.len());
                let register = parse_i64(&number).unwrap() as i32;
                self.increment_cycle_count(None);
                self.increment_cycle_count(Some(register));
            }
            i += 1;
        }
        assert(all.take(i as int) =~= all);
        self.sum
    }

    /// A device that has not run yet.
    pub fn new() -> (c: CathodeRay)
        ensures
            c@ == initial(),
    {
        let render_buf = String::new();
        CathodeRay { sum: 0, cycle_count: 1, register: 1, render_buf: render_buf }
    }
}

/// What the line asks for.
fn read_instruction(line: &Vec<char>) -> (r: Option<Option<i32>>)
    ensures
        r == (match instruction(line@) {
            Some(Some(x)) => Some(Some(x as i32)),
            Some(None) => Some(None::<i32>),
            None => None,
        }),
        instruction(line@) matches Some(Some(x)) ==> i32::MIN <= x <= i32::MAX,
{
    if is_text(line, "noop") {
        return Some(None);
    }
    let addx = chars_of("addx");
    assert(line@.skip(0) =~= line@);
    if !crate::text::matches_at(line, 0, &addx) {
        return None;
    }
    if line.len() < 5 || line[4] as u32 > 0x7f {
        return None;
    }
    let number = slice_of(line, 5, line.len());
    assert(line@.subrange(5, line@.len() as int) =~= line@.skip(5));
    match parse_i64(&number) {
        None => None,
        Some(x) => if -0x8000_0000 <= x && x <= 0x7fff_ffff {
            Some(Some(x as i32))
        } else {
            None
        },
    }
}

impl CathodeRay {
    /// Whether every number of the next cycle fits in 32 bits.
    fn can_tick(&self, register: Option<i32>) -> (b: bool)
        ensures
            b == tick_fits(
                self@,
                match register {
                    Some(x) => Some(x as int),
                    None => None,
                },
            ),
    {
        let cycle = self.cycle_count as i64;
        if !(1 <= cycle && cycle < 0x7fff_ffff) {
            return false;
        }
        let d = (cycle - 1) % 40 - self.register as i64;
        if !(-0x8000_0000 < d && d <= 0x7fff_ffff) {
            return false;
        }
        let next_register = self.register as i64 + match register {
            Some(x) => x as i64,
            None => 0,
        };
        if next_register < -0x8000_0000 || next_register > 0x7fff_ffff {
            return false;
        }
        let next_cycle = cycle + 1;
        if next_cycle % 40 == 20 {
            assert(-0x8000_0000 * 0x8000_0000 <= next_register * next_cycle <= 0x8000_0000
                * 0x8000_0000) by (nonlinear_arith)
                requires
                    -0x8000_0000 <= next_register <= 0x7fff_ffff,
                    0 <= next_cycle <= 0x8000_0000,
            ;
            let strength = next_register * next_cycle;
            if strength < -0x8000_0000 || strength > 0x7fff_ffff {
                return false;
            }
            let next_sum = self.sum as i64 + strength;
            if next_sum < -0x8000_0000 || next_sum > 0x7fff_ffff {
                return false;
            }
        }
        true
    }

    /// Carries out the instruction of `line` where it can be carried out.
    fn try_execute(&mut self, line: &Vec<char>) -> (done: bool)
        ensures
            done == executable(old(self)@, line@),
            done ==> final(self)@ == executed(old(self)@, line@),
    {
        match read_instruction(line) {
            None => false,
            Some(None) => {
                if !self.can_tick(None) {
                    return false;
                }
                self.increment_cycle_count(None);
                true
            },
            Some(Some(register)) => {
                if !self.can_tick(None) {
                    return false;
                }
                self.increment_cycle_count(None);
                if !self.can_tick(Some(register)) {
                    return false;
                }
                self.increment_cycle_count(Some(register));
                true
            },
        }
    }

    /// Carries out the instructions of `input` as far as they can be
    /// carried out. Returns whether it carried out them all.
    pub fn try_process_signal(&mut self, input: &str) -> (done: bool)
        ensures
            done == runnable(old(self)@, lines(input@)),
            done ==> final(self)@ == run(old(self)@, lines(input@)),
    {
        let text = chars_of(input);
        let ls = lines_of(&text);
        let ghost all = lines(input@);
        let ghost from = self@;
        let mut i: usize = 0;
        assert(all.take(0) =~= Seq::<Seq<char>>::empty());
        while i < ls.len()
            invariant
                i <= ls.len(),
                all == rows(ls@),
                all == lines(input@),
                from == old(self)@,
                self@ == run(from, all.take(i as int)),
                runnable_up_to(from, all, i as int),
            decreases ls.len() - i,
        {
            let line = &ls[i];
            proof {
                assert(all[i as int] == line@);
                lemma_run_next(from, all, i as int);
            }
            if !self.try_execute(line) {
                assert(!executable_at(from, all, i as int));
                return false;
            }
            assert(executable_at(from, all, i as int));
            i += 1;
        }
        assert(all.take(i as int) =~= all);
        true
    }
}

/// `out` is the first answer for `input`.
pub open spec fn is_first_answer(input: Seq<char>, out: Seq<char>) -> bool {
    out == "Sum of registers: "@ + decimal_int(run(initial(), lines(input)).sum)
}

/// `out` is the second answer for `input`.
pub open spec fn is_second_answer(input: Seq<char>, out: Seq<char>) -> bool {
    out == "Display:\n"@ + run(initial(), lines(input)).display
}

impl DayTen {
    /// Both answers; `None` where a line holds no instruction or a number
    /// leaves the range of 32 bits.
    pub fn solve(&self, input: &str) -> (r: Option<(String, String)>)
        ensures
            r is Some <==> runnable(initial(), lines(input@)),
            r matches Some(answers) ==> is_first_answer(input@, answers.0@) && is_second_answer(
                input@,
                answers.1@,
            ),
    {
        let mut cathode_ray = CathodeRay::new();
        if cathode_ray.try_process_signal(input) {
            Some((self.part_one(input), self.part_two(input)))
        } else {
            None
        }
    }

    /// Reports the sum of the signal strengths sampled during the program.
    pub fn part_one(&self, input: &str) -> (out: String)
        requires
            runnable(initial(), lines(input@)),
        ensures
            is_first_answer(input@, out@),
    {
        let mut cathode_ray = CathodeRay::new();
        let register_sum = cathode_ray.process_signal(input);
        labelled_int("Sum of registers: ", register_sum as i64)
    }

    /// Reports what the program draws.
    pub fn part_two(&self, input: &str) -> (out: String)
        requires
            runnable(initial(), lines(input@)),
        ensures
            is_second_answer(input@, out@),
    {
        let mut cathode_ray = CathodeRay::new();
        let _ = cathode_ray.process_signal(input);
        let display = cathode_ray.print_display();
        labelled("Display:\n", &chars_of(display.as_str()))
    }
}

} // verus!
