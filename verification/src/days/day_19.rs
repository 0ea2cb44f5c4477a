use crate::pattern::{captures, count_groups, group, group_count, group_text, group_texts, regex_captures};
use crate::text::{
    chars_of, decimal, labelled_number, lines, lines_of, parse_u64, parse_within, rows, string_of,
    trim, trimmed,
};
use std::collections::HashMap;
use vstd::prelude::*;

verus! {

broadcast use vstd::std_specs::hash::group_hash_axioms;

pub struct DayNineteen;

/// What a robot costs.
#[derive(Debug, Clone, Copy)]
pub struct Recipe {
    ore: u32,
    clay: u32,
    obsidian: u32,
}

impl Recipe {
    fn new(ore: u32, clay: u32, obsidian: u32) -> (r: Recipe)
        ensures
            r.ore == ore && r.clay == clay && r.obsidian == obsidian,
    {
        Recipe { ore, clay, obsidian }
    }
}

/// Where a plan stands: the minute that begins, the stocks, and the robots
/// at work.
#[derive(Debug, Clone, Copy, PartialEq, Eq, Structural)]
pub struct State {
    pub minute: u32,
    pub ore: u32,
    pub clay: u32,
    pub obsidian: u32,
    pub geodes: u32,
    pub ore_robots: u32,
    pub clay_robots: u32,
    pub obsidian_robots: u32,
    pub geode_robots: u32,
}

/// The costs of the four robots and the number of the last minute.
pub struct Costs {
    pub ore_ore: int,
    pub clay_ore: int,
    pub obsidian_ore: int,
    pub obsidian_clay: int,
    pub geode_ore: int,
    pub geode_obsidian: int,
    pub minutes: int,
}

/// A blueprint with what has been worked out for it so far: states with the
/// number of geodes that the best plan from each leads to, chained by a
/// number made of each state.
pub struct Blueprint {
    blueprint_number: u8,
    ore_robot: Recipe,
    clay_robot: Recipe,
    obsidian_robot: Recipe,
    geode_robot: Recipe,
    entries: Vec<(State, u32, Option<usize>)>,
    heads: HashMap<u64, usize>,
    minutes: u32,
}

/// `x` fits in 32 bits without a sign.
pub open spec fn fits(x: int) -> bool {
    0 <= x <= u32::MAX
}

/// The minutes until a stock of `existing` has grown to `needed` with
/// `robots` at work and the robot that needs it has been built: one where
/// the stock is there. `None` where no robot is at work on a stock that is
/// missing, or a number leaves the range of 32 bits.
pub open spec fn mins_to_get(existing: int, needed: int, robots: int) -> Option<int> {
    if needed <= existing {
        Some(1)
    } else if robots <= 0 || !fits((needed - existing) + robots) {
        None
    } else {
        Some(((needed - existing) + robots - 1) / robots + 1)
    }
}

/// The greater of two numbers of minutes.
pub open spec fn later(a: Option<int>, b: Option<int>) -> Option<int> {
    match (a, b) {
        (Some(x), Some(y)) => Some(
            if x >= y {
                x
            } else {
                y
            },
        ),
        _ => None,
    }
}

/// The state after `mins` minutes of gathering, at whose end a robot has
/// been built for `ore`, `clay` and `obsidian`, one more robot of each kind
/// being at work as given. `None` where a number leaves the range of 32
/// bits or a stock does not cover the costs.
pub open spec fn after_build(
    s: State,
    mins: int,
    ore: int,
    clay: int,
    obsidian: int,
    more: (int, int, int, int),
) -> Option<State> {
    if fits(s.minute + mins) && fits(s.ore_robots * mins) && fits(s.ore + s.ore_robots * mins)
        && fits(s.ore + s.ore_robots * mins - ore) && fits(s.clay_robots * mins) && fits(
        s.clay + s.clay_robots * mins,
    ) && fits(s.clay + s.clay_robots * mins - clay) && fits(s.obsidian_robots * mins) && fits(
        s.obsidian + s.obsidian_robots * mins,
    ) && fits(s.obsidian + s.obsidian_robots * mins - obsidian) && fits(s.geode_robots * mins)
        && fits(s.geodes + s.geode_robots * mins) && fits(s.ore_robots + more.0) && fits(
        s.clay_robots + more.1,
    ) && fits(s.obsidian_robots + more.2) && fits(s.geode_robots + more.3) {
        Some(
            State {
                minute: (s.minute + mins) as u32,
                ore: (s.ore + s.ore_robots * mins - ore) as u32,
                clay: (s.clay + s.clay_robots * mins - clay) as u32,
                obsidian: (s.obsidian + s.obsidian_robots * mins - obsidian) as u32,
                geodes: (s.geodes + s.geode_robots * mins) as u32,
                ore_robots: (s.ore_robots + more.0) as u32,
                clay_robots: (s.clay_robots + more.1) as u32,
                obsidian_robots: (s.obsidian_robots + more.2) as u32,
                geode_robots: (s.geode_robots + more.3) as u32,
            },
        )
    } else {
        None
    }
}

/// The greatest cost in ore of any robot.
pub open spec fn max_ore(c: Costs) -> int {
    let a = if c.ore_ore >= c.clay_ore {
        c.ore_ore
    } else {
        c.clay_ore
    };
    let b = if c.obsidian_ore >= c.geode_ore {
        c.obsidian_ore
    } else {
        c.geode_ore
    };
    if a >= b {
        a
    } else {
        b
    }
}

/// Way `k` of five to go on from a state in which no geode robot can be
/// built at once: wait for an ore robot, as long as there are fewer than any
/// robot costs ore; for a clay robot, as long as obsidian and clay robots are
/// fewer than their products are needed for one robot; for an obsidian
/// robot, given a clay robot; for a geode robot, given an obsidian robot;
/// or gather to the end. The inner `None` says that the way is not open or
/// the robot would not be ready before the last minute; the outer that a
/// number leaves the range of 32 bits.
pub open spec fn way(c: Costs, s: State, k: int) -> Option<Option<State>> {
    if k == 0 {
        if s.ore_robots < max_ore(c) {
            match mins_to_get(s.ore as int, c.ore_ore, s.ore_robots as int) {
                None => None,
                Some(m) => if !fits(s.minute + m) {
                    None
                } else if s.minute + m < c.minutes {
                    match after_build(s, m, c.ore_ore, 0, 0, (1, 0, 0, 0)) {
                        None => None,
                        Some(n) => Some(Some(n)),
                    }
                } else {
                    Some(None)
                },
            }
        } else {
            Some(None)
        }
    } else if k == 1 {
        if s.obsidian_robots < c.geode_obsidian && s.clay_robots < c.obsidian_clay {
            match mins_to_get(s.ore as int, c.clay_ore, s.ore_robots as int) {
                None => None,
                Some(m) => if !fits(s.minute + m) {
                    None
                } else if s.minute + m < c.minutes {
                    match after_build(s, m, c.clay_ore, 0, 0, (0, 1, 0, 0)) {
                        None => None,
                        Some(n) => Some(Some(n)),
                    }
                } else {
                    Some(None)
                },
            }
        } else {
            Some(None)
        }
    } else if k == 2 {
        if s.obsidian_robots < c.geode_obsidian && s.clay_robots > 0 {
            match later(
                mins_to_get(s.clay as int, c.obsidian_clay, s.clay_robots as int),
                mins_to_get(s.ore as int, c.obsidian_ore, s.ore_robots as int),
            ) {
                None => None,
                Some(m) => if !fits(s.minute + m) {
                    None
                } else if s.minute + m < c.minutes {
                    match after_build(s, m, c.obsidian_ore, c.obsidian_clay, 0, (0, 0, 1, 0)) {
                        None => None,
                        Some(n) => Some(Some(n)),
                    }
                } else {
                    Some(None)
                },
            }
        } else {
            Some(None)
        }
    } else if k == 3 {
        if s.obsidian_robots > 0 {
            match later(
                mins_to_get(s.obsidian as int, c.geode_obsidian, s.obsidian_robots as int),
                mins_to_get(s.ore as int, c.geode_ore, s.ore_robots as int),
            ) {
                None => None,
                Some(m) => if !fits(s.minute + m) {
                    None
                } else if s.minute + m < c.minutes {
                    match after_build(s, m, c.geode_ore, 0, c.geode_obsidian, (0, 0, 0, 1)) {
                        None => None,
                        Some(n) => Some(Some(n)),
                    }
                } else {
                    Some(None)
                },
            }
        } else {
            Some(None)
        }
    } else {
        match after_build(s, c.minutes - s.minute, 0, 0, 0, (0, 0, 0, 0)) {
            None => None,
            Some(n) => Some(Some(n)),
        }
    }
}

/// The greater of the two, as far as they are there; `None` where one of
/// them could not be worked out.
pub open spec fn merged(a: Option<Option<int>>, b: Option<Option<int>>) -> Option<Option<int>> {
    match (a, b) {
        (Some(Some(x)), Some(Some(y))) => Some(
            Some(
                if x >= y {
                    x
                } else {
                    y
                },
            ),
        ),
        (Some(Some(x)), Some(None)) => Some(Some(x)),
        (Some(None), Some(y)) => Some(y),
        _ => None,
    }
}

/// The greatest number of geodes that a plan from state `s` leads to: at the
/// last minute the stock and what the robots add; before it, a geode robot
/// is built at once where the stocks allow, and else the best of the five
/// ways is taken. `None` where a number leaves the range of 32 bits on any
/// way, or the last minute is past.
pub open spec fn best(c: Costs, s: State) -> Option<int>
    decreases c.minutes - s.minute,
{
    if s.minute == c.minutes {
        if fits(s.geodes + s.geode_robots) {
            Some(s.geodes + s.geode_robots)
        } else {
            None
        }
    } else if s.minute > c.minutes {
        None
    } else if s.ore >= c.geode_ore && s.obsidian >= c.geode_obsidian {
        match after_build(s, 1, c.geode_ore, 0, c.geode_obsidian, (0, 0, 0, 1)) {
            None => None,
            Some(n) => if s.minute < n.minute <= c.minutes {
                best(c, n)
            } else {
                None
            },
        }
    } else {
        match best_of_ways(c, s, 5) {
            Some(Some(v)) => Some(v),
            _ => None,
        }
    }
}

/// The best of what the first `k` ways lead to.
pub open spec fn best_of_ways(c: Costs, s: State, k: int) -> Option<Option<int>>
    decreases c.minutes - s.minute, 2int, k,
{
    if k <= 0 {
        Some(None)
    } else {
        merged(best_of_ways(c, s, k - 1), tried(c, s, k - 1))
    }
}

/// What way `k` leads to, where it is open.
pub open spec fn tried(c: Costs, s: State, k: int) -> Option<Option<int>>
    decreases c.minutes - s.minute, 1int,
{
    match way(c, s, k) {
        None => None,
        Some(None) => Some(None),
        Some(Some(n)) => if s.minute < n.minute <= c.minutes {
            match best(c, n) {
                None => None,
                Some(v) => Some(Some(v)),
            }
        } else {
            None
        },
    }
}

/// The product of two numbers of 32 bits.
fn times(a: u32, b: u32) -> (p: u64)
    ensures
        p == a * b,
{
    assert(a * b <= 0xffff_ffff * 0xffff_ffff) by (nonlinear_arith)
        requires
            0 <= a <= 0xffff_ffff,
            0 <= b <= 0xffff_ffff,
    ;
    (a as u64) * (b as u64)
}

/// The stock after `mins` minutes of gathering and a robot built for
/// `cost`.
fn stock_after(stock: u32, robots: u32, mins: u32, cost: u32) -> (r: Option<u32>)
    ensures
        match r {
            Some(x) => fits(robots * mins) && fits(stock + robots * mins) && fits(
                stock + robots * mins - cost,
            ) && x == stock + robots * mins - cost,
            None => !(fits(robots * mins) && fits(stock + robots * mins) && fits(
                stock + robots * mins - cost,
            )),
        },
{
    let gathered = times(robots, mins);
    if gathered > 0xffff_ffff {
        return None;
    }
    let total = stock as u64 + gathered;
    if total > 0xffff_ffff || total < cost as u64 {
        return None;
    }
    Some((total - cost as u64) as u32)
}

/// The state after `mins` minutes of gathering and a robot built.
fn build(s: &State, mins: u32, ore: u32, clay: u32, obsidian: u32, more: (u32, u32, u32, u32)) -> (r:
    Option<State>)
    ensures
        r == after_build(
            *s,
            mins as int,
            ore as int,
            clay as int,
            obsidian as int,
            (more.0 as int, more.1 as int, more.2 as int, more.3 as int),
        ),
{
    if mins > u32::MAX - s.minute {
        return None;
    }
    let new_ore = stock_after(s.ore, s.ore_robots, mins, ore);
    let new_clay = stock_after(s.clay, s.clay_robots, mins, clay);
    let new_obsidian = stock_after(s.obsidian, s.obsidian_robots, mins, obsidian);
    let new_geodes = stock_after(s.geodes, s.geode_robots, mins, 0);
    if more.0 > u32::MAX - s.ore_robots || more.1 > u32::MAX - s.clay_robots || more.2 > u32::MAX
        - s.obsidian_robots || more.3 > u32::MAX - s.geode_robots {
        return None;
    }
    match (new_ore, new_clay, new_obsidian, new_geodes) {
        (Some(o), Some(c), Some(b), Some(g)) => Some(
            State {
                minute: s.minute + mins,
                ore: o,
                clay: c,
                obsidian: b,
                geodes: g,
                ore_robots: s.ore_robots + more.0,
                clay_robots: s.clay_robots + more.1,
                obsidian_robots: s.obsidian_robots + more.2,
                geode_robots: s.geode_robots + more.3,
            },
        ),
        _ => None,
    }
}

/// The number under which a state is looked for: six bits of each of its
/// nine numbers, the minute first.
pub open spec fn number(s: State) -> int {
    ((((((((s.minute % 64) * 64 + s.ore % 64) * 64 + s.clay % 64) * 64 + s.obsidian % 64) * 64
        + s.geodes % 64) * 64 + s.ore_robots % 64) * 64 + s.clay_robots % 64) * 64
        + s.obsidian_robots % 64) * 64 + s.geode_robots % 64
}

/// The number under which a state is looked for.
fn number_of(s: &State) -> (k: u64)
    ensures
        k == number(*s),
{
    let mut k: u64 = (s.minute % 64) as u64;
    k = k * 64 + (s.ore % 64) as u64;
    k = k * 64 + (s.clay % 64) as u64;
    k = k * 64 + (s.obsidian % 64) as u64;
    k = k * 64 + (s.geodes % 64) as u64;
    k = k * 64 + (s.ore_robots % 64) as u64;
    k = k * 64 + (s.clay_robots % 64) as u64;
    k = k * 64 + (s.obsidian_robots % 64) as u64;
    k = k * 64 + (s.geode_robots % 64) as u64;
    k
}

/// What the chain that begins at `current` holds for the state `s`: the
/// number kept with the first entry of the chain that is for `s`; `None`
/// where the chain has no entry for it.
pub open spec fn held_in(
    entries: Seq<(State, u32, Option<usize>)>,
    current: Option<usize>,
    s: State,
) -> Option<u32>
    decreases
        (match current {
            Some(i) => i + 1,
            None => 0,
        }),
{
    match current {
        None => None,
        Some(i) => if i < entries.len() {
            if entries[i as int].0 == s {
                Some(entries[i as int].1)
            } else if entries[i as int].2 matches Some(p) ==> p < i {
                held_in(entries, entries[i as int].2, s)
            } else {
                None
            }
        } else {
            None
        },
    }
}

/// A chain holds what it held before an entry was added behind all others.
proof fn lemma_held_after_push(
    entries: Seq<(State, u32, Option<usize>)>,
    added: (State, u32, Option<usize>),
    current: Option<usize>,
    s: State,
)
    requires
        current matches Some(i) ==> i < entries.len(),
        forall|i: int|
            0 <= i < entries.len() ==> ((#[trigger] entries[i]).2 matches Some(p) ==> p < i),
    ensures
        held_in(entries.push(added), current, s) == held_in(entries, current, s),
    decreases
        (match current {
            Some(i) => i + 1,
            None => 0,
        }),
{
    if let Some(i) = current {
        assert(entries.push(added)[i as int] == entries[i as int]);
        if entries[i as int].0 != s {
            lemma_held_after_push(entries, added, entries[i as int].2, s);
        }
    }
}

impl Blueprint {
    /// What has been kept for the state `s`, if anything: what the chain
    /// under the number of `s` holds for it.
    pub closed spec fn remembered(self, s: State) -> Option<u32> {
        held_in(
            self.entries@,
            if self.heads@.contains_key(number(s) as u64) {
                Some(self.heads@[number(s) as u64])
            } else {
                None
            },
            s,
        )
    }

    /// The costs of the robots and the last minute.
    pub closed spec fn costs(self) -> Costs {
        Costs {
            ore_ore: self.ore_robot.ore as int,
            clay_ore: self.clay_robot.ore as int,
            obsidian_ore: self.obsidian_robot.ore as int,
            obsidian_clay: self.obsidian_robot.clay as int,
            geode_ore: self.geode_robot.ore as int,
            geode_obsidian: self.geode_robot.obsidian as int,
            minutes: self.minutes as int,
        }
    }

    /// The number of the blueprint.
    pub closed spec fn number(self) -> int {
        self.blueprint_number as int
    }

    /// What has been worked out is right, and the chains lead back through
    /// what has been worked out.
    pub closed spec fn wf(self) -> bool {
        &&& forall|i: int|
            0 <= i < self.entries@.len() ==> best(self.costs(), (#[trigger] self.entries@[i]).0)
                == Some(self.entries@[i].1 as int) && (self.entries@[i].2 matches Some(p) ==> p < i)
        &&& forall|k: u64| #[trigger]
            self.heads@.contains_key(k) ==> self.heads@[k] < self.entries@.len()
    }

    /// The minutes until a stock has grown to what is needed and the robot
    /// has been built.
    fn _mins_to_get(existing_quantity: u32, needed_quantity: u32, robots: u32) -> (r: Option<u32>)
        ensures
            match r {
                Some(m) => mins_to_get(
                    existing_quantity as int,
                    needed_quantity as int,
                    robots as int,
                ) == Some(m as int),
                None => mins_to_get(existing_quantity as int, needed_quantity as int, robots as int)
                    is None,
            },
    {
        if needed_quantity <= existing_quantity {
            return Some(1);
        }
        if robots == 0 {
            return None;
        }
        let missing = (needed_quantity - existing_quantity) as u64 + robots as u64;
        if missing > 0xffff_ffff {
            return None;
        }
        let m = (missing - 1) / robots as u64 + 1;
        assert(m <= missing) by (nonlinear_arith)
            requires
                m == (missing - 1) / (robots as int) + 1,
                robots >= 1,
                missing >= 1,
        ;
        return Some(m as u32);
    }

    /// What has been worked out for the state, if anything.
    fn lookup(&self, s: &State) -> (r: Option<u32>)
        requires
            self.wf(),
        ensures
            r == self.remembered(*s),
            r matches Some(v) ==> best(self.costs(), *s) == Some(v as int),
    {
        let h = number_of(s);
        let mut current: Option<usize> = match self.heads.get(&h) {
            None => None,
            Some(i) => Some(*i),
        };
        loop
            invariant
                self.wf(),
                current matches Some(i) ==> i < self.entries@.len(),
                held_in(self.entries@, current, *s) == self.remembered(*s),
            decreases
                    (match current {
                        Some(i) => i + 1,
                        None => 0,
                    }),
        {
            match current {
                None => {
                    return None;
                },
                Some(i) => {
                    let entry = &self.entries[i];
                    if entry.0 == *s {
                        return Some(entry.1);
                    }
                    current = entry.2;
                },
            }
        }
    }

    /// Keeps what has been worked out for the state.
    fn remember(&mut self, s: State, v: u32)
        requires
            old(self).wf(),
            best(old(self).costs(), s) == Some(v as int),
        ensures
            final(self).wf(),
            final(self).costs() == old(self).costs(),
            final(self).number() == old(self).number(),
            final(self).remembered(s) == Some(v),
            forall|t: State| t != s ==> #[trigger] final(self).remembered(t) == old(self).remembered(t),
    {
        let h = number_of(&s);
        let previous: Option<usize> = match self.heads.get(&h) {
            None => None,
            Some(i) => Some(*i),
        };
        let at = self.entries.len();
        self.entries.push((s, v, previous));
        self.heads.insert(h, at);
        proof {
            let before = old(self).entries@;
            let added = (s, v, previous);
            assert(self.entries@ == before.push(added));
            assert forall|t: State| t != s implies #[trigger] self.remembered(t) == old(
                self,
            ).remembered(t) by {
                let k = number(t) as u64;
                let head = if old(self).heads@.contains_key(k) {
                    Some(old(self).heads@[k])
                } else {
                    None
                };
                lemma_held_after_push(before, added, head, t);
                if k == h {
                    lemma_held_after_push(before, added, previous, t);
                }
            }
        }
    }

    /// Way `k` from the state.
    fn open_way(&self, s: &State, k: usize) -> (r: Option<Option<State>>)
        requires
            k < 5,
            s.minute < self.costs().minutes,
        ensures
            r == way(self.costs(), *s, k as int),
    {
        let max_ore = {
            let a = if self.ore_robot.ore >= self.clay_robot.ore {
                self.ore_robot.ore
            } else {
                self.clay_robot.ore
            };
            let b = if self.obsidian_robot.ore >= self.geode_robot.ore {
                self.obsidian_robot.ore
            } else {
                self.geode_robot.ore
            };
            if a >= b {
                a
            } else {
                b
            }
        };
        let (open, mins, cost, more): (bool, Option<u32>, (u32, u32, u32), (u32, u32, u32, u32)) =
            if k == 0 {
            (
                s.ore_robots < max_ore,
                Blueprint::_mins_to_get(s.ore, self.ore_robot.ore, s.ore_robots),
                (self.ore_robot.ore, 0, 0),
                (1, 0, 0, 0),
            )
        } else if k == 1 {
            (
                s.obsidian_robots < self.geode_robot.obsidian && s.clay_robots
                    < self.obsidian_robot.clay,
                Blueprint::_mins_to_get(s.ore, self.clay_robot.ore, s.ore_robots),
                (self.clay_robot.ore, 0, 0),
                (0, 1, 0, 0),
            )
        } else if k == 2 {
            let mins_for_ore = Blueprint::_mins_to_get(s.ore, self.obsidian_robot.ore, s.ore_robots);
            let mins_for_clay = Blueprint::_mins_to_get(
                s.clay,
                self.obsidian_robot.clay,
                s.clay_robots,
            );
            (
                s.obsidian_robots < self.geode_robot.obsidian && s.clay_robots > 0,
                match (mins_for_clay, mins_for_ore) {
                    (Some(x), Some(y)) => Some(
                        if x >= y {
                            x
                        } else {
                            y
                        },
                    ),
                    _ => None,
                },
                (self.obsidian_robot.ore, self.obsidian_robot.clay, 0),
                (0, 0, 1, 0),
            )
        } else if k == 3 {
            let mins_for_ore = Blueprint::_mins_to_get(s.ore, self.geode_robot.ore, s.ore_robots);
            let mins_for_obsidian = Blueprint::_mins_to_get(
                s.obsidian,
                self.geode_robot.obsidian,
                s.obsidian_robots,
            );
            (
                s.obsidian_robots > 0,
                match (mins_for_obsidian, mins_for_ore) {
                    (Some(x), Some(y)) => Some(
                        if x >= y {
                            x
                        } else {
                            y
                        },
                    ),
                    _ => None,
                },
                (self.geode_robot.ore, 0, self.geode_robot.obsidian),
                (0, 0, 0, 1),
            )
        } else {
            return match build(s, self.minutes - s.minute, 0, 0, 0, (0, 0, 0, 0)) {
                None => None,
                Some(n) => Some(Some(n)),
            };
        };
        if !open {
            return Some(None);
        }
        match mins {
            None => None,
            Some(m) => {
                if m > u32::MAX - s.minute {
                    return None;
                }
                if s.minute + m < self.minutes {
                    match build(s, m, cost.0, cost.1, cost.2, more) {
                        None => None,
                        Some(n) => Some(Some(n)),
                    }
                } else {
                    Some(None)
                }
            },
        }
    }

    /// What way `k` from the state leads to, where it is open.
    fn try_way(&mut self, s: State, k: usize) -> (r: Option<Option<u32>>)
        requires
            old(self).wf(),
            k < 5,
            s.minute < old(self).costs().minutes,
        ensures
            final(self).wf(),
            final(self).costs() == old(self).costs(),
            final(self).number() == old(self).number(),
            tried(old(self).costs(), s, k as int) == (match r {
                Some(Some(v)) => Some(Some(v as int)),
                Some(None) => Some(None::<int>),
                None => None,
            }),
        decreases old(self).costs().minutes - s.minute, 0int,
    {
        match self.open_way(&s, k) {
            None => None,
            Some(None) => Some(None),
            Some(Some(n)) => {
                if !(s.minute < n.minute && n.minute <= self.minutes) {
                    return None;
                }
                match self.try_choose_route(n) {
                    None => None,
                    Some(v) => Some(Some(v)),
                }
            },
        }
    }

    /// The greatest number of geodes that a plan from the state leads to;
    /// `None` where it cannot be worked out.
    pub fn try_choose_route(&mut self, s: State) -> (r: Option<u32>)
        requires
            old(self).wf(),
        ensures
            final(self).wf(),
            final(self).costs() == old(self).costs(),
            final(self).number() == old(self).number(),
            match r {
                Some(v) => best(old(self).costs(), s) == Some(v as int),
                None => best(old(self).costs(), s) is None,
            },
        decreases old(self).costs().minutes - s.minute, 1int,
    {
        let ghost c = self.costs();
        if s.minute == self.minutes {
            if s.geode_robots > u32::MAX - s.geodes {
                return None;
            }
            return Some(s.geodes + s.geode_robots);
        }
        if let Some(v) = self.lookup(&s) {
            return Some(v);
        }
        if s.minute > self.minutes {
            return None;
        }
        let result: u32;
        if s.ore >= self.geode_robot.ore && s.obsidian >= self.geode_robot.obsidian {
            match build(&s, 1, self.geode_robot.ore, 0, self.geode_robot.obsidian, (0, 0, 0, 1)) {
                None => {
                    return None;
                },
                Some(n) => {
                    match self.try_choose_route(n) {
                        None => {
                            return None;
                        },
                        Some(v) => {
                            result = v;
                        },
                    }
                },
            }
        } else {
            let mut possible: Option<u32> = None;
            let mut k: usize = 0;
            while k < 5
                invariant
                    k <= 5,
                    self.wf(),
                    self.costs() == c,
                    self.number() == old(self).number(),
                    c == old(self).costs(),
                    s.minute < c.minutes,
                    best(c, s) == (match best_of_ways(c, s, 5) {
                        Some(Some(v)) => Some(v),
                        _ => None,
                    }),
                    best_of_ways(c, s, k as int) == Some(
                        match possible {
                            Some(v) => Some(v as int),
                            None => None,
                        },
                    ),
                decreases 5 - k,
            {
                match self.try_way(s, k) {
                    None => {
                        proof {
                            assert(best_of_ways(c, s, k + 1) is None);
                            lemma_ways_fail(c, s, k + 1);
                        }
                        return None;
                    },
                    Some(None) => {},
                    Some(Some(v)) => {
                        possible =
                        match possible {
                            None => Some(v),
                            Some(x) => if x >= v {
                                Some(x)
                            } else {
                                Some(v)
                            },
                        };
                    },
                }
                k += 1;
            }
            match possible {
                None => {
                    return None;
                },
                Some(v) => {
                    result = v;
                },
            }
        }
        self.remember(s, result);
        Some(result)
    }
}

/// Once the ways cannot be worked out up to one of them, they cannot be
/// worked out at all.
proof fn lemma_ways_fail(c: Costs, s: State, k: int)
    requires
        1 <= k <= 5,
        best_of_ways(c, s, k) is None,
    ensures
        best_of_ways(c, s, 5) is None,
    decreases 5 - k,
{
    if k < 5 {
        lemma_ways_fail(c, s, k + 1);
    }
}

/// The state at the outset: the first minute begins, and one ore robot is at
/// work.
pub open spec fn outset() -> State {
    State {
        minute: 1,
        ore: 0,
        clay: 0,
        obsidian: 0,
        geodes: 0,
        ore_robots: 1,
        clay_robots: 0,
        obsidian_robots: 0,
        geode_robots: 0,
    }
}

/// The regular expression of a blueprint: its number and the six costs.
pub open spec fn blueprint_pattern() -> Seq<char> {
    r"^Blueprint (?P<blueprint_number>[0-9]+): Each ore robot costs (?P<ore_ore>[0-9]+) ore. Each clay robot costs (?P<clay_ore>[0-9]+) ore. Each obsidian robot costs (?P<obsidian_ore>[0-9]+) ore and (?P<obsidian_clay>[0-9]+) clay. Each geode robot costs (?P<geode_ore>[0-9]+) ore and (?P<geode_obsidian>[0-9]+) obsidian.$"@
}

/// The number of at most `limit` that `text` writes.
pub open spec fn number_in(text: Option<Seq<char>>, limit: int) -> Option<int> {
    match text {
        Some(t) => parse_within(t, false, 0, limit),
        None => None,
    }
}

/// The number and the costs that the capture groups of a match write;
/// `None` where there is no match or a group writes no number that fits.
pub open spec fn plan_of(groups: Option<Seq<Option<Seq<char>>>>, minutes: int) -> Option<(int, Costs)> {
    if group_count(groups) == 8 {
        match (
            number_in(group_text(groups, 1), u8::MAX as int),
            number_in(group_text(groups, 2), u32::MAX as int),
            number_in(group_text(groups, 3), u32::MAX as int),
            number_in(group_text(groups, 4), u32::MAX as int),
            number_in(group_text(groups, 5), u32::MAX as int),
            number_in(group_text(groups, 6), u32::MAX as int),
            number_in(group_text(groups, 7), u32::MAX as int),
        ) {
            (Some(n), Some(a), Some(b), Some(c), Some(d), Some(e), Some(f)) => Some(
                (
                    n,
                    Costs {
                        ore_ore: a,
                        clay_ore: b,
                        obsidian_ore: c,
                        obsidian_clay: d,
                        geode_ore: e,
                        geode_obsidian: f,
                        minutes,
                    },
                ),
            ),
            _ => None,
        }
    } else {
        None
    }
}

/// The number and the costs that `line` writes, white space around it
/// aside.
pub open spec fn plan_in(line: Seq<char>, minutes: int) -> Option<(int, Costs)> {
    plan_of(regex_captures(blueprint_pattern(), trimmed(line)), minutes)
}

/// Parses a number of at most `limit`.
fn read_number(text: &Option<Vec<char>>, limit: u32) -> (r: Option<u32>)
    ensures
        match r {
            Some(x) => number_in(
                match *text {
                    Some(t) => Some(t@),
                    None => None,
                },
                limit as int,
            ) == Some(x as int),
            None => number_in(
                match *text {
                    Some(t) => Some(t@),
                    None => None,
                },
                limit as int,
            ) is None,
        },
{
    match text {
        None => None,
        Some(t) => match parse_u64(t) {
            None => None,
            Some(x) => if x <= limit as u64 {
                Some(x as u32)
            } else {
                None
            },
        },
    }
}

impl Blueprint {
    /// The greatest number of geodes that a plan from the given state leads
    /// to.
    pub fn choose_route(
        &mut self,
        minute: u32,
        ore: u32,
        clay: u32,
        obsidian: u32,
        geodes: u32,
        ore_robots: u32,
        clay_robots: u32,
        obsidian_robots: u32,
        geode_robots: u32,
    ) -> (v: u32)
        requires
            old(self).wf(),
            best(
                old(self).costs(),
                (State {
                    minute,
                    ore,
                    clay,
                    obsidian,
                    geodes,
                    ore_robots,
                    clay_robots,
                    obsidian_robots,
                    geode_robots,
                }),
            ) is Some,
        ensures
            final(self).wf(),
            final(self).costs() == old(self).costs(),
            final(self).number() == old(self).number(),
            best(
                old(self).costs(),
                (State {
                    minute,
                    ore,
                    clay,
                    obsidian,
                    geodes,
                    ore_robots,
                    clay_robots,
                    obsidian_robots,
                    geode_robots,
                }),
            ) == Some(v as int),
    {
        self.try_choose_route(
            State {
                minute,
                ore,
                clay,
                obsidian,
                geodes,
                ore_robots,
                clay_robots,
                obsidian_robots,
                geode_robots,
            },
        ).unwrap()
    }

    /// The greatest number of geodes of any plan, times the number of the
    /// blueprint; `None` where it cannot be worked out.
    pub fn try_quality_level(&mut self) -> (r: Option<u32>)
        requires
            old(self).wf(),
        ensures
            final(self).wf(),
            final(self).costs() == old(self).costs(),
            final(self).number() == old(self).number(),
            match r {
                Some(q) => quality(old(self).number(), old(self).costs()) == Some(q as int),
                None => quality(old(self).number(), old(self).costs()) is None,
            },
    {
        match self.try_max_geodes() {
            None => None,
            Some(geodes) => {
                let q = times(geodes, self.blueprint_number as u32);
                if q > 0xffff_ffff {
                    None
                } else {
                    Some(q as u32)
                }
            },
        }
    }

    /// The greatest number of geodes of any plan, times the number of the
    /// blueprint.
    pub fn quality_level(&mut self) -> (q: u32)
        requires
            old(self).wf(),
            quality(old(self).number(), old(self).costs()) is Some,
        ensures
            final(self).wf(),
            final(self).costs() == old(self).costs(),
            final(self).number() == old(self).number(),
            quality(old(self).number(), old(self).costs()) == Some(q as int),
    {
        self.try_quality_level().unwrap()
    }

    /// The greatest number of geodes of any plan; `None` where it cannot be
    /// worked out.
    pub fn try_max_geodes(&mut self) -> (r: Option<u32>)
        requires
            old(self).wf(),
        ensures
            final(self).wf(),
            final(self).costs() == old(self).costs(),
            final(self).number() == old(self).number(),
            match r {
                Some(v) => best(old(self).costs(), outset()) == Some(v as int),
                None => best(old(self).costs(), outset()) is None,
            },
    {
        self.try_choose_route(
            State {
                minute: 1,
                ore: 0,
                clay: 0,
                obsidian: 0,
                geodes: 0,
                ore_robots: 1,
                clay_robots: 0,
                obsidian_robots: 0,
                geode_robots: 0,
            },
        )
    }

    /// The greatest number of geodes of any plan.
    pub fn max_geodes(&mut self) -> (v: u32)
        requires
            old(self).wf(),
            best(old(self).costs(), outset()) is Some,
        ensures
            final(self).wf(),
            final(self).costs() == old(self).costs(),
            final(self).number() == old(self).number(),
            best(old(self).costs(), outset()) == Some(v as int),
    {
        self.try_max_geodes().unwrap()
    }

    /// The blueprint that the capture groups of a match write.
    pub fn from_captures(groups: &Option<Vec<Option<String>>>, minutes: u32) -> (r: Option<Blueprint>)
        ensures
            match r {
                Some(b) => b.wf() && plan_of(group_texts(*groups), minutes as int) == Some(
                    (b.number(), b.costs()),
                ),
                None => plan_of(group_texts(*groups), minutes as int) is None,
            },
    {
        if count_groups(groups) != 8 {
            return None;
        }
        let blueprint_number = read_number(&group(groups, 1), 255);
        let ore_ore = read_number(&group(groups, 2), u32::MAX);
        let clay_ore = read_number(&group(groups, 3), u32::MAX);
        let obsidian_ore = read_number(&group(groups, 4), u32::MAX);
        let obsidian_clay = read_number(&group(groups, 5), u32::MAX);
        let geode_ore = read_number(&group(groups, 6), u32::MAX);
        let geode_obsidian = read_number(&group(groups, 7), u32::MAX);
        match (
            blueprint_number,
            ore_ore,
            clay_ore,
            obsidian_ore,
            obsidian_clay,
            geode_ore,
            geode_obsidian,
        ) {
            (Some(n), Some(a), Some(b), Some(c), Some(d), Some(e), Some(f)) => {
                let blueprint = Blueprint {
                    blueprint_number: n as u8,
                    ore_robot: Recipe::new(a, 0, 0),
                    clay_robot: Recipe::new(b, 0, 0),
                    obsidian_robot: Recipe::new(c, d, 0),
                    geode_robot: Recipe::new(e, 0, f),
                    entries: Vec::new(),
                    heads: HashMap::new(),
                    minutes,
                };
                Some(blueprint)
            },
            _ => None,
        }
    }

    /// The blueprint that `line` writes; `None` where it writes none.
    fn parse(line: &Vec<char>, minutes: u32) -> (r: Option<Blueprint>)
        ensures
            match r {
                Some(b) => b.wf() && plan_in(line@, minutes as int) == Some((b.number(), b.costs())),
                None => plan_in(line@, minutes as int) is None,
            },
    {
        let text = string_of(&trim(line));
        let groups = captures(
            r"^Blueprint (?P<blueprint_number>[0-9]+): Each ore robot costs (?P<ore_ore>[0-9]+) ore. Each clay robot costs (?P<clay_ore>[0-9]+) ore. Each obsidian robot costs (?P<obsidian_ore>[0-9]+) ore and (?P<obsidian_clay>[0-9]+) clay. Each geode robot costs (?P<geode_ore>[0-9]+) ore and (?P<geode_obsidian>[0-9]+) obsidian.$",
            text.as_str(),
        );
        Blueprint::from_captures(&groups, minutes)
    }

    /// The blueprint that `input` writes; `None` where it writes none.
    pub fn try_new(input: &str, minutes: u32) -> (r: Option<Blueprint>)
        ensures
            match r {
                Some(b) => b.wf() && plan_in(input@, minutes as int) == Some(
                    (b.number(), b.costs()),
                ),
                None => plan_in(input@, minutes as int) is None,
            },
    {
        match Blueprint::parse(&chars_of(input), minutes) {
            None => None,
            Some(_) => Some(Blueprint::new(input, minutes)),
        }
    }

    /// The blueprint that `input` writes.
    pub fn new(input: &str, minutes: u32) -> (b: Blueprint)
        requires
            plan_in(input@, minutes as int) is Some,
        ensures
            b.wf(),
            plan_in(input@, minutes as int) == Some((b.number(), b.costs())),
    {
        Blueprint::parse(&chars_of(input), minutes).unwrap()
    }
}

/// The greatest number of geodes of any plan, times the number of the
/// blueprint; `None` where one of them cannot be worked out in 32 bits.
pub open spec fn quality(number: int, c: Costs) -> Option<int> {
    match best(c, outset()) {
        Some(v) => if fits(v * number) {
            Some(v * number)
        } else {
            None
        },
        None => None,
    }
}

/// The blueprints of a list.
pub struct Blueprints {
    blueprints: Vec<Blueprint>,
}

/// The sum of the quality levels of the plans; `None` where one of them or
/// the sum cannot be worked out in 32 bits.
pub open spec fn quality_sum(plans: Seq<(int, Costs)>) -> Option<int>
    decreases plans.len(),
{
    if plans.len() == 0 {
        Some(0)
    } else {
        match (quality_sum(plans.drop_last()), quality(plans.last().0, plans.last().1)) {
            (Some(total), Some(q)) => if fits(total + q) {
                Some(total + q)
            } else {
                None
            },
            _ => None,
        }
    }
}

/// The product of the greatest numbers of geodes of the first `k` plans;
/// `None` where one of them or the product cannot be worked out in 32
/// bits.
pub open spec fn geode_product(plans: Seq<(int, Costs)>, k: int) -> Option<int>
    decreases k,
{
    if k <= 0 {
        Some(1)
    } else if k > plans.len() {
        None
    } else {
        match (geode_product(plans, k - 1), best(plans[k - 1].1, outset())) {
            (Some(total), Some(v)) => if fits(total * v) {
                Some(total * v)
            } else {
                None
            },
            _ => None,
        }
    }
}

/// The plans that `input` writes, one per line; `None` where a line writes
/// none.
pub open spec fn plans_of(input: Seq<char>, minutes: int) -> Option<Seq<(int, Costs)>> {
    if forall|i: int| 0 <= i < lines(input).len() ==> plan_in(#[trigger] lines(input)[i], minutes) is Some {
        Some(Seq::new(lines(input).len(), |i: int| plan_in(lines(input)[i], minutes)->0))
    } else {
        None
    }
}

impl Blueprints {
    /// The numbers and costs of the blueprints.
    pub closed spec fn plans(self) -> Seq<(int, Costs)> {
        Seq::new(self.blueprints@.len(), |i: int| (self.blueprints@[i].number(), self.blueprints@[i].costs()))
    }

    /// Every blueprint is well formed.
    pub closed spec fn wf(self) -> bool {
        forall|i: int| 0 <= i < self.blueprints@.len() ==> (#[trigger] self.blueprints@[i]).wf()
    }

    /// The sum of the quality levels; `None` where it cannot be worked out.
    pub fn get_quality_score(&mut self) -> (r: Option<u32>)
        requires
            old(self).wf(),
        ensures
            final(self).wf(),
            final(self).plans() == old(self).plans(),
            match r {
                Some(q) => quality_sum(old(self).plans()) == Some(q as int),
                None => quality_sum(old(self).plans()) is None,
            },
    {
        let ghost plans = self.plans();
        let mut score: u32 = 0;
        let mut i: usize = 0;
        assert(plans.take(0) =~= Seq::<(int, Costs)>::empty());
        while i < self.blueprints.len()
            invariant
                i <= self.blueprints.len(),
                self.wf(),
                self.plans() == plans,
                plans == old(self).plans(),
                quality_sum(plans.take(i as int)) == Some(score as int),
            decreases self.blueprints.len() - i,
        {
            proof {
                assert(plans.take(i + 1).drop_last() =~= plans.take(i as int));
                assert(plans.take(i + 1).last() == plans[i as int]);
                assert(plans[i as int] == (self.blueprints@[i as int].number(), self.blueprints@[i as int].costs()));
            }
            let ghost before = self.blueprints@;
            let quality = self.blueprints[i].try_quality_level();
            proof {
                assert(self.plans() =~= plans) by {
                    assert forall|k: int| 0 <= k < self.blueprints@.len() implies self.plans()[k]
                        == plans[k] by {
                        if k != i {
                            assert(self.blueprints@[k] == before[k]);
                        }
                    }
                }
                assert forall|k: int| 0 <= k < self.blueprints@.len() implies (
                #[trigger] self.blueprints@[k]).wf() by {
                    if k != i {
                        assert(self.blueprints@[k] == before[k]);
                    }
                }
            }
            match quality {
                None => {
                    proof {
                        lemma_sum_fails(plans, i + 1);
                    }
                    return None;
                },
                Some(q) => {
                    if q > u32::MAX - score {
                        proof {
                            lemma_sum_fails(plans, i + 1);
                        }
                        return None;
                    }
                    score += q;
                },
            }
            i += 1;
        }
        assert(plans.take(i as int) =~= plans);
        Some(score)
    }

    /// The product of the greatest numbers of geodes of the first three
    /// blueprints; `None` where it cannot be worked out.
    pub fn get_score_product(&mut self) -> (r: Option<u32>)
        requires
            old(self).wf(),
        ensures
            final(self).wf(),
            final(self).plans() == old(self).plans(),
            match r {
                Some(q) => geode_product(old(self).plans(), 3) == Some(q as int),
                None => geode_product(old(self).plans(), 3) is None,
            },
    {
        let ghost plans = self.plans();
        let mut score: u32 = 1;
        let mut i: usize = 0;
        while i < 3
            invariant
                i <= 3,
                self.wf(),
                self.plans() == plans,
                plans == old(self).plans(),
                geode_product(plans, i as int) == Some(score as int),
            decreases 3 - i,
        {
            if i >= self.blueprints.len() {
                proof {
                    lemma_product_fails(plans, i + 1);
                }
                return None;
            }
            assert(plans[i as int] == (self.blueprints@[i as int].number(), self.blueprints@[i as int].costs()));
            let ghost before = self.blueprints@;
            let geodes = self.blueprints[i].try_max_geodes();
            proof {
                assert(self.plans() =~= plans) by {
                    assert forall|k: int| 0 <= k < self.blueprints@.len() implies self.plans()[k]
                        == plans[k] by {
                        if k != i {
                            assert(self.blueprints@[k] == before[k]);
                        }
                    }
                }
                assert forall|k: int| 0 <= k < self.blueprints@.len() implies (
                #[trigger] self.blueprints@[k]).wf() by {
                    if k != i {
                        assert(self.blueprints@[k] == before[k]);
                    }
                }
            }
            match geodes {
                None => {
                    proof {
                        lemma_product_fails(plans, i + 1);
                    }
                    return None;
                },
                Some(v) => {
                    let product = times(score, v);
                    if product > 0xffff_ffff {
                        proof {
                            lemma_product_fails(plans, i + 1);
                        }
                        return None;
                    }
                    score = product as u32;
                },
            }
            i += 1;
        }
        Some(score)
    }

    /// Reads blueprints, one per line; `None` where a line writes none.
    fn read(input: &str, minutes: u32) -> (r: Option<Blueprints>)
        ensures
            r is Some <==> plans_of(input@, minutes as int) is Some,
            r matches Some(bs) ==> bs.wf() && Some(bs.plans()) == plans_of(input@, minutes as int),
    {
        let text = chars_of(input);
        let ls = lines_of(&text);
        let ghost all = lines(input@);
        let mut blueprints: Vec<Blueprint> = Vec::new();
        let mut i: usize = 0;
        while i < ls.len()
            invariant
                i <= ls.len(),
                all == rows(ls@),
                all == lines(input@),
                blueprints.len() == i,
                forall|k: int| 0 <= k < i ==> plan_in(#[trigger] all[k], minutes as int) is Some,
                forall|k: int|
                    0 <= k < i ==> (#[trigger] blueprints@[k]).wf() && plan_in(
                        all[k],
                        minutes as int,
                    ) == Some((blueprints@[k].number(), blueprints@[k].costs())),
            decreases ls.len() - i,
        {
            assert(all[i as int] == ls@[i as int]@);
            match Blueprint::parse(&ls[i], minutes) {
                None => {
                    return None;
                },
                Some(b) => {
                    blueprints.push(b);
                },
            }
            i += 1;
        }
        let bs = Blueprints { blueprints };
        assert(bs.plans() =~= plans_of(input@, minutes as int)->0);
        Some(bs)
    }

    /// Reads blueprints, one per line; `None` where a line writes none.
    pub fn try_new(input: &str, minutes: u32) -> (r: Option<Blueprints>)
        ensures
            r is Some <==> plans_of(input@, minutes as int) is Some,
            r matches Some(bs) ==> bs.wf() && Some(bs.plans()) == plans_of(input@, minutes as int),
    {
        match Blueprints::read(input, minutes) {
            None => None,
            Some(_) => Some(Blueprints::new(input, minutes)),
        }
    }

    /// Reads blueprints, one per line.
    pub fn new(input: &str, minutes: u32) -> (bs: Blueprints)
        requires
            plans_of(input@, minutes as int) is Some,
        ensures
            bs.wf(),
            Some(bs.plans()) == plans_of(input@, minutes as int),
    {
        Blueprints::read(input, minutes).unwrap()
    }
}

/// Once the sum cannot be worked out up to a plan, it cannot be worked out
/// at all.
proof fn lemma_sum_fails(plans: Seq<(int, Costs)>, k: int)
    requires
        1 <= k <= plans.len(),
        quality_sum(plans.take(k)) is None,
    ensures
        quality_sum(plans) is None,
    decreases plans.len() - k,
{
    if k < plans.len() {
        assert(plans.take(k + 1).drop_last() =~= plans.take(k));
        lemma_sum_fails(plans, k + 1);
    } else {
        assert(plans.take(k) =~= plans);
    }
}

/// Once the product cannot be worked out up to a plan, it cannot be worked
/// out at all.
proof fn lemma_product_fails(plans: Seq<(int, Costs)>, k: int)
    requires
        1 <= k <= 3,
        geode_product(plans, k) is None,
    ensures
        geode_product(plans, 3) is None,
    decreases 3 - k,
{
    if k < 3 {
        lemma_product_fails(plans, k + 1);
    }
}

/// The first answer for `input`; `None` where it cannot be worked out.
pub open spec fn first_answer(input: Seq<char>) -> Option<int> {
    match plans_of(input, 24) {
        Some(plans) => quality_sum(plans),
        None => None,
    }
}

/// The second answer for `input`; `None` where it cannot be worked out.
pub open spec fn second_answer(input: Seq<char>) -> Option<int> {
    match plans_of(input, 32) {
        Some(plans) => geode_product(plans, 3),
        None => None,
    }
}

/// Works out the first answer.
fn work_out_first(input: &str) -> (r: Option<u32>)
    ensures
        match r {
            Some(n) => first_answer(input@) == Some(n as int),
            None => first_answer(input@) is None,
        },
{
    match Blueprints::try_new(input, 24) {
        None => None,
        Some(robots) => {
            let mut robots = robots;
            robots.get_quality_score()
        },
    }
}

/// Works out the second answer.
fn work_out_second(input: &str) -> (r: Option<u32>)
    ensures
        match r {
            Some(n) => second_answer(input@) == Some(n as int),
            None => second_answer(input@) is None,
        },
{
    match Blueprints::try_new(input, 32) {
        None => None,
        Some(robots) => {
            let mut robots = robots;
            robots.get_score_product()
        },
    }
}

impl DayNineteen {
    /// Both answers; `None` where one of them cannot be worked out.
    pub fn solve(&self, input: &str) -> (r: Option<(String, String)>)
        ensures
            r is Some <==> first_answer(input@) is Some && second_answer(input@) is Some,
            r matches Some(answers) ==> answers.0@ == "Quality levels: "@ + decimal(
                first_answer(input@)->0 as nat,
            ) && answers.1@ == "Quality levels: "@ + decimal(second_answer(input@)->0 as nat),
    {
        if work_out_first(input).is_some() && work_out_second(input).is_some() {
            Some((self.part_one(input), self.part_two(input)))
        } else {
            None
        }
    }

    /// Reports the sum of the quality levels after 24 minutes.
    pub fn part_one(&self, input: &str) -> (out: String)
        requires
            first_answer(input@) is Some,
        ensures
            out@ == "Quality levels: "@ + decimal(first_answer(input@)->0 as nat),
    {
        let score = work_out_first(input).unwrap();
        labelled_number("Quality levels: ", score as u64)
    }

    /// Reports the product of the greatest numbers of geodes of the first
    /// three blueprints after 32 minutes.
    pub fn part_two(&self, input: &str) -> (out: String)
        requires
            second_answer(input@) is Some,
        ensures
            out@ == "Quality levels: "@ + decimal(second_answer(input@)->0 as nat),
    {
        let score = work_out_second(input).unwrap();
        labelled_number("Quality levels: ", score as u64)
    }
}

} // verus!
