use crate::text::{
    chars_of, decimal, labelled_number, lines, lines_of, one_char, parse_u64, parse_within, rows,
    split, split_on,
};
use crate::grid::{cells, occupied, occupy};
use std::collections::HashSet;
use vstd::prelude::*;

verus! {

broadcast use vstd::std_specs::hash::group_hash_axioms;

pub struct DayFourteen;

/// Where a grain goes from `c`: straight down, else down to the left, else
/// down to the right; `None` where all three positions are taken.
pub open spec fn next_step(taken: Set<(int, int)>, c: (int, int)) -> Option<(int, int)> {
    if !taken.contains((c.0, c.1 + 1)) {
        Some((c.0, c.1 + 1))
    } else if !taken.contains((c.0 - 1, c.1 + 1)) {
        Some((c.0 - 1, c.1 + 1))
    } else if !taken.contains((c.0 + 1, c.1 + 1)) {
        Some((c.0 + 1, c.1 + 1))
    } else {
        None
    }
}

/// Where a grain that is at `c` comes to rest. Below the lowest wall it
/// rests on the floor where there is one and is lost where there is none:
/// then the result is `None`.
pub open spec fn falls_from(taken: Set<(int, int)>, max_y: int, floor: bool, c: (int, int)) -> Option<
    (int, int),
>
    decreases max_y + 1 - c.1,
{
    match next_step(taken, c) {
        None => Some(c),
        Some(n) => if n.1 > max_y {
            if floor {
                Some(n)
            } else {
                None
            }
        } else if c.1 <= max_y {
            falls_from(taken, max_y, floor, n)
        } else {
            None
        },
    }
}

/// Where a grain that is let go at the source comes to rest.
pub open spec fn drop_of(taken: Set<(int, int)>, max_y: int, floor: bool) -> Option<(int, int)> {
    falls_from(taken, max_y, floor, (500, 0))
}

/// Lets a grain fall from the source and says where it comes to rest;
/// `None` where it is lost.
pub fn simulate_drop(coords: &HashSet<u64>, max_y: u32, floor: bool) -> (r: Option<(u32, u32)>)
    requires
        max_y <= 498,
    ensures
        match r {
            Some(c) => drop_of(cells(coords@), max_y as int, floor) == Some(
                (c.0 as int, c.1 as int),
            ),
            None => drop_of(cells(coords@), max_y as int, floor) is None,
        },
{
    let mut coord: (u32, u32) = (500, 0);
    let ghost taken = cells(coords@);
    loop
        invariant
            max_y <= 498,
            taken == cells(coords@),
            coord.1 <= max_y,
            500 - coord.1 <= coord.0 <= 500 + coord.1,
            drop_of(taken, max_y as int, floor) == falls_from(
                taken,
                max_y as int,
                floor,
                (coord.0 as int, coord.1 as int),
            ),
        decreases max_y + 1 - coord.1,
    {
        let down = (coord.0, coord.1 + 1);
        let left = ((coord.0 - 1) as u32, coord.1 + 1);
        let right = (coord.0 + 1, coord.1 + 1);
        if !occupied(coords, down) {
            coord = down;
        } else if !occupied(coords, left) {
            coord = left;
        } else if !occupied(coords, right) {
            coord = right;
        } else {
            return Some(coord);
        }
        if coord.1 > max_y {
            if floor {
                return Some(coord);
            } else {
                return None;
            }
        }
    }
}

/// The position lies on the straight wall from `a` to `b`.
pub open spec fn on_segment(a: (int, int), b: (int, int), c: (int, int)) -> bool {
    if a.0 == b.0 {
        c.0 == a.0 && ((a.1 <= c.1 <= b.1) || (b.1 <= c.1 <= a.1))
    } else {
        a.1 == b.1 && c.1 == a.1 && ((a.0 <= c.0 <= b.0) || (b.0 <= c.0 <= a.0))
    }
}

/// The corner that `piece` writes: two numbers of 32 bits with a comma
/// between them; what follows a second comma does not count.
pub open spec fn corner_of(piece: Seq<char>) -> Option<(int, int)> {
    let p = split(piece, seq![',']);
    if p.len() >= 2 {
        match (
            parse_within(p[0], false, 0, u32::MAX as int),
            parse_within(p[1], false, 0, u32::MAX as int),
        ) {
            (Some(x), Some(y)) => Some((x, y)),
            _ => None,
        }
    } else {
        None
    }
}

/// The arrow that stands between two corners of a wall.
pub open spec fn arrow() -> Seq<char> {
    seq![' ', '-', '>', ' ']
}

/// The corners that `line` writes with arrows between them.
pub open spec fn corners_of(line: Seq<char>) -> Seq<(int, int)> {
    let pieces = split(line, arrow());
    Seq::new(pieces.len(), |i: int| corner_of(pieces[i])->0)
}

/// Every piece of the line writes a corner, every corner lies level with
/// the next or straight above or below it, and no coordinate of a wall is
/// the greatest number of 32 bits.
pub open spec fn is_wall_line(line: Seq<char>) -> bool {
    let pieces = split(line, arrow());
    let corners = corners_of(line);
    &&& forall|i: int| 0 <= i < pieces.len() ==> corner_of(#[trigger] pieces[i]) is Some
    &&& forall|j: int|
        0 <= j < corners.len() - 1 ==> {
            let a = #[trigger] corners[j];
            let b = corners[j + 1];
            (a.0 == b.0 || a.1 == b.1) && a.0 < u32::MAX && a.1 < u32::MAX && b.0 < u32::MAX && b.1
                < u32::MAX
        }
}

/// The positions of the first `j` stretches of the wall with these corners.
pub open spec fn stretches(corners: Seq<(int, int)>, j: int) -> Set<(int, int)> {
    Set::new(
        |c: (int, int)|
            exists|k: int| 0 <= k < j && k < corners.len() - 1 && on_segment(#[trigger] corners[k], corners[k + 1], c),
    )
}

/// The positions of the walls that the first `i` lines describe.
pub open spec fn walls_up_to(ls: Seq<Seq<char>>, i: int) -> Set<(int, int)> {
    Set::new(
        |c: (int, int)|
            exists|k: int|
                0 <= k < i && k < ls.len() && stretches(
                    corners_of(#[trigger] ls[k]),
                    corners_of(ls[k]).len() as int,
                ).contains(c),
    )
}

/// The positions of the walls that `input` describes, one wall per line.
pub open spec fn walls_of(input: Seq<char>) -> Set<(int, int)> {
    walls_up_to(lines(input), lines(input).len() as int)
}

/// Every line of `input` describes a wall.
pub open spec fn is_cave(input: Seq<char>) -> bool {
    forall|i: int| 0 <= i < lines(input).len() ==> is_wall_line(#[trigger] lines(input)[i])
}

/// Parses a number of 32 bits.
fn parse_u32(v: &Vec<char>) -> (r: Option<u32>)
    ensures
        match r {
            Some(x) => parse_within(v@, false, 0, u32::MAX as int) == Some(x as int),
            None => parse_within(v@, false, 0, u32::MAX as int) is None,
        },
{
    match parse_u64(v) {
        None => None,
        Some(x) => if x <= 0xffff_ffff {
            Some(x as u32)
        } else {
            None
        },
    }
}

/// Parses a corner.
fn read_corner(piece: &Vec<char>) -> (c: (u32, u32))
    requires
        corner_of(piece@) is Some,
    ensures
        corner_of(piece@) == Some((c.0 as int, c.1 as int)),
{
    let p = split_on(piece, &one_char(','));
    assert(rows(p@)[0] == p@[0]@);
    assert(rows(p@)[1] == p@[1]@);
    (parse_u32(&p[0]).unwrap(), parse_u32(&p[1]).unwrap())
}

/// The positions from `lo` up to `t` on the upright line at `x`, or on the
/// level line at `x` where `level` is set.
pub open spec fn run_of(level: bool, x: int, lo: int, t: int) -> Set<(int, int)> {
    Set::new(
        |c: (int, int)|
            if level {
                c.1 == x && lo <= c.0 < t
            } else {
                c.0 == x && lo <= c.1 < t
            },
    )
}

/// Adds the positions from `lo` to `hi` on a line to the set.
fn fill(walls: &mut HashSet<u64>, level: bool, x: u32, lo: u32, hi: u32)
    requires
        lo <= hi < u32::MAX,
    ensures
        cells(final(walls)@) == cells(old(walls)@).union(run_of(level, x as int, lo as int, hi + 1)),
{
    let mut j: u32 = lo;
    assert(cells(walls@) =~= cells(old(walls)@).union(run_of(level, x as int, lo as int, lo as int)));
    while j < hi + 1
        invariant
            lo <= j <= hi + 1,
            hi < u32::MAX,
            cells(walls@) == cells(old(walls)@).union(run_of(level, x as int, lo as int, j as int)),
        decreases hi + 1 - j,
    {
        let ghost before = cells(walls@);
        if level {
            occupy(walls, (j, x));
        } else {
            occupy(walls, (x, j));
        }
        assert(cells(walls@) =~= cells(old(walls)@).union(
            run_of(level, x as int, lo as int, j + 1),
        ));
        j += 1;
    }
}

/// `m` is the greatest depth of any of the positions; `None` where there are
/// no positions.
pub open spec fn is_lowest(taken: Set<(int, int)>, m: Option<u32>) -> bool {
    match m {
        Some(y) => (exists|c: (int, int)| taken.contains(c) && c.1 == y) && forall|c: (int, int)|
            taken.contains(c) ==> c.1 <= y,
        None => forall|c: (int, int)| !taken.contains(c),
    }
}

/// Parses a corner where the piece writes one.
fn try_corner(piece: &Vec<char>) -> (c: Option<(u32, u32)>)
    ensures
        match c {
            Some(c) => corner_of(piece@) == Some((c.0 as int, c.1 as int)),
            None => corner_of(piece@) is None,
        },
{
    let p = split_on(piece, &one_char(','));
    if p.len() < 2 {
        return None;
    }
    assert(rows(p@)[0] == p@[0]@);
    assert(rows(p@)[1] == p@[1]@);
    match (parse_u32(&p[0]), parse_u32(&p[1])) {
        (Some(x), Some(y)) => Some((x, y)),
        _ => None,
    }
}

/// Whether the line describes a wall.
fn describes_wall(line: &Vec<char>, sign: &Vec<char>) -> (b: bool)
    requires
        sign@ == arrow(),
    ensures
        b == is_wall_line(line@),
{
    let pieces = split_on(line, sign);
    let ghost found = corners_of(line@);
    let mut corners: Vec<(u32, u32)> = Vec::new();
    let mut k: usize = 0;
    while k < pieces.len()
        invariant
            k <= pieces.len(),
            rows(pieces@) == split(line@, arrow()),
            found == corners_of(line@),
            corners.len() == k,
            forall|m: int|
                0 <= m < k ==> corner_of(#[trigger] rows(pieces@)[m]) == Some(
                    (corners@[m].0 as int, corners@[m].1 as int),
                ),
        decreases pieces.len() - k,
    {
        assert(rows(pieces@)[k as int] == pieces@[k as int]@);
        match try_corner(&pieces[k]) {
            None => {
                return false;
            },
            Some(c) => {
                corners.push(c);
            },
        }
        k += 1;
    }
    if corners.len() == 0 {
        return true;
    }
    let mut j: usize = 0;
    while j < corners.len() - 1
        invariant
            j <= corners.len() - 1,
            corners.len() >= 1,
            corners.len() == found.len(),
            found == corners_of(line@),
            rows(pieces@) == split(line@, arrow()),
            forall|m: int|
                0 <= m < corners.len() ==> corner_of(#[trigger] rows(pieces@)[m]) == Some(
                    (corners@[m].0 as int, corners@[m].1 as int),
                ),
            forall|m: int|
                0 <= m < j ==> {
                    let a = #[trigger] found[m];
                    let b = found[m + 1];
                    (a.0 == b.0 || a.1 == b.1) && a.0 < u32::MAX && a.1 < u32::MAX && b.0
                        < u32::MAX && b.1 < u32::MAX
                },
        decreases corners.len() - 1 - j,
    {
        let a: (u32, u32) = corners[j];
        let b: (u32, u32) = corners[j + 1];
        assert(corner_of(rows(pieces@)[j as int]) == Some((a.0 as int, a.1 as int)));
        assert(corner_of(rows(pieces@)[j + 1]) == Some((b.0 as int, b.1 as int)));
        assert(found[j as int] == (a.0 as int, a.1 as int));
        assert(found[j + 1] == (b.0 as int, b.1 as int));
        if !((a.0 == b.0 || a.1 == b.1) && a.0 < 0xffff_ffff && a.1 < 0xffff_ffff && b.0
            < 0xffff_ffff && b.1 < 0xffff_ffff) {
            return false;
        }
        j += 1;
    }
    true
}

/// Whether every line describes a wall.
fn describes_cave(input: &str) -> (b: bool)
    ensures
        b == is_cave(input@),
{
    let text = chars_of(input);
    let ls = lines_of(&text);
    let ghost all = lines(input@);
    let mut sign: Vec<char> = Vec::new();
    sign.push(' ');
    sign.push('-');
    sign.push('>');
    sign.push(' ');
    assert(sign@ =~= arrow());
    let mut i: usize = 0;
    while i < ls.len()
        invariant
            i <= ls.len(),
            all == rows(ls@),
            all == lines(input@),
            sign@ == arrow(),
            forall|k: int| 0 <= k < i ==> is_wall_line(#[trigger] all[k]),
        decreases ls.len() - i,
    {
        assert(all[i as int] == ls@[i as int]@);
        if !describes_wall(&ls[i], &sign) {
            return false;
        }
        i += 1;
    }
    true
}

/// The walls of a cave with a wall, none deeper than 498, and the depth of
/// the lowest.
fn shallow_walls(input: &str) -> (r: Option<(HashSet<u64>, u32)>)
    ensures
        r is Some <==> is_shallow(input@),
        r matches Some((walls, depth)) ==> cells(walls@) == walls_of(input@) && depth
            == depth_of(input@) && depth <= 498,
{
    if !describes_cave(input) {
        return None;
    }
    let (walls, lowest) = scan_walls(input);
    match lowest {
        None => None,
        Some(depth) => {
            proof {
                lemma_depth(input@, depth);
                let deep = choose|c: (int, int)| walls_of(input@).contains(c) && c.1 == depth;
            }
            if depth > 498 {
                None
            } else {
                Some((walls, depth))
            }
        },
    }
}

/// The positions of the walls that `input` describes.
pub fn get_walls(input: &str) -> (walls: HashSet<u64>)
    requires
        is_cave(input@),
    ensures
        cells(walls@) == walls_of(input@),
{
    scan_walls(input).0
}

/// The positions of the walls that `input` describes, and the depth of the
/// lowest.
fn scan_walls(input: &str) -> (r: (HashSet<u64>, Option<u32>))
    requires
        is_cave(input@),
    ensures
        cells(r.0@) == walls_of(input@),
        is_lowest(walls_of(input@), r.1),
{
    let mut walls: HashSet<u64> = HashSet::new();
    let mut lowest: Option<u32> = None;
    let text = chars_of(input);
    let ls = lines_of(&text);
    let ghost all = lines(input@);
    let mut sign: Vec<char> = Vec::new();
    sign.push(' ');
    sign.push('-');
    sign.push('>');
    sign.push(' ');
    assert(sign@ =~= arrow());
    let mut i: usize = 0;
    assert(cells(walls@) =~= walls_up_to(all, 0));
    while i < ls.len()
        invariant
            i <= ls.len(),
            all == rows(ls@),
            all == lines(input@),
            is_cave(input@),
            sign@ == arrow(),
            cells(walls@) == walls_up_to(all, i as int),
            is_lowest(cells(walls@), lowest),
        decreases ls.len() - i,
    {
        assert(all[i as int] == ls@[i as int]@);
        assert(is_wall_line(all[i as int]));
        let pieces = split_on(&ls[i], &sign);
        let ghost line = all[i as int];
        let ghost found = corners_of(line);
        let mut corners: Vec<(u32, u32)> = Vec::new();
        let mut k: usize = 0;
        while k < pieces.len()
            invariant
                k <= pieces.len(),
                rows(pieces@) == split(line, arrow()),
                is_wall_line(line),
                found == corners_of(line),
                corners.len() == k,
                forall|m: int|
                    0 <= m < k ==> found[m] == ((#[trigger] corners@[m]).0 as int, corners@[m].1 as int),
            decreases pieces.len() - k,
        {
            assert(rows(pieces@)[k as int] == pieces@[k as int]@);
            corners.push(read_corner(&pieces[k]));
            k += 1;
        }
        let ghost at_line = cells(walls@);
        let mut j: usize = 0;
        assert(cells(walls@) =~= at_line.union(stretches(found, 0)));
        while j < corners.len() - 1
            invariant
                j <= corners.len() - 1,
                corners.len() >= 1,
                corners.len() == found.len(),
                is_wall_line(line),
                found == corners_of(line),
                forall|m: int|
                    0 <= m < corners.len() ==> found[m] == ((#[trigger] corners@[m]).0 as int, corners@[m].1 as int),
                cells(walls@) == at_line.union(stretches(found, j as int)),
                is_lowest(cells(walls@), lowest),
            decreases corners.len() - 1 - j,
        {
            let from: (u32, u32) = corners[j];
            let to: (u32, u32) = corners[j + 1];
            let ghost a = found[j as int];
            let ghost b = found[j + 1];
            let ghost before = cells(walls@);
            assert(a == (from.0 as int, from.1 as int));
            assert(b == (to.0 as int, to.1 as int));
            if from.0 == to.0 {
                if to.1 > from.1 {
                    fill(&mut walls, false, from.0, from.1, to.1);
                } else {
                    fill(&mut walls, false, from.0, to.1, from.1);
                }
            } else {
                if to.0 > from.0 {
                    fill(&mut walls, true, from.1, from.0, to.0);
                } else {
                    fill(&mut walls, true, from.1, to.0, from.0);
                }
            }
            let deeper = if from.1 >= to.1 {
                from.1
            } else {
                to.1
            };
            let ghost lowest_before = lowest;
            lowest =
            match lowest {
                None => Some(deeper),
                Some(y) => if deeper > y {
                    Some(deeper)
                } else {
                    Some(y)
                },
            };
            proof {
                assert forall|c: (int, int)| cells(walls@).contains(c) <==> before.contains(c)
                    || on_segment(a, b, c) by {}
                assert(on_segment(a, b, a) && on_segment(a, b, b));
                assert(cells(walls@).contains(a) && cells(walls@).contains(b));
                if lowest_before is Some && lowest == lowest_before {
                    let w = choose|c: (int, int)| before.contains(c) && c.1 == lowest_before->0;
                    assert(cells(walls@).contains(w));
                }
                assert forall|c: (int, int)| stretches(found, j + 1).contains(c) <==> stretches(
                    found,
                    j as int,
                ).contains(c) || on_segment(a, b, c) by {
                    if stretches(found, j + 1).contains(c) {
                        let m = choose|m: int|
                            0 <= m < j + 1 && m < found.len() - 1 && on_segment(
                                #[trigger] found[m],
                                found[m + 1],
                                c,
                            );
                        if m < j {
                            assert(stretches(found, j as int).contains(c));
                        }
                    }
                    if stretches(found, j as int).contains(c) {
                        let m = choose|m: int|
                            0 <= m < j && m < found.len() - 1 && on_segment(
                                #[trigger] found[m],
                                found[m + 1],
                                c,
                            );
                        assert(0 <= m < j + 1);
                    }
                    if on_segment(a, b, c) {
                        assert(on_segment(found[j as int], found[j + 1], c));
                    }
                }
                assert(cells(walls@) =~= at_line.union(stretches(found, j + 1)));
            }
            j += 1;
        }
        proof {
            assert forall|c: (int, int)| stretches(found, j as int).contains(c) <==> stretches(
                found,
                found.len() as int,
            ).contains(c) by {
                if stretches(found, found.len() as int).contains(c) {
                    let m = choose|m: int|
                        0 <= m < found.len() && m < found.len() - 1 && on_segment(
                            #[trigger] found[m],
                            found[m + 1],
                            c,
                        );
                    assert(0 <= m < j);
                }
                if stretches(found, j as int).contains(c) {
                    let m = choose|m: int|
                        0 <= m < j && m < found.len() - 1 && on_segment(
                            #[trigger] found[m],
                            found[m + 1],
                            c,
                        );
                    assert(0 <= m < found.len());
                }
            }
            assert forall|c: (int, int)| walls_up_to(all, i + 1).contains(c) <==> walls_up_to(
                all,
                i as int,
            ).contains(c) || stretches(found, found.len() as int).contains(c) by {
                if walls_up_to(all, i + 1).contains(c) {
                    let m = choose|m: int|
                        0 <= m < i + 1 && m < all.len() && stretches(
                            corners_of(#[trigger] all[m]),
                            corners_of(all[m]).len() as int,
                        ).contains(c);
                    if m < i {
                        assert(walls_up_to(all, i as int).contains(c));
                    }
                }
                if walls_up_to(all, i as int).contains(c) {
                    let m = choose|m: int|
                        0 <= m < i && m < all.len() && stretches(
                            corners_of(#[trigger] all[m]),
                            corners_of(all[m]).len() as int,
                        ).contains(c);
                    assert(0 <= m < i + 1);
                }
                if stretches(found, found.len() as int).contains(c) {
                    assert(stretches(corners_of(all[i as int]), corners_of(all[i as int]).len() as int).contains(c));
                }
            }
            assert(cells(walls@) =~= walls_up_to(all, i + 1));
        }
        i += 1;
    }
    (walls, lowest)
}

/// The positions taken after `k` grains have been let go, one after the
/// other.
pub open spec fn sand_after(taken: Set<(int, int)>, max_y: int, floor: bool, k: int) -> Set<
    (int, int),
>
    decreases k,
{
    if k <= 0 {
        taken
    } else {
        let before = sand_after(taken, max_y, floor, k - 1);
        match drop_of(before, max_y, floor) {
            Some(c) => before.insert(c),
            None => before,
        }
    }
}

/// After `k` grains have come to rest, the next one is lost.
pub open spec fn lost_at(walls: Set<(int, int)>, max_y: int, k: int) -> bool {
    drop_of(sand_after(walls, max_y, false, k), max_y, false) is None
}

/// After `k` grains have come to rest on walls and floor, the next one
/// comes to rest at the source.
pub open spec fn plugged_at(walls: Set<(int, int)>, max_y: int, k: int) -> bool {
    drop_of(sand_after(walls, max_y, true, k), max_y, true) == Some((500int, 0int))
}

/// With a floor no grain is lost.
proof fn lemma_floor_catches(taken: Set<(int, int)>, max_y: int, c: (int, int))
    requires
        c.1 <= max_y,
    ensures
        falls_from(taken, max_y, true, c) is Some,
    decreases max_y + 1 - c.1,
{
    match next_step(taken, c) {
        None => {},
        Some(n) => {
            if n.1 <= max_y {
                lemma_floor_catches(taken, max_y, n);
            }
        },
    }
}

/// `input` describes a cave with a wall, none deeper than 498: a grain
/// that falls no deeper than one below the lowest wall stays clear of the
/// limits of 32 bits.
pub open spec fn is_shallow(input: Seq<char>) -> bool {
    &&& is_cave(input)
    &&& exists|c: (int, int)| walls_of(input).contains(c)
    &&& forall|c: (int, int)| walls_of(input).contains(c) ==> c.1 <= 498
}

/// The depth of the lowest wall.
pub open spec fn depth_of(input: Seq<char>) -> int {
    (choose|y: u32| #[trigger] is_lowest(walls_of(input), Some(y))) as int
}

/// The depth of the lowest wall is the same however it is found.
proof fn lemma_depth(input: Seq<char>, y: u32)
    requires
        is_lowest(walls_of(input), Some(y)),
    ensures
        depth_of(input) == y,
{
    let d = choose|d: u32| #[trigger] is_lowest(walls_of(input), Some(d));
    let a = choose|c: (int, int)| walls_of(input).contains(c) && c.1 == y;
    let b = choose|c: (int, int)| walls_of(input).contains(c) && c.1 == d;
    assert(a.1 <= d);
    assert(b.1 <= y);
}

/// The first grain is lost after `k` grains have come to rest.
pub open spec fn first_lost_at(input: Seq<char>, k: int) -> bool {
    &&& 0 <= k
    &&& lost_at(walls_of(input), depth_of(input), k)
    &&& forall|j: int| 0 <= j < k ==> !lost_at(walls_of(input), depth_of(input), j)
}

/// The first grain that comes to rest at the source is the one after `k`
/// others.
pub open spec fn first_plugged_at(input: Seq<char>, k: int) -> bool {
    &&& 0 <= k
    &&& plugged_at(walls_of(input), depth_of(input), k)
    &&& forall|j: int| 0 <= j < k ==> !plugged_at(walls_of(input), depth_of(input), j)
}

/// A grain is lost before more grains have come to rest than a 32-bit number
/// counts.
pub open spec fn is_lost_in_time(input: Seq<char>) -> bool {
    exists|k: int| 0 <= k <= i32::MAX && lost_at(walls_of(input), depth_of(input), k)
}

/// A grain comes to rest at the source before more grains have come to rest
/// than a 32-bit number counts.
pub open spec fn is_plugged_in_time(input: Seq<char>) -> bool {
    exists|k: int| 0 <= k < i32::MAX && plugged_at(walls_of(input), depth_of(input), k)
}

impl DayFourteen {
    /// Both answers; `None` where the lines describe no cave, no wall or one
    /// deeper than 498, or the grains outnumber the numbers of 32 bits.
    pub fn solve(&self, input: &str) -> (r: Option<(String, String)>)
        ensures
            r is Some <==> is_shallow(input@) && is_lost_in_time(input@) && is_plugged_in_time(
                input@,
            ),
            r matches Some(a) ==> exists|k: int, m: int|
                #[trigger] first_lost_at(input@, k) && #[trigger] first_plugged_at(input@, m) && a.0@
                    == "Number until fall: "@ + decimal(k as nat) && a.1@
                    == "Number until bottleneck: "@ + decimal((m + 1) as nat),
    {
        match (self.try_part_one(input), self.try_part_two(input)) {
            (Some(one), Some(two)) => {
                proof {
                    let k = choose|k: int|
                        #[trigger] first_lost_at(input@, k) && one@ == "Number until fall: "@
                            + decimal(k as nat);
                    let m = choose|m: int|
                        #[trigger] first_plugged_at(input@, m) && two@
                            == "Number until bottleneck: "@ + decimal((m + 1) as nat);
                    assert(first_lost_at(input@, k) && first_plugged_at(input@, m));
                }
                Some((one, two))
            },
            _ => None,
        }
    }

    /// Reports how many grains come to rest before one is lost; `None`
    /// where the lines describe no cave, no wall or one deeper than 498, or
    /// no grain is lost in time.
    pub fn try_part_one(&self, input: &str) -> (r: Option<String>)
        ensures
            r is Some <==> is_shallow(input@) && is_lost_in_time(input@),
            r matches Some(out) ==> exists|k: int|
                #[trigger] first_lost_at(input@, k) && out@ == "Number until fall: "@ + decimal(
                    k as nat,
                ),
    {
        let (walls, max_y) = match shallow_walls(input) {
            None => {
                return None;
            },
            Some(found) => found,
        };
        let mut coords = walls;
        let ghost w = walls_of(input@);
        let mut count: i32 = 0;
        let mut lost = false;
        loop
            invariant_except_break
                !lost,
            invariant
                max_y <= 498,
                0 <= count <= i32::MAX,
                cells(coords@) == sand_after(w, max_y as int, false, count as int),
                forall|j: int| 0 <= j < count ==> !lost_at(w, max_y as int, j),
            ensures
                0 <= count,
                lost ==> lost_at(w, max_y as int, count as int),
                forall|j: int| 0 <= j < count ==> !lost_at(w, max_y as int, j),
                !lost ==> count == i32::MAX && !lost_at(w, max_y as int, count as int),
            decreases i32::MAX - count,
        {
            match simulate_drop(&coords, max_y, false) {
                Some(coord) => {
                    if count == 0x7fff_ffff {
                        break ;
                    }
                    occupy(&mut coords, coord);
                    count += 1;
                },
                None => {
                    lost = true;
                    break ;
                },
            }
        }
        if lost {
            assert(first_lost_at(input@, count as int));
            Some(labelled_number("Number until fall: ", count as u64))
        } else {
            None
        }
    }

    /// Reports how many grains come to rest, with a floor two below the
    /// lowest wall, until one comes to rest at the source; `None` where the
    /// lines describe no cave, no wall or one deeper than 498, or the source
    /// is not reached in time.
    pub fn try_part_two(&self, input: &str) -> (r: Option<String>)
        ensures
            r is Some <==> is_shallow(input@) && is_plugged_in_time(input@),
            r matches Some(out) ==> exists|k: int|
                #[trigger] first_plugged_at(input@, k) && out@ == "Number until bottleneck: "@
                    + decimal((k + 1) as nat),
    {
        let (walls, max_y) = match shallow_walls(input) {
            None => {
                return None;
            },
            Some(found) => found,
        };
        let mut coords = walls;
        let ghost w = walls_of(input@);
        let mut count: i32 = 0;
        let mut plugged = false;
        loop
            invariant_except_break
                !plugged,
                cells(coords@) == sand_after(w, max_y as int, true, count as int),
                forall|j: int| 0 <= j < count ==> !plugged_at(w, max_y as int, j),
            invariant
                max_y <= 498,
                0 <= count <= i32::MAX,
            ensures
                plugged ==> count >= 1 && plugged_at(w, max_y as int, count - 1) && forall|j: int|
                    0 <= j < count - 1 ==> !plugged_at(w, max_y as int, j),
                !plugged ==> forall|j: int| 0 <= j < i32::MAX ==> !plugged_at(w, max_y as int, j),
            decreases i32::MAX - count,
        {
            if count == 0x7fff_ffff {
                break ;
            }
            proof {
                lemma_floor_catches(cells(coords@), max_y as int, (500, 0));
            }
            let coord = simulate_drop(&coords, max_y, true).unwrap();
            occupy(&mut coords, coord);
            count += 1;
            if coord.0 == 500 && coord.1 == 0 {
                plugged = true;
                break ;
            }
        }
        if plugged {
            assert(first_plugged_at(input@, count - 1));
            Some(labelled_number("Number until bottleneck: ", count as u64))
        } else {
            None
        }
    }

    /// Reports how many grains come to rest before one is lost.
    pub fn part_one(&self, input: &str) -> (out: String)
        requires
            is_shallow(input@),
            is_lost_in_time(input@),
        ensures
            exists|k: int|
                #[trigger] first_lost_at(input@, k) && out@ == "Number until fall: "@ + decimal(
                    k as nat,
                ),
    {
        self.try_part_one(input).unwrap()
    }

    /// Reports how many grains come to rest, with a floor two below the
    /// lowest wall, until one comes to rest at the source.
    pub fn part_two(&self, input: &str) -> (out: String)
        requires
            is_shallow(input@),
            is_plugged_in_time(input@),
        ensures
            exists|k: int|
                #[trigger] first_plugged_at(input@, k) && out@ == "Number until bottleneck: "@
                    + decimal((k + 1) as nat),
    {
        self.try_part_two(input).unwrap()
    }
}

} // verus!
