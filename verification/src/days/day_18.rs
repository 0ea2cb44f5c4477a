use crate::text::{
    chars_of, decimal, labelled_number, lines, lines_of, one_char, parse_i64, parse_within, rows,
    split, split_on, trim, trimmed,
};
use std::collections::VecDeque;
use vstd::prelude::*;

verus! {

pub struct DayEighteen;

/// Droplets of lava in a box of unit cubes that reaches one cube beyond them
/// on every side. The box is held as rows of rows of rows of cubes, each
/// marked where it is lava.
pub struct Lava {
    droplets: Vec<Vec<Vec<bool>>>,
    x_extent: (i32, i32),
    y_extent: (i32, i32),
    z_extent: (i32, i32),
}

/// The cube at `(i, j, k)` lies in the box and is marked.
pub open spec fn marked(g: Seq<Vec<Vec<bool>>>, i: int, j: int, k: int) -> bool {
    0 <= i < g.len() && 0 <= j < g[i]@.len() && 0 <= k < g[i]@[j]@.len() && g[i]@[j]@[k]
}

/// The box is `nx` cubes long, `ny` wide and `nz` high.
pub open spec fn is_box(g: Seq<Vec<Vec<bool>>>, nx: int, ny: int, nz: int) -> bool {
    &&& g.len() == nx
    &&& forall|i: int| 0 <= i < nx ==> (#[trigger] g[i])@.len() == ny
    &&& forall|i: int, j: int| 0 <= i < nx && 0 <= j < ny ==> (#[trigger] g[i]@[j])@.len() == nz
}

/// The cube beside `(i, j, k)` in direction `d`, one of six.
pub open spec fn beside(c: (int, int, int), d: int) -> (int, int, int) {
    if d == 0 {
        (c.0 + 1, c.1, c.2)
    } else if d == 1 {
        (c.0 - 1, c.1, c.2)
    } else if d == 2 {
        (c.0, c.1 + 1, c.2)
    } else if d == 3 {
        (c.0, c.1 - 1, c.2)
    } else if d == 4 {
        (c.0, c.1, c.2 + 1)
    } else {
        (c.0, c.1, c.2 - 1)
    }
}

/// The number of the first `d` directions in which the cube beside `c` is
/// not marked.
pub open spec fn open_sides(g: Seq<Vec<Vec<bool>>>, c: (int, int, int), d: int) -> int
    decreases d,
{
    if d <= 0 {
        0
    } else {
        let n = beside(c, d - 1);
        open_sides(g, c, d - 1) + (if marked(g, n.0, n.1, n.2) {
            0int
        } else {
            1int
        })
    }
}

/// The sides of a marked cube that face a cube that is not marked; nothing
/// for a cube that is not marked itself.
pub open spec fn faces(g: Seq<Vec<Vec<bool>>>, c: (int, int, int)) -> int {
    if marked(g, c.0, c.1, c.2) {
        open_sides(g, c, 6)
    } else {
        0
    }
}

/// The faces of the first `k` cubes of the column at `(i, j)`.
pub open spec fn area_column(g: Seq<Vec<Vec<bool>>>, i: int, j: int, k: int) -> int
    decreases k,
{
    if k <= 0 {
        0
    } else {
        area_column(g, i, j, k - 1) + faces(g, (i, j, k - 1))
    }
}

/// The faces of the first `j` columns of the slice at `i`.
pub open spec fn area_slice(g: Seq<Vec<Vec<bool>>>, nz: int, i: int, j: int) -> int
    decreases j,
{
    if j <= 0 {
        0
    } else {
        area_slice(g, nz, i, j - 1) + area_column(g, i, j - 1, nz)
    }
}

/// The faces of the first `i` slices of the box.
pub open spec fn area_slices(g: Seq<Vec<Vec<bool>>>, ny: int, nz: int, i: int) -> int
    decreases i,
{
    if i <= 0 {
        0
    } else {
        area_slices(g, ny, nz, i - 1) + area_slice(g, nz, i - 1, ny)
    }
}

/// The surface area of the marked cubes of a box: the number of their sides
/// that face a cube that is not marked.
pub open spec fn area(g: Seq<Vec<Vec<bool>>>, nx: int, ny: int, nz: int) -> int {
    area_slices(g, ny, nz, nx)
}

/// A column has at most six faces per cube.
proof fn lemma_area_column_bound(g: Seq<Vec<Vec<bool>>>, i: int, j: int, k: int)
    requires
        0 <= k,
    ensures
        0 <= area_column(g, i, j, k) <= 6 * k,
    decreases k,
{
    if k > 0 {
        lemma_area_column_bound(g, i, j, k - 1);
        reveal_with_fuel(open_sides, 7);
    }
}

/// Whether the cube at `(i, j, k)` is marked; a cube outside the box is not.
fn is_marked(g: &Vec<Vec<Vec<bool>>>, i: usize, j: usize, k: usize) -> (b: bool)
    ensures
        b == marked(g@, i as int, j as int, k as int),
{
    i < g.len() && j < g[i].len() && k < g[i][j].len() && g[i][j][k]
}

/// The number of sides of the cube at `(i, j, k)` that face a cube that is
/// not marked.
fn count_open_sides(g: &Vec<Vec<Vec<bool>>>, i: usize, j: usize, k: usize) -> (n: usize)
    requires
        i < usize::MAX && j < usize::MAX && k < usize::MAX,
    ensures
        n == open_sides(g@, (i as int, j as int, k as int), 6),
        n <= 6,
{
    reveal_with_fuel(open_sides, 7);
    let mut n: usize = 0;
    if !is_marked(g, i + 1, j, k) {
        n += 1;
    }
    if i == 0 || !is_marked(g, i - 1, j, k) {
        n += 1;
    }
    if !is_marked(g, i, j + 1, k) {
        n += 1;
    }
    if j == 0 || !is_marked(g, i, j - 1, k) {
        n += 1;
    }
    if !is_marked(g, i, j, k + 1) {
        n += 1;
    }
    if k == 0 || !is_marked(g, i, j, k - 1) {
        n += 1;
    }
    n
}

/// The surface area of the marked cubes of a box, where a number of the
/// machine holds it.
fn _get_surface_area(g: &Vec<Vec<Vec<bool>>>, nx: usize, ny: usize, nz: usize) -> (r: Option<usize>)
    requires
        is_box(g@, nx as int, ny as int, nz as int),
        nx < usize::MAX && ny < usize::MAX && nz < usize::MAX,
    ensures
        r is Some <==> area(g@, nx as int, ny as int, nz as int) <= usize::MAX,
        r matches Some(total) ==> total == area(g@, nx as int, ny as int, nz as int),
{
    let mut total: usize = 0;
    let mut i: usize = 0;
    while i < nx
        invariant
            i <= nx,
            is_box(g@, nx as int, ny as int, nz as int),
            nx < usize::MAX && ny < usize::MAX && nz < usize::MAX,
            total == area_slices(g@, ny as int, nz as int, i as int),
        decreases nx - i,
    {
        let ghost at_slice = total;
        let mut j: usize = 0;
        proof {
            lemma_area_parts(g@, nx as int, ny as int, nz as int, i as int, 0, 0);
        }
        while j < ny
            invariant
                i < nx,
                j <= ny,
                is_box(g@, nx as int, ny as int, nz as int),
                nx < usize::MAX && ny < usize::MAX && nz < usize::MAX,
                at_slice == area_slices(g@, ny as int, nz as int, i as int),
                total == at_slice + area_slice(g@, nz as int, i as int, j as int),
            decreases ny - j,
        {
            let ghost at_column = total;
            let mut k: usize = 0;
            while k < nz
                invariant
                    i < nx,
                    j < ny,
                    k <= nz,
                    is_box(g@, nx as int, ny as int, nz as int),
                    nx < usize::MAX && ny < usize::MAX && nz < usize::MAX,
                        at_column == area_slices(g@, ny as int, nz as int, i as int) + area_slice(
                        g@,
                        nz as int,
                        i as int,
                        j as int,
                    ),
                    total == at_column + area_column(g@, i as int, j as int, k as int),
                decreases nz - k,
            {
                proof {
                    lemma_area_parts(g@, nx as int, ny as int, nz as int, i as int, j as int, k + 1);
                }
                if g[i][j][k] {
                    let sides = count_open_sides(g, i, j, k);
                    if sides > usize::MAX - total {
                        return None;
                    }
                    total = total + sides;
                }
                k += 1;
            }
            j += 1;
        }
        i += 1;
    }
    Some(total)
}

/// The faces counted up to a place in the box are at most those of the
/// whole box.
proof fn lemma_area_parts(g: Seq<Vec<Vec<bool>>>, nx: int, ny: int, nz: int, i: int, j: int, k: int)
    requires
        0 <= i < nx,
        0 <= j <= ny,
        0 <= k <= nz,
        j < ny || k == 0,
    ensures
        0 <= area_slices(g, ny, nz, i) + area_slice(g, nz, i, j) + area_column(g, i, j, k) <= area(
            g,
            nx,
            ny,
            nz,
        ),
{
    lemma_area_column_bound(g, i, j, k);
    lemma_column_grows(g, i, j, k, nz);
    lemma_slice_grows(g, nz, i, j, ny);
    if j < ny {
        lemma_slice_grows(g, nz, i, j + 1, ny);
    }
    lemma_slices_grow(g, ny, nz, i + 1, nx);
    lemma_slices_grow(g, ny, nz, 0, i);
}

/// A longer part of a column has at least as many faces.
proof fn lemma_column_grows(g: Seq<Vec<Vec<bool>>>, i: int, j: int, k: int, k2: int)
    requires
        0 <= k <= k2,
    ensures
        0 <= area_column(g, i, j, k) <= area_column(g, i, j, k2),
    decreases k2 - k,
{
    lemma_area_column_bound(g, i, j, k);
    if k < k2 {
        lemma_column_grows(g, i, j, k, k2 - 1);
        reveal_with_fuel(open_sides, 7);
    }
}

/// A wider part of a slice has at least as many faces.
proof fn lemma_slice_grows(g: Seq<Vec<Vec<bool>>>, nz: int, i: int, j: int, j2: int)
    requires
        0 <= j <= j2,
        0 <= nz,
    ensures
        0 <= area_slice(g, nz, i, j) <= area_slice(g, nz, i, j2),
    decreases j2,
{
    if j2 > 0 {
        lemma_area_column_bound(g, i, j2 - 1, nz);
        if j < j2 {
            lemma_slice_grows(g, nz, i, j, j2 - 1);
        } else {
            lemma_slice_grows(g, nz, i, j - 1, j2 - 1);
        }
    }
}

/// More slices have at least as many faces.
proof fn lemma_slices_grow(g: Seq<Vec<Vec<bool>>>, ny: int, nz: int, i: int, i2: int)
    requires
        0 <= i <= i2,
        0 <= ny,
        0 <= nz,
    ensures
        0 <= area_slices(g, ny, nz, i) <= area_slices(g, ny, nz, i2),
    decreases i2,
{
    if i2 > 0 {
        lemma_slice_grows(g, nz, i2 - 1, 0, ny);
        if i < i2 {
            lemma_slices_grow(g, ny, nz, i, i2 - 1);
        } else {
            lemma_slices_grow(g, ny, nz, i - 1, i2 - 1);
        }
    }
}

/// The droplet that `line` writes: numbers of 32 bits with commas between
/// them, the first three of which are its coordinates.
pub open spec fn droplet_of(line: Seq<char>) -> Option<(int, int, int)> {
    let p = split(trimmed(line), seq![',']);
    if p.len() >= 3 && forall|i: int|
        0 <= i < p.len() ==> parse_within(#[trigger] p[i], true, i32::MIN as int, i32::MAX as int)
            is Some {
        Some(
            (
                parse_within(p[0], true, i32::MIN as int, i32::MAX as int)->0,
                parse_within(p[1], true, i32::MIN as int, i32::MAX as int)->0,
                parse_within(p[2], true, i32::MIN as int, i32::MAX as int)->0,
            ),
        )
    } else {
        None
    }
}

/// The droplet lies two cubes at least off the limits of 32 bits, so that
/// the box around all droplets and the cubes beside it can be numbered.
pub open spec fn in_reach(c: (int, int, int)) -> bool {
    &&& i32::MIN + 2 <= c.0 <= i32::MAX - 2
    &&& i32::MIN + 2 <= c.1 <= i32::MAX - 2
    &&& i32::MIN + 2 <= c.2 <= i32::MAX - 2
}

/// `input` writes one droplet per line, and at least one.
pub open spec fn is_scan(input: Seq<char>) -> bool {
    &&& lines(input).len() > 0
    &&& forall|i: int|
        0 <= i < lines(input).len() ==> droplet_of(#[trigger] lines(input)[i]) is Some && in_reach(
            droplet_of(lines(input)[i])->0,
        )
}

/// The droplets that `input` writes.
pub open spec fn droplets_of(input: Seq<char>) -> Seq<(int, int, int)> {
    Seq::new(lines(input).len(), |i: int| droplet_of(lines(input)[i])->0)
}

/// Parses a number of 32 bits.
fn parse_i32(v: &Vec<char>) -> (r: Option<i32>)
    ensures
        match r {
            Some(x) => parse_within(v@, true, i32::MIN as int, i32::MAX as int) == Some(x as int),
            None => parse_within(v@, true, i32::MIN as int, i32::MAX as int) is None,
        },
{
    match parse_i64(v) {
        None => None,
        Some(x) => if -0x8000_0000 <= x && x <= 0x7fff_ffff {
            Some(x as i32)
        } else {
            None
        },
    }
}

/// Parses a droplet.
fn read_droplet(line: &Vec<char>) -> (c: (i32, i32, i32))
    requires
        droplet_of(line@) is Some,
    ensures
        droplet_of(line@) == Some((c.0 as int, c.1 as int, c.2 as int)),
{
    try_droplet(line).unwrap()
}

/// Parses a droplet where the line writes one.
fn try_droplet(line: &Vec<char>) -> (c: Option<(i32, i32, i32)>)
    ensures
        match c {
            Some(c) => droplet_of(line@) == Some((c.0 as int, c.1 as int, c.2 as int)),
            None => droplet_of(line@) is None,
        },
{
    let pieces = split_on(&trim(line), &one_char(','));
    let ghost p = split(trimmed(line@), seq![',']);
    let mut coords: Vec<i32> = Vec::new();
    let mut i: usize = 0;
    while i < pieces.len()
        invariant
            i <= pieces.len(),
            p == rows(pieces@),
            p == split(trimmed(line@), seq![',']),
            coords.len() == i,
            forall|k: int|
                0 <= k < i ==> Some(coords@[k] as int) == parse_within(
                    #[trigger] p[k],
                    true,
                    i32::MIN as int,
                    i32::MAX as int,
                ),
        decreases pieces.len() - i,
    {
        assert(p[i as int] == pieces@[i as int]@);
        match parse_i32(&pieces[i]) {
            None => {
                return None;
            },
            Some(x) => {
                coords.push(x);
            },
        }
        i += 1;
    }
    if coords.len() < 3 {
        return None;
    }
    Some((coords[0], coords[1], coords[2]))
}

/// Whether the lines write one droplet each, all within reach, and at least
/// one.
fn reads_scan(input: &str) -> (b: bool)
    ensures
        b == is_scan(input@),
{
    let text = chars_of(input);
    let ls = lines_of(&text);
    let ghost all = lines(input@);
    if ls.len() == 0 {
        return false;
    }
    let mut i: usize = 0;
    while i < ls.len()
        invariant
            i <= ls.len(),
            all == rows(ls@),
            all == lines(input@),
            forall|k: int|
                0 <= k < i ==> droplet_of(#[trigger] all[k]) is Some && in_reach(
                    droplet_of(all[k])->0,
                ),
        decreases ls.len() - i,
    {
        assert(all[i as int] == ls@[i as int]@);
        match try_droplet(&ls[i]) {
            None => {
                return false;
            },
            Some(c) => {
                if !(-0x7fff_fffe <= c.0 && c.0 <= 0x7fff_fffd && -0x7fff_fffe <= c.1 && c.1
                    <= 0x7fff_fffd && -0x7fff_fffe <= c.2 && c.2 <= 0x7fff_fffd) {
                    return false;
                }
            },
        }
        i += 1;
    }
    true
}

/// A box of `nx` by `ny` by `nz` cubes, none marked.
fn empty_box(nx: usize, ny: usize, nz: usize) -> (g: Vec<Vec<Vec<bool>>>)
    ensures
        is_box(g@, nx as int, ny as int, nz as int),
        forall|i: int, j: int, k: int| !marked(g@, i, j, k),
{
    let mut g: Vec<Vec<Vec<bool>>> = Vec::new();
    let mut i: usize = 0;
    while i < nx
        invariant
            i <= nx,
            is_box(g@, i as int, ny as int, nz as int),
            forall|a: int, b: int, c: int| !marked(g@, a, b, c),
        decreases nx - i,
    {
        let mut slice: Vec<Vec<bool>> = Vec::new();
        let mut j: usize = 0;
        while j < ny
            invariant
                j <= ny,
                slice.len() == j,
                forall|b: int| 0 <= b < j ==> (#[trigger] slice@[b])@.len() == nz,
                forall|b: int, c: int|
                    0 <= b < j && 0 <= c < nz ==> !(#[trigger] slice@[b]@[c]),
            decreases ny - j,
        {
            let mut column: Vec<bool> = Vec::new();
            let mut k: usize = 0;
            while k < nz
                invariant
                    k <= nz,
                    column.len() == k,
                    forall|c: int| 0 <= c < k ==> !column@[c],
                decreases nz - k,
            {
                column.push(false);
                k += 1;
            }
            slice.push(column);
            j += 1;
        }
        let ghost before = g@;
        let ghost added = slice@;
        g.push(slice);
        proof {
            assert forall|a: int, b: int, c: int| !marked(g@, a, b, c) by {
                if 0 <= a < i {
                    assert(g@[a] == before[a]);
                    assert(!marked(before, a, b, c));
                } else if a == i && 0 <= b < ny && 0 <= c < nz {
                    assert(!added[b]@[c]);
                }
            }
        }
        i += 1;
    }
    g
}

/// Marks the cube at `(i, j, k)`.
fn mark(g: &mut Vec<Vec<Vec<bool>>>, i: usize, j: usize, k: usize, Ghost(dims): Ghost<(int, int, int)>)
    requires
        is_box(old(g)@, dims.0, dims.1, dims.2),
        i < dims.0 && j < dims.1 && k < dims.2,
    ensures
        is_box(final(g)@, dims.0, dims.1, dims.2),
        forall|a: int, b: int, c: int|
            marked(final(g)@, a, b, c) <==> (marked(old(g)@, a, b, c) || (a == i && b == j && c
                == k)),
{
    let ghost before = g@;
    g[i][j].set(k, true);
    proof {
        assert forall|a: int| 0 <= a < dims.0 implies (#[trigger] g@[a])@.len() == dims.1 by {
            assert(before[a]@.len() == dims.1);
        }
        assert forall|a: int, b: int| 0 <= a < dims.0 && 0 <= b < dims.1 implies (
        #[trigger] g@[a]@[b])@.len() == dims.2 by {
            assert(before[a]@[b]@.len() == dims.2);
        }
    }
}

impl Lava {
    /// The box, as rows of rows of rows of cubes.
    pub closed spec fn grid(self) -> Seq<Vec<Vec<bool>>> {
        self.droplets@
    }

    /// The corner of the box with the least coordinates.
    pub closed spec fn origin(self) -> (int, int, int) {
        (self.x_extent.0 as int, self.y_extent.0 as int, self.z_extent.0 as int)
    }

    /// The numbers of cubes along the three axes of the box.
    pub closed spec fn dims(self) -> (int, int, int) {
        (
            self.x_extent.1 - self.x_extent.0 + 1,
            self.y_extent.1 - self.y_extent.0 + 1,
            self.z_extent.1 - self.z_extent.0 + 1,
        )
    }

    /// The cube at `c` is lava.
    pub open spec fn is_droplet(self, c: (int, int, int)) -> bool {
        marked(
            self.grid(),
            c.0 - self.origin().0,
            c.1 - self.origin().1,
            c.2 - self.origin().2,
        )
    }

    /// The grid has the shape of the box; the box is three cubes long at
    /// least along every axis and lies within the range of 32 bits, one cube
    /// off its limits; no cube of the outermost layer is lava.
    pub closed spec fn wf(self) -> bool {
        &&& is_box(self.grid(), self.dims().0, self.dims().1, self.dims().2)
        &&& i32::MIN < self.x_extent.0 && self.x_extent.0 + 2 <= self.x_extent.1 < i32::MAX
        &&& i32::MIN < self.y_extent.0 && self.y_extent.0 + 2 <= self.y_extent.1 < i32::MAX
        &&& i32::MIN < self.z_extent.0 && self.z_extent.0 + 2 <= self.z_extent.1 < i32::MAX
        &&& !marked(self.grid(), 0, 0, 0)
    }

    /// The box reaches exactly one cube beyond the droplets on every side.
    pub open spec fn is_tight(self, droplets: Seq<(int, int, int)>) -> bool {
        &&& forall|n: int|
            0 <= n < droplets.len() ==> {
                let c = #[trigger] droplets[n];
                &&& 0 < c.0 - self.origin().0 < self.dims().0 - 1
                &&& 0 < c.1 - self.origin().1 < self.dims().1 - 1
                &&& 0 < c.2 - self.origin().2 < self.dims().2 - 1
            }
        &&& exists|n: int| 0 <= n < droplets.len() && (#[trigger] droplets[n]).0 == self.origin().0 + 1
        &&& exists|n: int| 0 <= n < droplets.len() && (#[trigger] droplets[n]).1 == self.origin().1 + 1
        &&& exists|n: int| 0 <= n < droplets.len() && (#[trigger] droplets[n]).2 == self.origin().2 + 1
        &&& exists|n: int|
            0 <= n < droplets.len() && (#[trigger] droplets[n]).0 == self.origin().0 + self.dims().0
                - 2
        &&& exists|n: int|
            0 <= n < droplets.len() && (#[trigger] droplets[n]).1 == self.origin().1 + self.dims().1
                - 2
        &&& exists|n: int|
            0 <= n < droplets.len() && (#[trigger] droplets[n]).2 == self.origin().2 + self.dims().2
                - 2
    }

    /// The surface area of the droplets: the number of their sides that do
    /// not face another droplet.
    pub fn get_surface_area(&self) -> (total: usize)
        requires
            self.wf(),
            area(self.grid(), self.dims().0, self.dims().1, self.dims().2) <= usize::MAX,
        ensures
            total == area(self.grid(), self.dims().0, self.dims().1, self.dims().2),
    {
        let (nx, ny, nz) = self.sizes();
        _get_surface_area(&self.droplets, nx, ny, nz).unwrap()
    }

    /// The surface area of the droplets, where a number of the machine holds
    /// it.
    pub fn try_get_surface_area(&self) -> (r: Option<usize>)
        requires
            self.wf(),
        ensures
            r is Some <==> self.surface() <= usize::MAX,
            r matches Some(total) ==> total == self.surface(),
    {
        let (nx, ny, nz) = self.sizes();
        _get_surface_area(&self.droplets, nx, ny, nz)
    }

    /// The numbers of cubes along the three axes of the box.
    fn sizes(&self) -> (n: (usize, usize, usize))
        requires
            self.wf(),
        ensures
            (n.0 as int, n.1 as int, n.2 as int) == self.dims(),
            n.0 < usize::MAX && n.1 < usize::MAX && n.2 < usize::MAX,
    {
        (
            (self.x_extent.1 as i64 - self.x_extent.0 as i64 + 1) as usize,
            (self.y_extent.1 as i64 - self.y_extent.0 as i64 + 1) as usize,
            (self.z_extent.1 as i64 - self.z_extent.0 as i64 + 1) as usize,
        )
    }

    /// Reads the droplets, one per line, and lays the box around them.
    pub fn new(input: &str) -> (lava: Lava)
        requires
            is_scan(input@),
        ensures
            lava.wf(),
            lava.is_tight(droplets_of(input@)),
            forall|c: (int, int, int)| #[trigger]
                lava.is_droplet(c) <==> droplets_of(input@).contains(c),
    {
        let text = chars_of(input);
        let ls = lines_of(&text);
        let ghost all = lines(input@);
        let ghost found = droplets_of(input@);
        let mut coords: Vec<(i32, i32, i32)> = Vec::new();
        let mut i: usize = 0;
        while i < ls.len()
            invariant
                i <= ls.len(),
                all == rows(ls@),
                all == lines(input@),
                is_scan(input@),
                found == droplets_of(input@),
                coords.len() == i,
                forall|n: int|
                    0 <= n < i ==> found[n] == ((#[trigger] coords@[n]).0 as int, coords@[n].1 as int, coords@[n].2 as int),
            decreases ls.len() - i,
        {
            assert(all[i as int] == ls@[i as int]@);
            coords.push(read_droplet(&ls[i]));
            i += 1;
        }
        let first = coords[0];
        assert(in_reach(found[0]));
        let mut x_extent = (first.0, first.0);
        let mut y_extent = (first.1, first.1);
        let mut z_extent = (first.2, first.2);
        let ghost mut at: Seq<int> = seq![0, 0, 0, 0, 0, 0];
        let mut i: usize = 1;
        while i < coords.len()
            invariant
                1 <= i <= coords.len(),
                at.len() == 6,
                forall|m: int| 0 <= m < 6 ==> 0 <= #[trigger] at[m] < i,
                coords@[at[0]].0 == x_extent.0 && coords@[at[1]].0 == x_extent.1,
                coords@[at[2]].1 == y_extent.0 && coords@[at[3]].1 == y_extent.1,
                coords@[at[4]].2 == z_extent.0 && coords@[at[5]].2 == z_extent.1,
                forall|n: int|
                    0 <= n < i ==> x_extent.0 <= (#[trigger] coords@[n]).0 <= x_extent.1
                        && y_extent.0 <= coords@[n].1 <= y_extent.1 && z_extent.0 <= coords@[n].2
                        <= z_extent.1,
            decreases coords.len() - i,
        {
            let c = coords[i];
            if c.0 < x_extent.0 {
                x_extent = (c.0, x_extent.1);
                proof {
                    at = at.update(0, i as int);
                }
            }
            if c.0 > x_extent.1 {
                x_extent = (x_extent.0, c.0);
                proof {
                    at = at.update(1, i as int);
                }
            }
            if c.1 < y_extent.0 {
                y_extent = (c.1, y_extent.1);
                proof {
                    at = at.update(2, i as int);
                }
            }
            if c.1 > y_extent.1 {
                y_extent = (y_extent.0, c.1);
                proof {
                    at = at.update(3, i as int);
                }
            }
            if c.2 < z_extent.0 {
                z_extent = (c.2, z_extent.1);
                proof {
                    at = at.update(4, i as int);
                }
            }
            if c.2 > z_extent.1 {
                z_extent = (z_extent.0, c.2);
                proof {
                    at = at.update(5, i as int);
                }
            }
            i += 1;
        }
        proof {
            assert forall|n: int| 0 <= n < coords.len() implies in_reach(
                ((#[trigger] coords@[n]).0 as int, coords@[n].1 as int, coords@[n].2 as int),
            ) by {
                assert(in_reach(droplet_of(all[n])->0));
                assert(found[n] == droplet_of(all[n])->0);
            }
            assert(in_reach((coords@[at[0]].0 as int, coords@[at[0]].1 as int, coords@[at[0]].2 as int)));
            assert(in_reach((coords@[at[1]].0 as int, coords@[at[1]].1 as int, coords@[at[1]].2 as int)));
            assert(in_reach((coords@[at[2]].0 as int, coords@[at[2]].1 as int, coords@[at[2]].2 as int)));
            assert(in_reach((coords@[at[3]].0 as int, coords@[at[3]].1 as int, coords@[at[3]].2 as int)));
            assert(in_reach((coords@[at[4]].0 as int, coords@[at[4]].1 as int, coords@[at[4]].2 as int)));
            assert(in_reach((coords@[at[5]].0 as int, coords@[at[5]].1 as int, coords@[at[5]].2 as int)));
        }
        let x_extent = (x_extent.0 - 1, x_extent.1 + 1);
        let y_extent = (y_extent.0 - 1, y_extent.1 + 1);
        let z_extent = (z_extent.0 - 1, z_extent.1 + 1);
        let nx = (x_extent.1 as i64 - x_extent.0 as i64 + 1) as usize;
        let ny = (y_extent.1 as i64 - y_extent.0 as i64 + 1) as usize;
        let nz = (z_extent.1 as i64 - z_extent.0 as i64 + 1) as usize;
        let ghost dims = (nx as int, ny as int, nz as int);
        let mut grid = empty_box(nx, ny, nz);
        let mut i: usize = 0;
        while i < coords.len()
            invariant
                i <= coords.len(),
                dims == (nx as int, ny as int, nz as int),
                nx == x_extent.1 - x_extent.0 + 1,
                ny == y_extent.1 - y_extent.0 + 1,
                nz == z_extent.1 - z_extent.0 + 1,
                is_box(grid@, dims.0, dims.1, dims.2),
                forall|n: int|
                    0 <= n < coords.len() ==> x_extent.0 < (#[trigger] coords@[n]).0 < x_extent.1
                        && y_extent.0 < coords@[n].1 < y_extent.1 && z_extent.0 < coords@[n].2
                        < z_extent.1,
                forall|a: int, b: int, c: int|
                    marked(grid@, a, b, c) <==> exists|n: int|
                        0 <= n < i && #[trigger] coords@[n] == ((a + x_extent.0) as i32, (b + y_extent.0) as i32, (c + z_extent.0) as i32)
                            && 0 <= a < nx && 0 <= b < ny && 0 <= c < nz,
            decreases coords.len() - i,
        {
            let c = coords[i];
            let a = (c.0 as i64 - x_extent.0 as i64) as usize;
            let b = (c.1 as i64 - y_extent.0 as i64) as usize;
            let d = (c.2 as i64 - z_extent.0 as i64) as usize;
            let ghost before = grid@;
            mark(&mut grid, a, b, d, Ghost(dims));
            proof {
                assert forall|a2: int, b2: int, c2: int|
                    marked(grid@, a2, b2, c2) <==> exists|n: int|
                        0 <= n < i + 1 && #[trigger] coords@[n] == ((a2 + x_extent.0) as i32, (b2 + y_extent.0) as i32, (c2 + z_extent.0) as i32)
                            && 0 <= a2 < nx && 0 <= b2 < ny && 0 <= c2 < nz by {
                    if marked(before, a2, b2, c2) {
                        let n = choose|n: int|
                            0 <= n < i && #[trigger] coords@[n] == ((a2 + x_extent.0) as i32, (b2 + y_extent.0) as i32, (c2 + z_extent.0) as i32)
                                && 0 <= a2 < nx && 0 <= b2 < ny && 0 <= c2 < nz;
                        assert(0 <= n < i + 1);
                    }
                    if a2 == a && b2 == b && c2 == d {
                        assert(coords@[i as int] == ((a2 + x_extent.0) as i32, (b2 + y_extent.0) as i32, (c2 + z_extent.0) as i32));
                    }
                    if exists|n: int|
                        0 <= n < i + 1 && #[trigger] coords@[n] == ((a2 + x_extent.0) as i32, (b2 + y_extent.0) as i32, (c2 + z_extent.0) as i32)
                            && 0 <= a2 < nx && 0 <= b2 < ny && 0 <= c2 < nz {
                        let n = choose|n: int|
                            0 <= n < i + 1 && #[trigger] coords@[n] == ((a2 + x_extent.0) as i32, (b2 + y_extent.0) as i32, (c2 + z_extent.0) as i32)
                                && 0 <= a2 < nx && 0 <= b2 < ny && 0 <= c2 < nz;
                        if n < i {
                            assert(marked(before, a2, b2, c2));
                        }
                    }
                }
            }
            i += 1;
        }
        let lava = Lava { droplets: grid, x_extent, y_extent, z_extent };
        proof {
            assert(!marked(lava.grid(), 0, 0, 0)) by {
                if marked(grid@, 0, 0, 0) {
                    let n = choose|n: int|
                        0 <= n < coords.len() && #[trigger] coords@[n] == ((0 + x_extent.0) as i32, (0 + y_extent.0) as i32, (0 + z_extent.0) as i32);
                    assert(x_extent.0 < coords@[n].0);
                }
            }
            assert forall|c: (int, int, int)| #[trigger]
                lava.is_droplet(c) <==> found.contains(c) by {
                let a = c.0 - x_extent.0;
                let b = c.1 - y_extent.0;
                let d = c.2 - z_extent.0;
                if lava.is_droplet(c) {
                    let n = choose|n: int|
                        0 <= n < coords.len() && #[trigger] coords@[n] == ((a + x_extent.0) as i32, (b + y_extent.0) as i32, (d + z_extent.0) as i32)
                            && 0 <= a < nx && 0 <= b < ny && 0 <= d < nz;
                    assert(found[n] == c);
                }
                if found.contains(c) {
                    let n = choose|n: int| 0 <= n < found.len() && found[n] == c;
                    assert(x_extent.0 < coords@[n].0 < x_extent.1);
                    assert(coords@[n] == ((a + x_extent.0) as i32, (b + y_extent.0) as i32, (d + z_extent.0) as i32));
                    assert(marked(grid@, a, b, d));
                }
            }
            assert(lava.is_tight(found)) by {
                assert forall|n: int| 0 <= n < found.len() implies {
                    let c = #[trigger] found[n];
                    &&& 0 < c.0 - lava.origin().0 < lava.dims().0 - 1
                    &&& 0 < c.1 - lava.origin().1 < lava.dims().1 - 1
                    &&& 0 < c.2 - lava.origin().2 < lava.dims().2 - 1
                } by {
                    assert(x_extent.0 < coords@[n].0 < x_extent.1);
                }
                assert(found[at[0]].0 == lava.origin().0 + 1);
                assert(found[at[2]].1 == lava.origin().1 + 1);
                assert(found[at[4]].2 == lava.origin().2 + 1);
                assert(found[at[1]].0 == lava.origin().0 + lava.dims().0 - 2);
                assert(found[at[3]].1 == lava.origin().1 + lava.dims().1 - 2);
                assert(found[at[5]].2 == lava.origin().2 + lava.dims().2 - 2);
            }
        }
        lava
    }
}

/// The cube `c` is marked.
pub open spec fn lit(g: Seq<Vec<Vec<bool>>>, c: (int, int, int)) -> bool {
    marked(g, c.0, c.1, c.2)
}

/// The cube `c` lies in the box.
pub open spec fn in_box(dims: (int, int, int), c: (int, int, int)) -> bool {
    0 <= c.0 < dims.0 && 0 <= c.1 < dims.1 && 0 <= c.2 < dims.2
}

/// The cube `c` lies in the box and is not lava.
pub open spec fn is_air(g: Seq<Vec<Vec<bool>>>, dims: (int, int, int), c: (int, int, int)) -> bool {
    in_box(dims, c) && !lit(g, c)
}

/// The two cubes share a side.
pub open spec fn adjoin(a: (int, int, int), b: (int, int, int)) -> bool {
    exists|d: int| 0 <= d < 6 && #[trigger] beside(a, d) == b
}

/// `p` is a sequence of cubes of air, each sharing a side with the next.
pub open spec fn is_air_walk(g: Seq<Vec<Vec<bool>>>, dims: (int, int, int), p: Seq<(int, int, int)>) -> bool {
    &&& p.len() > 0
    &&& forall|i: int| 0 <= i < p.len() ==> is_air(g, dims, #[trigger] p[i])
    &&& forall|i: int| 0 <= i < p.len() - 1 ==> #[trigger] adjoin_at(p, i)
}

/// The cube at place `i` of `p` shares a side with the next.
pub open spec fn adjoin_at(p: Seq<(int, int, int)>, i: int) -> bool {
    adjoin(p[i], p[i + 1])
}

/// The cube `c` is air that can be reached from the corner of the box
/// through air: it lies outside the droplets.
pub open spec fn outside(g: Seq<Vec<Vec<bool>>>, dims: (int, int, int), c: (int, int, int)) -> bool {
    exists|p: Seq<(int, int, int)>| #[trigger]
        is_air_walk(g, dims, p) && p[0] == (0int, 0int, 0int) && p[p.len() - 1] == c
}

/// The cube `c` is air that the droplets enclose.
pub open spec fn enclosed(g: Seq<Vec<Vec<bool>>>, dims: (int, int, int), c: (int, int, int)) -> bool {
    is_air(g, dims, c) && !outside(g, dims, c)
}

/// The cubes of the box in the first `k` places of the column at `(i, j)`.
spec fn column_set(i: int, j: int, k: int) -> Set<(int, int, int)> {
    Set::new(|c: (int, int, int)| c.0 == i && c.1 == j && 0 <= c.2 < k)
}

/// The cubes of the box in the first `j` columns of the slice at `i`.
spec fn slice_set(nz: int, i: int, j: int) -> Set<(int, int, int)> {
    Set::new(|c: (int, int, int)| c.0 == i && 0 <= c.1 < j && 0 <= c.2 < nz)
}

/// The cubes of the box in its first `i` slices.
spec fn box_set(dims: (int, int, int), i: int) -> Set<(int, int, int)> {
    Set::new(|c: (int, int, int)| 0 <= c.0 < i && 0 <= c.1 < dims.1 && 0 <= c.2 < dims.2)
}

/// A column holds finitely many cubes.
proof fn lemma_column_finite(i: int, j: int, k: int)
    ensures
        column_set(i, j, k).finite(),
    decreases k,
{
    if k <= 0 {
        assert(column_set(i, j, k) =~= Set::empty());
    } else {
        lemma_column_finite(i, j, k - 1);
        assert(column_set(i, j, k) =~= column_set(i, j, k - 1).insert((i, j, k - 1)));
    }
}

/// A slice holds finitely many cubes.
proof fn lemma_slice_finite(nz: int, i: int, j: int)
    ensures
        slice_set(nz, i, j).finite(),
    decreases j,
{
    if j <= 0 {
        assert(slice_set(nz, i, j) =~= Set::empty());
    } else {
        lemma_slice_finite(nz, i, j - 1);
        lemma_column_finite(i, j - 1, nz);
        assert(slice_set(nz, i, j) =~= slice_set(nz, i, j - 1).union(column_set(i, j - 1, nz)));
    }
}

/// A box holds finitely many cubes.
proof fn lemma_box_finite(dims: (int, int, int), i: int)
    ensures
        box_set(dims, i).finite(),
    decreases i,
{
    if i <= 0 {
        assert(box_set(dims, i) =~= Set::empty());
    } else {
        lemma_box_finite(dims, i - 1);
        lemma_slice_finite(dims.2, i - 1, dims.1);
        assert(box_set(dims, i) =~= box_set(dims, i - 1).union(slice_set(dims.2, i - 1, dims.1)));
    }
}

/// The cube as a triple of integers.
pub open spec fn at(c: (usize, usize, usize)) -> (int, int, int) {
    (c.0 as int, c.1 as int, c.2 as int)
}

/// Some entry of the queue is the cube `c`.
spec fn waiting(queue: Seq<(usize, usize, usize)>, c: (int, int, int)) -> bool {
    exists|n: int| 0 <= n < queue.len() && at(#[trigger] queue[n]) == c
}

/// Whatever air lies beside `c` in the first `upto` directions has been
/// reached.
spec fn sealed(
    g: Seq<Vec<Vec<bool>>>,
    dims: (int, int, int),
    out: Seq<Vec<Vec<bool>>>,
    c: (int, int, int),
    upto: int,
) -> bool {
    forall|d: int| 0 <= d < upto && is_air(g, dims, #[trigger] beside(c, d)) ==> lit(out, beside(c, d))
}

/// What the flood knows between two steps: every cube reached is air with a
/// walk from the corner; it waits in the queue, is in hand with its first
/// `done` directions dealt with, or has all the air beside it reached.
spec fn flooding(
    g: Seq<Vec<Vec<bool>>>,
    dims: (int, int, int),
    out: Seq<Vec<Vec<bool>>>,
    queue: Seq<(usize, usize, usize)>,
    path: Map<(int, int, int), Seq<(int, int, int)>>,
    seen: Set<(int, int, int)>,
    in_hand: Option<(int, int, int)>,
    done: int,
) -> bool {
    &&& is_box(out, dims.0, dims.1, dims.2)
    &&& is_box(g, dims.0, dims.1, dims.2)
    &&& seen.finite()
    &&& seen.subset_of(box_set(dims, dims.0))
    &&& forall|c: (int, int, int)| seen.contains(c) <==> #[trigger] lit(out, c)
    &&& forall|c: (int, int, int)| #[trigger]
        lit(out, c) ==> is_air(g, dims, c) && path.dom().contains(c) && is_air_walk(g, dims, path[c])
            && path[c][0] == (0int, 0int, 0int) && path[c][path[c].len() - 1] == c
    &&& forall|n: int| 0 <= n < queue.len() ==> lit(out, at(#[trigger] queue[n]))
    &&& forall|c: (int, int, int)| #[trigger]
        lit(out, c) ==> waiting(queue, c) || in_hand == Some(c) || sealed(g, dims, out, c, 6)
    &&& in_hand matches Some(h) ==> lit(out, h) && sealed(g, dims, out, h, done)
    &&& lit(out, (0int, 0int, 0int))
}

/// Once the queue is empty, every cube on a walk of air from the corner has
/// been reached.
proof fn lemma_walk_flooded(
    g: Seq<Vec<Vec<bool>>>,
    dims: (int, int, int),
    out: Seq<Vec<Vec<bool>>>,
    path: Map<(int, int, int), Seq<(int, int, int)>>,
    seen: Set<(int, int, int)>,
    p: Seq<(int, int, int)>,
    i: int,
)
    requires
        flooding(g, dims, out, Seq::empty(), path, seen, None, 0),
        is_air_walk(g, dims, p),
        p[0] == (0int, 0int, 0int),
        0 <= i < p.len(),
    ensures
        lit(out, p[i]),
    decreases i,
{
    if i > 0 {
        lemma_walk_flooded(g, dims, out, path, seen, p, i - 1);
        let c = p[i - 1];
        assert(adjoin_at(p, i - 1));
        let d = choose|d: int| 0 <= d < 6 && #[trigger] beside(c, d) == p[i];
        assert(sealed(g, dims, out, c, 6));
        assert(is_air(g, dims, beside(c, d)));
    }
}

/// Looks at the cube beside the cube in hand in direction `done` and, where
/// it is air that has not been reached, marks and queues it.
fn flood_to(
    g: &Vec<Vec<Vec<bool>>>,
    out: &mut Vec<Vec<Vec<bool>>>,
    queue: &mut VecDeque<(usize, usize, usize)>,
    n: Option<(usize, usize, usize)>,
    Ghost(dims): Ghost<(int, int, int)>,
    Ghost(path): Ghost<Map<(int, int, int), Seq<(int, int, int)>>>,
    Ghost(seen): Ghost<Set<(int, int, int)>>,
    Ghost(hand): Ghost<(int, int, int)>,
    Ghost(done): Ghost<int>,
) -> (r: (Ghost<Map<(int, int, int), Seq<(int, int, int)>>>, Ghost<Set<(int, int, int)>>))
    requires
        flooding(g@, dims, old(out)@, old(queue)@, path, seen, Some(hand), done),
        0 <= done < 6,
        match n {
            Some(c) => at(c) == beside(hand, done) && in_box(dims, at(c)),
            None => !in_box(dims, beside(hand, done)),
        },
    ensures
        flooding(g@, dims, final(out)@, final(queue)@, r.0@, r.1@, Some(hand), done + 1),
        box_set(dims, dims.0).len() - r.1@.len() + final(queue)@.len() == box_set(dims, dims.0).len()
            - seen.len() + old(queue)@.len(),
        r.1@.len() <= box_set(dims, dims.0).len(),
{
    proof {
        lemma_box_finite(dims, dims.0);
        vstd::set_lib::lemma_len_subset(seen, box_set(dims, dims.0));
    }
    match n {
        None => (Ghost(path), Ghost(seen)),
        Some(c) => {
            if is_marked(g, c.0, c.1, c.2) || is_marked(out, c.0, c.1, c.2) {
                (Ghost(path), Ghost(seen))
            } else {
                let ghost before = out@;
                let ghost waiting_before = queue@;
                mark(out, c.0, c.1, c.2, Ghost(dims));
                queue.push_back(c);
                let ghost walk = path[hand].push(at(c));
                let ghost path2 = path.insert(at(c), walk);
                let ghost seen2 = seen.insert(at(c));
                proof {
                    assert(adjoin(hand, at(c)));
                    assert(is_air_walk(g@, dims, walk)) by {
                        assert forall|i: int| 0 <= i < walk.len() implies is_air(
                            g@,
                            dims,
                            #[trigger] walk[i],
                        ) by {
                            if i < path[hand].len() {
                                assert(walk[i] == path[hand][i]);
                            }
                        }
                        assert forall|i: int| 0 <= i < walk.len() - 1 implies #[trigger] adjoin_at(
                            walk,
                            i,
                        ) by {
                            if i < path[hand].len() - 1 {
                                assert(adjoin_at(path[hand], i));
                                assert(walk[i] == path[hand][i]);
                                assert(walk[i + 1] == path[hand][i + 1]);
                            }
                        }
                    }
                    assert forall|x: (int, int, int)| seen2.contains(x) <==> #[trigger] lit(
                        out@,
                        x,
                    ) by {
                        assert(lit(before, x) <==> seen.contains(x));
                    }
                    assert(seen2.subset_of(box_set(dims, dims.0)));
                    vstd::set_lib::lemma_len_subset(seen2, box_set(dims, dims.0));
                    assert(queue@[queue@.len() - 1] == c);
                    assert(waiting(queue@, at(c)));
                    assert forall|m: int| 0 <= m < queue@.len() implies lit(
                        out@,
                        at(#[trigger] queue@[m]),
                    ) by {
                        if m < waiting_before.len() {
                            assert(queue@[m] == waiting_before[m]);
                            assert(lit(before, at(waiting_before[m])));
                        }
                    }
                    assert forall|x: (int, int, int)| #[trigger] lit(out@, x) implies waiting(
                        queue@,
                        x,
                    ) || Some(hand) == Some(x) || sealed(g@, dims, out@, x, 6) by {
                        if x != at(c) && x != hand {
                            assert(lit(before, x));
                            if waiting(waiting_before, x) {
                                let m = choose|m: int|
                                    0 <= m < waiting_before.len() && at(
                                        #[trigger] waiting_before[m],
                                    ) == x;
                                assert(queue@[m] == waiting_before[m]);
                            } else {
                                assert(sealed(g@, dims, before, x, 6));
                                assert forall|d: int|
                                    0 <= d < 6 && is_air(
                                        g@,
                                        dims,
                                        #[trigger] beside(x, d),
                                    ) implies lit(out@, beside(x, d)) by {
                                    assert(lit(before, beside(x, d)));
                                }
                            }
                        }
                    }
                    assert(sealed(g@, dims, out@, hand, done + 1)) by {
                        assert(sealed(g@, dims, before, hand, done));
                        assert forall|d: int|
                            0 <= d < done + 1 && is_air(
                                g@,
                                dims,
                                #[trigger] beside(hand, d),
                            ) implies lit(out@, beside(hand, d)) by {
                            if d < done {
                                assert(lit(before, beside(hand, d)));
                            }
                        }
                    }
                    assert forall|x: (int, int, int)| #[trigger] lit(out@, x) implies is_air(
                        g@,
                        dims,
                        x,
                    ) && path2.dom().contains(x) && is_air_walk(g@, dims, path2[x]) && path2[x][0]
                        == (0int, 0int, 0int) && path2[x][path2[x].len() - 1] == x by {
                        if x != at(c) {
                            assert(lit(before, x));
                        }
                    }
                    assert(lit(before, (0int, 0int, 0int)));
                }
                (Ghost(path2), Ghost(seen2))
            }
        },
    }
}

/// The cubes of air that can be reached from the corner of the box through
/// air.
fn flood(g: &Vec<Vec<Vec<bool>>>, nx: usize, ny: usize, nz: usize) -> (out: Vec<Vec<Vec<bool>>>)
    requires
        is_box(g@, nx as int, ny as int, nz as int),
        nx >= 1 && ny >= 1 && nz >= 1,
        nx < usize::MAX && ny < usize::MAX && nz < usize::MAX,
        !marked(g@, 0, 0, 0),
    ensures
        is_box(out@, nx as int, ny as int, nz as int),
        forall|c: (int, int, int)| #[trigger]
            lit(out@, c) <==> outside(g@, (nx as int, ny as int, nz as int), c),
{
    let ghost dims = (nx as int, ny as int, nz as int);
    let mut out = empty_box(nx, ny, nz);
    mark(&mut out, 0, 0, 0, Ghost(dims));
    let mut queue: VecDeque<(usize, usize, usize)> = VecDeque::new();
    queue.push_back((0, 0, 0));
    let ghost origin = (0int, 0int, 0int);
    let ghost mut path: Map<(int, int, int), Seq<(int, int, int)>> = Map::empty().insert(
        origin,
        seq![origin],
    );
    let ghost mut seen: Set<(int, int, int)> = Set::empty().insert(origin);
    proof {
        lemma_box_finite(dims, dims.0);
        assert(queue@[0] == (0usize, 0usize, 0usize));
        assert(waiting(queue@, origin));
        assert(is_air_walk(g@, dims, seq![origin]));
        assert forall|c: (int, int, int)| seen.contains(c) <==> #[trigger] lit(out@, c) by {}
    }
    loop
        invariant
            dims == (nx as int, ny as int, nz as int),
            nx < usize::MAX && ny < usize::MAX && nz < usize::MAX,
            flooding(g@, dims, out@, queue@, path, seen, None, 0),
        ensures
            queue@.len() == 0,
        decreases box_set(dims, dims.0).len() - seen.len() + queue@.len(),
    {
        proof {
            lemma_box_finite(dims, dims.0);
            vstd::set_lib::lemma_len_subset(seen, box_set(dims, dims.0));
        }
        let ghost before = queue@;
        let current = match queue.pop_front() {
            None => {
                break ;
            },
            Some(x) => x,
        };
        let ghost hand = at(current);
        proof {
            assert(before[0] == current);
            assert(lit(out@, at(before[0])));
            assert forall|m: int| 0 <= m < queue@.len() implies lit(out@, at(#[trigger] queue@[m])) by {
                assert(queue@[m] == before[m + 1]);
            }
            assert forall|x: (int, int, int)| #[trigger] lit(out@, x) implies waiting(queue@, x)
                || Some(hand) == Some(x) || sealed(g@, dims, out@, x, 6) by {
                if x != hand && waiting(before, x) {
                    let m = choose|m: int| 0 <= m < before.len() && at(#[trigger] before[m]) == x;
                    assert(queue@[m - 1] == before[m]);
                }
            }
            assert(flooding(g@, dims, out@, queue@, path, seen, Some(hand), 0));
        }
        let (i, j, k) = current;
        let east = if i + 1 < nx {
            Some((i + 1, j, k))
        } else {
            None
        };
        let (Ghost(p), Ghost(s)) = flood_to(g, &mut out, &mut queue, east, Ghost(dims), Ghost(path), Ghost(seen), Ghost(hand), Ghost(0));
        let west = if i > 0 {
            Some(((i - 1) as usize, j, k))
        } else {
            None
        };
        let (Ghost(p), Ghost(s)) = flood_to(g, &mut out, &mut queue, west, Ghost(dims), Ghost(p), Ghost(s), Ghost(hand), Ghost(1));
        let north = if j + 1 < ny {
            Some((i, j + 1, k))
        } else {
            None
        };
        let (Ghost(p), Ghost(s)) = flood_to(g, &mut out, &mut queue, north, Ghost(dims), Ghost(p), Ghost(s), Ghost(hand), Ghost(2));
        let south = if j > 0 {
            Some((i, (j - 1) as usize, k))
        } else {
            None
        };
        let (Ghost(p), Ghost(s)) = flood_to(g, &mut out, &mut queue, south, Ghost(dims), Ghost(p), Ghost(s), Ghost(hand), Ghost(3));
        let up = if k + 1 < nz {
            Some((i, j, k + 1))
        } else {
            None
        };
        let (Ghost(p), Ghost(s)) = flood_to(g, &mut out, &mut queue, up, Ghost(dims), Ghost(p), Ghost(s), Ghost(hand), Ghost(4));
        let down = if k > 0 {
            Some((i, j, (k - 1) as usize))
        } else {
            None
        };
        let (Ghost(p), Ghost(s)) = flood_to(g, &mut out, &mut queue, down, Ghost(dims), Ghost(p), Ghost(s), Ghost(hand), Ghost(5));
        proof {
            path = p;
            seen = s;
        }
    }
    proof {
        assert(queue@ =~= Seq::empty());
        assert forall|c: (int, int, int)| #[trigger] lit(out@, c) <==> outside(g@, dims, c) by {
            if outside(g@, dims, c) {
                let p = choose|p: Seq<(int, int, int)>| #[trigger]
                    is_air_walk(g@, dims, p) && p[0] == (0int, 0int, 0int) && p[p.len() - 1] == c;
                lemma_walk_flooded(g@, dims, out@, path, seen, p, p.len() - 1);
            }
            if lit(out@, c) {
                assert(is_air_walk(g@, dims, path[c]));
            }
        }
    }
    out
}

impl Lava {
    /// The cubes of air outside the droplets.
    fn _get_exterior_air(&self) -> (out: Vec<Vec<Vec<bool>>>)
        requires
            self.wf(),
        ensures
            is_box(out@, self.dims().0, self.dims().1, self.dims().2),
            forall|c: (int, int, int)| #[trigger] lit(out@, c) <==> outside(self.grid(), self.dims(), c),
    {
        let (nx, ny, nz) = self.sizes();
        flood(&self.droplets, nx, ny, nz)
    }

    /// The surface area of the air that the droplets enclose.
    pub fn get_interior_area(&self) -> (total: usize)
        requires
            self.wf(),
            forall|inner: Seq<Vec<Vec<bool>>>| #[trigger]
                self.is_interior(inner) ==> area(inner, self.dims().0, self.dims().1, self.dims().2)
                    <= usize::MAX,
        ensures
            exists|inner: Seq<Vec<Vec<bool>>>| #[trigger]
                self.is_interior(inner) && total == area(
                    inner,
                    self.dims().0,
                    self.dims().1,
                    self.dims().2,
                ),
    {
        self.try_get_interior_area().unwrap()
    }

    /// The surface area of the air that the droplets enclose, where a number
    /// of the machine holds it.
    pub fn try_get_interior_area(&self) -> (r: Option<usize>)
        requires
            self.wf(),
        ensures
            exists|inner: Seq<Vec<Vec<bool>>>| #[trigger]
                self.is_interior(inner) && (match r {
                    Some(total) => total == area(inner, self.dims().0, self.dims().1, self.dims().2),
                    None => area(inner, self.dims().0, self.dims().1, self.dims().2) > usize::MAX,
                }),
    {
        let (nx, ny, nz) = self.sizes();
        let ghost dims = self.dims();
        let exterior_air = self._get_exterior_air();
        let mut interior_air = empty_box(nx, ny, nz);
        let mut i: usize = 0;
        while i < nx
            invariant
                i <= nx,
                self.wf(),
                dims == self.dims(),
                dims == (nx as int, ny as int, nz as int),
                is_box(interior_air@, dims.0, dims.1, dims.2),
                is_box(exterior_air@, dims.0, dims.1, dims.2),
                forall|c: (int, int, int)| #[trigger]
                    lit(exterior_air@, c) <==> outside(self.grid(), dims, c),
                forall|c: (int, int, int)| #[trigger]
                    lit(interior_air@, c) <==> c.0 < i && enclosed(self.grid(), dims, c),
            decreases nx - i,
        {
            let mut j: usize = 0;
            while j < ny
                invariant
                    i < nx,
                    j <= ny,
                    self.wf(),
                    dims == self.dims(),
                    dims == (nx as int, ny as int, nz as int),
                    is_box(interior_air@, dims.0, dims.1, dims.2),
                    is_box(exterior_air@, dims.0, dims.1, dims.2),
                    forall|c: (int, int, int)| #[trigger]
                        lit(exterior_air@, c) <==> outside(self.grid(), dims, c),
                    forall|c: (int, int, int)| #[trigger]
                        lit(interior_air@, c) <==> (c.0 < i || (c.0 == i && c.1 < j)) && enclosed(
                            self.grid(),
                            dims,
                            c,
                        ),
                decreases ny - j,
            {
                let mut k: usize = 0;
                while k < nz
                    invariant
                        i < nx,
                        j < ny,
                        k <= nz,
                        self.wf(),
                        dims == self.dims(),
                        dims == (nx as int, ny as int, nz as int),
                        is_box(interior_air@, dims.0, dims.1, dims.2),
                        is_box(exterior_air@, dims.0, dims.1, dims.2),
                        forall|c: (int, int, int)| #[trigger]
                            lit(exterior_air@, c) <==> outside(self.grid(), dims, c),
                        forall|c: (int, int, int)| #[trigger]
                            lit(interior_air@, c) <==> (c.0 < i || (c.0 == i && c.1 < j) || (c.0 == i
                                && c.1 == j && c.2 < k)) && enclosed(self.grid(), dims, c),
                    decreases nz - k,
                {
                    let ghost here = (i as int, j as int, k as int);
                    assert(lit(exterior_air@, here) <==> outside(self.grid(), dims, here));
                    if !is_marked(&exterior_air, i, j, k) && !is_marked(&self.droplets, i, j, k) {
                        let ghost before = interior_air@;
                        mark(&mut interior_air, i, j, k, Ghost(dims));
                        assert forall|c: (int, int, int)| #[trigger]
                            lit(interior_air@, c) <==> (c.0 < i || (c.0 == i && c.1 < j) || (c.0
                                == i && c.1 == j && c.2 < k + 1)) && enclosed(self.grid(), dims, c) by {
                            assert(lit(before, c) <==> (c.0 < i || (c.0 == i && c.1 < j) || (c.0
                                == i && c.1 == j && c.2 < k)) && enclosed(self.grid(), dims, c));
                        }
                    }
                    k += 1;
                }
                j += 1;
            }
            i += 1;
        }
        assert(self.is_interior(interior_air@));
        _get_surface_area(&interior_air, nx, ny, nz)
    }

    /// `inner` marks exactly the cubes of air that the droplets enclose.
    pub open spec fn is_interior(self, inner: Seq<Vec<Vec<bool>>>) -> bool {
        &&& is_box(inner, self.dims().0, self.dims().1, self.dims().2)
        &&& forall|c: (int, int, int)| #[trigger]
            lit(inner, c) <==> enclosed(self.grid(), self.dims(), c)
    }
}

impl Lava {
    /// This is the scan of the droplets that `input` writes.
    pub open spec fn scans(self, input: Seq<char>) -> bool {
        &&& self.wf()
        &&& self.is_tight(droplets_of(input))
        &&& forall|c: (int, int, int)| #[trigger]
            self.is_droplet(c) <==> droplets_of(input).contains(c)
    }

    /// The surface area of the droplets.
    pub open spec fn surface(self) -> int {
        area(self.grid(), self.dims().0, self.dims().1, self.dims().2)
    }

    /// The surface area of the cubes that `inner` marks in the box.
    pub open spec fn inner_surface(self, inner: Seq<Vec<Vec<bool>>>) -> int {
        area(inner, self.dims().0, self.dims().1, self.dims().2)
    }
}

/// The two grids mark the same cubes.
pub open spec fn same_marks(a: Seq<Vec<Vec<bool>>>, b: Seq<Vec<Vec<bool>>>) -> bool {
    forall|i: int, j: int, k: int| #[trigger] marked(a, i, j, k) == marked(b, i, j, k)
}

/// Grids that mark the same cubes give a column the same faces.
proof fn lemma_same_column(a: Seq<Vec<Vec<bool>>>, b: Seq<Vec<Vec<bool>>>, i: int, j: int, k: int)
    requires
        same_marks(a, b),
    ensures
        area_column(a, i, j, k) == area_column(b, i, j, k),
    decreases k,
{
    if k > 0 {
        lemma_same_column(a, b, i, j, k - 1);
        reveal_with_fuel(open_sides, 7);
        assert(marked(a, i, j, k - 1) == marked(b, i, j, k - 1));
        assert(marked(a, i + 1, j, k - 1) == marked(b, i + 1, j, k - 1));
        assert(marked(a, i - 1, j, k - 1) == marked(b, i - 1, j, k - 1));
        assert(marked(a, i, j + 1, k - 1) == marked(b, i, j + 1, k - 1));
        assert(marked(a, i, j - 1, k - 1) == marked(b, i, j - 1, k - 1));
        assert(marked(a, i, j, k - 1 + 1) == marked(b, i, j, k - 1 + 1));
        assert(marked(a, i, j, k - 1 - 1) == marked(b, i, j, k - 1 - 1));
    }
}

/// Grids that mark the same cubes give a slice the same faces.
proof fn lemma_same_slice(a: Seq<Vec<Vec<bool>>>, b: Seq<Vec<Vec<bool>>>, nz: int, i: int, j: int)
    requires
        same_marks(a, b),
    ensures
        area_slice(a, nz, i, j) == area_slice(b, nz, i, j),
    decreases j,
{
    if j > 0 {
        lemma_same_slice(a, b, nz, i, j - 1);
        lemma_same_column(a, b, i, j - 1, nz);
    }
}

/// Grids that mark the same cubes have the same surface area.
pub proof fn lemma_same_area(a: Seq<Vec<Vec<bool>>>, b: Seq<Vec<Vec<bool>>>, ny: int, nz: int, i: int)
    requires
        same_marks(a, b),
    ensures
        area_slices(a, ny, nz, i) == area_slices(b, ny, nz, i),
    decreases i,
{
    if i > 0 {
        lemma_same_area(a, b, ny, nz, i - 1);
        lemma_same_slice(a, b, nz, i - 1, ny);
    }
}

/// Grids that mark the same cubes enclose the same air.
pub proof fn lemma_same_enclosed(
    a: Seq<Vec<Vec<bool>>>,
    b: Seq<Vec<Vec<bool>>>,
    dims: (int, int, int),
    c: (int, int, int),
)
    requires
        same_marks(a, b),
    ensures
        enclosed(a, dims, c) == enclosed(b, dims, c),
{
    assert forall|p: Seq<(int, int, int)>| #[trigger]
        is_air_walk(a, dims, p) == is_air_walk(b, dims, p) by {
        assert forall|i: int| 0 <= i < p.len() implies is_air(a, dims, #[trigger] p[i]) == is_air(
            b,
            dims,
            p[i],
        ) by {
            assert(marked(a, p[i].0, p[i].1, p[i].2) == marked(b, p[i].0, p[i].1, p[i].2));
        }
    }
    assert(marked(a, c.0, c.1, c.2) == marked(b, c.0, c.1, c.2));
    if outside(a, dims, c) {
        let p = choose|p: Seq<(int, int, int)>| #[trigger]
            is_air_walk(a, dims, p) && p[0] == (0int, 0int, 0int) && p[p.len() - 1] == c;
        assert(is_air_walk(b, dims, p));
    }
    if outside(b, dims, c) {
        let p = choose|p: Seq<(int, int, int)>| #[trigger]
            is_air_walk(b, dims, p) && p[0] == (0int, 0int, 0int) && p[p.len() - 1] == c;
        assert(is_air_walk(a, dims, p));
    }
}

/// Two scans of the same droplets have the same box, mark the same cubes
/// and have the same surface area.
pub proof fn lemma_same_scan(x: Lava, y: Lava, input: Seq<char>)
    requires
        x.scans(input),
        y.scans(input),
    ensures
        x.origin() == y.origin(),
        x.dims() == y.dims(),
        same_marks(x.grid(), y.grid()),
        x.surface() == y.surface(),
{
    let d = droplets_of(input);
    assert(x.origin().0 == y.origin().0) by {
        let n = choose|n: int| 0 <= n < d.len() && (#[trigger] d[n]).0 == x.origin().0 + 1;
        let m = choose|m: int| 0 <= m < d.len() && (#[trigger] d[m]).0 == y.origin().0 + 1;
    }
    assert(x.origin().1 == y.origin().1) by {
        let n = choose|n: int| 0 <= n < d.len() && (#[trigger] d[n]).1 == x.origin().1 + 1;
        let m = choose|m: int| 0 <= m < d.len() && (#[trigger] d[m]).1 == y.origin().1 + 1;
    }
    assert(x.origin().2 == y.origin().2) by {
        let n = choose|n: int| 0 <= n < d.len() && (#[trigger] d[n]).2 == x.origin().2 + 1;
        let m = choose|m: int| 0 <= m < d.len() && (#[trigger] d[m]).2 == y.origin().2 + 1;
    }
    assert(x.dims().0 == y.dims().0) by {
        let n = choose|n: int|
            0 <= n < d.len() && (#[trigger] d[n]).0 == x.origin().0 + x.dims().0 - 2;
        let m = choose|m: int|
            0 <= m < d.len() && (#[trigger] d[m]).0 == y.origin().0 + y.dims().0 - 2;
    }
    assert(x.dims().1 == y.dims().1) by {
        let n = choose|n: int|
            0 <= n < d.len() && (#[trigger] d[n]).1 == x.origin().1 + x.dims().1 - 2;
        let m = choose|m: int|
            0 <= m < d.len() && (#[trigger] d[m]).1 == y.origin().1 + y.dims().1 - 2;
    }
    assert(x.dims().2 == y.dims().2) by {
        let n = choose|n: int|
            0 <= n < d.len() && (#[trigger] d[n]).2 == x.origin().2 + x.dims().2 - 2;
        let m = choose|m: int|
            0 <= m < d.len() && (#[trigger] d[m]).2 == y.origin().2 + y.dims().2 - 2;
    }
    let o = x.origin();
    assert forall|i: int, j: int, k: int| #[trigger]
        marked(x.grid(), i, j, k) == marked(y.grid(), i, j, k) by {
        let c = (i + o.0, j + o.1, k + o.2);
        assert(x.is_droplet(c) == d.contains(c));
        assert(y.is_droplet(c) == d.contains(c));
    }
    lemma_same_area(x.grid(), y.grid(), x.dims().1, x.dims().2, x.dims().0);
}

/// The air that two scans of the same droplets enclose has the same surface
/// area.
pub proof fn lemma_same_interior(
    x: Lava,
    y: Lava,
    input: Seq<char>,
    within_x: Seq<Vec<Vec<bool>>>,
    within_y: Seq<Vec<Vec<bool>>>,
)
    requires
        x.scans(input),
        y.scans(input),
        x.is_interior(within_x),
        y.is_interior(within_y),
    ensures
        x.inner_surface(within_x) == y.inner_surface(within_y),
{
    lemma_same_scan(x, y, input);
    assert forall|i: int, j: int, k: int| #[trigger]
        marked(within_x, i, j, k) == marked(within_y, i, j, k) by {
        lemma_same_enclosed(x.grid(), y.grid(), x.dims(), (i, j, k));
        assert(lit(within_x, (i, j, k)) == enclosed(x.grid(), x.dims(), (i, j, k)));
        assert(lit(within_y, (i, j, k)) == enclosed(y.grid(), y.dims(), (i, j, k)));
    }
    lemma_same_area(within_x, within_y, x.dims().1, x.dims().2, x.dims().0);
}

/// The surface area of the droplets that `input` writes is `total`.
pub open spec fn is_surface(input: Seq<char>, total: int) -> bool {
    exists|lava: Lava| #[trigger] lava.scans(input) && lava.surface() == total
}

/// The surface area of the droplets that `input` writes is `whole`, that of
/// the air that they enclose is `within`.
pub open spec fn are_surfaces(input: Seq<char>, whole: int, within: int) -> bool {
    exists|lava: Lava, inner: Seq<Vec<Vec<bool>>>|
        #[trigger] lava.scans(input) && #[trigger] lava.is_interior(inner) && lava.surface()
            == whole && lava.inner_surface(inner) == within
}

/// The first answer can be worked out: the lines write droplets, and a
/// number of the machine holds their surface area.
pub open spec fn can_measure(input: Seq<char>) -> bool {
    is_scan(input) && exists|total: int| total <= usize::MAX && #[trigger] is_surface(input, total)
}

/// The second answer can be worked out: the lines write droplets, a number
/// of the machine holds their surface area, and the air that they enclose
/// has no greater one.
pub open spec fn can_measure_outside(input: Seq<char>) -> bool {
    is_scan(input) && exists|whole: int, within: int|
        within <= whole <= usize::MAX && #[trigger] are_surfaces(input, whole, within)
}

impl DayEighteen {
    /// Both answers; `None` where one of them cannot be worked out.
    pub fn solve(&self, input: &str) -> (r: Option<(String, String)>)
        ensures
            r is Some <==> can_measure_outside(input@),
            r matches Some(a) ==> exists|whole: int, within: int|
                within <= whole && #[trigger] are_surfaces(input@, whole, within) && a.0@
                    == "Surface area: "@ + decimal(whole as nat) && a.1@
                    == "Outer surface area: "@ + decimal((whole - within) as nat),
    {
        match self.try_part_two(input) {
            None => None,
            Some(two) => {
                proof {
                    let (whole, within) = choose|whole: int, within: int|
                        within <= whole <= usize::MAX && #[trigger] are_surfaces(
                            input@,
                            whole,
                            within,
                        );
                    let (lava, inner) = choose|lava: Lava, inner: Seq<Vec<Vec<bool>>>|
                        #[trigger] lava.scans(input@) && #[trigger] lava.is_interior(inner)
                            && lava.surface() == whole && lava.inner_surface(inner) == within;
                    assert(is_surface(input@, whole));
                }
                let one = self.part_one(input);
                proof {
                    let total = choose|total: int|
                        #[trigger] is_surface(input@, total) && one@ == "Surface area: "@
                            + decimal(total as nat);
                    let (whole, within) = choose|whole: int, within: int|
                        within <= whole && #[trigger] are_surfaces(input@, whole, within) && two@
                            == "Outer surface area: "@ + decimal((whole - within) as nat);
                    let x = choose|lava: Lava| #[trigger]
                        lava.scans(input@) && lava.surface() == total;
                    let (y, inner) = choose|lava: Lava, inner: Seq<Vec<Vec<bool>>>|
                        #[trigger] lava.scans(input@) && #[trigger] lava.is_interior(inner)
                            && lava.surface() == whole && lava.inner_surface(inner) == within;
                    lemma_same_scan(x, y, input@);
                    assert(are_surfaces(input@, whole, within));
                }
                Some((one, two))
            },
        }
    }

    /// Reports the surface area of the droplets; `None` where the lines
    /// write no droplets or no number of the machine holds the area.
    pub fn try_part_one(&self, input: &str) -> (r: Option<String>)
        ensures
            r is Some <==> can_measure(input@),
            r matches Some(out) ==> exists|total: int|
                #[trigger] is_surface(input@, total) && out@ == "Surface area: "@ + decimal(
                    total as nat,
                ),
    {
        if !reads_scan(input) {
            return None;
        }
        let lava = Lava::new(input);
        assert(lava.scans(input@));
        assert(is_surface(input@, lava.surface()));
        proof {
            if can_measure(input@) {
                let total = choose|total: int|
                    total <= usize::MAX && #[trigger] is_surface(input@, total);
                let other = choose|other: Lava| #[trigger]
                    other.scans(input@) && other.surface() == total;
                lemma_same_scan(lava, other, input@);
            }
        }
        match lava.try_get_surface_area() {
            None => None,
            Some(area) => Some(labelled_number("Surface area: ", area as u64)),
        }
    }

    /// Reports the surface area of the droplets without that of the air
    /// that they enclose; `None` where it cannot be worked out.
    pub fn try_part_two(&self, input: &str) -> (r: Option<String>)
        ensures
            r is Some <==> can_measure_outside(input@),
            r matches Some(out) ==> exists|whole: int, within: int|
                within <= whole && #[trigger] are_surfaces(input@, whole, within) && out@
                    == "Outer surface area: "@ + decimal((whole - within) as nat),
    {
        if !reads_scan(input) {
            return None;
        }
        let lava = Lava::new(input);
        assert(lava.scans(input@));
        let whole = lava.try_get_surface_area();
        let within = lava.try_get_interior_area();
        proof {
            let inner = choose|inner: Seq<Vec<Vec<bool>>>| #[trigger]
                lava.is_interior(inner) && (match within {
                    Some(total) => total == lava.inner_surface(inner),
                    None => lava.inner_surface(inner) > usize::MAX,
                });
            assert(are_surfaces(input@, lava.surface(), lava.inner_surface(inner)));
            if can_measure_outside(input@) {
                let (a, b) = choose|a: int, b: int|
                    b <= a <= usize::MAX && #[trigger] are_surfaces(input@, a, b);
                let (other, within_other) = choose|other: Lava, within_other: Seq<Vec<Vec<bool>>>|
                    #[trigger] other.scans(input@) && #[trigger] other.is_interior(within_other)
                        && other.surface() == a && other.inner_surface(within_other) == b;
                lemma_same_interior(lava, other, input@, inner, within_other);
                lemma_same_scan(lava, other, input@);
            }
        }
        match (whole, within) {
            (Some(whole), Some(within)) => {
                if within > whole {
                    None
                } else {
                    Some(labelled_number("Outer surface area: ", (whole - within) as u64))
                }
            },
            _ => None,
        }
    }

    /// Reports the surface area of the droplets.
    pub fn part_one(&self, input: &str) -> (out: String)
        requires
            can_measure(input@),
        ensures
            exists|total: int|
                #[trigger] is_surface(input@, total) && out@ == "Surface area: "@ + decimal(
                    total as nat,
                ),
    {
        self.try_part_one(input).unwrap()
    }

    /// Reports the surface area of the droplets without that of the air
    /// that they enclose.
    pub fn part_two(&self, input: &str) -> (out: String)
        requires
            can_measure_outside(input@),
        ensures
            exists|whole: int, within: int|
                within <= whole && #[trigger] are_surfaces(input@, whole, within) && out@
                    == "Outer surface area: "@ + decimal((whole - within) as nat),
    {
        self.try_part_two(input).unwrap()
    }
}

} // verus!
