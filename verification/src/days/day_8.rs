use crate::text::{chars_of, decimal, labelled_number, lines, lines_of, rows};
use vstd::prelude::*;

verus! {

pub struct DayEight {}

/// A square plot of trees, each with a height from 0 to 9.
pub struct Forest {
    trees: Vec<Vec<u32>>,
    row_size: usize,
    col_size: usize,
}

/// The height that a digit writes; `None` for any other character.
pub open spec fn tree_height(c: char) -> Option<u32> {
    if '0' <= c <= '9' {
        Some((c as u32 - '0' as u32) as u32)
    } else {
        None
    }
}

/// The lines of `input` form a square of digits: as many lines as each line
/// has characters, and at least one.
pub open spec fn is_plot(input: Seq<char>) -> bool {
    let ls = lines(input);
    &&& ls.len() > 0
    &&& forall|r: int| 0 <= r < ls.len() ==> (#[trigger] ls[r]).len() == ls.len()
    &&& forall|r: int, c: int|
        0 <= r < ls.len() && 0 <= c < ls[r].len() ==> tree_height(#[trigger] ls[r][c]) is Some
}

/// The heights that the digits of `input` write.
pub open spec fn plot_of(input: Seq<char>) -> Seq<Seq<u32>> {
    let ls = lines(input);
    Seq::new(ls.len(), |r: int| Seq::new(ls[r].len(), |c: int| tree_height(ls[r][c])->0))
}

/// `g` holds as many rows as each row holds trees, and at least one.
pub open spec fn is_square(g: Seq<Seq<u32>>) -> bool {
    &&& g.len() > 0
    &&& forall|r: int| 0 <= r < g.len() ==> (#[trigger] g[r]).len() == g.len()
}

/// How far one sees from the first tree of `s` along `s`: up to and
/// including the first tree that is at least as tall, or to the last tree.
pub open spec fn view_distance(s: Seq<u32>) -> int
    decreases s.len(),
{
    if s.len() <= 1 {
        0
    } else if s[1] >= s[0] {
        1
    } else {
        1 + view_distance(s.remove(1))
    }
}

/// The trees of row `r` from column `c` to the left edge.
pub open spec fn leftward(g: Seq<Seq<u32>>, r: int, c: int) -> Seq<u32> {
    Seq::new((c + 1) as nat, |i: int| g[r][c - i])
}

/// The trees of row `r` from column `c` to the right edge.
pub open spec fn rightward(g: Seq<Seq<u32>>, r: int, c: int) -> Seq<u32> {
    Seq::new((g.len() - c) as nat, |i: int| g[r][c + i])
}

/// The trees of column `c` from row `r` to the upper edge.
pub open spec fn upward(g: Seq<Seq<u32>>, r: int, c: int) -> Seq<u32> {
    Seq::new((r + 1) as nat, |i: int| g[r - i][c])
}

/// The trees of column `c` from row `r` to the lower edge.
pub open spec fn downward(g: Seq<Seq<u32>>, r: int, c: int) -> Seq<u32> {
    Seq::new((g.len() - r) as nat, |i: int| g[r + i][c])
}

/// The product of the viewing distances in the four directions.
pub open spec fn scenic(g: Seq<Seq<u32>>, r: int, c: int) -> int {
    view_distance(leftward(g, r, c)) * view_distance(rightward(g, r, c)) * view_distance(
        downward(g, r, c),
    ) * view_distance(upward(g, r, c))
}

/// All trees of `s` after the first are lower than the first.
pub open spec fn overlooks(s: Seq<u32>) -> bool {
    forall|i: int| 1 <= i < s.len() ==> #[trigger] s[i] < s[0]
}

/// The tree stands at the edge, or all trees between it and the edge are
/// lower in at least one of the four directions.
pub open spec fn visible(g: Seq<Seq<u32>>, r: int, c: int) -> bool {
    ||| r == 0
    ||| r == g.len() - 1
    ||| c == 0
    ||| c == g.len() - 1
    ||| overlooks(leftward(g, r, c))
    ||| overlooks(rightward(g, r, c))
    ||| overlooks(upward(g, r, c))
    ||| overlooks(downward(g, r, c))
}

/// The number of visible trees among the first `c` of row `r`.
pub open spec fn visible_in_row(g: Seq<Seq<u32>>, r: int, c: int) -> int
    decreases c,
{
    if c <= 0 {
        0
    } else {
        visible_in_row(g, r, c - 1) + (if visible(g, r, c - 1) {
            1int
        } else {
            0int
        })
    }
}

/// The number of visible trees in the first `r` rows.
pub open spec fn visible_in_rows(g: Seq<Seq<u32>>, r: int) -> int
    decreases r,
{
    if r <= 0 {
        0
    } else {
        visible_in_rows(g, r - 1) + visible_in_row(g, r - 1, g.len() as int)
    }
}

/// `m` is the scenic score of some tree, and no tree has a greater one.
pub open spec fn is_max_scenic(g: Seq<Seq<u32>>, m: int) -> bool {
    &&& exists|r: int, c: int| 0 <= r < g.len() && 0 <= c < g.len() && #[trigger] scenic(g, r, c) == m
    &&& forall|r: int, c: int| 0 <= r < g.len() && 0 <= c < g.len() ==> #[trigger] scenic(g, r, c) <= m
}

/// The product of four viewing distances fits in a machine word.
pub open spec fn scores_fit(n: int) -> bool {
    (n - 1) * (n - 1) * (n - 1) * (n - 1) <= usize::MAX
}

/// The viewing distance is less than the number of trees.
proof fn lemma_view_distance_bound(s: Seq<u32>)
    requires
        s.len() >= 1,
    ensures
        0 <= view_distance(s) <= s.len() - 1,
    decreases s.len(),
{
    if s.len() > 1 && s[1] < s[0] {
        lemma_view_distance_bound(s.remove(1));
    }
}

/// A product of four numbers of at most `m` is at most the fourth power of
/// `m`, and so is every product of the first few.
proof fn lemma_product_bound(a: int, b: int, c: int, d: int, m: int)
    requires
        0 <= a <= m,
        0 <= b <= m,
        0 <= c <= m,
        0 <= d <= m,
    ensures
        0 <= a * b <= m * m * m * m || m == 0,
        0 <= a * b * c <= m * m * m * m || m == 0,
        0 <= a * b * c * d <= m * m * m * m,
{
    assert(0 <= a * b <= m * m) by (nonlinear_arith)
        requires
            0 <= a <= m,
            0 <= b <= m,
    ;
    assert(0 <= a * b * c <= m * m * m) by (nonlinear_arith)
        requires
            0 <= a * b <= m * m,
            0 <= c <= m,
    ;
    assert(0 <= a * b * c * d <= m * m * m * m) by (nonlinear_arith)
        requires
            0 <= a * b * c <= m * m * m,
            0 <= d <= m,
    ;
    if m >= 1 {
        assert(m * m <= m * m * m * m && m * m * m <= m * m * m * m) by (nonlinear_arith)
            requires
                m >= 1,
        ;
    }
}

impl View for Forest {
    type V = Seq<Seq<u32>>;

    closed spec fn view(&self) -> Seq<Seq<u32>> {
        Seq::new(self.trees@.len(), |r: int| self.trees@[r]@)
    }
}

impl Forest {
    /// The plot is square, and the two sizes are the length of its side.
    pub closed spec fn wf(self) -> bool {
        &&& is_square(self@)
        &&& self.row_size == self.trees@.len()
        &&& self.col_size == self.trees@.len()
    }

    /// The trees of one row, from the left.
    fn row(&self, row_num: usize) -> (row: Vec<u32>)
        requires
            self.wf(),
            row_num < self@.len(),
        ensures
            row@ == self@[row_num as int],
    {
        let mut row: Vec<u32> = Vec::new();
        let mut i: usize = 0;
        assert(self@[row_num as int] == self.trees@[row_num as int]@);
        while i < self.col_size
            invariant
                self.wf(),
                row_num < self@.len(),
                i <= self.col_size,
                row.len() == i,
                self@[row_num as int] == self.trees@[row_num as int]@,
                self.trees@[row_num as int]@.len() == self.col_size,
                forall|k: int| 0 <= k < i ==> row@[k] == self@[row_num as int][k],
            decreases self.col_size - i,
        {
            row.push(self.trees[row_num][i]);
            i += 1;
        }
        assert(row@ =~= self@[row_num as int]);
        return row;
    }

    /// The trees of one column, from the top.
    fn col(&self, column_num: usize) -> (column: Vec<u32>)
        requires
            self.wf(),
            column_num < self@.len(),
        ensures
            column@.len() == self@.len(),
            forall|k: int| 0 <= k < self@.len() ==> column@[k] == self@[k][column_num as int],
    {
        let mut column: Vec<u32> = Vec::new();
        let mut i: usize = 0;
        while i < self.row_size
            invariant
                self.wf(),
                column_num < self@.len(),
                i <= self.row_size,
                column.len() == i,
                forall|k: int| 0 <= k < i ==> column@[k] == self@[k][column_num as int],
            decreases self.row_size - i,
        {
            assert(self@[i as int] == self.trees@[i as int]@);
            column.push(self.trees[i][column_num]);
            i += 1;
        }
        return column;
    }

    /// How far one sees along `tree_section` from its first tree, or from its
    /// last tree backwards where `reverse` is set.
    fn get_distance_to_tall_tree(&self, tree_section: Vec<u32>, reverse: bool) -> (d: usize)
        requires
            tree_section.len() >= 1,
        ensures
            d == view_distance(
                if reverse {
                    tree_section@.reverse()
                } else {
                    tree_section@
                },
            ),
    {
        let n = tree_section.len();
        let ghost s = if reverse {
            tree_section@.reverse()
        } else {
            tree_section@
        };
        if n == 1 {
            return 0;
        }
        let first = if reverse {
            tree_section[n - 1]
        } else {
            tree_section[0]
        };
        let mut i: usize = 1;
        let ghost mut rest = s;
        while i < n
            invariant
                1 <= i <= n,
                n == tree_section.len(),
                s.len() == n,
                s == (if reverse {
                    tree_section@.reverse()
                } else {
                    tree_section@
                }),
                first == s[0],
                rest.len() == n - i + 1,
                rest[0] == s[0],
                forall|k: int| 1 <= k < rest.len() ==> rest[k] == s[k + i - 1],
                view_distance(s) == (i - 1) + view_distance(rest),
            decreases n - i,
        {
            let tree = if reverse {
                tree_section[n - 1 - i]
            } else {
                tree_section[i]
            };
            assert(tree == s[i as int]);
            assert(rest[1] == s[i as int]);
            if tree >= first {
                return i;
            }
            proof {
                let next = rest.remove(1);
                assert forall|k: int| 1 <= k < next.len() implies next[k] == s[k + i] by {
                    assert(next[k] == rest[k + 1]);
                }
                rest = next;
            }
            i += 1;
        }
        return n - 1
    }

    /// The product of the viewing distances from a tree in the four
    /// directions.
    pub fn scenic_score(&self, row_num: usize, column_num: usize) -> (score: usize)
        requires
            self.wf(),
            row_num < self@.len(),
            column_num < self@.len(),
            scores_fit(self@.len() as int),
        ensures
            score == scenic(self@, row_num as int, column_num as int),
    {
        let ghost g = self@;
        let ghost r = row_num as int;
        let ghost c = column_num as int;
        let row = self.row(row_num);
        let left = copy_of(&row, 0, column_num + 1);
        let right = copy_of(&row, column_num, row.len());
        assert(left@.reverse() =~= leftward(g, r, c));
        assert(right@ =~= rightward(g, r, c));
        let scenic_score_left = self.get_distance_to_tall_tree(left, true);
        let scenic_score_right = self.get_distance_to_tall_tree(right, false);
        let col = self.col(column_num);
        let above = copy_of(&col, 0, row_num + 1);
        let below = copy_of(&col, row_num, col.len());
        assert(above@.reverse() =~= upward(g, r, c));
        assert(below@ =~= downward(g, r, c));
        let scenic_score_above = self.get_distance_to_tall_tree(above, true);
        let scenic_score_below = self.get_distance_to_tall_tree(below, false);
        proof {
            lemma_view_distance_bound(leftward(g, r, c));
            lemma_view_distance_bound(rightward(g, r, c));
            lemma_view_distance_bound(upward(g, r, c));
            lemma_view_distance_bound(downward(g, r, c));
            lemma_product_bound(
                scenic_score_left as int,
                scenic_score_right as int,
                scenic_score_below as int,
                scenic_score_above as int,
                g.len() - 1,
            );
        }
        scenic_score_left * scenic_score_right * scenic_score_below * scenic_score_above
    }

    /// Whether a tree can be seen from outside the plot.
    pub fn is_visible(&self, row_num: usize, column_num: usize) -> (b: bool)
        requires
            self.wf(),
            row_num < self@.len(),
            column_num < self@.len(),
        ensures
            b == visible(self@, row_num as int, column_num as int),
    {
        if row_num == 0 || row_num == self.row_size - 1 || column_num == 0 || column_num
            == self.col_size - 1 {
            return true
        }
        let ghost g = self@;
        let ghost r = row_num as int;
        let ghost c = column_num as int;
        let row: Vec<u32> = self.row(row_num);
        let left = all_lower(&row, 0, column_num, row[column_num]);
        assert(left == overlooks(leftward(g, r, c))) by {
            if left {
                assert forall|i: int| 1 <= i < leftward(g, r, c).len() implies #[trigger] leftward(
                    g,
                    r,
                    c,
                )[i] < leftward(g, r, c)[0] by {
                    assert(row@[c - i] < row@[c]);
                }
            } else {
                let k = choose|k: int| 0 <= k < c && row@[k] >= row@[c];
                assert(leftward(g, r, c)[c - k] == row@[k]);
            }
        }
        if left {
            return true
        }
        let right = all_lower(&row, column_num + 1, row.len(), row[column_num]);
        assert(right == overlooks(rightward(g, r, c))) by {
            if right {
                assert forall|i: int| 1 <= i < rightward(g, r, c).len() implies #[trigger] rightward(
                    g,
                    r,
                    c,
                )[i] < rightward(g, r, c)[0] by {
                    assert(row@[c + i] < row@[c]);
                }
            } else {
                let k = choose|k: int| c + 1 <= k < row@.len() && row@[k] >= row@[c];
                assert(rightward(g, r, c)[k - c] == row@[k]);
            }
        }
        if right {
            return true
        }
        let column: Vec<u32> = self.col(column_num);
        let above = all_lower(&column, 0, row_num, column[row_num]);
        assert(above == overlooks(upward(g, r, c))) by {
            if above {
                assert forall|i: int| 1 <= i < upward(g, r, c).len() implies #[trigger] upward(
                    g,
                    r,
                    c,
                )[i] < upward(g, r, c)[0] by {
                    assert(column@[r - i] < column@[r]);
                }
            } else {
                let k = choose|k: int| 0 <= k < r && column@[k] >= column@[r];
                assert(upward(g, r, c)[r - k] == column@[k]);
            }
        }
        if above {
            return true
        }
        let below = all_lower(&column, row_num + 1, column.len(), column[row_num]);
        assert(below == overlooks(downward(g, r, c))) by {
            if below {
                assert forall|i: int| 1 <= i < downward(g, r, c).len() implies #[trigger] downward(
                    g,
                    r,
                    c,
                )[i] < downward(g, r, c)[0] by {
                    assert(column@[r + i] < column@[r]);
                }
            } else {
                let k = choose|k: int| r + 1 <= k < column@.len() && column@[k] >= column@[r];
                assert(downward(g, r, c)[k - r] == column@[k]);
            }
        }
        below
    }

    /// The number of trees that can be seen from outside the plot.
    pub fn num_visible(&self) -> (count: u32)
        requires
            self.wf(),
            self@.len() * self@.len() <= u32::MAX,
        ensures
            count == visible_in_rows(self@, self@.len() as int),
    {
        let n = self.trees.len();
        let ghost g = self@;
        let mut sum: u32 = 0;
        let mut r: usize = 0;
        while r < n
            invariant
                self.wf(),
                g == self@,
                n == g.len(),
                n * n <= u32::MAX,
                r <= n,
                sum == visible_in_rows(g, r as int),
                sum <= r * n,
            decreases n - r,
        {
            let mut c: usize = 0;
            let ghost at_row = sum;
            while c < n
                invariant
                    self.wf(),
                    g == self@,
                    n == g.len(),
                    n * n <= u32::MAX,
                    r < n,
                    c <= n,
                    at_row <= r * n,
                    sum == at_row + visible_in_row(g, r as int, c as int),
                    sum <= at_row + c,
                decreases n - c,
            {
                assert((r + 1) * n <= n * n) by (nonlinear_arith)
                    requires
                        r < n,
                ;
                assert(r * n + n == (r + 1) * n) by (nonlinear_arith);
                if self.is_visible(r, c) {
                    sum = sum + 1;
                }
                c += 1;
            }
            assert(r * n + n == (r + 1) * n) by (nonlinear_arith);
            r += 1;
        }
        sum
    }

    /// The greatest scenic score of any tree.
    pub fn max_scenic_score(&self) -> (best: usize)
        requires
            self.wf(),
            scores_fit(self@.len() as int),
        ensures
            is_max_scenic(self@, best as int),
    {
        let n = self.trees.len();
        let ghost g = self@;
        let mut best: usize = self.scenic_score(0, 0);
        let ghost mut at: (int, int) = (0, 0);
        let mut r: usize = 0;
        while r < n
            invariant
                self.wf(),
                g == self@,
                n == g.len(),
                scores_fit(n as int),
                r <= n,
                0 <= at.0 < n && 0 <= at.1 < n,
                best == scenic(g, at.0, at.1),
                forall|r2: int, c2: int|
                    0 <= r2 < r && 0 <= c2 < n ==> #[trigger] scenic(g, r2, c2) <= best,
            decreases n - r,
        {
            let mut c: usize = 0;
            while c < n
                invariant
                    self.wf(),
                    g == self@,
                    n == g.len(),
                    scores_fit(n as int),
                    r < n,
                    c <= n,
                    0 <= at.0 < n && 0 <= at.1 < n,
                    best == scenic(g, at.0, at.1),
                    forall|r2: int, c2: int|
                        0 <= r2 < r && 0 <= c2 < n ==> #[trigger] scenic(g, r2, c2) <= best,
                    forall|c2: int| 0 <= c2 < c ==> #[trigger] scenic(g, r as int, c2) <= best,
                decreases n - c,
            {
                let score = self.scenic_score(r, c);
                if score > best {
                    best = score;
                    proof {
                        at = (r as int, c as int);
                    }
                }
                c += 1;
            }
            r += 1;
        }
        assert(scenic(g, at.0, at.1) == best);
        best
    }

    /// Reads a plot, one row of digits per line.
    pub fn new(input: &str) -> (forest: Forest)
        requires
            is_plot(input@),
        ensures
            forest.wf(),
            forest@ == plot_of(input@),
    {
        let text = chars_of(input);
        let ls = lines_of(&text);
        let ghost all = lines(input@);
        let mut grid: Vec<Vec<u32>> = Vec::new();
        let mut r: usize = 0;
        while r < ls.len()
            invariant
                r <= ls.len(),
                all == rows(ls@),
                is_plot(input@),
                all == lines(input@),
                grid.len() == r,
                forall|k: int| 0 <= k < r ==> (#[trigger] grid@[k])@ == plot_of(input@)[k],
            decreases ls.len() - r,
        {
            let line = &ls[r];
            assert(all[r as int] == line@);
            let mut row: Vec<u32> = Vec::new();
            let mut c: usize = 0;
            while c < line.len()
                invariant
                    c <= line.len(),
                    r < ls.len(),
                    all == rows(ls@),
                    all[r as int] == line@,
                    is_plot(input@),
                    all == lines(input@),
                    row.len() == c,
                    forall|k: int| 0 <= k < c ==> row@[k] == tree_height(line@[k])->0,
                decreases line.len() - c,
            {
                let x = line[c];
                assert(tree_height(all[r as int][c as int]) is Some);
                row.push(x as u32 - '0' as u32);
                c += 1;
            }
            assert(row@ =~= plot_of(input@)[r as int]);
            grid.push(row);
            r += 1;
        }
        let row_size: usize = grid[0].len();
        let col_size: usize = grid.len();
        let forest = Forest { trees: grid, row_size, col_size };
        proof {
            assert(forest@ =~= plot_of(input@));
            assert forall|k: int| 0 <= k < forest@.len() implies (#[trigger] forest@[k]).len()
                == forest@.len() by {
                assert(all[k].len() == all.len());
            }
        }
        forest
    }
}

/// The trees `v[from..to]` as a vector of their own.
fn copy_of(v: &Vec<u32>, from: usize, to: usize) -> (r: Vec<u32>)
    requires
        from <= to <= v.len(),
    ensures
        r@ == v@.subrange(from as int, to as int),
{
    let mut r: Vec<u32> = Vec::new();
    let mut i: usize = from;
    while i < to
        invariant
            from <= i <= to <= v.len(),
            r@ == v@.subrange(from as int, i as int),
        decreases to - i,
    {
        r.push(v[i]);
        i += 1;
        assert(v@.subrange(from as int, i as int) =~= v@.subrange(from as int, i - 1).push(
            v@[i - 1],
        ));
    }
    r
}

/// Whether all of the trees `v[from..to]` are lower than `h`.
fn all_lower(v: &Vec<u32>, from: usize, to: usize, h: u32) -> (b: bool)
    requires
        from <= to <= v.len(),
    ensures
        b == forall|k: int| from <= k < to ==> v@[k] < h,
{
    let mut i: usize = from;
    while i < to
        invariant
            from <= i <= to <= v.len(),
            forall|k: int| from <= k < i ==> v@[k] < h,
        decreases to - i,
    {
        if v[i] >= h {
            return false;
        }
        i += 1;
    }
    true
}

/// Both answers can be worked out for `input`.
pub open spec fn can_solve(input: Seq<char>) -> bool {
    &&& is_plot(input)
    &&& lines(input).len() * lines(input).len() <= u32::MAX
    &&& scores_fit(lines(input).len() as int)
}

/// Whether the lines form a square of digits.
fn draws_plot(input: &str) -> (r: Option<usize>)
    ensures
        r is Some <==> is_plot(input@),
        r matches Some(n) ==> n == lines(input@).len(),
{
    let text = chars_of(input);
    let ls = lines_of(&text);
    let ghost all = lines(input@);
    let n = ls.len();
    if n == 0 {
        return None;
    }
    let mut r: usize = 0;
    while r < n
        invariant
            r <= n,
            n == ls.len(),
            all == rows(ls@),
            all == lines(input@),
            forall|k: int| 0 <= k < r ==> (#[trigger] all[k]).len() == all.len(),
            forall|k: int, c: int|
                0 <= k < r && 0 <= c < all[k].len() ==> tree_height(#[trigger] all[k][c]) is Some,
        decreases n - r,
    {
        let line = &ls[r];
        assert(all[r as int] == line@);
        if line.len() != n {
            return None;
        }
        let mut c: usize = 0;
        while c < line.len()
            invariant
                c <= line.len(),
                r < n,
                n == ls.len(),
                all == rows(ls@),
                all == lines(input@),
                all[r as int] == line@,
                forall|k: int| 0 <= k < c ==> tree_height(#[trigger] line@[k]) is Some,
            decreases line.len() - c,
        {
            let x = line[c];
            if !(x >= '0' && x <= '9') {
                assert(tree_height(all[r as int][c as int]) is None);
                return None;
            }
            c += 1;
        }
        r += 1;
    }
    Some(n)
}

/// `out` is the first answer for `input`.
pub open spec fn is_first_answer(input: Seq<char>, out: Seq<char>) -> bool {
    out == "Visible trees: "@ + decimal(
        visible_in_rows(plot_of(input), plot_of(input).len() as int) as nat,
    )
}

/// `out` is the second answer for `input`.
pub open spec fn is_second_answer(input: Seq<char>, out: Seq<char>) -> bool {
    exists|m: nat|
        is_max_scenic(plot_of(input), m as int) && out == "Max scenic score: "@ + decimal(
            m,
        )
}

impl DayEight {
    /// Both answers; `None` where the lines form no square of digits or the
    /// plot is too large.
    pub fn solve(&self, input: &str) -> (r: Option<(String, String)>)
        ensures
            r is Some <==> can_solve(input@),
            r matches Some(answers) ==> is_first_answer(input@, answers.0@) && is_second_answer(
                input@,
                answers.1@,
            ),
    {
        let n = match draws_plot(input) {
            None => {
                return None;
            },
            Some(n) => n,
        };
        if n > 0xffff {
            assert(n * n > u32::MAX) by (nonlinear_arith)
                requires
                    n > 0xffff,
            ;
            return None;
        }
        assert(n * n <= u32::MAX) by (nonlinear_arith)
            requires
                0 <= n <= 0xffff,
        ;
        let m = (n - 1) as u128;
        assert(m * m <= 0xffff * 0xffff && m * m * m <= 0xffff * 0xffff * 0xffff && m * m * m * m
            <= 0xffff * 0xffff * 0xffff * 0xffff) by (nonlinear_arith)
            requires
                0 <= m < 0xffff,
        ;
        let fourth: u128 = m * m * m * m;
        if fourth > usize::MAX as u128 {
            return None;
        }
        Some((self.part_one(input), self.part_two(input)))
    }

    /// Reports how many trees can be seen from outside the plot.
    pub fn part_one(&self, input: &str) -> (out: String)
        requires
            is_plot(input@),
            lines(input@).len() * lines(input@).len() <= u32::MAX,
        ensures
            is_first_answer(input@, out@),
    {
        let forest = Forest::new(input);
        let visible_count: u32 = forest.num_visible();
        labelled_number("Visible trees: ", visible_count as u64)
    }

    /// Reports the greatest scenic score of any tree.
    pub fn part_two(&self, input: &str) -> (out: String)
        requires
            is_plot(input@),
            scores_fit(lines(input@).len() as int),
        ensures
            is_second_answer(input@, out@),
    {
        let forest = Forest::new(input);
        let max_scenic: usize = forest.max_scenic_score();
        let out = labelled_number("Max scenic score: ", max_scenic as u64);
        assert(is_max_scenic(plot_of(input@), max_scenic as int));
        out
    }
}

} // verus!
