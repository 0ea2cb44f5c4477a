use crate::graph::{Graph, NodeIndex};
use crate::text::{chars_of, decimal, labelled_number, lines, lines_of, rows, trim, trimmed};
use std::collections::HashSet;
use vstd::prelude::*;

verus! {

broadcast use vstd::std_specs::hash::group_hash_axioms;

pub struct DayTwelve;

/// A terrain as a graph: one node per square, an edge for every step that
/// climbs at most one level, and the marked squares.
pub struct HeightMap {
    map: Graph,
    end: NodeIndex,
    single_start: NodeIndex,
    possible_starts: HashSet<NodeIndex>,
}

/// The rows of squares that `input` describes: its lines, each cleared of
/// white space around it.
pub open spec fn grid_of(input: Seq<char>) -> Seq<Seq<char>> {
    Seq::new(lines(input).len(), |r: int| trimmed(lines(input)[r]))
}

/// The number of squares in the rows before row `r`.
pub open spec fn offset(g: Seq<Seq<char>>, r: int) -> int
    decreases r,
{
    if r <= 0 {
        0
    } else {
        offset(g, r - 1) + g[r - 1].len()
    }
}

/// The square in row `r` and column `c` exists.
pub open spec fn in_grid(g: Seq<Seq<char>>, r: int, c: int) -> bool {
    0 <= r < g.len() && 0 <= c < g[r].len()
}

/// The node of the square in row `r` and column `c`: squares are numbered
/// row by row.
pub open spec fn node_at(g: Seq<Seq<char>>, r: int, c: int) -> int {
    offset(g, r) + c
}

/// The four squares next to `(r, c)`: above, below, to the left, to the
/// right.
pub open spec fn beside(r: int, c: int, k: int) -> (int, int) {
    if k == 0 {
        (r - 1, c)
    } else if k == 1 {
        (r + 1, c)
    } else if k == 2 {
        (r, c - 1)
    } else {
        (r, c + 1)
    }
}

/// The letter names a height: a small letter, or one of the marks S and E.
pub open spec fn is_height(letter: char) -> bool {
    letter == 'S' || letter == 'E' || ('a' <= letter <= 'z')
}

/// The height that a letter names: S stands at the height of a, E at that
/// of z.
pub open spec fn height(letter: char) -> int {
    if letter == 'S' {
        'a' as int
    } else if letter == 'E' {
        'z' as int
    } else {
        letter as int
    }
}

/// One may step from a square with `from` to one with `to`.
pub open spec fn climbable(from: char, to: char) -> bool {
    height(to) - height(from) <= 1
}

/// The `k`th square beside `(r, c)` exists, can be stepped onto from
/// `(r, c)`, and has the node `v`.
pub open spec fn is_step(g: Seq<Seq<char>>, r: int, c: int, k: int, v: NodeIndex) -> bool {
    let (r2, c2) = beside(r, c, k);
    in_grid(g, r2, c2) && climbable(g[r][c], g[r2][c2]) && v == node_at(g, r2, c2)
}

/// The edges that leave the node of `(r, c)` lead exactly to those of the
/// first `upto` squares beside it that exist and can be stepped onto.
pub open spec fn edges_of_square(graph: Graph, g: Seq<Seq<char>>, r: int, c: int, upto: int) -> bool {
    forall|v: NodeIndex|
        #[trigger] graph.has_edge(node_at(g, r, c) as NodeIndex, v) <==> exists|k: int|
            0 <= k < upto && #[trigger] is_step(g, r, c, k, v)
}

/// Square `(r, c)` comes before square `(r2, c2)` in reading order.
pub open spec fn earlier(r: int, c: int, r2: int, c2: int) -> bool {
    r < r2 || (r == r2 && c < c2)
}

/// `v` is the node of the last square that holds `mark`.
pub open spec fn is_last_mark(g: Seq<Seq<char>>, mark: char, v: NodeIndex) -> bool {
    exists|r: int, c: int|
        in_grid(g, r, c) && g[r][c] == mark && v == #[trigger] node_at(g, r, c) && forall|
            r2: int,
            c2: int,
        |
            in_grid(g, r2, c2) && earlier(r, c, r2, c2) ==> #[trigger] g[r2][c2] != mark
}

/// Wherever two squares lie side by side, both hold a height.
pub open spec fn heights_known(g: Seq<Seq<char>>) -> bool {
    forall|r: int, c: int, k: int|
        0 <= k < 4 && in_grid(g, r, c) && #[trigger] in_grid(g, beside(r, c, k).0, beside(r, c, k).1)
            ==> is_height(g[r][c]) && is_height(g[beside(r, c, k).0][beside(r, c, k).1])
}

/// Some square holds `mark`.
pub open spec fn has_mark(g: Seq<Seq<char>>, mark: char) -> bool {
    exists|r: int, c: int| in_grid(g, r, c) && #[trigger] g[r][c] == mark
}

/// The rows before a row hold fewer squares than the rows up to it.
pub proof fn lemma_offset_grows(g: Seq<Seq<char>>, r: int, r2: int)
    requires
        0 <= r <= r2,
    ensures
        offset(g, r) <= offset(g, r2),
        r < r2 ==> offset(g, r) + g[r].len() <= offset(g, r2),
    decreases r2 - r,
{
    if r < r2 {
        lemma_offset_grows(g, r, r2 - 1);
    }
}

/// Two squares with the same node are the same square.
pub proof fn lemma_node_at_injective(g: Seq<Seq<char>>, r: int, c: int, r2: int, c2: int)
    requires
        in_grid(g, r, c),
        in_grid(g, r2, c2),
        node_at(g, r, c) == node_at(g, r2, c2),
    ensures
        r == r2 && c == c2,
{
    if r < r2 {
        lemma_offset_grows(g, r, r2);
    } else if r2 < r {
        lemma_offset_grows(g, r2, r);
    }
}

/// Every square has a node below the number of squares.
pub proof fn lemma_node_at_bound(g: Seq<Seq<char>>, r: int, c: int)
    requires
        in_grid(g, r, c),
    ensures
        0 <= node_at(g, r, c) < offset(g, g.len() as int),
{
    lemma_offset_grows(g, r, g.len() as int);
    lemma_offset_grows(g, 0, r);
}

/// Of the squares before `(r, c)`, the last that holds `mark` is the one at
/// `at`, with the node `found`; or none holds it.
pub open spec fn scanned(
    g: Seq<Seq<char>>,
    mark: char,
    r: int,
    c: int,
    found: Option<NodeIndex>,
    at: (int, int),
) -> bool {
    match found {
        Some(v) => in_grid(g, at.0, at.1) && earlier(at.0, at.1, r, c) && g[at.0][at.1] == mark
            && v == node_at(g, at.0, at.1) && forall|r2: int, c2: int|
            in_grid(g, r2, c2) && earlier(at.0, at.1, r2, c2) && earlier(r2, c2, r, c)
                ==> #[trigger] g[r2][c2] != mark,
        None => forall|r2: int, c2: int|
            in_grid(g, r2, c2) && earlier(r2, c2, r, c) ==> #[trigger] g[r2][c2] != mark,
    }
}

/// `v` is the node of a square before `(r, c)` at the lowest height.
pub open spec fn low_before(g: Seq<Seq<char>>, r: int, c: int, v: NodeIndex) -> bool {
    exists|r2: int, c2: int|
        in_grid(g, r2, c2) && earlier(r2, c2, r, c) && (g[r2][c2] == 'S' || g[r2][c2] == 'a') && v
            == #[trigger] node_at(g, r2, c2)
}

/// Once all squares beside `(r, c)` are done, the next square is in turn.
proof fn lemma_next_square(graph: Graph, g: Seq<Seq<char>>, r: int, c: int, r_next: int, c_next: int)
    requires
        linked_up_to(graph, g, r, c, 4),
        (r_next == r && c_next == c + 1) || (r_next == r + 1 && c_next == 0 && 0 <= r < g.len() && c
            == g[r].len() - 1),
    ensures
        linked_up_to(graph, g, r_next, c_next, 0),
{
    assert forall|r2: int, c2: int| in_grid(g, r2, c2) implies #[trigger] edges_of_square(
        graph,
        g,
        r2,
        c2,
        progress(r2, c2, r_next, c_next, 0),
    ) by {
        assert(edges_of_square(graph, g, r2, c2, progress(r2, c2, r, c, 4)));
    }
}

/// A row without squares changes nothing.
proof fn lemma_next_row(graph: Graph, g: Seq<Seq<char>>, r: int)
    requires
        linked_up_to(graph, g, r, 0, 0),
        0 <= r < g.len(),
        g[r].len() == 0,
    ensures
        linked_up_to(graph, g, r + 1, 0, 0),
{
    assert forall|r2: int, c2: int| in_grid(g, r2, c2) implies #[trigger] edges_of_square(
        graph,
        g,
        r2,
        c2,
        progress(r2, c2, r + 1, 0, 0),
    ) by {
        assert(edges_of_square(graph, g, r2, c2, progress(r2, c2, r, 0, 0)));
    }
}

/// The height that a letter names.
fn get_letter_value(letter: char) -> (value: i32)
    requires
        is_height(letter),
    ensures
        value == height(letter),
{
    let value = if letter == 'S' {
        'a'
    } else if letter == 'E' {
        'z'
    } else {
        letter
    };
    (value as u32) as i32
}

/// The rows of squares that `input` describes.
fn read_grid(input: &str) -> (grid: Vec<Vec<char>>)
    ensures
        rows(grid@) == grid_of(input@),
{
    let text = chars_of(input);
    let ls = lines_of(&text);
    let mut grid: Vec<Vec<char>> = Vec::new();
    let mut i: usize = 0;
    while i < ls.len()
        invariant
            i <= ls.len(),
            rows(ls@) == lines(input@),
            grid.len() == i,
            forall|k: int| 0 <= k < i ==> (#[trigger] grid@[k])@ == trimmed(ls@[k]@),
        decreases ls.len() - i,
    {
        grid.push(trim(&ls[i]));
        i += 1;
    }
    proof {
        assert forall|k: int| 0 <= k < grid.len() implies rows(grid@)[k] == grid_of(input@)[k] by {
            assert(rows(ls@)[k] == ls@[k]@);
        }
        assert(rows(grid@) =~= grid_of(input@));
    }
    grid
}

/// How many of the squares beside `(r2, c2)` have been dealt with once the
/// squares before `(r, c)` are done and `(r, c)` itself up to the `k`th.
pub open spec fn progress(r2: int, c2: int, r: int, c: int, k: int) -> int {
    if earlier(r2, c2, r, c) {
        4
    } else if r2 == r && c2 == c {
        k
    } else {
        0
    }
}

/// The edges of the squares before `(r, c)` are all there, those of
/// `(r, c)` up to the `k`th square beside it, and no others.
pub open spec fn linked_up_to(graph: Graph, g: Seq<Seq<char>>, r: int, c: int, k: int) -> bool {
    &&& graph.wf()
    &&& graph.targets_valid()
    &&& graph.node_count() == offset(g, g.len() as int)
    &&& forall|r2: int, c2: int|
        in_grid(g, r2, c2) ==> #[trigger] edges_of_square(
            graph,
            g,
            r2,
            c2,
            progress(r2, c2, r, c, k),
        )
}

/// `index` holds for every square its node.
pub open spec fn indexed(index: Seq<Vec<NodeIndex>>, g: Seq<Seq<char>>) -> bool {
    &&& index.len() == g.len()
    &&& forall|r: int| 0 <= r < g.len() ==> (#[trigger] index[r])@.len() == g[r].len()
    &&& forall|r: int, c: int| in_grid(g, r, c) ==> (#[trigger] index[r]@[c]) == node_at(g, r, c)
}

/// Adds the edge from `(r, c)` to `(r2, c2)`, the `k`th square beside it,
/// where the step is allowed.
fn add_step(
    graph: &mut Graph,
    grid: &Vec<Vec<char>>,
    index: &Vec<Vec<NodeIndex>>,
    r: usize,
    c: usize,
    r2: usize,
    c2: usize,
    Ghost(k): Ghost<int>,
)
    requires
        0 <= k < 4,
        linked_up_to(*old(graph), rows(grid@), r as int, c as int, k),
        heights_known(rows(grid@)),
        in_grid(rows(grid@), r as int, c as int),
        in_grid(rows(grid@), r2 as int, c2 as int),
        beside(r as int, c as int, k) == (r2 as int, c2 as int),
        indexed(index@, rows(grid@)),
    ensures
        linked_up_to(*final(graph), rows(grid@), r as int, c as int, k + 1),
{
    let ghost g = rows(grid@);
    let ghost before = *graph;
    proof {
        lemma_node_at_bound(g, r as int, c as int);
        lemma_node_at_bound(g, r2 as int, c2 as int);
        assert(in_grid(g, beside(r as int, c as int, k).0, beside(r as int, c as int, k).1));
        assert(g[r as int] == grid@[r as int]@);
        assert(g[r2 as int] == grid@[r2 as int]@);
    }
    let source = index[r][c];
    let target = index[r2][c2];
    let from = get_letter_value(grid[r][c]);
    let to = get_letter_value(grid[r2][c2]);
    if to - from <= 1 {
        graph.add_edge(source, target);
        proof {
            let after = *graph;
            assert forall|v: NodeIndex| after.has_edge(source, v) <==> (v == target
                || before.has_edge(source, v)) by {
                let old_s = before.successors_of(source);
                let new_s = after.successors_of(source);
                assert(new_s == seq![target] + old_s);
                if before.has_edge(source, v) {
                    let i = choose|i: int| 0 <= i < old_s.len() && old_s[i] == v;
                    assert(new_s[i + 1] == v);
                }
                if v == target {
                    assert(new_s[0] == v);
                }
                if after.has_edge(source, v) {
                    let i = choose|i: int| 0 <= i < new_s.len() && new_s[i] == v;
                    if i > 0 {
                        assert(old_s[i - 1] == v);
                    }
                }
            }
            assert(after.targets_valid()) by {
                assert forall|a: NodeIndex, i: int|
                    a < after.node_count() && 0 <= i < after.successors_of(a).len() implies (
                #[trigger] after.successors_of(a)[i]) < after.node_count() by {
                    if a == source {
                        if i > 0 {
                            assert(after.successors_of(a)[i] == before.successors_of(a)[i - 1]);
                        }
                    } else {
                        assert(after.successors_of(a) == before.successors_of(a));
                    }
                }
            }
            assert forall|r3: int, c3: int| in_grid(g, r3, c3) implies #[trigger] edges_of_square(
                after,
                g,
                r3,
                c3,
                progress(r3, c3, r as int, c as int, k + 1),
            ) by {
                assert(edges_of_square(
                    before,
                    g,
                    r3,
                    c3,
                    progress(r3, c3, r as int, c as int, k),
                ));
                assert(index@[r3]@[c3] == node_at(g, r3, c3));
                if r3 == r && c3 == c {
                    assert(is_step(g, r3, c3, k, target));
                    assert(progress(r3, c3, r as int, c as int, k) == k);
                    assert(node_at(g, r3, c3) as NodeIndex == source);
                    assert(edges_of_square(before, g, r3, c3, k));
                    assert forall|v: NodeIndex|
                        #[trigger] before.has_edge(source, v) <==> exists|j: int|
                            0 <= j < k && #[trigger] is_step(g, r3, c3, j, v) by {}
                    assert forall|v: NodeIndex|
                        #[trigger] after.has_edge(source, v) <==> exists|j: int|
                            0 <= j < k + 1 && #[trigger] is_step(g, r3, c3, j, v) by {
                        if before.has_edge(source, v) {
                            let j = choose|j: int| 0 <= j < k && #[trigger] is_step(g, r3, c3, j, v);
                            assert(0 <= j < k + 1 && is_step(g, r3, c3, j, v));
                        }
                        if exists|j: int| 0 <= j < k + 1 && #[trigger] is_step(g, r3, c3, j, v) {
                            let j = choose|j: int|
                                0 <= j < k + 1 && #[trigger] is_step(g, r3, c3, j, v);
                            if j < k {
                                assert(before.has_edge(source, v));
                            }
                        }
                    }
                    assert(edges_of_square(after, g, r3, c3, k + 1));
                } else {
                    if node_at(g, r3, c3) == source {
                        lemma_node_at_injective(g, r3, c3, r as int, c as int);
                    }
                    lemma_node_at_bound(g, r3, c3);
                    let n3 = node_at(g, r3, c3) as NodeIndex;
                    assert(after.successors_of(n3) == before.successors_of(n3));
                    assert forall|v: NodeIndex| after.has_edge(n3, v) == before.has_edge(n3, v) by {}
                    assert(edges_of_square(
                        after,
                        g,
                        r3,
                        c3,
                        progress(r3, c3, r as int, c as int, k),
                    ));
                }
            }
        }
    } else {
        proof {
            assert forall|r3: int, c3: int| in_grid(g, r3, c3) implies #[trigger] edges_of_square(
                before,
                g,
                r3,
                c3,
                progress(r3, c3, r as int, c as int, k + 1),
            ) by {
                assert(edges_of_square(
                    before,
                    g,
                    r3,
                    c3,
                    progress(r3, c3, r as int, c as int, k),
                ));
            }
        }
    }
}

/// Passes over the `k`th square beside `(r, c)`, which does not exist.
proof fn lemma_skip_step(graph: Graph, g: Seq<Seq<char>>, r: int, c: int, k: int)
    requires
        0 <= k < 4,
        linked_up_to(graph, g, r, c, k),
        in_grid(g, r, c),
        !in_grid(g, beside(r, c, k).0, beside(r, c, k).1),
    ensures
        linked_up_to(graph, g, r, c, k + 1),
{
    assert forall|r3: int, c3: int| in_grid(g, r3, c3) implies #[trigger] edges_of_square(
        graph,
        g,
        r3,
        c3,
        progress(r3, c3, r, c, k + 1),
    ) by {
        assert(edges_of_square(graph, g, r3, c3, progress(r3, c3, r, c, k)));
    }
}

impl HeightMap {
    /// The height that a letter names.
    pub fn get_letter_value(letter: char) -> (value: i32)
        requires
            is_height(letter),
        ensures
            value == height(letter),
    {
        get_letter_value(letter)
    }
    /// The graph of the terrain.
    pub closed spec fn graph(self) -> Graph {
        self.map
    }

    /// The node of the square marked S.
    pub closed spec fn start(self) -> NodeIndex {
        self.single_start
    }

    /// The node of the square marked E.
    pub closed spec fn goal(self) -> NodeIndex {
        self.end
    }

    /// The nodes of the squares at the lowest height.
    pub closed spec fn starts(self) -> Set<NodeIndex> {
        self.possible_starts@
    }

    /// The graph is well formed, its edges lead to nodes of it, and the marked
    /// nodes belong to it.
    pub open spec fn wf(self) -> bool {
        &&& self.graph().wf()
        &&& self.graph().targets_valid()
        &&& self.start() < self.graph().node_count()
        &&& self.goal() < self.graph().node_count()
        &&& self.starts().finite()
        &&& forall|v: NodeIndex| self.starts().contains(v) ==> v < self.graph().node_count()
    }

    /// This is the terrain that the rows `g` describe.
    pub open spec fn describes(self, g: Seq<Seq<char>>) -> bool {
        &&& self.graph().node_count() == offset(g, g.len() as int)
        &&& forall|r: int, c: int| in_grid(g, r, c) ==> #[trigger] edges_of_square(self.graph(), g, r, c, 4)
        &&& is_last_mark(g, 'S', self.start())
        &&& is_last_mark(g, 'E', self.goal())
        &&& forall|v: NodeIndex|
            self.starts().contains(v) <==> exists|r: int, c: int|
                in_grid(g, r, c) && (g[r][c] == 'S' || g[r][c] == 'a') && v == #[trigger] node_at(
                    g,
                    r,
                    c,
                )
    }

    /// Builds the terrain that `input` describes, one row of squares per
    /// line.
    pub fn new(input: &str) -> (hm: HeightMap)
        requires
            heights_known(grid_of(input@)),
            has_mark(grid_of(input@), 'S'),
            has_mark(grid_of(input@), 'E'),
        ensures
            hm.wf(),
            hm.describes(grid_of(input@)),
    {
        let grid = read_grid(input);
        let ghost g = rows(grid@);
        let mut single_start: Option<NodeIndex> = None;
        let mut end: Option<NodeIndex> = None;
        let mut graph = Graph::new();
        let mut possible_starts: HashSet<NodeIndex> = HashSet::new();
        let mut index: Vec<Vec<NodeIndex>> = Vec::new();
        let ghost mut s_at: (int, int) = (0, 0);
        let ghost mut e_at: (int, int) = (0, 0);
        let mut r: usize = 0;
        proof {
            assert forall|n: NodeIndex| (#[trigger] graph.successors_of(n)).len() == 0 by {
                graph.lemma_no_successors_outside(n);
            }
        }
        while r < grid.len()
            invariant
                r <= grid.len(),
                g == rows(grid@),
                graph.wf(),
                graph.node_count() == offset(g, r as int),
                forall|n: NodeIndex| (#[trigger] graph.successors_of(n)).len() == 0,
                index.len() == r,
                forall|k: int| 0 <= k < r ==> (#[trigger] index@[k])@.len() == g[k].len(),
                forall|r2: int, c2: int|
                    0 <= r2 < r && 0 <= c2 < g[r2].len() ==> (#[trigger] index@[r2]@[c2])
                        == node_at(g, r2, c2),
                scanned(g, 'S', r as int, 0, single_start, s_at),
                scanned(g, 'E', r as int, 0, end, e_at),
                forall|v: NodeIndex| possible_starts@.contains(v) <==> low_before(g, r as int, 0, v),
                possible_starts@.finite(),
            decreases grid.len() - r,
        {
            let mut row_index: Vec<NodeIndex> = Vec::new();
            let mut c: usize = 0;
            assert(g[r as int] == grid@[r as int]@);
            while c < grid[r].len()
                invariant
                    r < grid.len(),
                    c <= grid@[r as int].len(),
                    g == rows(grid@),
                    g[r as int] == grid@[r as int]@,
                    graph.wf(),
                    graph.node_count() == offset(g, r as int) + c,
                    forall|n: NodeIndex| (#[trigger] graph.successors_of(n)).len() == 0,
                    row_index.len() == c,
                    forall|c2: int| 0 <= c2 < c ==> (#[trigger] row_index@[c2]) == node_at(g, r as int, c2),
                    scanned(g, 'S', r as int, c as int, single_start, s_at),
                    scanned(g, 'E', r as int, c as int, end, e_at),
                    forall|v: NodeIndex|
                        possible_starts@.contains(v) <==> low_before(g, r as int, c as int, v),
                    possible_starts@.finite(),
                decreases grid@[r as int].len() - c,
            {
                let letter = grid[r][c];
                let ghost graph_before = graph;
                let ghost starts_before = possible_starts@;
                let node_index = graph.add_node();
                proof {
                    assert forall|n: NodeIndex| (#[trigger] graph.successors_of(n)).len() == 0 by {
                        if n < graph_before.node_count() {
                            assert(graph.successors_of(n) == graph_before.successors_of(n));
                        } else if n > node_index {
                            graph.lemma_no_successors_outside(n);
                        }
                    }
                    assert(node_index == node_at(g, r as int, c as int));
                }
                if letter == 'S' {
                    single_start = Some(node_index);
                    possible_starts.insert(node_index);
                    proof {
                        s_at = (r as int, c as int);
                    }
                } else if letter == 'E' {
                    end = Some(node_index);
                    proof {
                        e_at = (r as int, c as int);
                    }
                } else if letter == 'a' {
                    possible_starts.insert(node_index);
                }
                row_index.push(node_index);
                proof {
                    assert forall|v: NodeIndex|
                        possible_starts@.contains(v) <==> low_before(g, r as int, c + 1, v) by {
                        if low_before(g, r as int, c + 1, v) {
                            let (r2, c2) = choose|r2: int, c2: int|
                                in_grid(g, r2, c2) && earlier(r2, c2, r as int, c + 1) && (g[r2][c2]
                                    == 'S' || g[r2][c2] == 'a') && v == #[trigger] node_at(
                                    g,
                                    r2,
                                    c2,
                                );
                            if earlier(r2, c2, r as int, c as int) {
                                assert(low_before(g, r as int, c as int, v));
                            }
                        }
                        if starts_before.contains(v) {
                            assert(low_before(g, r as int, c as int, v));
                            let (r2, c2) = choose|r2: int, c2: int|
                                in_grid(g, r2, c2) && earlier(r2, c2, r as int, c as int) && (
                                g[r2][c2] == 'S' || g[r2][c2] == 'a') && v == #[trigger] node_at(
                                    g,
                                    r2,
                                    c2,
                                );
                            assert(earlier(r2, c2, r as int, c + 1));
                        }
                        if v == node_index && (letter == 'S' || letter == 'a') {
                            assert(in_grid(g, r as int, c as int) && earlier(
                                r as int,
                                c as int,
                                r as int,
                                c + 1,
                            ) && v == node_at(g, r as int, c as int));
                        }
                    }
                }
                c += 1;
            }
            index.push(row_index);
            proof {
                assert forall|v: NodeIndex|
                    possible_starts@.contains(v) <==> low_before(g, r + 1, 0, v) by {
                    if low_before(g, r + 1, 0, v) {
                        let (r2, c2) = choose|r2: int, c2: int|
                            in_grid(g, r2, c2) && earlier(r2, c2, r + 1, 0) && (g[r2][c2] == 'S'
                                || g[r2][c2] == 'a') && v == #[trigger] node_at(g, r2, c2);
                        assert(earlier(r2, c2, r as int, c as int));
                        assert(low_before(g, r as int, c as int, v));
                    }
                    if possible_starts@.contains(v) {
                        assert(low_before(g, r as int, c as int, v));
                        let (r2, c2) = choose|r2: int, c2: int|
                            in_grid(g, r2, c2) && earlier(r2, c2, r as int, c as int) && (g[r2][c2]
                                == 'S' || g[r2][c2] == 'a') && v == #[trigger] node_at(g, r2, c2);
                        assert(earlier(r2, c2, r + 1, 0));
                    }
                }
            }
            r += 1;
        }
        proof {
            assert(indexed(index@, g));
            assert forall|r2: int, c2: int| in_grid(g, r2, c2) implies #[trigger] edges_of_square(
                graph,
                g,
                r2,
                c2,
                progress(r2, c2, 0, 0, 0),
            ) by {
                assert forall|v: NodeIndex|
                    !#[trigger] graph.has_edge(node_at(g, r2, c2) as NodeIndex, v) by {
                    assert(graph.successors_of(node_at(g, r2, c2) as NodeIndex).len() == 0);
                }
            }
            assert(graph.targets_valid()) by {
                assert forall|a: NodeIndex, i: int|
                    a < graph.node_count() && 0 <= i < graph.successors_of(a).len() implies (
                #[trigger] graph.successors_of(a)[i]) < graph.node_count() by {
                    assert(graph.successors_of(a).len() == 0);
                }
            }
        }
        let mut r: usize = 0;
        while r < grid.len()
            invariant
                r <= grid.len(),
                g == rows(grid@),
                indexed(index@, g),
                heights_known(g),
                linked_up_to(graph, g, r as int, 0, 0),
            decreases grid.len() - r,
        {
            let mut c: usize = 0;
            assert(g[r as int] == grid@[r as int]@);
            if grid[r].len() == 0 {
                proof {
                    lemma_next_row(graph, g, r as int);
                }
            }
            while c < grid[r].len()
                invariant
                    r < grid.len(),
                    c <= grid@[r as int].len(),
                    g == rows(grid@),
                    g[r as int] == grid@[r as int]@,
                    indexed(index@, g),
                    heights_known(g),
                    c < grid@[r as int].len() ==> linked_up_to(graph, g, r as int, c as int, 0),
                    c == grid@[r as int].len() ==> linked_up_to(graph, g, r + 1, 0, 0),
                decreases grid@[r as int].len() - c,
            {
                if r >= 1 && c < grid[r - 1].len() {
                    assert(g[r - 1] == grid@[r - 1]@);
                    add_step(&mut graph, &grid, &index, r, c, r - 1, c, Ghost(0));
                } else {
                    proof {
                        if r >= 1 {
                            assert(g[r - 1] == grid@[r - 1]@);
                        }
                        lemma_skip_step(graph, g, r as int, c as int, 0);
                    }
                }
                if r + 1 < grid.len() && c < grid[r + 1].len() {
                    assert(g[r + 1] == grid@[r + 1]@);
                    add_step(&mut graph, &grid, &index, r, c, r + 1, c, Ghost(1));
                } else {
                    proof {
                        if r + 1 < grid.len() {
                            assert(g[r + 1] == grid@[r + 1]@);
                        }
                        lemma_skip_step(graph, g, r as int, c as int, 1);
                    }
                }
                if c >= 1 {
                    add_step(&mut graph, &grid, &index, r, c, r, c - 1, Ghost(2));
                } else {
                    proof {
                        lemma_skip_step(graph, g, r as int, c as int, 2);
                    }
                }
                if c + 1 < grid[r].len() {
                    add_step(&mut graph, &grid, &index, r, c, r, c + 1, Ghost(3));
                } else {
                    proof {
                        lemma_skip_step(graph, g, r as int, c as int, 3);
                    }
                }
                proof {
                    if c + 1 < grid@[r as int].len() {
                        lemma_next_square(graph, g, r as int, c as int, r as int, c + 1);
                    } else {
                        lemma_next_square(graph, g, r as int, c as int, r + 1, 0);
                    }
                }
                c += 1;
            }
            r += 1;
        }
        proof {
            assert forall|r2: int, c2: int| in_grid(g, r2, c2) implies #[trigger] edges_of_square(
                graph,
                g,
                r2,
                c2,
                4,
            ) by {
                assert(edges_of_square(graph, g, r2, c2, progress(r2, c2, g.len() as int, 0, 0)));
            }
            assert(single_start is Some) by {
                let (r2, c2) = choose|r2: int, c2: int| in_grid(g, r2, c2) && #[trigger] g[r2][c2] == 'S';
                assert(earlier(r2, c2, g.len() as int, 0));
            }
            assert(end is Some) by {
                let (r2, c2) = choose|r2: int, c2: int| in_grid(g, r2, c2) && #[trigger] g[r2][c2] == 'E';
                assert(earlier(r2, c2, g.len() as int, 0));
            }
            lemma_node_at_bound(g, s_at.0, s_at.1);
            lemma_node_at_bound(g, e_at.0, e_at.1);
            assert(is_last_mark(g, 'S', single_start->0)) by {
                assert(in_grid(g, s_at.0, s_at.1) && g[s_at.0][s_at.1] == 'S' && single_start->0
                    == node_at(g, s_at.0, s_at.1));
                assert forall|r2: int, c2: int|
                    in_grid(g, r2, c2) && earlier(s_at.0, s_at.1, r2, c2) implies #[trigger] g[r2][c2]
                    != 'S' by {
                    assert(earlier(r2, c2, g.len() as int, 0));
                }
            }
            assert(is_last_mark(g, 'E', end->0)) by {
                assert(in_grid(g, e_at.0, e_at.1) && g[e_at.0][e_at.1] == 'E' && end->0 == node_at(
                    g,
                    e_at.0,
                    e_at.1,
                ));
                assert forall|r2: int, c2: int|
                    in_grid(g, r2, c2) && earlier(e_at.0, e_at.1, r2, c2) implies #[trigger] g[r2][c2]
                    != 'E' by {
                    assert(earlier(r2, c2, g.len() as int, 0));
                }
            }
            assert forall|v: NodeIndex| possible_starts@.contains(v) implies v
                < graph.node_count() by {
                assert(low_before(g, g.len() as int, 0, v));
                let (r2, c2) = choose|r2: int, c2: int|
                    in_grid(g, r2, c2) && earlier(r2, c2, g.len() as int, 0) && (g[r2][c2] == 'S'
                        || g[r2][c2] == 'a') && v == #[trigger] node_at(g, r2, c2);
                lemma_node_at_bound(g, r2, c2);
            }
            assert forall|v: NodeIndex|
                possible_starts@.contains(v) <==> exists|r: int, c: int|
                    in_grid(g, r, c) && (g[r][c] == 'S' || g[r][c] == 'a') && v
                        == #[trigger] node_at(g, r, c) by {
                if exists|r: int, c: int|
                    in_grid(g, r, c) && (g[r][c] == 'S' || g[r][c] == 'a') && v
                        == #[trigger] node_at(g, r, c) {
                    let (r2, c2) = choose|r: int, c: int|
                        in_grid(g, r, c) && (g[r][c] == 'S' || g[r][c] == 'a') && v
                            == #[trigger] node_at(g, r, c);
                    assert(earlier(r2, c2, g.len() as int, 0));
                    assert(low_before(g, g.len() as int, 0, v));
                }
                if possible_starts@.contains(v) {
                    assert(low_before(g, g.len() as int, 0, v));
                }
            }
        }
        let single_start_val = single_start.unwrap();
        let end_val = end.unwrap();
        HeightMap {
            map: graph,
            single_start: single_start_val,
            end: end_val,
            possible_starts: possible_starts,
        }
    }
}

/// Every node below the number of squares in the first `n` rows is the node
/// of a square in them.
pub proof fn lemma_square_of_node(g: Seq<Seq<char>>, n: int, v: int) -> (at: (int, int))
    requires
        0 <= n <= g.len(),
        0 <= v < offset(g, n),
    ensures
        in_grid(g, at.0, at.1),
        at.0 < n,
        node_at(g, at.0, at.1) == v,
    decreases n,
{
    if v < offset(g, n - 1) {
        lemma_square_of_node(g, n - 1, v)
    } else {
        (n - 1, v - offset(g, n - 1))
    }
}

/// At most one node is that of the last square with `mark`.
pub proof fn lemma_last_mark_unique(g: Seq<Seq<char>>, mark: char, v: NodeIndex, w: NodeIndex)
    requires
        is_last_mark(g, mark, v),
        is_last_mark(g, mark, w),
    ensures
        v == w,
{
    let (r, c) = choose|r: int, c: int|
        in_grid(g, r, c) && g[r][c] == mark && v == #[trigger] node_at(g, r, c) && forall|
            r2: int,
            c2: int,
        |
            in_grid(g, r2, c2) && earlier(r, c, r2, c2) ==> #[trigger] g[r2][c2] != mark;
    let (r1, c1) = choose|r1: int, c1: int|
        in_grid(g, r1, c1) && g[r1][c1] == mark && w == #[trigger] node_at(g, r1, c1) && forall|
            r2: int,
            c2: int,
        |
            in_grid(g, r2, c2) && earlier(r1, c1, r2, c2) ==> #[trigger] g[r2][c2] != mark;
    if earlier(r, c, r1, c1) {
        assert(g[r1][c1] != mark);
    }
    if earlier(r1, c1, r, c) {
        assert(g[r][c] != mark);
    }
}

/// Two terrains that the same rows describe have the same marked nodes and
/// the same edges.
pub proof fn lemma_same_terrain(a: HeightMap, b: HeightMap, g: Seq<Seq<char>>)
    requires
        a.wf(),
        b.wf(),
        a.describes(g),
        b.describes(g),
    ensures
        a.start() == b.start(),
        a.goal() == b.goal(),
        a.starts() == b.starts(),
        forall|u: NodeIndex, v: NodeIndex| #[trigger] a.graph().has_edge(u, v) == b.graph().has_edge(u, v),
{
    lemma_last_mark_unique(g, 'S', a.start(), b.start());
    lemma_last_mark_unique(g, 'E', a.goal(), b.goal());
    assert(a.starts() =~= b.starts());
    assert forall|u: NodeIndex, v: NodeIndex| #[trigger]
        a.graph().has_edge(u, v) == b.graph().has_edge(u, v) by {
        if u < offset(g, g.len() as int) {
            let (r, c) = lemma_square_of_node(g, g.len() as int, u as int);
            assert(edges_of_square(a.graph(), g, r, c, 4));
            assert(edges_of_square(b.graph(), g, r, c, 4));
            assert(node_at(g, r, c) as NodeIndex == u);
            let there = exists|k: int| 0 <= k < 4 && #[trigger] is_step(g, r, c, k, v);
            assert(a.graph().has_edge(node_at(g, r, c) as NodeIndex, v) == there);
            assert(b.graph().has_edge(node_at(g, r, c) as NodeIndex, v) == there);
        } else {
            a.graph().lemma_no_successors_outside(u);
            b.graph().lemma_no_successors_outside(u);
            assert(!a.graph().has_edge(u, v));
            assert(!b.graph().has_edge(u, v));
        }
    }
}

/// Some terrain that the rows of `input` describe leads from the square
/// marked S to the one marked E.
pub open spec fn top_in_reach(input: Seq<char>) -> bool {
    exists|hm: HeightMap|
        hm.wf() && #[trigger] hm.describes(grid_of(input)) && hm.graph().reachable(
            hm.start(),
            hm.goal(),
        )
}

/// Some terrain that the rows of `input` describe leads from a square at the
/// lowest height to the one marked E.
pub open spec fn top_in_reach_from_low(input: Seq<char>) -> bool {
    exists|hm: HeightMap|
        hm.wf() && #[trigger] hm.describes(grid_of(input)) && exists|s: NodeIndex|
            hm.starts().contains(s) && #[trigger] hm.graph().reachable(s, hm.goal())
}

/// The rows of `input` describe a terrain with both marks and no more
/// squares than a 32-bit number counts.
pub open spec fn is_terrain(input: Seq<char>) -> bool {
    &&& heights_known(grid_of(input))
    &&& has_mark(grid_of(input), 'S')
    &&& has_mark(grid_of(input), 'E')
    &&& offset(grid_of(input), grid_of(input).len() as int) <= u32::MAX
}

/// `d` is the least distance to the goal from a start from which the goal
/// can be reached.
pub open spec fn is_least_from_starts(hm: HeightMap, d: nat) -> bool {
    &&& exists|s: NodeIndex|
        hm.starts().contains(s) && #[trigger] hm.graph().distance(s, hm.goal()) == Some(d)
    &&& forall|s: NodeIndex|
        hm.starts().contains(s) ==> (#[trigger] hm.graph().distance(s, hm.goal()) matches Some(x)
            ==> d <= x)
}

/// Where the goal can be reached from `s`, `best` holds a distance that is
/// not greater than the one from `s`.
pub open spec fn no_nearer(hm: HeightMap, s: NodeIndex, best: Option<u32>) -> bool {
    hm.graph().distance(s, hm.goal()) matches Some(x) ==> (best matches Some(d) && d <= x)
}

impl HeightMap {
    /// The least number of steps from the square marked S to the one marked E.
    pub fn shortest_path(&mut self) -> (steps: u32)
        requires
            old(self).wf(),
            old(self).graph().node_count() <= u32::MAX,
            old(self).graph().reachable(old(self).start(), old(self).goal()),
        ensures
            *final(self) == *old(self),
            old(self).graph().distance(old(self).start(), old(self).goal()) == Some(steps as nat),
    {
        self.map.bfs(self.single_start, self.end).unwrap()
    }

    /// The least number of steps to the square marked E from any square at
    /// the lowest height from which it can be reached.
    pub fn shortest_path_from_a(&mut self) -> (steps: u32)
        requires
            old(self).wf(),
            old(self).graph().node_count() <= u32::MAX,
            exists|s: NodeIndex|
                old(self).starts().contains(s) && #[trigger] old(self).graph().reachable(
                    s,
                    old(self).goal(),
                ),
        ensures
            *final(self) == *old(self),
            is_least_from_starts(*old(self), steps as nat),
    {
        let mut best: Option<u32> = None;
        let ghost mut best_from: NodeIndex = 0;
        for start in it: self.possible_starts.iter()
            invariant
                *self == *old(self),
                self.wf(),
                self.graph().node_count() <= u32::MAX,
                it.seq().unref().to_set() == self.starts(),
                best matches Some(d) ==> self.starts().contains(best_from) && self.graph().distance(
                    best_from,
                    self.goal(),
                ) == Some(d as nat),
                forall|i: int|
                    0 <= i < it.index() ==> no_nearer(*self, *(#[trigger] it.seq()[i]), best),
                it.index() == it.seq().len() ==> forall|s: NodeIndex|
                    self.starts().contains(s) ==> #[trigger] no_nearer(*self, s, best),
        {
            assert(it.seq().unref()[it.index()] == *start);
            assert(self.starts().contains(*start));
            if let Some(x) = self.map.bfs(*start, self.end) {
                let better = match best {
                    None => true,
                    Some(d) => x < d,
                };
                if better {
                    best = Some(x);
                    proof {
                        best_from = *start;
                    }
                }
            }
            assert forall|i: int| 0 <= i < it.index() + 1 implies no_nearer(
                *self,
                *(#[trigger] it.seq()[i]),
                best,
            ) by {}
            assert forall|s: NodeIndex|
                it.index() + 1 == it.seq().len() && self.starts().contains(s) implies #[trigger] no_nearer(
                *self,
                s,
                best,
            ) by {
                let j = choose|j: int| 0 <= j < it.seq().unref().len() && it.seq().unref()[j] == s;
                assert(*it.seq()[j] == s);
            }
        }
        proof {
            let s = choose|s: NodeIndex|
                self.starts().contains(s) && #[trigger] self.graph().reachable(s, self.goal());
            assert(no_nearer(*self, s, best));
            if self.graph().distance(s, self.goal()) is None {
                let p = choose|p: Seq<NodeIndex>| #[trigger] self.graph().is_path(p, s, self.goal());
                self.graph().lemma_path_gives_distance(p, s, self.goal());
            }
            assert forall|s2: NodeIndex| self.starts().contains(s2) implies (
            #[trigger] self.graph().distance(s2, self.goal()) matches Some(x) ==> best->0 <= x) by {
                assert(no_nearer(*self, s2, best));
            }
        }
        best.unwrap()
    }
}

/// The square `(r, c)` has no square beside it, or holds a height.
pub open spec fn settled(g: Seq<Seq<char>>, r: int, c: int) -> bool {
    ||| is_height(g[r][c])
    ||| (!in_grid(g, r - 1, c) && !in_grid(g, r + 1, c) && !in_grid(g, r, c - 1) && !in_grid(
        g,
        r,
        c + 1,
    ))
}

/// Whether the squares hold no more than a 32-bit number counts.
fn few_squares(grid: &Vec<Vec<char>>) -> (b: bool)
    ensures
        b == (offset(rows(grid@), grid.len() as int) <= u32::MAX),
{
    let ghost g = rows(grid@);
    let mut total: u64 = 0;
    let mut r: usize = 0;
    while r < grid.len()
        invariant
            r <= grid.len(),
            g == rows(grid@),
            total == offset(g, r as int),
            total <= u32::MAX,
        decreases grid.len() - r,
    {
        assert(g[r as int] == grid@[r as int]@);
        let n = grid[r].len() as u64;
        if n > 0xffff_ffff - total {
            proof {
                lemma_offset_grows(g, r + 1, grid.len() as int);
            }
            return false;
        }
        total = total + n;
        r += 1;
    }
    true
}

/// Whether some square holds `mark`.
fn holds_mark(grid: &Vec<Vec<char>>, mark: char) -> (b: bool)
    ensures
        b == has_mark(rows(grid@), mark),
{
    let ghost g = rows(grid@);
    let mut r: usize = 0;
    while r < grid.len()
        invariant
            r <= grid.len(),
            g == rows(grid@),
            forall|r2: int, c2: int| 0 <= r2 < r && 0 <= c2 < g[r2].len() ==> #[trigger] g[r2][c2] != mark,
        decreases grid.len() - r,
    {
        assert(g[r as int] == grid@[r as int]@);
        let row = &grid[r];
        let mut c: usize = 0;
        while c < row.len()
            invariant
                c <= row.len(),
                r < grid.len(),
                g == rows(grid@),
                g[r as int] == row@,
                forall|c2: int| 0 <= c2 < c ==> #[trigger] g[r as int][c2] != mark,
            decreases row.len() - c,
        {
            if row[c] == mark {
                assert(in_grid(g, r as int, c as int) && g[r as int][c as int] == mark);
                return true;
            }
            c += 1;
        }
        r += 1;
    }
    false
}

/// Whether every square with a square beside it holds a height.
fn heights_are_known(grid: &Vec<Vec<char>>) -> (b: bool)
    ensures
        b == heights_known(rows(grid@)),
{
    let ghost g = rows(grid@);
    let mut r: usize = 0;
    while r < grid.len()
        invariant
            r <= grid.len(),
            g == rows(grid@),
            forall|r2: int, c2: int| 0 <= r2 < r && 0 <= c2 < g[r2].len() ==> #[trigger] settled(g, r2, c2),
        decreases grid.len() - r,
    {
        assert(g[r as int] == grid@[r as int]@);
        let row = &grid[r];
        let mut c: usize = 0;
        while c < row.len()
            invariant
                c <= row.len(),
                r < grid.len(),
                g == rows(grid@),
                g[r as int] == row@,
                forall|c2: int| 0 <= c2 < c ==> #[trigger] settled(g, r as int, c2),
            decreases row.len() - c,
        {
            let letter = row[c];
            let known = letter == 'S' || letter == 'E' || ('a' <= letter && letter <= 'z');
            if !known {
                let mut k: usize = 4;
                if r > 0 {
                    assert(g[r - 1] == grid@[r - 1]@);
                    if c < grid[r - 1].len() {
                        k = 0;
                    }
                }
                if r + 1 < grid.len() {
                    assert(g[r + 1] == grid@[r + 1]@);
                    if c < grid[r + 1].len() {
                        k = 1;
                    }
                }
                if c > 0 {
                    k = 2;
                }
                if c + 1 < row.len() {
                    k = 3;
                }
                if k < 4 {
                    assert(in_grid(g, r as int, c as int));
                    assert(in_grid(g, beside(r as int, c as int, k as int).0, beside(r as int, c as int, k as int).1));
                    return false;
                }
            }
            c += 1;
        }
        r += 1;
    }
    proof {
        assert forall|r: int, c: int, k: int|
            0 <= k < 4 && in_grid(g, r, c) && #[trigger] in_grid(
                g,
                beside(r, c, k).0,
                beside(r, c, k).1,
            ) implies is_height(g[r][c]) && is_height(g[beside(r, c, k).0][beside(r, c, k).1]) by {
            let (r2, c2) = beside(r, c, k);
            assert(settled(g, r, c));
            assert(settled(g, r2, c2));
        }
    }
    true
}

/// `out` is the first answer for `input`.
pub open spec fn is_first_answer(input: Seq<char>, out: Seq<char>) -> bool {
    exists|hm: HeightMap|
        hm.wf() && #[trigger] hm.describes(grid_of(input)) && hm.graph().distance(
            hm.start(),
            hm.goal(),
        ) is Some && out == "Shortest path: "@ + decimal(
            hm.graph().distance(hm.start(), hm.goal())->0,
        )
}

/// `out` is the second answer for `input`.
pub open spec fn is_second_answer(input: Seq<char>, out: Seq<char>) -> bool {
    exists|hm: HeightMap, d: nat|
        hm.wf() && #[trigger] hm.describes(grid_of(input)) && #[trigger] is_least_from_starts(
            hm,
            d,
        ) && out == "Shortest path: "@ + decimal(d)
}

impl DayTwelve {
    /// Both answers; `None` where the lines describe no terrain with both
    /// marks, or no way leads to the square marked E.
    pub fn solve(&self, input: &str) -> (r: Option<(String, String)>)
        ensures
            r is Some <==> is_terrain(input@) && top_in_reach(input@),
            r matches Some(answers) ==> is_first_answer(input@, answers.0@) && is_second_answer(
                input@,
                answers.1@,
            ),
    {
        let grid = read_grid(input);
        if !heights_are_known(&grid) || !holds_mark(&grid, 'S') || !holds_mark(&grid, 'E')
            || !few_squares(&grid) {
            return None;
        }
        let mut map = HeightMap::new(input);
        let ghost hm = map;
        let found = map.map.bfs(map.single_start, map.end);
        proof {
            if top_in_reach(input@) {
                let other = choose|other: HeightMap|
                    other.wf() && #[trigger] other.describes(grid_of(input@))
                        && other.graph().reachable(other.start(), other.goal());
                lemma_same_terrain(hm, other, grid_of(input@));
                hm.graph().lemma_same_edges(other.graph(), hm.start(), hm.goal());
            }
        }
        if found.is_none() {
            return None;
        }
        assert(hm.starts().contains(hm.start()));
        Some((self.part_one(input), self.part_two(input)))
    }

    /// Reports the least number of steps from the square marked S to the one
    /// marked E.
    pub fn part_one(&self, input: &str) -> (out: String)
        requires
            heights_known(grid_of(input@)),
            has_mark(grid_of(input@), 'S'),
            has_mark(grid_of(input@), 'E'),
            offset(grid_of(input@), grid_of(input@).len() as int) <= u32::MAX,
            top_in_reach(input@),
        ensures
            is_first_answer(input@, out@),
    {
        let mut map = HeightMap::new(input);
        let ghost hm = map;
        proof {
            let other = choose|other: HeightMap|
                other.wf() && #[trigger] other.describes(grid_of(input@))
                    && other.graph().reachable(other.start(), other.goal());
            lemma_same_terrain(hm, other, grid_of(input@));
            hm.graph().lemma_same_edges(other.graph(), hm.start(), hm.goal());
        }
        let shortest_path = map.shortest_path();
        labelled_number("Shortest path: ", shortest_path as u64)
    }

    /// Reports the least number of steps to the square marked E from any
    /// square at the lowest height.
    pub fn part_two(&self, input: &str) -> (out: String)
        requires
            heights_known(grid_of(input@)),
            has_mark(grid_of(input@), 'S'),
            has_mark(grid_of(input@), 'E'),
            offset(grid_of(input@), grid_of(input@).len() as int) <= u32::MAX,
            top_in_reach_from_low(input@),
        ensures
            is_second_answer(input@, out@),
    {
        let mut map = HeightMap::new(input);
        let ghost hm = map;
        proof {
            let other = choose|other: HeightMap|
                other.wf() && #[trigger] other.describes(grid_of(input@)) && exists|s: NodeIndex|
                    other.starts().contains(s) && #[trigger] other.graph().reachable(
                        s,
                        other.goal(),
                    );
            let s = choose|s: NodeIndex|
                other.starts().contains(s) && #[trigger] other.graph().reachable(s, other.goal());
            lemma_same_terrain(hm, other, grid_of(input@));
            hm.graph().lemma_same_edges(other.graph(), s, hm.goal());
        }
        let shortest_path = map.shortest_path_from_a();
        assert(hm.describes(grid_of(input@)) && is_least_from_starts(hm, shortest_path as nat));
        labelled_number("Shortest path: ", shortest_path as u64)
    }
}

} // verus!
