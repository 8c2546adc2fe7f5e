//! The cycle finder: from any starting coordinate the arrow pointers are
//! followed until a coordinate repeats, the acyclic prelude is trimmed off,
//! and the remaining cycle is returned; a scan over every coordinate then
//! yields the cycle of maximum length.

use crate::grid::{glyph_of_dir, Direction, GraphMeta};
use vstd::arithmetic::div_mod::{
    lemma_fundamental_div_mod, lemma_fundamental_div_mod_converse, lemma_mod_bound,
    lemma_mod_self_0, lemma_small_mod,
};
use vstd::arithmetic::mul::{lemma_mul_inequality, lemma_mul_nonnegative};
use vstd::prelude::*;
use vstd::set_lib::{lemma_int_range, lemma_len_subset, set_int_range};

verus! {

/// A single position in the input graph, together with the direction
/// stored there.
#[derive(Clone, Copy, PartialEq, Eq, Structural, Debug)]
pub struct Node {
    pub x: usize,
    pub y: usize,
    pub pointer: Direction,
}

/// A cycle in the input graph: an ordered sequence of nodes in which each
/// node's direction leads to the next node's coordinate, and the last node
/// leads back to the first.
pub type Cycle = Vec<Node>;

/// The coordinate of a node, as a pair of mathematical integers.
pub open spec fn node_coord(n: Node) -> (int, int) {
    (n.x as int, n.y as int)
}

/// The sequence of coordinates visited by a sequence of nodes.
pub open spec fn coords_of(s: Seq<Node>) -> Seq<(int, int)> {
    Seq::new(s.len(), |i: int| node_coord(s[i]))
}

/// The coordinate reached after `n` steps of following the arrow pointers
/// from `(x, y)`.
pub open spec fn walk(g: GraphMeta, x: int, y: int, n: nat) -> (int, int)
    decreases n,
{
    if n == 0 {
        (x, y)
    } else {
        let p = walk(g, x, y, (n - 1) as nat);
        g.neighbor_spec(p.0, p.1)
    }
}

/// Whether the coordinate reached after `n` steps from `(x, y)` was already
/// visited at some earlier step.
pub open spec fn repeat_at(g: GraphMeta, x: int, y: int, n: nat) -> bool {
    exists|j: nat| j < n && walk(g, x, y, j) == walk(g, x, y, n)
}

/// Whether `n` is the first step at which the walk from `(x, y)` revisits a
/// coordinate.
pub open spec fn is_stop_index(g: GraphMeta, x: int, y: int, n: nat) -> bool {
    repeat_at(g, x, y, n) && (forall|m: nat| m < n ==> !repeat_at(g, x, y, m))
}

/// The first step at which the walk from `(x, y)` revisits a coordinate.
pub open spec fn stop_index(g: GraphMeta, x: int, y: int) -> nat {
    choose|n: nat| is_stop_index(g, x, y, n)
}

/// The step at which the walk from `(x, y)` first visited the coordinate it
/// later returns to: everything before it is the acyclic prelude.
pub open spec fn cycle_start(g: GraphMeta, x: int, y: int) -> nat {
    choose|k: nat|
        k < stop_index(g, x, y) && #[trigger] walk(g, x, y, k) == walk(
            g,
            x,
            y,
            stop_index(g, x, y),
        )
}

/// The coordinates of the cycle that the walk from `(x, y)` falls into: the
/// visited coordinates from `cycle_start` up to (excluding) `stop_index`.
pub open spec fn trace_cycle(g: GraphMeta, x: int, y: int) -> Seq<(int, int)> {
    Seq::new(
        (stop_index(g, x, y) - cycle_start(g, x, y)) as nat,
        |i: int| walk(g, x, y, (cycle_start(g, x, y) + i) as nat),
    )
}

/// The first repeat step is unique, so a witness for it pins `stop_index`.
proof fn lemma_stop_index_is(g: GraphMeta, x: int, y: int, n: nat)
    requires
        is_stop_index(g, x, y, n),
    ensures
        stop_index(g, x, y) == n,
{
    assert(exists|m: nat| is_stop_index(g, x, y, m));
    let s = stop_index(g, x, y);
    assert(is_stop_index(g, x, y, s));
    if s < n {
        assert(!repeat_at(g, x, y, s));
        assert(false);
    } else if s > n {
        assert(!repeat_at(g, x, y, n));
        assert(false);
    }
}

/// When the coordinates before `stop_index` are pairwise distinct, a witness
/// for the first visit of the repeated coordinate pins `cycle_start`.
proof fn lemma_cycle_start_is(g: GraphMeta, x: int, y: int, k: nat)
    requires
        k < stop_index(g, x, y),
        walk(g, x, y, k) == walk(g, x, y, stop_index(g, x, y)),
        forall|j1: nat, j2: nat|
            j1 < j2 < stop_index(g, x, y) ==> walk(g, x, y, j1) != walk(g, x, y, j2),
    ensures
        cycle_start(g, x, y) == k,
{
    let s = stop_index(g, x, y);
    assert(exists|j: nat| j < s && walk(g, x, y, j) == walk(g, x, y, s));
    let c = cycle_start(g, x, y);
    assert(c < s && walk(g, x, y, c) == walk(g, x, y, s));
    if c < k {
        assert(walk(g, x, y, c) != walk(g, x, y, k));
        assert(false);
    } else if k < c {
        assert(walk(g, x, y, k) != walk(g, x, y, c));
        assert(false);
    }
}

/// Pigeonhole over the grid: a sequence of pairwise-distinct coordinates of
/// a `w` by `h` grid has at most `w * h` entries.
proof fn lemma_distinct_coords_bound(s: Seq<(int, int)>, w: int, h: int)
    requires
        0 <= w,
        0 <= h,
        forall|i: int|
            0 <= i < s.len() ==> 0 <= (#[trigger] s[i]).0 < w && 0 <= s[i].1 < h,
        forall|i: int, j: int| 0 <= i < j < s.len() ==> s[i] != s[j],
    ensures
        s.len() <= w * h,
{
    lemma_mul_nonnegative(w, h);
    if s.len() > 0 {
        // the bounds on s[0] force both dimensions to be positive
        assert(0 <= (s[0]).0 < w && 0 <= s[0].1 < h);
        assert(0 < w && 0 < h);
        let idx = Seq::new(s.len(), |i: int| s[i].0 * h + s[i].1);
        assert forall|i: int| 0 <= i < idx.len() implies 0 <= #[trigger] idx[i] < w * h by {
            lemma_mul_inequality(0, s[i].0, h);
            lemma_mul_inequality(s[i].0, w - 1, h);
            assert((w - 1) * h == w * h - h) by (nonlinear_arith);
        }
        assert(idx.no_duplicates()) by {
            assert forall|i: int, j: int|
                0 <= i < idx.len() && 0 <= j < idx.len() && i != j implies idx[i] != idx[j] by {
                if idx[i] == idx[j] {
                    lemma_fundamental_div_mod_converse(idx[i], h, s[i].0, s[i].1);
                    lemma_fundamental_div_mod_converse(idx[j], h, s[j].0, s[j].1);
                    assert(s[i] == s[j]);
                    assert(false);
                }
            }
        }
        idx.unique_seq_to_set();
        assert(idx.to_set().subset_of(set_int_range(0, w * h))) by {
            assert forall|v: int| idx.to_set().contains(v) implies set_int_range(
                0,
                w * h,
            ).contains(v) by {
                let i = choose|i: int| 0 <= i < idx.len() && idx[i] == v;
                assert(0 <= idx[i] < w * h);
            }
        }
        lemma_int_range(0, w * h);
        lemma_len_subset(idx.to_set(), set_int_range(0, w * h));
    }
}

/// The index of some node of `nodes` whose coordinate is `(x, y)`, or `None`
/// when no node has that coordinate.
fn find_index(nodes: &Vec<Node>, x: usize, y: usize) -> (r: Option<usize>)
    ensures
        match r {
            Some(k) => k < nodes@.len() && node_coord(nodes@[k as int]) == (x as int, y as int),
            None => forall|j: int|
                0 <= j < nodes@.len() ==> node_coord(#[trigger] nodes@[j]) != (x as int, y as int),
        },
{
    let mut i: usize = 0;
    while i < nodes.len()
        invariant
            i <= nodes@.len(),
            forall|j: int|
                0 <= j < i ==> node_coord(#[trigger] nodes@[j]) != (x as int, y as int),
        decreases nodes@.len() - i,
    {
        if nodes[i].x == x && nodes[i].y == y {
            return Some(i);
        }
        i += 1;
    }
    None
}

/// Whether the grid position `(x1, y1)` comes before `(x2, y2)` in the scan
/// order of the maximum-cycle search: smaller x first, then smaller y.
pub open spec fn root_before(x1: int, y1: int, x2: int, y2: int) -> bool {
    x1 < x2 || (x1 == x2 && y1 < y2)
}

impl GraphMeta {
    /// What makes a non-empty node sequence a cycle of this grid: every node
    /// is in bounds and carries the direction stored at its coordinate, each
    /// node's direction leads to the next node's coordinate, the last node
    /// leads back to the first, and no coordinate repeats.
    pub open spec fn is_cycle(self, c: Seq<Node>) -> bool {
        &&& c.len() > 0
        &&& forall|j: int|
            0 <= j < c.len() ==> {
                &&& (#[trigger] c[j]).x < self.width
                &&& c[j].y < self.height
                &&& c[j].pointer == self.dir_at(c[j].x as int, c[j].y as int)
            }
        &&& forall|j: int|
            0 <= j < c.len() - 1 ==> node_coord(#[trigger] c[j + 1]) == self.neighbor_spec(
                c[j].x as int,
                c[j].y as int,
            )
        &&& node_coord(c[0]) == self.neighbor_spec(
            c[c.len() - 1].x as int,
            c[c.len() - 1].y as int,
        )
        &&& forall|j1: int, j2: int|
            0 <= j1 < j2 < c.len() ==> node_coord(c[j1]) != node_coord(c[j2])
    }

    /// What the cycle finders promise of their results: empty, or a cycle of
    /// this grid; in either case no longer than the number of grid cells.
    pub open spec fn cycle_props(self, c: Seq<Node>) -> bool {
        &&& c.len() > 0 ==> self.is_cycle(c)
        &&& c.len() <= self.width * self.height
    }

    /// What `get_max_cycle` promises of its result when the grid has cells:
    /// it is the cycle traced from root `(x0, y0)`, no root's trace yields a
    /// longer cycle, and every root scanned before `(x0, y0)` yields a
    /// strictly shorter one.
    pub open spec fn max_cycle_root(self, x0: int, y0: int, c: Seq<Node>) -> bool {
        &&& self.in_bounds(x0, y0)
        &&& coords_of(c) == trace_cycle(self, x0, y0)
        &&& forall|x: int, y: int|
            self.in_bounds(x, y) ==> (#[trigger] trace_cycle(self, x, y)).len() <= c.len()
        &&& forall|x: int, y: int|
            self.in_bounds(x, y) && root_before(x, y, x0, y0) ==> (#[trigger] trace_cycle(
                self,
                x,
                y,
            )).len() < c.len()
    }

    /// Finds the `Cycle` rooted at the point given by `(x, y)`.
    ///
    /// `(x, y)` need not be a part of the returned `Cycle`: it may merely be
    /// a prelude to the cycle, which is trimmed off. The walk from `(x, y)`
    /// visits at most `width * height` distinct coordinates before a repeat
    /// is detected, the returned nodes are linked each to the next by the
    /// direction they carry, the last links back to the first, and no
    /// coordinate repeats within the result.
    pub fn get_cycle_from(&self, x: usize, y: usize) -> (c: Cycle)
        requires
            self.wf(),
            x < self.width,
            y < self.height,
        ensures
            coords_of(c@) == trace_cycle(*self, x as int, y as int),
            self.cycle_props(c@),
            1 <= c@.len(),
            stop_index(*self, x as int, y as int) <= self.width * self.height,
    {
        let ghost g = *self;
        let ghost gx = x as int;
        let ghost gy = y as int;
        let mut trace: Vec<Node> = Vec::new();
        let mut cur_x = x;
        let mut cur_y = y;
        loop
            invariant
                self.wf(),
                g == *self,
                gx == x as int,
                gy == y as int,
                x < self.width,
                y < self.height,
                cur_x < self.width,
                cur_y < self.height,
                (cur_x as int, cur_y as int) == walk(g, gx, gy, trace@.len() as nat),
                forall|j: int|
                    0 <= j < trace@.len() ==> node_coord(#[trigger] trace@[j]) == walk(
                        g,
                        gx,
                        gy,
                        j as nat,
                    ),
                forall|j: int|
                    0 <= j < trace@.len() ==> {
                        &&& (#[trigger] trace@[j]).x < self.width
                        &&& trace@[j].y < self.height
                        &&& trace@[j].pointer == self.dir_at(
                            trace@[j].x as int,
                            trace@[j].y as int,
                        )
                    },
                forall|j1: int, j2: int|
                    0 <= j1 < j2 < trace@.len() ==> node_coord(trace@[j1]) != node_coord(
                        trace@[j2],
                    ),
                trace@.len() <= self.width * self.height,
            decreases self.width * self.height - trace@.len(),
        {
            match find_index(&trace, cur_x, cur_y) {
                Some(k) => {
                    let ghost i = trace@.len() as nat;
                    let ghost kk = k as nat;
                    proof {
                        assert(walk(g, gx, gy, kk) == walk(g, gx, gy, i));
                        assert(repeat_at(g, gx, gy, i));
                        assert forall|m: nat| m < i implies !repeat_at(g, gx, gy, m) by {
                            if repeat_at(g, gx, gy, m) {
                                let j = choose|j: nat|
                                    j < m && walk(g, gx, gy, j) == walk(g, gx, gy, m);
                                assert(node_coord(trace@[j as int]) == walk(g, gx, gy, j));
                                assert(node_coord(trace@[m as int]) == walk(g, gx, gy, m));
                                assert(false);
                            }
                        }
                        assert(is_stop_index(g, gx, gy, i));
                        lemma_stop_index_is(g, gx, gy, i);
                        assert forall|j1: nat, j2: nat|
                            j1 < j2 < stop_index(g, gx, gy) implies walk(g, gx, gy, j1) != walk(
                            g,
                            gx,
                            gy,
                            j2,
                        ) by {
                            assert(node_coord(trace@[j1 as int]) == walk(g, gx, gy, j1));
                            assert(node_coord(trace@[j2 as int]) == walk(g, gx, gy, j2));
                        }
                        lemma_cycle_start_is(g, gx, gy, kk);
                    }
                    let mut out: Vec<Node> = Vec::new();
                    let mut j = k;
                    while j < trace.len()
                        invariant
                            k <= j <= trace@.len(),
                            out@ == trace@.subrange(k as int, j as int),
                        decreases trace@.len() - j,
                    {
                        let n = trace[j];
                        out.push(n);
                        proof {
                            assert(out@ =~= trace@.subrange(k as int, j as int + 1));
                        }
                        j += 1;
                    }
                    proof {
                        assert(stop_index(g, gx, gy) == i);
                        assert(cycle_start(g, gx, gy) == kk);
                        assert(out@.len() == i - kk);
                        assert forall|t: int| 0 <= t < out@.len() implies coords_of(out@)[t]
                            == trace_cycle(g, gx, gy)[t] by {
                            assert(out@[t] == trace@[k + t]);
                            assert(node_coord(trace@[k + t]) == walk(g, gx, gy, (k + t) as nat));
                        }
                        assert(coords_of(out@) =~= trace_cycle(g, gx, gy));
                        assert(i <= self.width * self.height);
                        // linkage of consecutive nodes: walk(n + 1) unfolds to
                        // the neighbor of walk(n)
                        assert forall|t: int| 0 <= t < out@.len() - 1 implies node_coord(
                            #[trigger] out@[t + 1],
                        ) == self.neighbor_spec(out@[t].x as int, out@[t].y as int) by {
                            let n = (k + t) as nat;
                            assert(walk(g, gx, gy, (n + 1) as nat) == g.neighbor_spec(
                                walk(g, gx, gy, n).0,
                                walk(g, gx, gy, n).1,
                            ));
                        }
                        // closure: the last node's successor is the repeated
                        // coordinate, which is where the cycle started
                        if out@.len() > 0 {
                            let last = (i - 1) as nat;
                            assert(walk(g, gx, gy, (last + 1) as nat) == g.neighbor_spec(
                                walk(g, gx, gy, last).0,
                                walk(g, gx, gy, last).1,
                            ));
                            assert(node_coord(out@[0]) == walk(g, gx, gy, kk));
                        }
                    }
                    return out;
                },
                None => {
                    let d = self.pointers[cur_y][cur_x];
                    let node = Node { x: cur_x, y: cur_y, pointer: d };
                    trace.push(node);
                    proof {
                        assert forall|i: int|
                            0 <= i < coords_of(trace@).len() implies 0 <= (#[trigger] coords_of(
                            trace@,
                        )[i]).0 < self.width as int && 0 <= coords_of(trace@)[i].1
                            < self.height as int by {
                            assert(coords_of(trace@)[i] == node_coord(trace@[i]));
                        }
                        lemma_distinct_coords_bound(
                            coords_of(trace@),
                            self.width as int,
                            self.height as int,
                        );
                    }
                    let (nx, ny) = self.neighbor_of(cur_x, cur_y);
                    proof {
                        let n = (trace@.len() - 1) as nat;
                        assert(walk(g, gx, gy, (n + 1) as nat) == g.neighbor_spec(
                            walk(g, gx, gy, n).0,
                            walk(g, gx, gy, n).1,
                        ));
                    }
                    cur_x = nx;
                    cur_y = ny;
                },
            }
        }
    }

    /// Returns the `Cycle` of maximum length present in the graph.
    ///
    /// Every coordinate is scanned in order (x outermost, then y), and a
    /// cycle replaces the current best only when it is strictly longer, so
    /// ties are broken in favor of the cycle rooted at the position scanned
    /// earliest: the smaller x, then the smaller y. The result is empty only
    /// when the grid has no cells.
    pub fn get_max_cycle(&self) -> (c: Cycle)
        requires
            self.wf(),
        ensures
            self.cycle_props(c@),
            self.width == 0 || self.height == 0 ==> c@.len() == 0,
            self.width > 0 && self.height > 0 ==> 1 <= c@.len(),
            self.width > 0 && self.height > 0 ==> exists|x0: int, y0: int|
                self.max_cycle_root(x0, y0, c@),
    {
        let ghost g = *self;
        let mut max_length: usize = 0;
        let mut max_cycle: Cycle = Vec::new();
        let ghost mut bx: int = 0;
        let ghost mut by: int = 0;
        proof {
            lemma_mul_nonnegative(self.width as int, self.height as int);
        }
        let mut x: usize = 0;
        while x < self.width
            invariant
                self.wf(),
                g == *self,
                x <= self.width,
                max_length == max_cycle@.len(),
                self.cycle_props(max_cycle@),
                self.width > 0 && self.height > 0 && x > 0 ==> max_length > 0,
                max_length > 0 ==> {
                    &&& self.in_bounds(bx, by)
                    &&& root_before(bx, by, x as int, 0)
                    &&& coords_of(max_cycle@) == trace_cycle(g, bx, by)
                    &&& forall|rx: int, ry: int|
                        self.in_bounds(rx, ry) && root_before(rx, ry, bx, by)
                            ==> (#[trigger] trace_cycle(g, rx, ry)).len() < max_length
                },
                forall|rx: int, ry: int|
                    self.in_bounds(rx, ry) && root_before(rx, ry, x as int, 0)
                        ==> (#[trigger] trace_cycle(g, rx, ry)).len() <= max_length,
            decreases self.width - x,
        {
            let mut y: usize = 0;
            while y < self.height
                invariant
                    self.wf(),
                    g == *self,
                    x < self.width,
                    y <= self.height,
                    max_length == max_cycle@.len(),
                    self.cycle_props(max_cycle@),
                    self.height > 0 && (x > 0 || y > 0) ==> max_length > 0,
                    max_length > 0 ==> {
                        &&& self.in_bounds(bx, by)
                        &&& root_before(bx, by, x as int, y as int)
                        &&& coords_of(max_cycle@) == trace_cycle(g, bx, by)
                        &&& forall|rx: int, ry: int|
                            self.in_bounds(rx, ry) && root_before(rx, ry, bx, by)
                                ==> (#[trigger] trace_cycle(g, rx, ry)).len() < max_length
                    },
                    forall|rx: int, ry: int|
                        self.in_bounds(rx, ry) && root_before(rx, ry, x as int, y as int)
                            ==> (#[trigger] trace_cycle(g, rx, ry)).len() <= max_length,
                decreases self.height - y,
            {
                let cycle = self.get_cycle_from(x, y);
                proof {
                    assert(trace_cycle(g, x as int, y as int).len() == cycle@.len());
                }
                if cycle.len() > max_length {
                    max_length = cycle.len();
                    max_cycle = cycle;
                    proof {
                        bx = x as int;
                        by = y as int;
                    }
                }
                y += 1;
            }
            x += 1;
        }
        proof {
            if self.width > 0 && self.height > 0 {
                assert(self.max_cycle_root(bx, by, max_cycle@));
            }
        }
        max_cycle
    }
}

/// The character that a rendering of `c` shows at `(x, y)`: the glyph of the
/// node of `c` at that coordinate, or a space when no node is there.
pub open spec fn render_char(c: Seq<Node>, x: int, y: int) -> char {
    if exists|j: int| 0 <= j < c.len() && node_coord(#[trigger] c[j]) == (x, y) {
        glyph_of_dir(
            c[choose|j: int| 0 <= j < c.len() && node_coord(#[trigger] c[j]) == (x, y)].pointer,
        )
    } else {
        ' '
    }
}

/// Builds a textual representation of a cycle: `height` rows of `width`
/// characters in which every coordinate belonging to the cycle shows its
/// direction glyph and every other coordinate shows a space.
pub fn render_cycle(cycle: &Cycle, meta: &GraphMeta) -> (lines: Vec<Vec<char>>)
    requires
        forall|j1: int, j2: int|
            0 <= j1 < j2 < cycle@.len() ==> node_coord(cycle@[j1]) != node_coord(cycle@[j2]),
    ensures
        lines@.len() == meta.height,
        forall|yy: int| 0 <= yy < meta.height ==> (#[trigger] lines@[yy])@.len() == meta.width,
        forall|xx: int, yy: int|
            0 <= xx < meta.width && 0 <= yy < meta.height ==> lines@[yy]@[xx] == render_char(
                cycle@,
                xx,
                yy,
            ),
{
    let mut lines: Vec<Vec<char>> = Vec::new();
    let mut y: usize = 0;
    while y < meta.height
        invariant
            y <= meta.height,
            lines@.len() == y,
            forall|yy: int| 0 <= yy < y ==> (#[trigger] lines@[yy])@.len() == meta.width,
            forall|xx: int, yy: int|
                0 <= xx < meta.width && 0 <= yy < y ==> lines@[yy]@[xx] == render_char(
                    cycle@,
                    xx,
                    yy,
                ),
            forall|j1: int, j2: int|
                0 <= j1 < j2 < cycle@.len() ==> node_coord(cycle@[j1]) != node_coord(cycle@[j2]),
        decreases meta.height - y,
    {
        let mut line: Vec<char> = Vec::new();
        let mut x: usize = 0;
        while x < meta.width
            invariant
                x <= meta.width,
                line@.len() == x,
                forall|xx: int| 0 <= xx < x ==> line@[xx] == render_char(cycle@, xx, y as int),
                forall|j1: int, j2: int|
                    0 <= j1 < j2 < cycle@.len() ==> node_coord(cycle@[j1]) != node_coord(
                        cycle@[j2],
                    ),
            decreases meta.width - x,
        {
            match find_index(cycle, x, y) {
                Some(k) => {
                    proof {
                        let j = choose|j: int|
                            0 <= j < cycle@.len() && node_coord(#[trigger] cycle@[j]) == (
                            x as int,
                            y as int,
                        );
                        if j != k as int {
                            assert(node_coord(cycle@[j]) != node_coord(cycle@[k as int]));
                        }
                    }
                    let glyph = cycle[k].pointer.to_glyph();
                    line.push(glyph);
                },
                None => {
                    line.push(' ');
                },
            }
            x += 1;
        }
        lines.push(line);
        y += 1;
    }
    lines
}

/// Following the arrows from the first node of a cycle goes round and round
/// that cycle: after `n` steps the walk stands at node `n` modulo the
/// cycle's length.
proof fn lemma_walk_on_cycle(g: GraphMeta, c: Seq<Node>, n: nat)
    requires
        g.is_cycle(c),
    ensures
        walk(g, c[0].x as int, c[0].y as int, n) == node_coord(c[n as int % c.len() as int]),
    decreases n,
{
    let x0 = c[0].x as int;
    let y0 = c[0].y as int;
    let len = c.len() as int;
    if n == 0 {
        lemma_small_mod(0, c.len());
    } else {
        lemma_walk_on_cycle(g, c, (n - 1) as nat);
        lemma_fundamental_div_mod((n - 1) as int, len);
        lemma_mod_bound((n - 1) as int, len);
        let q = (n - 1) as int / len;
        let r = (n - 1) as int % len;
        if r < len - 1 {
            lemma_fundamental_div_mod_converse(n as int, len, q, r + 1);
            assert(node_coord(c[r + 1]) == g.neighbor_spec(c[r].x as int, c[r].y as int));
        } else {
            assert((q + 1) * len == q * len + len) by (nonlinear_arith);
            lemma_fundamental_div_mod_converse(n as int, len, q + 1, 0);
            assert(node_coord(c[0]) == g.neighbor_spec(
                c[len - 1].x as int,
                c[len - 1].y as int,
            ));
        }
    }
}

/// Every cycle present in the graph is recovered by tracing from its own
/// first node: the trace that starts on a cycle has no prelude and yields
/// exactly that cycle's coordinates.
pub proof fn lemma_cycle_is_traced(g: GraphMeta, c: Seq<Node>)
    requires
        g.is_cycle(c),
    ensures
        trace_cycle(g, c[0].x as int, c[0].y as int) == coords_of(c),
{
    let x0 = c[0].x as int;
    let y0 = c[0].y as int;
    let len = c.len() as nat;
    assert forall|j: nat| j < len implies walk(g, x0, y0, j) == node_coord(c[j as int]) by {
        lemma_walk_on_cycle(g, c, j);
        lemma_small_mod(j, len);
    }
    lemma_walk_on_cycle(g, c, len);
    lemma_mod_self_0(len as int);
    assert(walk(g, x0, y0, len) == node_coord(c[0]));
    assert(walk(g, x0, y0, 0) == node_coord(c[0]));
    assert(repeat_at(g, x0, y0, len));
    assert forall|m: nat| m < len implies !repeat_at(g, x0, y0, m) by {
        if repeat_at(g, x0, y0, m) {
            let j = choose|j: nat| j < m && walk(g, x0, y0, j) == walk(g, x0, y0, m);
            assert(walk(g, x0, y0, j) == node_coord(c[j as int]));
            assert(walk(g, x0, y0, m) == node_coord(c[m as int]));
            assert(node_coord(c[j as int]) != node_coord(c[m as int]));
            assert(false);
        }
    }
    assert(is_stop_index(g, x0, y0, len));
    lemma_stop_index_is(g, x0, y0, len);
    assert forall|j1: nat, j2: nat| j1 < j2 < stop_index(g, x0, y0) implies walk(g, x0, y0, j1)
        != walk(g, x0, y0, j2) by {
        assert(walk(g, x0, y0, j1) == node_coord(c[j1 as int]));
        assert(walk(g, x0, y0, j2) == node_coord(c[j2 as int]));
        assert(node_coord(c[j1 as int]) != node_coord(c[j2 as int]));
    }
    lemma_cycle_start_is(g, x0, y0, 0);
    assert forall|i: int| 0 <= i < len implies trace_cycle(g, x0, y0)[i] == coords_of(c)[i] by {
        assert(walk(g, x0, y0, i as nat) == node_coord(c[i]));
    }
    assert(trace_cycle(g, x0, y0) =~= coords_of(c));
}

/// No cycle of the graph is longer than the result of `get_max_cycle`: a
/// best cycle with the promised root is at least as long as any node
/// sequence that forms a cycle of the grid.
pub proof fn lemma_max_cycle_is_longest(g: GraphMeta, best: Seq<Node>, c: Seq<Node>)
    requires
        exists|x0: int, y0: int| g.max_cycle_root(x0, y0, best),
        g.is_cycle(c),
    ensures
        c.len() <= best.len(),
{
    lemma_cycle_is_traced(g, c);
    let (bx, by) = choose|bx: int, by: int| g.max_cycle_root(bx, by, best);
    let rx = c[0].x as int;
    let ry = c[0].y as int;
    assert(c[0].x < g.width && c[0].y < g.height);
    assert(trace_cycle(g, rx, ry).len() <= best.len());
    assert(trace_cycle(g, rx, ry).len() == coords_of(c).len());
}

} // verus!
