use vstd::prelude::*;

use crate::grid::{adjacent, in_grid, Coord};
use crate::rng::{rand_below, rand_bool};

verus! {

/// The barrier layout of the board.
///
/// `hbars` holds the horizontal barriers, one per slot `y * 6 + x` with
/// `y` in 0..5 and `x` in 0..6; a set entry blocks movement between the
/// cells (x, y) and (x, y + 1). `vbars` holds the vertical barriers, one
/// per slot `y * 5 + x` with `y` in 0..6 and `x` in 0..5; a set entry
/// blocks movement between (x, y) and (x + 1, y).
pub struct Maze {
    pub hbars: Vec<bool>,
    pub vbars: Vec<bool>,
}

/// Whether the barrier between the grid-adjacent cells `a` and `b` is set.
pub open spec fn edge_blocked(h: Seq<bool>, v: Seq<bool>, a: Coord, b: Coord) -> bool
    recommends
        in_grid(a),
        in_grid(b),
        adjacent(a, b),
{
    if a.x == b.x {
        h[(if a.y <= b.y {
            a.y
        } else {
            b.y
        }) as int * 6 + a.x as int]
    } else {
        v[a.y as int * 5 + (if a.x <= b.x {
            a.x
        } else {
            b.x
        }) as int]
    }
}

/// Two on-board cells joined by an edge that no barrier blocks.
pub open spec fn open_edge(h: Seq<bool>, v: Seq<bool>, a: Coord, b: Coord) -> bool {
    in_grid(a) && in_grid(b) && adjacent(a, b) && !edge_blocked(h, v, a, b)
}

/// A walk over the board: at least one cell, every consecutive pair joined
/// by an open edge.
pub open spec fn is_path(h: Seq<bool>, v: Seq<bool>, p: Seq<Coord>) -> bool {
    &&& p.len() >= 1
    &&& in_grid(p[0])
    &&& forall|i: int|
        0 <= i < p.len() - 1 ==> open_edge(h, v, #[trigger] p[i], p[i + 1])
}

/// Whether some path leads from `a` to `b`.
pub open spec fn reaches(h: Seq<bool>, v: Seq<bool>, a: Coord, b: Coord) -> bool {
    exists|p: Seq<Coord>| is_path(h, v, p) && p[0] == a && p.last() == b
}

/// The fixed cell from which connectivity is checked.
pub open spec fn anchor() -> Coord {
    Coord { x: 0, y: 0 }
}

/// Full connectivity: every cell of the board can be reached from the
/// anchor cell.
pub open spec fn connected(h: Seq<bool>, v: Seq<bool>) -> bool {
    forall|c: Coord| in_grid(c) ==> #[trigger] reaches(h, v, anchor(), c)
}

/// How many barriers of a layout are set.
pub open spec fn count_true(s: Seq<bool>) -> int
    decreases s.len(),
{
    if s.len() == 0 {
        0
    } else {
        count_true(s.drop_last()) + if s.last() {
            1int
        } else {
            0int
        }
    }
}

/// The total number of barriers set in a layout.
pub open spec fn bar_count(h: Seq<bool>, v: Seq<bool>) -> int {
    count_true(h) + count_true(v)
}

pub proof fn lemma_count_true_le_len(s: Seq<bool>)
    ensures
        0 <= count_true(s) <= s.len(),
    decreases s.len(),
{
    if s.len() > 0 {
        lemma_count_true_le_len(s.drop_last());
    }
}

pub proof fn lemma_count_true_update(s: Seq<bool>, i: int)
    requires
        0 <= i < s.len(),
        !s[i],
    ensures
        count_true(s.update(i, true)) == count_true(s) + 1,
    decreases s.len(),
{
    let t = s.update(i, true);
    if i == s.len() - 1 {
        assert(t.drop_last() =~= s.drop_last());
    } else {
        assert(t.drop_last() =~= s.drop_last().update(i, true));
        lemma_count_true_update(s.drop_last(), i);
        assert(t.last() == s.last());
    }
}

pub proof fn lemma_count_true_zero(s: Seq<bool>)
    requires
        forall|i: int| 0 <= i < s.len() ==> !(#[trigger] s[i]),
    ensures
        count_true(s) == 0,
    decreases s.len(),
{
    if s.len() > 0 {
        lemma_count_true_zero(s.drop_last());
    }
}

/// A one-cell path shows that every on-board cell reaches itself.
pub proof fn lemma_reach_refl(h: Seq<bool>, v: Seq<bool>, a: Coord)
    requires
        in_grid(a),
    ensures
        reaches(h, v, a, a),
{
    let p = seq![a];
    assert(is_path(h, v, p));
    assert(p[0] == a && p.last() == a);
}

/// Extending a path by one open edge extends reachability.
pub proof fn lemma_reach_step(h: Seq<bool>, v: Seq<bool>, a: Coord, b: Coord, c: Coord)
    requires
        reaches(h, v, a, b),
        open_edge(h, v, b, c),
    ensures
        reaches(h, v, a, c),
{
    let p = choose|p: Seq<Coord>| is_path(h, v, p) && p[0] == a && p.last() == b;
    let q = p.push(c);
    assert forall|i: int| 0 <= i < q.len() - 1 implies open_edge(h, v, #[trigger] q[i], q[i + 1]) by {
        if i < p.len() - 1 {
            assert(q[i] == p[i]);
            assert(q[i + 1] == p[i + 1]);
        } else {
            assert(i == p.len() - 1);
            assert(q[i] == p.last());
            assert(q[i + 1] == c);
        }
    }
    assert(is_path(h, v, q));
    assert(q[0] == a && q.last() == c);
}

/// Barriers block both directions of an edge alike.
pub proof fn lemma_open_edge_sym(h: Seq<bool>, v: Seq<bool>, a: Coord, b: Coord)
    requires
        open_edge(h, v, a, b),
    ensures
        open_edge(h, v, b, a),
{
    assert(adjacent(b, a));
    assert(edge_blocked(h, v, b, a) == edge_blocked(h, v, a, b));
}

/// Reachability is symmetric: a path read backwards is again a path.
pub proof fn lemma_reach_sym(h: Seq<bool>, v: Seq<bool>, a: Coord, b: Coord)
    requires
        reaches(h, v, a, b),
    ensures
        reaches(h, v, b, a),
{
    let p = choose|p: Seq<Coord>| is_path(h, v, p) && p[0] == a && p.last() == b;
    let n = p.len() as int;
    let q = Seq::new(p.len(), |i: int| p[n - 1 - i]);
    assert forall|i: int| 0 <= i < q.len() - 1 implies open_edge(h, v, #[trigger] q[i], q[i + 1]) by {
        assert(q[i] == p[n - 1 - i]);
        assert(q[i + 1] == p[n - 2 - i]);
        assert(open_edge(h, v, p[n - 2 - i], p[n - 2 - i + 1]));
        lemma_open_edge_sym(h, v, p[n - 2 - i], p[n - 1 - i]);
    }
    assert(q[0] == p.last());
    assert(is_path(h, v, q));
    assert(q[0] == b && q.last() == a);
}

/// Reachability is transitive: two paths join at their shared endpoint.
pub proof fn lemma_reach_trans(h: Seq<bool>, v: Seq<bool>, a: Coord, b: Coord, c: Coord)
    requires
        reaches(h, v, a, b),
        reaches(h, v, b, c),
    ensures
        reaches(h, v, a, c),
{
    let p1 = choose|p: Seq<Coord>| is_path(h, v, p) && p[0] == a && p.last() == b;
    let p2 = choose|p: Seq<Coord>| is_path(h, v, p) && p[0] == b && p.last() == c;
    let q = p1 + p2.subrange(1, p2.len() as int);
    let n1 = p1.len() as int;
    let n2 = p2.len() as int;
    assert(q.len() == n1 + n2 - 1);
    assert forall|i: int| 0 <= i < q.len() - 1 implies open_edge(h, v, #[trigger] q[i], q[i + 1]) by {
        if i < n1 - 1 {
            assert(q[i] == p1[i]);
            assert(q[i + 1] == p1[i + 1]);
        } else if i == n1 - 1 {
            assert(q[i] == p1[n1 - 1]);
            assert(p1[n1 - 1] == b);
            assert(q[i + 1] == p2.subrange(1, n2)[0]);
            assert(p2.subrange(1, n2)[0] == p2[1]);
            assert(open_edge(h, v, p2[0], p2[1]));
        } else {
            assert(q[i] == p2.subrange(1, n2)[i - n1]);
            assert(q[i + 1] == p2.subrange(1, n2)[i + 1 - n1]);
            assert(q[i] == p2[i - n1 + 1]);
            assert(q[i + 1] == p2[i - n1 + 2]);
            assert(open_edge(h, v, p2[i - n1 + 1], p2[i - n1 + 1 + 1]));
        }
    }
    assert(q[0] == p1[0]);
    assert(is_path(h, v, q));
    if n2 == 1 {
        assert(q =~= p1);
        assert(q.last() == b);
        assert(p2[0] == c);
    } else {
        assert(q.last() == p2.subrange(1, n2)[n2 - 2]);
        assert(q.last() == p2[n2 - 1]);
    }
    assert(q[0] == a && q.last() == c);
}

/// Full connectivity from the anchor extends to every pair of cells:
/// in a connected layout every cell reaches every other cell.
pub proof fn lemma_connected_all_pairs(h: Seq<bool>, v: Seq<bool>)
    requires
        connected(h, v),
    ensures
        forall|a: Coord, b: Coord| in_grid(a) && in_grid(b) ==> #[trigger] reaches(h, v, a, b),
{
    assert forall|a: Coord, b: Coord| in_grid(a) && in_grid(b) implies #[trigger] reaches(
        h,
        v,
        a,
        b,
    ) by {
        assert(reaches(h, v, anchor(), a));
        assert(reaches(h, v, anchor(), b));
        lemma_reach_sym(h, v, anchor(), a);
        lemma_reach_trans(h, v, a, anchor(), b);
    }
}

/// The flat index of a cell in a 36-entry reachability table.
pub open spec fn idx_of(c: Coord) -> int {
    c.y as int * 6 + c.x as int
}

/// The cell at a flat table index.
pub open spec fn cell_of(i: int) -> Coord {
    Coord { x: (i % 6) as i32, y: (i / 6) as i32 }
}

proof fn lemma_cell_idx(c: Coord)
    requires
        in_grid(c),
    ensures
        0 <= idx_of(c) < 36,
        cell_of(idx_of(c)) == c,
{
    vstd::arithmetic::div_mod::lemma_fundamental_div_mod_converse(
        idx_of(c),
        6,
        c.y as int,
        c.x as int,
    );
}

proof fn lemma_idx_cell(i: int)
    requires
        0 <= i < 36,
    ensures
        in_grid(cell_of(i)),
        idx_of(cell_of(i)) == i,
{
    vstd::arithmetic::div_mod::lemma_fundamental_div_mod(i, 6);
    vstd::arithmetic::div_mod::lemma_mod_bound(i, 6);
}

/// Every marked entry of a reachability table stands for a cell that the
/// anchor really reaches.
pub open spec fn marks_sound(h: Seq<bool>, v: Seq<bool>, r: Seq<bool>) -> bool {
    forall|i: int| 0 <= i < 36 && #[trigger] r[i] ==> reaches(h, v, anchor(), cell_of(i))
}

/// No open edge leads from a marked cell to an unmarked one.
pub open spec fn marks_closed(h: Seq<bool>, v: Seq<bool>, r: Seq<bool>) -> bool {
    forall|a: Coord, b: Coord|
        (#[trigger] open_edge(h, v, a, b)) && r[idx_of(a)] ==> r[idx_of(b)]
}

proof fn lemma_path_marked(h: Seq<bool>, v: Seq<bool>, r: Seq<bool>, p: Seq<Coord>, i: int)
    requires
        is_path(h, v, p),
        marks_closed(h, v, r),
        r[idx_of(p[0])],
        0 <= i < p.len(),
    ensures
        r[idx_of(p[i])],
    decreases i,
{
    if i > 0 {
        lemma_path_marked(h, v, r, p, i - 1);
        assert(open_edge(h, v, p[i - 1], p[i]));
    }
}

/// A closed table that marks the anchor marks every reachable cell.
proof fn lemma_closed_complete(h: Seq<bool>, v: Seq<bool>, r: Seq<bool>)
    requires
        marks_closed(h, v, r),
        r[0],
    ensures
        forall|c: Coord|
            in_grid(c) && #[trigger] reaches(h, v, anchor(), c) ==> r[idx_of(c)],
{
    assert forall|c: Coord| in_grid(c) && #[trigger] reaches(h, v, anchor(), c) implies r[idx_of(
        c,
    )] by {
        let p = choose|p: Seq<Coord>| is_path(h, v, p) && p[0] == anchor() && p.last() == c;
        assert(idx_of(anchor()) == 0);
        lemma_path_marked(h, v, r, p, p.len() as int - 1);
    }
}

impl Maze {
    /// Both barrier grids have their full size.
    pub open spec fn wf(self) -> bool {
        self.hbars@.len() == 30 && self.vbars@.len() == 30
    }

    /// Whether the barrier between the grid-adjacent cells `from` and `to`
    /// is set.
    pub fn is_blocked(&self, from: Coord, to: Coord) -> (r: bool)
        requires
            self.wf(),
            in_grid(from),
            in_grid(to),
            adjacent(from, to),
        ensures
            r == edge_blocked(self.hbars@, self.vbars@, from, to),
    {
        if from.x == to.x {
            let ylo = if from.y <= to.y {
                from.y
            } else {
                to.y
            };
            self.hbars[(ylo * 6 + from.x) as usize]
        } else {
            let xlo = if from.x <= to.x {
                from.x
            } else {
                to.x
            };
            self.vbars[(from.y * 5 + xlo) as usize]
        }
    }

    /// Mark `b` in the reachability table if the edge from the already
    /// marked cell `a` is open and `b` is still unmarked.
    fn try_mark(&self, reached: &mut Vec<bool>, a: Coord, b: Coord) -> (changed: bool)
        requires
            self.wf(),
            in_grid(a),
            in_grid(b),
            adjacent(a, b),
            old(reached)@.len() == 36,
            marks_sound(self.hbars@, self.vbars@, old(reached)@),
            old(reached)@[idx_of(a)],
        ensures
            final(reached)@.len() == 36,
            marks_sound(self.hbars@, self.vbars@, final(reached)@),
            forall|i: int| 0 <= i < 36 && old(reached)@[i] ==> #[trigger] final(reached)@[i],
            changed ==> !old(reached)@[idx_of(b)] && final(reached)@ == old(reached)@.update(
                idx_of(b),
                true,
            ) && count_true(final(reached)@) == count_true(old(reached)@) + 1,
            !changed ==> final(reached)@ == old(reached)@ && (edge_blocked(
                self.hbars@,
                self.vbars@,
                a,
                b,
            ) || old(reached)@[idx_of(b)]),
    {
        proof {
            lemma_cell_idx(a);
            lemma_cell_idx(b);
        }
        let j = (b.y * 6 + b.x) as usize;
        if !self.is_blocked(a, b) && !reached[j] {
            reached[j] = true;
            proof {
                assert(reaches(self.hbars@, self.vbars@, anchor(), a));
                lemma_reach_step(self.hbars@, self.vbars@, anchor(), a, b);
                lemma_count_true_update(old(reached)@, idx_of(b));
                assert forall|i: int| 0 <= i < 36 && reached@[i] implies reaches(
                    self.hbars@,
                    self.vbars@,
                    anchor(),
                    cell_of(i),
                ) by {
                    if i != idx_of(b) {
                        assert(old(reached)@[i]);
                    } else {
                        assert(cell_of(i) == b);
                    }
                }
            }
            true
        } else {
            false
        }
    }

    /// One sweep of the reachability table: from every marked cell, mark
    /// every open neighbour. Reports whether any mark was added.
    fn flood_pass(&self, reached: &mut Vec<bool>) -> (changed: bool)
        requires
            self.wf(),
            old(reached)@.len() == 36,
            marks_sound(self.hbars@, self.vbars@, old(reached)@),
        ensures
            final(reached)@.len() == 36,
            marks_sound(self.hbars@, self.vbars@, final(reached)@),
            forall|i: int| 0 <= i < 36 && old(reached)@[i] ==> #[trigger] final(reached)@[i],
            !changed ==> final(reached)@ == old(reached)@ && marks_closed(
                self.hbars@,
                self.vbars@,
                final(reached)@,
            ),
            count_true(final(reached)@) >= count_true(old(reached)@) + if changed {
                1int
            } else {
                0int
            },
    {
        let mut changed = false;
        let mut i: usize = 0;
        while i < 36
            invariant
                self.wf(),
                i <= 36,
                reached@.len() == 36,
                marks_sound(self.hbars@, self.vbars@, reached@),
                forall|k: int| 0 <= k < 36 && old(reached)@[k] ==> #[trigger] reached@[k],
                !changed ==> reached@ == old(reached)@,
                !changed ==> forall|a: Coord, b: Coord|
                    (#[trigger] open_edge(self.hbars@, self.vbars@, a, b)) && idx_of(a) < i
                        && reached@[idx_of(a)] ==> reached@[idx_of(b)],
                count_true(reached@) >= count_true(old(reached)@) + if changed {
                    1int
                } else {
                    0int
                },
            decreases 36 - i,
        {
            if reached[i] {
                let c = Coord { x: (i % 6) as i32, y: (i / 6) as i32 };
                proof {
                    lemma_idx_cell(i as int);
                    assert(c == cell_of(i as int));
                    assert(idx_of(c) == i as int);
                }
                let mut any = false;
                if c.x > 0 {
                    if self.try_mark(reached, c, Coord { x: c.x - 1, y: c.y }) {
                        any = true;
                    }
                }
                if c.x < 5 {
                    if self.try_mark(reached, c, Coord { x: c.x + 1, y: c.y }) {
                        any = true;
                    }
                }
                if c.y > 0 {
                    if self.try_mark(reached, c, Coord { x: c.x, y: c.y - 1 }) {
                        any = true;
                    }
                }
                if c.y < 5 {
                    if self.try_mark(reached, c, Coord { x: c.x, y: c.y + 1 }) {
                        any = true;
                    }
                }
                if any {
                    changed = true;
                }
                proof {
                    if !changed {
                        assert forall|a: Coord, b: Coord|
                            (#[trigger] open_edge(self.hbars@, self.vbars@, a, b)) && idx_of(a) < i
                                + 1 && reached@[idx_of(a)] implies reached@[idx_of(b)] by {
                            if idx_of(a) < i {
                            } else {
                                lemma_cell_idx(a);
                                assert(a == c);
                                lemma_cell_idx(b);
                            }
                        }
                    }
                }
            }
            i += 1;
        }
        changed
    }

    /// Whether every cell of the board is reachable from the anchor cell:
    /// a flood fill over the adjacency graph, run to a fixed point, then a
    /// check that no cell was left out.
    pub fn is_valid(&self) -> (r: bool)
        requires
            self.wf(),
        ensures
            r == connected(self.hbars@, self.vbars@),
    {
        let mut reached: Vec<bool> = Vec::new();
        reached.push(true);
        let mut k: usize = 1;
        while k < 36
            invariant
                1 <= k <= 36,
                reached@.len() == k,
                reached@[0],
                forall|i: int| 1 <= i < k ==> !(#[trigger] reached@[i]),
            decreases 36 - k,
        {
            reached.push(false);
            k += 1;
        }
        proof {
            lemma_reach_refl(self.hbars@, self.vbars@, anchor());
            assert(cell_of(0) == anchor());
            lemma_count_true_le_len(reached@);
        }
        let mut stable = false;
        while !stable
            invariant
                self.wf(),
                reached@.len() == 36,
                marks_sound(self.hbars@, self.vbars@, reached@),
                reached@[0],
                count_true(reached@) <= 36,
                stable ==> marks_closed(self.hbars@, self.vbars@, reached@),
            decreases 36 - count_true(reached@), (if stable {
                0int
            } else {
                1int
            }),
        {
            let changed = self.flood_pass(&mut reached);
            proof {
                lemma_count_true_le_len(reached@);
            }
            if !changed {
                stable = true;
            }
        }
        let mut all = true;
        let mut i: usize = 0;
        while i < 36
            invariant
                i <= 36,
                reached@.len() == 36,
                all <==> (forall|j: int| 0 <= j < i ==> #[trigger] reached@[j]),
            decreases 36 - i,
        {
            if !reached[i] {
                all = false;
            }
            i += 1;
        }
        proof {
            if all {
                assert forall|c: Coord| in_grid(c) implies #[trigger] reaches(
                    self.hbars@,
                    self.vbars@,
                    anchor(),
                    c,
                ) by {
                    lemma_cell_idx(c);
                    assert(reached@[idx_of(c)]);
                }
            } else {
                assert(exists|j: int| 0 <= j < 36 && !(#[trigger] reached@[j]));
                let j = choose|j: int| 0 <= j < 36 && !(#[trigger] reached@[j]);
                lemma_idx_cell(j);
                lemma_closed_complete(self.hbars@, self.vbars@, reached@);
                assert(!reaches(self.hbars@, self.vbars@, anchor(), cell_of(j)));
            }
        }
        all
    }

    /// A maze with no barriers set. Its board is trivially connected.
    pub fn empty() -> (m: Maze)
        ensures
            m.wf(),
            forall|i: int| 0 <= i < 30 ==> !(#[trigger] m.hbars@[i]),
            forall|i: int| 0 <= i < 30 ==> !(#[trigger] m.vbars@[i]),
            bar_count(m.hbars@, m.vbars@) == 0,
            connected(m.hbars@, m.vbars@),
    {
        let mut h: Vec<bool> = Vec::new();
        let mut k: usize = 0;
        while k < 30
            invariant
                h@.len() == k,
                k <= 30,
                forall|i: int| 0 <= i < k ==> !(#[trigger] h@[i]),
            decreases 30 - k,
        {
            h.push(false);
            k += 1;
        }
        let mut v: Vec<bool> = Vec::new();
        let mut k2: usize = 0;
        while k2 < 30
            invariant
                v@.len() == k2,
                k2 <= 30,
                forall|i: int| 0 <= i < k2 ==> !(#[trigger] v@[i]),
            decreases 30 - k2,
        {
            v.push(false);
            k2 += 1;
        }
        let m = Maze { hbars: h, vbars: v };
        proof {
            lemma_count_true_zero(m.hbars@);
            lemma_count_true_zero(m.vbars@);
            lemma_comb_connected(m.hbars@, m.vbars@);
        }
        m
    }

    /// Tentatively set the horizontal barrier in slot `idx` (`y * 6 + x`);
    /// keep it only if it was unset and the board stays fully connected.
    pub fn try_place_h(&mut self, idx: usize) -> (ok: bool)
        requires
            old(self).wf(),
            connected(old(self).hbars@, old(self).vbars@),
            idx < 30,
        ensures
            final(self).wf(),
            connected(final(self).hbars@, final(self).vbars@),
            final(self).vbars@ == old(self).vbars@,
            ok ==> !old(self).hbars@[idx as int] && final(self).hbars@ == old(
                self,
            ).hbars@.update(idx as int, true) && count_true(final(self).hbars@) == count_true(
                old(self).hbars@,
            ) + 1,
            !ok ==> final(self).hbars@ == old(self).hbars@ && (old(self).hbars@[idx as int]
                || !connected(old(self).hbars@.update(idx as int, true), old(self).vbars@)),
    {
        if self.hbars[idx] {
            return false;
        }
        self.hbars[idx] = true;
        if self.is_valid() {
            proof {
                lemma_count_true_update(old(self).hbars@, idx as int);
            }
            true
        } else {
            self.hbars[idx] = false;
            proof {
                assert(self.hbars@ =~= old(self).hbars@);
            }
            false
        }
    }

    /// Tentatively set the vertical barrier in slot `idx` (`y * 5 + x`);
    /// keep it only if it was unset and the board stays fully connected.
    pub fn try_place_v(&mut self, idx: usize) -> (ok: bool)
        requires
            old(self).wf(),
            connected(old(self).hbars@, old(self).vbars@),
            idx < 30,
        ensures
            final(self).wf(),
            connected(final(self).hbars@, final(self).vbars@),
            final(self).hbars@ == old(self).hbars@,
            ok ==> !old(self).vbars@[idx as int] && final(self).vbars@ == old(
                self,
            ).vbars@.update(idx as int, true) && count_true(final(self).vbars@) == count_true(
                old(self).vbars@,
            ) + 1,
            !ok ==> final(self).vbars@ == old(self).vbars@ && (old(self).vbars@[idx as int]
                || !connected(old(self).hbars@, old(self).vbars@.update(idx as int, true))),
    {
        if self.vbars[idx] {
            return false;
        }
        self.vbars[idx] = true;
        if self.is_valid() {
            proof {
                lemma_count_true_update(old(self).vbars@, idx as int);
            }
            true
        } else {
            self.vbars[idx] = false;
            proof {
                assert(self.vbars@ =~= old(self).vbars@);
            }
            false
        }
    }

    /// The number of barriers currently set.
    pub fn bar_count(&self) -> (n: usize)
        requires
            self.wf(),
        ensures
            n as int == bar_count(self.hbars@, self.vbars@),
    {
        let mut n: usize = 0;
        let mut i: usize = 0;
        while i < 30
            invariant
                self.wf(),
                i <= 30,
                n <= i,
                n as int == count_true(self.hbars@.subrange(0, i as int)),
            decreases 30 - i,
        {
            proof {
                let pre = self.hbars@.subrange(0, i as int);
                let post = self.hbars@.subrange(0, i as int + 1);
                assert(post.drop_last() =~= pre);
                assert(post.last() == self.hbars@[i as int]);
            }
            if self.hbars[i] {
                n += 1;
            }
            i += 1;
        }
        proof {
            assert(self.hbars@.subrange(0, 30) =~= self.hbars@);
        }
        let mut i2: usize = 0;
        let mut n2: usize = 0;
        while i2 < 30
            invariant
                self.wf(),
                i2 <= 30,
                n2 <= i2,
                n2 as int == count_true(self.vbars@.subrange(0, i2 as int)),
            decreases 30 - i2,
        {
            proof {
                let pre = self.vbars@.subrange(0, i2 as int);
                let post = self.vbars@.subrange(0, i2 as int + 1);
                assert(post.drop_last() =~= pre);
                assert(post.last() == self.vbars@[i2 as int]);
            }
            if self.vbars[i2] {
                n2 += 1;
            }
            i2 += 1;
        }
        proof {
            assert(self.vbars@.subrange(0, 30) =~= self.vbars@);
        }
        n + n2
    }

    /// A deterministic comb layout with exactly `tile_count` barriers:
    /// horizontal slots taken row by row, never in the first column, so
    /// every row stays open and the first column joins the rows — the
    /// board is connected whatever the count.
    fn comb(tile_count: u8) -> (m: Maze)
        requires
            tile_count <= 20,
        ensures
            m.wf(),
            connected(m.hbars@, m.vbars@),
            bar_count(m.hbars@, m.vbars@) == tile_count,
    {
        let mut m = Maze::empty();
        proof {
            lemma_count_true_zero(m.hbars@);
            lemma_count_true_zero(m.vbars@);
        }
        let mut i: usize = 0;
        while i < tile_count as usize
            invariant
                m.wf(),
                i <= tile_count as usize,
                tile_count <= 20,
                forall|j: int| 0 <= j < 30 ==> !(#[trigger] m.vbars@[j]),
                count_true(m.vbars@) == 0,
                count_true(m.hbars@) == i as int,
                forall|j: int|
                    0 <= j < 30 ==> ((#[trigger] m.hbars@[j]) <==> exists|k: int|
                        0 <= k < i as int && j == spec_comb_slot(k)),
            decreases tile_count as usize - i,
        {
            let idx = (i / 5) * 6 + 1 + i % 5;
            proof {
                lemma_comb_slot_bounds(i as int);
                assert(idx as int == spec_comb_slot(i as int));
                if m.hbars@[spec_comb_slot(i as int)] {
                    let k = choose|k: int|
                        0 <= k < i as int && spec_comb_slot(k) == spec_comb_slot(i as int);
                    lemma_comb_slot_injective(k, i as int);
                }
                lemma_count_true_update(m.hbars@, spec_comb_slot(i as int));
            }
            m.hbars[idx] = true;
            proof {
                assert forall|j: int|
                    0 <= j < 30 implies ((#[trigger] m.hbars@[j]) <==> exists|k: int|
                        0 <= k < i as int + 1 && j == spec_comb_slot(k)) by {
                    if j == spec_comb_slot(i as int) {
                        let w = i as int;
                        assert(0 <= w < w + 1 && j == spec_comb_slot(w));
                    } else {
                        if exists|k: int| 0 <= k < i as int + 1 && j == spec_comb_slot(k) {
                            let k = choose|k: int|
                                0 <= k < i as int + 1 && j == spec_comb_slot(k);
                            assert(k != i as int);
                            assert(0 <= k < i as int && j == spec_comb_slot(k));
                        }
                    }
                }
            }
            i += 1;
        }
        proof {
            assert forall|j: int| 0 <= j < 30 && j % 6 == 0 implies !(#[trigger] m.hbars@[j]) by {
                if m.hbars@[j] {
                    let k = choose|k: int|
                        0 <= k < tile_count as int && j == spec_comb_slot(k);
                    lemma_comb_slot_bounds(k);
                }
            }
            lemma_comb_connected(m.hbars@, m.vbars@);
        }
        m
    }

    /// Generate a maze by rejection sampling: place `tile_count` barriers
    /// one at a time, keeping a tentative barrier only when the board stays
    /// fully connected. Random placements are retried a bounded number of
    /// times, then every slot is scanned in order; should even the scan
    /// place nothing — never observed for counts up to 20, which leave far
    /// more open edges than a spanning tree needs — a fixed comb layout
    /// with the exact barrier count stands in.
    pub fn generate(tile_count: u8) -> (m: Maze)
        requires
            tile_count <= 20,
        ensures
            m.wf(),
            connected(m.hbars@, m.vbars@),
            bar_count(m.hbars@, m.vbars@) == tile_count,
    {
        let mut maze = Maze::empty();
        let mut placed: u8 = 0;
        while placed < tile_count
            invariant
                maze.wf(),
                connected(maze.hbars@, maze.vbars@),
                placed <= tile_count,
                tile_count <= 20,
                bar_count(maze.hbars@, maze.vbars@) == placed as int,
            decreases tile_count - placed,
        {
            let mut done = false;
            let mut tries: u16 = 0;
            while tries < 1000 && !done
                invariant
                    maze.wf(),
                    connected(maze.hbars@, maze.vbars@),
                    tries <= 1000,
                    placed < tile_count <= 20,
                    !done ==> bar_count(maze.hbars@, maze.vbars@) == placed as int,
                    done ==> bar_count(maze.hbars@, maze.vbars@) == placed as int + 1,
                decreases 1000 - tries,
            {
                if rand_bool() {
                    let x = rand_below(6);
                    let y = rand_below(5);
                    done = maze.try_place_h(y * 6 + x);
                } else {
                    let x = rand_below(5);
                    let y = rand_below(6);
                    done = maze.try_place_v(y * 5 + x);
                }
                tries += 1;
            }
            if !done {
                let mut i: usize = 0;
                while i < 30 && !done
                    invariant
                        maze.wf(),
                        connected(maze.hbars@, maze.vbars@),
                        i <= 30,
                        placed < tile_count <= 20,
                        !done ==> bar_count(maze.hbars@, maze.vbars@) == placed as int,
                        done ==> bar_count(maze.hbars@, maze.vbars@) == placed as int + 1,
                    decreases 30 - i,
                {
                    done = maze.try_place_h(i);
                    i += 1;
                }
                let mut i2: usize = 0;
                while i2 < 30 && !done
                    invariant
                        maze.wf(),
                        connected(maze.hbars@, maze.vbars@),
                        i2 <= 30,
                        placed < tile_count <= 20,
                        !done ==> bar_count(maze.hbars@, maze.vbars@) == placed as int,
                        done ==> bar_count(maze.hbars@, maze.vbars@) == placed as int + 1,
                    decreases 30 - i2,
                {
                    done = maze.try_place_v(i2);
                    i2 += 1;
                }
            }
            if done {
                placed += 1;
            } else {
                return Self::comb(tile_count);
            }
        }
        maze
    }
}

/// The comb layout's barrier slot for index `k`: row `k / 5`, column
/// `1 + k % 5`, as a flat horizontal-slot index.
pub open spec fn spec_comb_slot(k: int) -> int {
    (k / 5) * 6 + 1 + k % 5
}

proof fn lemma_comb_slot_bounds(k: int)
    requires
        0 <= k < 20,
    ensures
        0 <= spec_comb_slot(k) < 30,
        spec_comb_slot(k) % 6 == 1 + k % 5,
        1 <= 1 + k % 5 <= 5,
{
    vstd::arithmetic::div_mod::lemma_fundamental_div_mod(k, 5);
    vstd::arithmetic::div_mod::lemma_mod_bound(k, 5);
    vstd::arithmetic::div_mod::lemma_fundamental_div_mod_converse(
        spec_comb_slot(k),
        6,
        k / 5,
        1 + k % 5,
    );
}

proof fn lemma_comb_slot_injective(k1: int, k2: int)
    requires
        0 <= k1 < 20,
        0 <= k2 < 20,
        spec_comb_slot(k1) == spec_comb_slot(k2),
    ensures
        k1 == k2,
{
    lemma_comb_slot_bounds(k1);
    lemma_comb_slot_bounds(k2);
    vstd::arithmetic::div_mod::lemma_fundamental_div_mod(k1, 5);
    vstd::arithmetic::div_mod::lemma_fundamental_div_mod(k2, 5);
}

/// In a layout whose vertical barriers are all clear and whose first
/// column of horizontal slots is clear, every cell reaches the anchor:
/// walk left along the row, then down the first column. The empty board
/// is the special case with no barrier at all.
proof fn lemma_comb_reach(h: Seq<bool>, v: Seq<bool>, c: Coord)
    requires
        h.len() == 30,
        v.len() == 30,
        forall|i: int| 0 <= i < 30 ==> !(#[trigger] v[i]),
        forall|i: int| 0 <= i < 30 && i % 6 == 0 ==> !(#[trigger] h[i]),
        in_grid(c),
    ensures
        reaches(h, v, anchor(), c),
    decreases c.x + c.y,
{
    if c.x == 0 && c.y == 0 {
        lemma_reach_refl(h, v, anchor());
        assert(c == anchor());
    } else if c.x > 0 {
        let d = Coord { x: (c.x - 1) as i32, y: c.y };
        lemma_comb_reach(h, v, d);
        assert(open_edge(h, v, d, c));
        lemma_reach_step(h, v, anchor(), d, c);
    } else {
        let d = Coord { x: c.x, y: (c.y - 1) as i32 };
        lemma_comb_reach(h, v, d);
        vstd::arithmetic::div_mod::lemma_mod_multiples_basic(c.y as int - 1, 6);
        assert(open_edge(h, v, d, c));
        lemma_reach_step(h, v, anchor(), d, c);
    }
}

proof fn lemma_comb_connected(h: Seq<bool>, v: Seq<bool>)
    requires
        h.len() == 30,
        v.len() == 30,
        forall|i: int| 0 <= i < 30 ==> !(#[trigger] v[i]),
        forall|i: int| 0 <= i < 30 && i % 6 == 0 ==> !(#[trigger] h[i]),
    ensures
        connected(h, v),
{
    assert forall|c: Coord| in_grid(c) implies #[trigger] reaches(h, v, anchor(), c) by {
        lemma_comb_reach(h, v, c);
    }
}

} // verus!
