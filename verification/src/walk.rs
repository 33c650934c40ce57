use crate::matrix::DancingLinks;
use crate::model::{
    cell_linked, col_cells, cov_ok, cover_cells, gap_ok, h_gap, h_in, h_ok, hit, in_list, inv,
    lemma_before_first, lemma_block, lemma_cell_facts, lemma_col_step_down,
    lemma_distinct_bounded, lemma_hit_facts, lemma_hit_push, lemma_item_cell, lemma_live_items,
    lemma_one_cell_per_item, lemma_others_member, lemma_top_sign, live, reach, Layout, State,
};
use crate::order::{
    capped, choice, cost_upto, cover_cost, degree, free_cells, is_choice, lemma_choice, open_item,
    others_cost, solved,
};
use crate::trace::{free_gap, tops};
use vstd::prelude::*;

verus! {

/// A cell in the column of an uncovered item is threaded exactly if its
/// option is free.
pub proof fn lemma_linked_active(l: Layout, st: State, x: int)
    requires
        l.wf(),
        inv(l, st),
        l.is_cell(x),
        !st.cov.contains(l.top(x)),
    ensures
        st.linked[x] == live(l, st.cov, l.rows[x]),
{
    assert(st.linked[x] == cell_linked(l, st.cov, x));
    lemma_hit_facts(l, st.cov, l.rows[x]);
    let h = hit(l, st.cov, l.rows[x]);
    if h < st.cov.len() {
        assert(st.cov.contains(st.cov[h]));
    }
}

/// A cell in the column of the item covered last is threaded exactly if
/// its option was free before that covering.
pub proof fn lemma_linked_last(l: Layout, st: State, x: int)
    requires
        l.wf(),
        inv(l, st),
        l.is_cell(x),
        st.cov.len() > 0,
        st.cov.last() == l.top(x),
    ensures
        st.linked[x] == live(l, st.cov.drop_last(), l.rows[x]),
{
    let c0 = st.cov.drop_last();
    let i = l.top(x);
    let o = l.rows[x];
    assert(st.cov =~= c0.push(i));
    assert(st.linked[x] == cell_linked(l, st.cov, x));
    lemma_cell_facts(l, x);
    lemma_hit_facts(l, c0, o);
    lemma_hit_push(l, c0, i, o);
    lemma_item_cell(l, o, i);
    let h0 = hit(l, c0, o);
    if h0 < c0.len() {
        assert(st.cov[h0] == c0[h0]);
        assert(st.cov[st.cov.len() - 1] == i);
    }
}

/// A cell in the column of a covered item is threaded exactly if its
/// option was free before that covering.
pub proof fn lemma_linked_at(l: Layout, st: State, x: int, c: int)
    requires
        l.wf(),
        inv(l, st),
        l.is_cell(x),
        0 <= c < st.cov.len(),
        st.cov[c] == l.top(x),
    ensures
        st.linked[x] == live(l, st.cov.take(c), l.rows[x]),
{
    let cov = st.cov;
    let front = cov.take(c);
    let o = l.rows[x];
    let j = l.top(x);
    assert(st.linked[x] == cell_linked(l, cov, x));
    lemma_cell_facts(l, x);
    lemma_hit_facts(l, cov, o);
    lemma_hit_facts(l, front, o);
    lemma_item_cell(l, o, j);
    let h = hit(l, cov, o);
    let g = hit(l, front, o);
    if g < c {
        assert(front[g] == cov[g]);
        if h > g {
            assert(!l.options[o].contains(cov[g]));
        }
    }
    if h < c {
        assert(front[h] == cov[h]);
        if g > h {
            assert(!l.options[o].contains(front[h]));
        }
    }
    if h > c {
        assert(!l.options[o].contains(cov[c]));
    }
}

/// The threaded cells of the column of an uncovered item are the cells of
/// the free options that name it.
pub proof fn lemma_free_cells_active(l: Layout, st: State, j: int, k: int)
    requires
        l.wf(),
        inv(l, st),
        !st.cov.contains(j),
    ensures
        col_cells(l, st, j, k) == free_cells(l, st.cov, j, k),
    decreases k,
{
    if k > 0 {
        lemma_free_cells_active(l, st, j, k - 1);
        if l.is_cell(k - 1) && l.top(k - 1) == j {
            lemma_linked_active(l, st, k - 1);
        }
    }
}

/// The threaded cells of the column of a covered item are the cells of the
/// options that were free before that covering and name it.
pub proof fn lemma_free_cells_at(l: Layout, st: State, c: int, k: int)
    requires
        l.wf(),
        inv(l, st),
        0 <= c < st.cov.len(),
    ensures
        col_cells(l, st, st.cov[c], k) == free_cells(l, st.cov.take(c), st.cov[c], k),
    decreases k,
{
    if k > 0 {
        lemma_free_cells_at(l, st, c, k - 1);
        if l.is_cell(k - 1) && l.top(k - 1) == st.cov[c] {
            lemma_linked_at(l, st, k - 1, c);
        }
    }
}

/// The root's ring is empty exactly if every primary item is covered.
pub proof fn lemma_solved(l: Layout, st: State)
    requires
        l.wf(),
        inv(l, st),
    ensures
        (st.items[0].right == 0) == solved(l, st.cov),
{
    assert(h_in(l, st, 0));
    assert(h_ok(l, st, 0));
    assert(h_gap(l, st, 0));
    let r = st.items[0].right as int;
    if r != 0 {
        assert(h_in(l, st, r));
    }
}

/// Covering an uncovered item changes as many links as its free options
/// call for.
pub proof fn lemma_cover_cost(l: Layout, st: State, i: int)
    requires
        l.wf(),
        inv(l, st),
        !st.cov.contains(i),
    ensures
        1 + cover_cells(l, st, i).len() == cover_cost(l, st.cov, i),
        1 <= i <= l.count ==> st.items[i].length == degree(l, st.cov, i),
{
    lemma_free_cells_active(l, st, i, l.size());
    if 1 <= i <= l.count {
        assert(st.items[i].length == col_cells(l, st, i, l.size()).len());
    }
}

/// No more items can be covered than there are.
pub proof fn lemma_cov_bounded(l: Layout, st: State)
    requires
        cov_ok(l, st),
        l.count >= 0,
    ensures
        st.cov.len() <= l.count,
{
    lemma_distinct_bounded(st.cov, 1, l.count + 1);
}

/// Below the cell `x` of the column of the item covered last, no free
/// option has a cell of that column before the cell that `x` points down to.
pub proof fn lemma_gap_below(l: Layout, st: State, x: int)
    requires
        l.wf(),
        inv(l, st),
        st.cov.len() > 0,
        0 <= x < l.size(),
        in_list(l, st, x),
        l.col(x) == st.cov.last(),
    ensures
        ({
            let i = st.cov.last();
            let d = st.nodes[x].down as int;
            &&& 0 <= d < l.size()
            &&& free_gap(l, st.cov.drop_last(), i, x, reach(l, st, x))
            &&& d <= l.count ==> d == i && reach(l, st, x) == l.size()
            &&& d > l.count ==> {
                &&& reach(l, st, x) == d
                &&& x < d
                &&& l.is_cell(d)
                &&& l.top(d) == i
                &&& st.linked[d]
                &&& live(l, st.cov.drop_last(), l.rows[d])
            }
        }),
{
    let i = st.cov.last();
    let d = st.nodes[x].down as int;
    assert(1 <= st.cov[st.cov.len() - 1] <= l.count);
    lemma_col_step_down(l, st, i, x);
    assert(gap_ok(l, st, x));
    assert forall|z: int| x < z < reach(l, st, x) && l.is_cell(z) && l.top(z) == i implies !live(
        l,
        st.cov.drop_last(),
        #[trigger] l.rows[z],
    ) by {
        lemma_linked_last(l, st, z);
        assert(!st.linked[z]);
    }
    if d > l.count {
        lemma_linked_last(l, st, d);
    }
}

impl DancingLinks {
    /// Picks the item to cover next: among the uncovered primary items the
    /// first one with the fewest options left. Returns the item and that
    /// number.
    pub fn choose_item(&self) -> (r: (usize, usize))
        requires
            self.wf(),
            self.state().items[0].right != 0,
        ensures
            1 <= r.0 <= self.layout().primary,
            !self.state().cov.contains(r.0 as int),
            r.1 == self.state().items[r.0 as int].length,
            forall|j: int|
                1 <= j <= self.layout().primary && !self.state().cov.contains(j) ==> r.1 <= (
                #[trigger] self.state().items[j]).length,
            forall|j: int|
                1 <= j < r.0 && !self.state().cov.contains(j) ==> r.1 < (
                #[trigger] self.state().items[j]).length,
            r.0 == choice(self.layout(), self.state().cov),
            r.1 == degree(self.layout(), self.state().cov, r.0 as int),
    {
        let ghost l = self.layout();
        let ghost st = self.state();
        proof {
            assert(h_in(l, st, 0));
            assert(h_ok(l, st, 0));
            assert(h_gap(l, st, 0));
        }
        let first = self.get_right(0);
        let mut min_length = self.get_length(first);
        let mut i = first;
        let mut p = self.get_right(first);
        proof {
            assert(h_in(l, st, first as int));
            assert(h_ok(l, st, first as int));
            assert(h_gap(l, st, first as int));
        }
        while p != 0 && min_length > 0
            invariant
                self.wf(),
                l == self.layout(),
                st == self.state(),
                0 <= p <= l.primary,
                1 <= i <= l.primary,
                !st.cov.contains(i as int),
                min_length == st.items[i as int].length,
                p != 0 ==> i < p && !st.cov.contains(p as int),
                forall|j: int|
                    1 <= j < (if p == 0 {
                        l.primary + 1
                    } else {
                        p as int
                    }) && !st.cov.contains(j) ==> min_length <= (#[trigger] st.items[j]).length,
                forall|j: int|
                    1 <= j < i && !st.cov.contains(j) ==> min_length < (
                    #[trigger] st.items[j]).length,
            decreases
                    if p == 0 {
                        0
                    } else {
                        l.primary + 1 - p
                    },
        {
            proof {
                assert(h_in(l, st, p as int));
                assert(h_ok(l, st, p as int));
                assert(h_gap(l, st, p as int));
            }
            let length = self.get_length(p);
            if length < min_length {
                min_length = length;
                i = p;
            }
            p = self.get_right(p);
        }
        proof {
            assert forall|j: int| #[trigger] open_item(l, st.cov, j) implies st.items[j].length
                == degree(l, st.cov, j) by {
                lemma_cover_cost(l, st, j);
            }
            assert(open_item(l, st.cov, i as int));
            assert(is_choice(l, st.cov, i as int));
            lemma_choice(l, st.cov, i as int);
        }
        (i, min_length)
    }

    /// Covers the other items of the option of `x`, left to right from
    /// `x`, and returns the number of links changed, the largest number
    /// that fits if there were more.
    pub(crate) fn cover_others(&mut self, x: usize) -> (updates: usize)
        requires
            old(self).wf(),
            old(self).layout().is_cell(x as int),
            tops(old(self).layout(), old(self).layout().others(x as int)).no_duplicates(),
            forall|k: int|
                0 <= k < old(self).layout().others(x as int).len() ==> {
                    &&& 1 <= #[trigger] tops(
                        old(self).layout(),
                        old(self).layout().others(x as int),
                    )[k] <= old(self).layout().count
                    &&& !old(self).state().cov.contains(
                        tops(old(self).layout(), old(self).layout().others(x as int))[k],
                    )
                },
        ensures
            final(self).wf(),
            final(self).layout() == old(self).layout(),
            final(self).base() == old(self).base(),
            final(self).state().cov == old(self).state().cov + tops(
                old(self).layout(),
                old(self).layout().others(x as int),
            ),
            updates == capped(
                others_cost(old(self).layout(), old(self).state().cov, x as int) as int,
            ),
    {
        let ghost l = self.layout();
        let ghost cov0 = self.state().cov;
        let ghost cells = l.others(x as int);
        let ghost items = tops(l, cells);
        let ghost first = l.first(x as int);
        let ghost close = l.close(x as int);
        let ghost len = close - first;
        proof {
            lemma_cell_facts(l, x as int);
            lemma_others_member(l, x as int, 0);
            assert(cov0 + items.take(0) =~= cov0);
        }
        let size = self.get_list_len();
        let mut updates: usize = 0;
        let mut p: usize = x + 1;
        let ghost mut k: int = 0;
        while p != x
            invariant
                self.wf(),
                self.layout() == l,
                self.base() == old(self).base(),
                size == l.size(),
                l.is_cell(x as int),
                cells == l.others(x as int),
                items == tops(l, cells),
                items.no_duplicates(),
                forall|t: int|
                    0 <= t < cells.len() ==> 1 <= #[trigger] items[t] <= l.count
                        && !cov0.contains(items[t]),
                cells.len() == len - 1,
                first == l.first(x as int),
                close == l.close(x as int),
                len == close - first,
                first <= x < close < l.size(),
                0 <= k <= cells.len(),
                self.state().cov == cov0 + items.take(k),
                updates == capped(cost_upto(l, cov0, items, k) as int),
                first <= p <= close,
                p > x ==> k == p - x - 1,
                p <= x ==> k == close - x - 1 + p - first,
            decreases 2 * (cells.len() - k) + if p > x { 1int } else { 0int },
        {
            proof {
                lemma_top_sign(l, p as int);
                lemma_cell_facts(l, x as int);
                if p as int == close {
                    assert(l.is_spacer(p as int));
                } else {
                    lemma_block(l, x as int, p as int);
                    assert(cells[k] == p);
                    assert(items[k] == l.top(p as int));
                    let cur = self.state().cov;
                    lemma_cover_cost(l, self.state(), items[k]);
                    if cur.contains(items[k]) {
                        let w = choose|w: int| 0 <= w < cur.len() && cur[w] == items[k];
                        if w < cov0.len() {
                            assert(cov0[w] == items[k]);
                            assert(cov0.contains(items[k]));
                        } else {
                            assert(items[w - cov0.len()] == items[k]);
                        }
                    }
                }
            }
            let j = self.get_top(p);
            if j <= 0 {
                p = self.get_up(p);
            } else {
                let n = self.cover(j as usize);
                updates = updates.saturating_add(n);
                proof {
                    assert((cov0 + items.take(k)).push(items[k]) =~= cov0 + items.take(k + 1));
                    k = k + 1;
                }
                p += 1;
            }
        }
        proof {
            assert(items.take(k) =~= items);
        }
        updates
    }

    /// Uncovers the other items of the option of `x`, right to left, so
    /// that the last one covered is the first one uncovered.
    pub(crate) fn uncover_others(&mut self, x: usize, Ghost(cov0): Ghost<Seq<int>>)
        requires
            old(self).wf(),
            old(self).layout().is_cell(x as int),
            old(self).state().cov == cov0 + tops(
                old(self).layout(),
                old(self).layout().others(x as int),
            ),
        ensures
            final(self).wf(),
            final(self).layout() == old(self).layout(),
            final(self).base() == old(self).base(),
            final(self).state().cov == cov0,
    {
        let ghost l = self.layout();
        let ghost cells = l.others(x as int);
        let ghost items = tops(l, cells);
        let ghost first = l.first(x as int);
        let ghost close = l.close(x as int);
        let ghost len = close - first;
        proof {
            lemma_cell_facts(l, x as int);
            lemma_others_member(l, x as int, 0);
            lemma_before_first(l, x as int);
            assert(items.take(items.len() as int) =~= items);
        }
        let size = self.get_list_len();
        let mut p: usize = x - 1;
        let ghost mut m: int = cells.len() as int;
        while p != x
            invariant
                self.wf(),
                self.layout() == l,
                self.base() == old(self).base(),
                size == l.size(),
                l.is_cell(x as int),
                cells == l.others(x as int),
                items == tops(l, cells),
                cells.len() == len - 1,
                first == l.first(x as int),
                close == l.close(x as int),
                len == close - first,
                l.count + 2 <= first <= x < close < l.size(),
                0 <= m <= cells.len(),
                self.state().cov == cov0 + items.take(m),
                first - 1 <= p < close,
                p < x ==> m == len - 1 - (x - 1 - p),
                p >= x ==> m == p - x,
            decreases 2 * m + if p < x { 1int } else { 0int },
        {
            proof {
                lemma_top_sign(l, p as int);
                lemma_cell_facts(l, x as int);
                lemma_before_first(l, x as int);
                if p as int == first - 1 {
                    assert(!l.is_cell(p as int));
                } else {
                    lemma_block(l, x as int, p as int);
                    assert(cells[m - 1] == p);
                    assert(items[m - 1] == l.top(p as int));
                    assert((cov0 + items.take(m)).last() == items[m - 1]);
                    assert((cov0 + items.take(m)).drop_last() =~= cov0 + items.take(m - 1));
                }
            }
            let j = self.get_top(p);
            if j <= 0 {
                p = self.get_down(p);
            } else {
                self.uncover(j as usize);
                proof {
                    m = m - 1;
                }
                p -= 1;
            }
        }
        proof {
            assert(cov0 + items.take(0) =~= cov0);
        }
    }
}

} // verus!
