use crate::matrix::DancingLinks;
use crate::model::{
    col_cells, gap_ok, in_list, inv, lemma_block, lemma_cell_facts, lemma_col_cells_bound,
    lemma_col_cells_low, lemma_col_step_down, lemma_others_member, lemma_rows_at, lemma_top_sign,
    live, name_ok, Layout, State,
};
use crate::order::{degree, free_cells};
use crate::text::{dec, decimal};
use crate::trace::{cells_ok, cyc, flat, lemma_cyc_members, path_ok, tried, Frame};
use crate::walk::{lemma_free_cells_at, lemma_linked_at};
use vstd::prelude::*;
use vstd::string::StringExecFns;

verus! {

/// Where cell `x` stands among the threaded cells of its column, counted
/// from one, if it is threaded.
pub open spec fn position_of(l: Layout, st: State, x: int) -> Option<usize> {
    if st.linked[x] {
        Some((col_cells(l, st, l.top(x), x).len() + 1) as usize)
    } else {
        None
    }
}

/// The names of the given items, separated by single spaces.
pub open spec fn joined(names: Seq<Seq<char>>, items: Seq<int>) -> Seq<char>
    decreases items.len(),
{
    if items.len() == 0 {
        Seq::empty()
    } else if items.len() == 1 {
        names[items[0] - 1]
    } else {
        joined(names, items.drop_last()) + " "@ + names[items.last() - 1]
    }
}

/// The position as it is shown: the number, or a question mark.
pub open spec fn position_text(position: Option<usize>) -> Seq<char> {
    match position {
        Some(k) => dec(k as nat),
        None => "?"@,
    }
}

/// The line that describes the option of cell `x`: the names of its items
/// from `x` on, then where `x` stands in its column and how many cells the
/// column counts.
pub open spec fn option_text(l: Layout, st: State, x: int) -> Seq<char> {
    joined(l.names, cyc(l, x)) + " ("@ + position_text(position_of(l, st, x)) + " of "@ + dec(
        st.items[l.top(x)].length as nat,
    ) + ")"@
}

/// The line that describes the option tried on level `lv` of a path, as
/// it reads while the options of the path are tried: the place and the
/// size of the column are those that the level found.
pub open spec fn line_text(l: Layout, path: Seq<Frame>, lv: int) -> Seq<char> {
    let before = flat(l, path.take(lv));
    joined(l.names, cyc(l, path[lv].row)) + " ("@ + dec(
        free_cells(l, before, path[lv].item, path[lv].row).len() + 1,
    ) + " of "@ + dec(degree(l, before, path[lv].item)) + ")"@
}

/// The items covered on the first levels come first among the items
/// covered on all levels, and the item chosen on the next level follows
/// them.
pub proof fn lemma_flat_prefix(l: Layout, frames: Seq<Frame>, lv: int)
    requires
        l.wf(),
        cells_ok(l, frames),
        0 <= lv < frames.len(),
    ensures
        flat(l, frames.take(lv)).len() < flat(l, frames).len(),
        flat(l, frames).take(flat(l, frames.take(lv)).len() as int) == flat(l, frames.take(lv)),
        flat(l, frames)[flat(l, frames.take(lv)).len() as int] == frames[lv].item,
    decreases frames.len(),
{
    let front = frames.drop_last();
    let n = frames.len() - 1;
    let a = flat(l, front);
    let b = cyc(l, frames.last().row);
    assert(frames[n] == frames.last());
    lemma_cyc_members(l, frames.last().row, 0);
    lemma_cell_facts(l, frames.last().row);
    if lv == n {
        assert(frames.take(lv) =~= front);
        assert((a + b).take(a.len() as int) =~= a);
    } else {
        assert forall|k: int| 0 <= k < front.len() implies {
            &&& l.is_cell((#[trigger] front[k]).row)
            &&& l.top(front[k].row) == front[k].item
            &&& 1 <= front[k].item <= l.primary
        } by {
            assert(front[k] == frames[k]);
        }
        lemma_flat_prefix(l, front, lv);
        assert(front.take(lv) =~= frames.take(lv));
        let m = flat(l, front.take(lv)).len() as int;
        assert((a + b).take(m) =~= a.take(m));
    }
}

/// While the options of a path are tried, the line that describes the
/// option of a level reads as the path calls for.
pub proof fn lemma_line_text(l: Layout, st: State, frames: Seq<Frame>, lv: int)
    requires
        l.wf(),
        inv(l, st),
        l.size() <= isize::MAX,
        path_ok(l, frames),
        st.cov == flat(l, frames),
        0 <= lv < frames.len(),
    ensures
        option_text(l, st, frames[lv].row) == line_text(l, frames, lv),
{
    let x = frames[lv].row;
    let i = frames[lv].item;
    let before = flat(l, frames.take(lv));
    let c = before.len() as int;
    lemma_flat_prefix(l, frames, lv);
    lemma_cell_facts(l, x);
    lemma_linked_at(l, st, x, c);
    assert(live(l, before, tried(l, frames, lv)));
    lemma_free_cells_at(l, st, c, x);
    lemma_free_cells_at(l, st, c, l.size());
    lemma_col_cells_bound(l, st, i, x);
    assert(st.items[i].length == col_cells(l, st, i, l.size()).len());
}

impl DancingLinks {
    /// Where the cell `i` stands in its column, counted from one and
    /// `None` if it is not threaded, and how many cells the column counts.
    pub fn get_option_position(&self, i: usize) -> (r: (Option<usize>, usize))
        requires
            self.wf(),
            self.layout().is_cell(i as int),
        ensures
            r.0 == position_of(self.layout(), self.state(), i as int),
            r.1 == self.state().items[self.layout().top(i as int)].length,
    {
        let ghost l = self.layout();
        let ghost st = self.state();
        proof {
            lemma_cell_facts(l, i as int);
            assert(in_list(l, st, l.top(i as int)));
            lemma_col_step_down(l, st, l.top(i as int), l.top(i as int));
            lemma_col_cells_low(l, st, l.top(i as int), l.top(i as int) + 1);
            assert(gap_ok(l, st, l.top(i as int)));
            self.lemma_size_fits();
        }
        let size = self.get_list_len();
        let t = self.get_top(i) as usize;
        let mut p = self.get_down(t);
        let mut k: usize = 1;
        while p != i && p != t
            invariant
                self.wf(),
                l == self.layout(),
                st == self.state(),
                size == l.size(),
                l.is_cell(i as int),
                t == l.top(i as int),
                1 <= t <= l.count,
                0 <= p < l.size(),
                p != t ==> {
                    &&& l.is_cell(p as int)
                    &&& st.linked[p as int]
                    &&& l.top(p as int) == t
                    &&& k == col_cells(l, st, t as int, p as int).len() + 1
                    &&& st.linked[i as int] ==> p <= i
                },
                p == t ==> !st.linked[i as int],
                k <= l.size() + 1,
                l.size() <= isize::MAX,
            decreases
                    if p == t {
                        0
                    } else {
                        l.size() - p
                    },
        {
            proof {
                assert(in_list(l, st, p as int));
                lemma_col_step_down(l, st, t as int, p as int);
                lemma_rows_at(l, st, t as int, p as int);
                lemma_col_cells_bound(l, st, t as int, p as int);
                let d = st.nodes[p as int].down as int;
                if d > l.count {
                    lemma_col_cells_bound(l, st, t as int, d);
                    if st.linked[i as int] && i < d {
                        assert(gap_ok(l, st, p as int));
                    }
                } else {
                    if st.linked[i as int] {
                        assert(gap_ok(l, st, p as int));
                    }
                }
            }
            p = self.get_down(p);
            k += 1;
        }
        let length = self.get_length(t);
        if p != t {
            (Some(k), length)
        } else {
            (None, length)
        }
    }

    /// The name of item `t`.
    fn item_name(&self, t: usize) -> (r: &str)
        requires
            self.wf(),
            1 <= t <= self.layout().count,
        ensures
            r@ == self.layout().names[t - 1],
    {
        proof {
            assert(name_ok(self.layout(), t as int, self.state().items[t as int].name));
        }
        match &self.get_record(t).name {
            Some(s) => s.as_str(),
            None => "",
        }
    }

    /// The line that describes the option of cell `i`: the names of its
    /// items from `i` on, and where `i` stands in its column.
    pub fn get_option_str(&self, i: usize) -> (r: String)
        requires
            self.wf(),
            self.layout().is_cell(i as int),
        ensures
            r@ == option_text(self.layout(), self.state(), i as int),
    {
        let ghost l = self.layout();
        let ghost st = self.state();
        let ghost cells = l.others(i as int);
        let ghost items = cyc(l, i as int);
        let ghost first = l.first(i as int);
        let ghost close = l.close(i as int);
        let ghost len = close - first;
        proof {
            lemma_cell_facts(l, i as int);
            lemma_others_member(l, i as int, 0);
            assert(items.take(1) =~= seq![l.top(i as int)]);
        }
        let size = self.get_list_len();
        let t = self.get_top(i) as usize;
        let mut s = String::from_str(self.item_name(t));
        let mut p: usize = i + 1;
        let ghost mut k: int = 0;
        while p != i
            invariant
                self.wf(),
                l == self.layout(),
                st == self.state(),
                size == l.size(),
                l.is_cell(i as int),
                cells == l.others(i as int),
                items == cyc(l, i as int),
                items.len() == len,
                cells.len() == len - 1,
                first == l.first(i as int),
                close == l.close(i as int),
                len == close - first,
                first <= i < close < l.size(),
                0 <= k <= cells.len(),
                s@ == joined(l.names, items.take(k + 1)),
                first <= p <= close,
                p > i ==> k == p - i - 1,
                p <= i ==> k == close - i - 1 + p - first,
            decreases 2 * (cells.len() - k) + if p > i { 1int } else { 0int },
        {
            proof {
                lemma_top_sign(l, p as int);
                lemma_cell_facts(l, i as int);
                if p as int == close {
                    assert(l.is_spacer(p as int));
                } else {
                    lemma_block(l, i as int, p as int);
                    lemma_cell_facts(l, p as int);
                    assert(cells[k] == p);
                    assert(items[k + 1] == l.top(p as int));
                    assert(items.take(k + 2).drop_last() =~= items.take(k + 1));
                    assert(items.take(k + 2).last() == items[k + 1]);
                }
            }
            let t = self.get_top(p);
            if t <= 0 {
                p = self.get_up(p);
            } else {
                s.append(" ");
                s.append(self.item_name(t as usize));
                proof {
                    k = k + 1;
                }
                p += 1;
            }
        }
        proof {
            assert(items.take(k + 1) =~= items);
        }
        let (position, length) = self.get_option_position(i);
        s.append(" (");
        match position {
            Some(k) => {
                let d = decimal(k);
                s.append(d.as_str());
            },
            None => {
                s.append("?");
            },
        }
        s.append(" of ");
        let d = decimal(length);
        s.append(d.as_str());
        s.append(")");
        s
    }
}

} // verus!
