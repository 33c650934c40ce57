use crate::utils::{Node, Record};
use vstd::prelude::*;
use vstd::set_lib::{lemma_int_range, lemma_len_subset, set_int_range};

verus! {

/// The fixed shape of an instance: how many items there are and what they
/// are called (item `j` has the name `names[j - 1]`), which items each option
/// names, and where each option sits in the arena.
///
/// Arena positions `0..=count` hold the leading boundary and the item
/// headers, position `count + 1` the first spacer. Option `o` occupies the
/// positions `starts[o] .. starts[o] + options[o].len()` and is closed by a
/// spacer; `rows[x]` names the option whose block holds position `x`.
pub struct Layout {
    pub primary: int,
    pub count: int,
    pub names: Seq<Seq<char>>,
    pub options: Seq<Seq<int>>,
    pub starts: Seq<int>,
    pub rows: Seq<int>,
}

impl Layout {
    /// Number of arena positions.
    pub open spec fn size(self) -> int {
        self.rows.len() as int
    }

    /// Position of the `k`-th cell of option `o`; `k == options[o].len()` is
    /// the closing spacer.
    pub open spec fn at(self, o: int, k: int) -> int {
        self.starts[o] + k
    }

    /// First position after the last option.
    pub open spec fn end(self) -> int {
        if self.options.len() == 0 {
            self.count + 2
        } else {
            self.starts.last() + self.options.last().len() + 1
        }
    }

    /// The positions after the headers are parted among the options, each
    /// option with its closing spacer, and every option names distinct items
    /// of the instance; the items have distinct names.
    pub open spec fn wf(self) -> bool {
        &&& 0 <= self.primary <= self.count
        &&& self.names.len() == self.count
        &&& self.names.no_duplicates()
        &&& self.starts.len() == self.options.len()
        &&& self.size() == self.end()
        &&& self.size() >= self.count + 2
        &&& forall|x: int| 0 <= x < self.count + 2 ==> #[trigger] self.rows[x] == -1
        &&& forall|x: int|
            self.count + 2 <= x < self.size() ==> {
                &&& 0 <= #[trigger] self.rows[x] < self.options.len()
                &&& self.starts[self.rows[x]] <= x
                &&& x <= self.starts[self.rows[x]] + self.options[self.rows[x]].len()
            }
        &&& forall|o: int, k: int|
            0 <= o < self.options.len() && 0 <= k <= self.options[o].len() ==> {
                &&& self.count + 2 <= #[trigger] self.at(o, k) < self.size()
                &&& self.rows[self.at(o, k)] == o
            }
        &&& forall|o: int, k: int|
            0 <= o < self.options.len() && 0 <= k < self.options[o].len() ==> 1
                <= #[trigger] self.options[o][k] <= self.count
        &&& forall|o: int|
            0 <= o < self.options.len() ==> (#[trigger] self.options[o]).no_duplicates()
    }

    /// Whether position `x` holds a data cell.
    pub open spec fn is_cell(self, x: int) -> bool {
        &&& self.count + 2 <= x < self.size()
        &&& x - self.starts[self.rows[x]] < self.options[self.rows[x]].len()
    }

    /// Whether position `x` closes an option.
    pub open spec fn is_spacer(self, x: int) -> bool {
        &&& self.count + 2 <= x < self.size()
        &&& x - self.starts[self.rows[x]] == self.options[self.rows[x]].len()
    }

    /// The tag stored at position `x`.
    pub open spec fn top(self, x: int) -> int {
        if x < self.count + 2 {
            0
        } else if self.is_cell(x) {
            self.options[self.rows[x]][x - self.starts[self.rows[x]]]
        } else {
            -(self.rows[x] + 1)
        }
    }

    /// First cell of the option that holds `x`.
    pub open spec fn first(self, x: int) -> int {
        self.starts[self.rows[x]]
    }

    /// The spacer that closes the option that holds `x`.
    pub open spec fn close(self, x: int) -> int {
        self.starts[self.rows[x]] + self.options[self.rows[x]].len()
    }

    /// The column a list member belongs to: a header is its own column, a
    /// cell belongs to the item it names.
    pub open spec fn col(self, x: int) -> int {
        if x <= self.count {
            x
        } else {
            self.top(x)
        }
    }

    /// The cells that share an option with `p`, without `p`, in the order in
    /// which a walk to the right from `p` meets them (wrapping at the spacer).
    pub open spec fn others(self, p: int) -> Seq<int> {
        let len = self.options[self.rows[p]].len() as int;
        Seq::new(
            (len - 1) as nat,
            |t: int|
                if p + 1 + t < self.close(p) {
                    p + 1 + t
                } else {
                    p + 1 + t - len
                },
        )
    }
}

/// Everything that changes while items are covered and uncovered: the two
/// arrays, which cells are currently threaded into their column, and the
/// items covered so far, oldest first.
pub struct State {
    pub items: Seq<Record>,
    pub nodes: Seq<Node>,
    pub linked: Seq<bool>,
    pub cov: Seq<int>,
}

/// A header of an item, or a cell that is threaded into its column.
pub open spec fn in_list(l: Layout, st: State, x: int) -> bool {
    (1 <= x <= l.count) || (l.is_cell(x) && st.linked[x])
}

/// The position up to which no other member of the column follows `x`.
pub open spec fn reach(l: Layout, st: State, x: int) -> int {
    let d = st.nodes[x].down as int;
    if d <= l.count {
        l.size()
    } else {
        d
    }
}

/// The two sentinels have no name, item `j` has the name the layout gives.
pub open spec fn name_ok(l: Layout, j: int, name: Option<String>) -> bool {
    if 1 <= j <= l.count {
        name matches Some(s) && s@ == l.names[j - 1]
    } else {
        name is None
    }
}

/// The parts of the arrays that never change: the names, the tags, where
/// the spacers point, and what the boundary cells and the sentinels hold.
pub open spec fn fixed_ok(l: Layout, st: State) -> bool {
    &&& st.items.len() == l.count + 2
    &&& st.nodes.len() == l.size()
    &&& st.linked.len() == l.size()
    &&& forall|j: int| 0 <= j < l.count + 2 ==> name_ok(l, j, (#[trigger] st.items[j]).name)
    &&& forall|x: int| 0 <= x < l.size() ==> (#[trigger] st.nodes[x]).top == l.top(x)
    &&& forall|x: int| 0 <= x < l.size() ==> (#[trigger] st.nodes[x]).up < l.size()
    &&& forall|x: int| 0 <= x < l.size() ==> (#[trigger] st.nodes[x]).down < l.size()
    &&& forall|x: int| #[trigger] l.is_spacer(x) ==> st.nodes[x].up == l.first(x)
    &&& forall|x: int|
        l.count + 1 <= x < l.size() - 1 && !#[trigger] l.is_cell(x) ==> st.nodes[x].down
            == l.close(x + 1) - 1
    &&& st.nodes[0].up == 0
    &&& st.nodes[0].down == 0
    &&& st.nodes[l.count + 1].up == 0
    &&& st.nodes[l.size() - 1].down == 0
    &&& st.items[0].length == 0
    &&& st.items[l.count + 1].length == 0
}

/// `x` and its two neighbours agree about each other, stay inside one
/// column, and the neighbour below lies further on in the arena unless it is
/// the header.
pub open spec fn ring_ok(l: Layout, st: State, x: int) -> bool {
    let d = st.nodes[x].down as int;
    let u = st.nodes[x].up as int;
    &&& in_list(l, st, d)
    &&& in_list(l, st, u)
    &&& l.col(d) == l.col(x)
    &&& l.col(u) == l.col(x)
    &&& st.nodes[d].up == x
    &&& st.nodes[u].down == x
    &&& (d <= l.count || x < d)
}

/// The threaded cells of column `j` among the positions below `k`, in arena
/// order.
pub open spec fn col_cells(l: Layout, st: State, j: int, k: int) -> Seq<int>
    decreases k,
{
    if k <= 0 {
        Seq::empty()
    } else {
        let r = col_cells(l, st, j, k - 1);
        if l.is_cell(k - 1) && l.top(k - 1) == j && st.linked[k - 1] {
            r.push(k - 1)
        } else {
            r
        }
    }
}

/// No threaded cell of the column of `x` lies between `x` and the neighbour
/// below it.
pub open spec fn gap_ok(l: Layout, st: State, x: int) -> bool {
    forall|z: int|
        x < z < reach(l, st, x) && l.is_cell(z) && l.top(z) == l.col(x) ==> !#[trigger] st.linked[z]
}

/// Every header counts the threaded cells of its column.
pub open spec fn lengths_ok(l: Layout, st: State) -> bool {
    forall|j: int|
        1 <= j <= l.count ==> (#[trigger] st.items[j]).length == col_cells(
            l,
            st,
            j,
            l.size(),
        ).len()
}

/// Every column is a sound doubly linked ring in arena order, and every
/// header counts its threaded cells.
pub open spec fn cols_ok(l: Layout, st: State) -> bool {
    &&& forall|x: int| 0 <= x < l.size() && in_list(l, st, x) ==> #[trigger] ring_ok(l, st, x)
    &&& forall|x: int| 0 <= x < l.size() && in_list(l, st, x) ==> #[trigger] gap_ok(l, st, x)
    &&& lengths_ok(l, st)
}

/// Takes cell `q` out of its column: its neighbours are joined, the header
/// counts one less, and `q` keeps its own pointers.
pub open spec fn splice(st: State, q: int) -> State {
    let t = st.nodes[q].top as int;
    let u = st.nodes[q].up as int;
    let d = st.nodes[q].down as int;
    let n1 = st.nodes.update(u, Node { down: d as usize, ..st.nodes[u] });
    let n2 = n1.update(d, Node { up: u as usize, ..n1[d] });
    State {
        items: st.items.update(
            t,
            Record { length: (st.items[t].length - 1) as usize, ..st.items[t] },
        ),
        nodes: n2,
        linked: st.linked.update(q, false),
        cov: st.cov,
    }
}

/// Puts cell `q` back between the neighbours it remembers.
pub open spec fn unsplice(st: State, q: int) -> State {
    let t = st.nodes[q].top as int;
    let u = st.nodes[q].up as int;
    let d = st.nodes[q].down as int;
    let n1 = st.nodes.update(u, Node { down: q as usize, ..st.nodes[u] });
    let n2 = n1.update(d, Node { up: q as usize, ..n1[d] });
    State {
        items: st.items.update(
            t,
            Record { length: (st.items[t].length + 1) as usize, ..st.items[t] },
        ),
        nodes: n2,
        linked: st.linked.update(q, true),
        cov: st.cov,
    }
}

/// What the layout says of a cell: its item, its option, and the spacer
/// that closes the option.
pub proof fn lemma_cell_facts(l: Layout, x: int)
    requires
        l.wf(),
        l.is_cell(x),
    ensures
        1 <= l.top(x) <= l.count,
        0 <= l.rows[x] < l.options.len(),
        l.first(x) <= x < l.close(x),
        l.count + 2 <= l.first(x),
        l.close(x) < l.size(),
        l.is_spacer(l.close(x)),
        l.rows[l.close(x)] == l.rows[x],
        l.col(x) == l.top(x),
{
    let o = l.rows[x];
    let k = x - l.starts[o];
    assert(l.options[o][k] >= 1);
    assert(l.at(o, 0) == l.starts[o]);
    assert(l.at(o, l.options[o].len() as int) == l.close(x));
}

/// The list of a column below a position holds threaded cells of that
/// column below that position, and no more of them than there are
/// positions.
pub proof fn lemma_col_cells_bound(l: Layout, st: State, j: int, k: int)
    ensures
        col_cells(l, st, j, k).len() <= if k < 0 { 0 } else { k },
        forall|t: int|
            0 <= t < col_cells(l, st, j, k).len() ==> {
                let x = #[trigger] col_cells(l, st, j, k)[t];
                0 <= x < k && l.is_cell(x) && l.top(x) == j && st.linked[x]
            },
    decreases k,
{
    if k > 0 {
        lemma_col_cells_bound(l, st, j, k - 1);
    }
}

/// Two states that thread the same cells of column `j` below `k` list the
/// same cells there.
pub proof fn lemma_col_cells_same(l: Layout, a: State, b: State, j: int, k: int)
    requires
        forall|x: int| 0 <= x < k && l.is_cell(x) && l.top(x) == j ==> a.linked[x] == b.linked[x],
    ensures
        col_cells(l, a, j, k) == col_cells(l, b, j, k),
    decreases k,
{
    if k > 0 {
        lemma_col_cells_same(l, a, b, j, k - 1);
    }
}

/// Changing the thread flag of one cell of column `j` changes the count of
/// that column by one.
pub proof fn lemma_col_cells_flip(l: Layout, a: State, b: State, j: int, q: int, k: int)
    requires
        0 <= q,
        l.is_cell(q),
        l.top(q) == j,
        a.linked[q],
        !b.linked[q],
        forall|x: int|
            0 <= x < k && x != q && l.is_cell(x) && l.top(x) == j ==> a.linked[x] == b.linked[x],
    ensures
        col_cells(l, a, j, k).len() == col_cells(l, b, j, k).len() + if q < k {
            1int
        } else {
            0int
        },
    decreases k,
{
    if k > 0 {
        lemma_col_cells_flip(l, a, b, j, q, k - 1);
    }
}

/// Taking a threaded cell out leaves the fixed parts of the arrays alone.
proof fn lemma_splice_fixed(l: Layout, st: State, q: int)
    requires
        l.wf(),
        fixed_ok(l, st),
        cols_ok(l, st),
        l.is_cell(q),
        st.linked[q],
    ensures
        fixed_ok(l, splice(st, q)),
{
    let s2 = splice(st, q);
    let u = st.nodes[q].up as int;
    let d = st.nodes[q].down as int;
    lemma_cell_facts(l, q);
    assert(in_list(l, st, q));
    assert(ring_ok(l, st, q));
    assert(!l.is_spacer(u) && !l.is_spacer(d));
    assert forall|j: int| 0 <= j < l.count + 2 implies name_ok(
        l,
        j,
        (#[trigger] s2.items[j]).name,
    ) by {
        assert(name_ok(l, j, st.items[j].name));
    }
    assert forall|x: int| #[trigger] l.is_spacer(x) implies s2.nodes[x].up == l.first(x) by {
        assert(st.nodes[x].up == l.first(x));
    }
    assert forall|x: int|
        l.count + 1 <= x < l.size() - 1 && !#[trigger] l.is_cell(x) implies s2.nodes[x].down
        == l.close(x + 1) - 1 by {
        assert(st.nodes[x].down == l.close(x + 1) - 1);
    }
}

/// Taking a threaded cell out keeps the counts right.
proof fn lemma_splice_lengths(l: Layout, st: State, q: int)
    requires
        l.wf(),
        fixed_ok(l, st),
        cols_ok(l, st),
        l.is_cell(q),
        st.linked[q],
    ensures
        lengths_ok(l, splice(st, q)),
        st.items[l.top(q)].length > 0,
{
    let s2 = splice(st, q);
    let t = l.top(q);
    lemma_cell_facts(l, q);
    lemma_col_cells_flip(l, st, s2, t, q, l.size());
    assert(st.items[t].length == col_cells(l, st, t, l.size()).len());
    assert forall|j: int| 1 <= j <= l.count implies (#[trigger] s2.items[j]).length == col_cells(
        l,
        s2,
        j,
        l.size(),
    ).len() by {
        assert(st.items[j].length == col_cells(l, st, j, l.size()).len());
        if j != t {
            lemma_col_cells_same(l, st, s2, j, l.size());
        }
    }
}

/// Taking a threaded cell out keeps every other member of a column sound.
#[verifier::rlimit(40)]
proof fn lemma_splice_ring(l: Layout, st: State, q: int, x: int)
    requires
        l.wf(),
        fixed_ok(l, st),
        cols_ok(l, st),
        l.is_cell(q),
        st.linked[q],
        0 <= x < l.size(),
        in_list(l, splice(st, q), x),
    ensures
        ring_ok(l, splice(st, q), x),
        gap_ok(l, splice(st, q), x),
{
    let s2 = splice(st, q);
    let u = st.nodes[q].up as int;
    let d = st.nodes[q].down as int;
    lemma_cell_facts(l, q);
    assert(in_list(l, st, q));
    assert(ring_ok(l, st, q));
    assert(gap_ok(l, st, q));
    assert(in_list(l, st, u));
    assert(in_list(l, st, d));
    assert(ring_ok(l, st, u));
    assert(ring_ok(l, st, d));
    assert(u != q && d != q);
    assert(x != q);
    assert(in_list(l, st, x));
    assert(ring_ok(l, st, x));
    assert(gap_ok(l, st, x));
    let xd = st.nodes[x].down as int;
    let xu = st.nodes[x].up as int;
    assert(in_list(l, st, xd));
    assert(in_list(l, st, xu));
    if x == u {
        assert(s2.nodes[x].down == d);
        assert(gap_ok(l, st, u));
        assert forall|z: int|
            x < z < reach(l, s2, x) && l.is_cell(z) && l.top(z) == l.col(
                x,
            ) implies !#[trigger] s2.linked[z] by {
            if z < q {
                assert(!st.linked[z]);
            } else if z > q {
                assert(!st.linked[z]);
            }
        }
    } else {
        assert(xd != q);
        assert(s2.nodes[x].down == xd);
        assert forall|z: int|
            x < z < reach(l, s2, x) && l.is_cell(z) && l.top(z) == l.col(
                x,
            ) implies !#[trigger] s2.linked[z] by {
            assert(!st.linked[z]);
        }
    }
    if x == d {
        assert(s2.nodes[x].up == u);
    } else {
        assert(xu != q);
        assert(s2.nodes[x].up == xu);
    }
}

/// Two states whose items have the same names and horizontal neighbours.
pub open spec fn sides_same(a: State, b: State) -> bool {
    &&& a.items.len() == b.items.len()
    &&& forall|j: int|
        0 <= j < a.items.len() ==> {
            &&& (#[trigger] b.items[j]).left == a.items[j].left
            &&& b.items[j].right == a.items[j].right
            &&& b.items[j].name == a.items[j].name
        }
}

/// Taking a threaded cell out of its column keeps every column sound.
pub proof fn lemma_splice_keeps(l: Layout, st: State, q: int)
    requires
        l.wf(),
        fixed_ok(l, st),
        cols_ok(l, st),
        l.is_cell(q),
        st.linked[q],
    ensures
        fixed_ok(l, splice(st, q)),
        cols_ok(l, splice(st, q)),
        st.items[l.top(q)].length > 0,
        sides_same(st, splice(st, q)),
{
    let s2 = splice(st, q);
    lemma_cell_facts(l, q);
    lemma_splice_fixed(l, st, q);
    lemma_splice_lengths(l, st, q);
    assert forall|x: int| 0 <= x < l.size() && in_list(l, s2, x) implies #[trigger] ring_ok(
        l,
        s2,
        x,
    ) by {
        lemma_splice_ring(l, st, q, x);
    }
    assert forall|x: int| 0 <= x < l.size() && in_list(l, s2, x) implies #[trigger] gap_ok(
        l,
        s2,
        x,
    ) by {
        lemma_splice_ring(l, st, q, x);
    }
}

/// Putting back the cell that was taken out last gives the state before.
pub proof fn lemma_unsplice_splice(l: Layout, st: State, q: int)
    requires
        l.wf(),
        fixed_ok(l, st),
        cols_ok(l, st),
        l.is_cell(q),
        st.linked[q],
    ensures
        unsplice(splice(st, q), q) == st,
{
    let s2 = splice(st, q);
    let s3 = unsplice(s2, q);
    let u = st.nodes[q].up as int;
    let d = st.nodes[q].down as int;
    lemma_cell_facts(l, q);
    lemma_splice_keeps(l, st, q);
    assert(in_list(l, st, q));
    assert(ring_ok(l, st, q));
    assert(in_list(l, st, u));
    assert(in_list(l, st, d));
    assert(ring_ok(l, st, u));
    assert(ring_ok(l, st, d));
    assert(u != q && d != q);
    assert(s3.nodes =~= st.nodes);
    assert(s3.items =~= st.items);
    assert(s3.linked =~= st.linked);
}

/// Takes the given cells out of their columns, first to last.
pub open spec fn hide_cells(st: State, cells: Seq<int>) -> State
    decreases cells.len(),
{
    if cells.len() == 0 {
        st
    } else {
        splice(hide_cells(st, cells.drop_last()), cells.last())
    }
}

/// Puts the given cells back into their columns, last to first.
pub open spec fn unhide_cells(st: State, cells: Seq<int>) -> State
    decreases cells.len(),
{
    if cells.len() == 0 {
        st
    } else {
        unhide_cells(unsplice(st, cells.last()), cells.drop_last())
    }
}

/// Distinct cells, all of them threaded.
pub open spec fn cells_ready(l: Layout, st: State, cells: Seq<int>) -> bool {
    &&& cells.no_duplicates()
    &&& forall|t: int|
        0 <= t < cells.len() ==> l.is_cell(#[trigger] cells[t]) && st.linked[cells[t]]
}

/// Taking distinct threaded cells out keeps every column sound and unthreads
/// exactly those cells.
pub proof fn lemma_hide_cells_keeps(l: Layout, st: State, cells: Seq<int>)
    requires
        l.wf(),
        fixed_ok(l, st),
        cols_ok(l, st),
        cells_ready(l, st, cells),
    ensures
        fixed_ok(l, hide_cells(st, cells)),
        cols_ok(l, hide_cells(st, cells)),
        hide_cells(st, cells).cov == st.cov,
        sides_same(st, hide_cells(st, cells)),
        forall|x: int|
            0 <= x < l.size() ==> #[trigger] hide_cells(st, cells).linked[x] == (st.linked[x]
                && !cells.contains(x)),
    decreases cells.len(),
{
    if cells.len() > 0 {
        let front = cells.drop_last();
        let q = cells.last();
        let mid = hide_cells(st, front);
        assert forall|t: int| 0 <= t < front.len() implies l.is_cell(#[trigger] front[t])
            && st.linked[front[t]] by {
            assert(front[t] == cells[t]);
        }
        lemma_hide_cells_keeps(l, st, front);
        assert(!front.contains(q)) by {
            if front.contains(q) {
                let t = choose|t: int| 0 <= t < front.len() && front[t] == q;
                assert(cells[t] == cells[cells.len() - 1]);
            }
        }
        assert(l.is_cell(cells[cells.len() - 1]));
        assert(mid.linked[q]);
        lemma_splice_keeps(l, mid, q);
        assert forall|x: int| 0 <= x < l.size() implies #[trigger] hide_cells(
            st,
            cells,
        ).linked[x] == (st.linked[x] && !cells.contains(x)) by {
            assert(mid.linked[x] == (st.linked[x] && !front.contains(x)));
            if x == q {
                assert(cells[cells.len() - 1] == x);
            } else {
                if front.contains(x) {
                    let t = choose|t: int| 0 <= t < front.len() && front[t] == x;
                    assert(cells[t] == x);
                }
                if cells.contains(x) {
                    let t = choose|t: int| 0 <= t < cells.len() && cells[t] == x;
                    assert(front[t] == x);
                }
            }
        }
    }
}

/// Putting the cells back in reverse order undoes taking them out.
pub proof fn lemma_unhide_hide_cells(l: Layout, st: State, cells: Seq<int>)
    requires
        l.wf(),
        fixed_ok(l, st),
        cols_ok(l, st),
        cells_ready(l, st, cells),
    ensures
        unhide_cells(hide_cells(st, cells), cells) == st,
    decreases cells.len(),
{
    if cells.len() > 0 {
        let front = cells.drop_last();
        let q = cells.last();
        let mid = hide_cells(st, front);
        assert forall|t: int| 0 <= t < front.len() implies l.is_cell(#[trigger] front[t])
            && st.linked[front[t]] by {
            assert(front[t] == cells[t]);
        }
        lemma_hide_cells_keeps(l, st, front);
        assert(!front.contains(q)) by {
            if front.contains(q) {
                let t = choose|t: int| 0 <= t < front.len() && front[t] == q;
                assert(cells[t] == cells[cells.len() - 1]);
            }
        }
        assert(l.is_cell(cells[cells.len() - 1]));
        assert(mid.linked[q]);
        lemma_unsplice_splice(l, mid, q);
        lemma_unhide_hide_cells(l, st, front);
    }
}

/// Taking out `a` and then `b` is taking out `a + b`.
pub proof fn lemma_hide_cells_concat(st: State, a: Seq<int>, b: Seq<int>)
    ensures
        hide_cells(st, a + b) == hide_cells(hide_cells(st, a), b),
    decreases b.len(),
{
    if b.len() == 0 {
        assert(a + b =~= a);
    } else {
        lemma_hide_cells_concat(st, a, b.drop_last());
        assert((a + b).drop_last() =~= a + b.drop_last());
        assert((a + b).last() == b.last());
    }
}

/// Whether `j` takes part in a horizontal ring: the two sentinels always
/// do, an item does while it is not covered.
pub open spec fn h_in(l: Layout, st: State, j: int) -> bool {
    j == 0 || j == l.count + 1 || (1 <= j <= l.count && !st.cov.contains(j))
}

/// The primary items and the root form one ring, the secondary items and
/// the trailing sentinel another.
pub open spec fn same_ring(l: Layout, a: int, b: int) -> bool {
    (a <= l.primary) == (b <= l.primary)
}

/// Up to where no uncovered primary item follows `j` in the root's ring.
pub open spec fn h_reach(l: Layout, st: State, j: int) -> int {
    let r = st.items[j].right as int;
    if r == 0 {
        l.primary + 1
    } else {
        r
    }
}

/// No uncovered item lies between `j` and its right neighbour.
pub open spec fn h_gap(l: Layout, st: State, j: int) -> bool {
    forall|k: int| j < k < h_reach(l, st, j) ==> #[trigger] st.cov.contains(k)
}

/// `j` and its two horizontal neighbours agree about each other, stay in one
/// ring and keep the order of the items; in the root's ring no uncovered
/// item lies between `j` and its right neighbour.
pub open spec fn h_ok(l: Layout, st: State, j: int) -> bool {
    let a = st.items[j].left as int;
    let b = st.items[j].right as int;
    &&& h_in(l, st, a)
    &&& h_in(l, st, b)
    &&& same_ring(l, j, a)
    &&& same_ring(l, j, b)
    &&& st.items[a].right == j
    &&& st.items[b].left == j
    &&& (j < b || b == 0 || j == l.count + 1)
    &&& (j <= l.primary ==> h_gap(l, st, j))
}

/// Both horizontal rings are sound.
pub open spec fn rings_ok(l: Layout, st: State) -> bool {
    &&& forall|j: int| 0 <= j < l.count + 2 ==> (#[trigger] st.items[j]).left < l.count + 2
    &&& forall|j: int| 0 <= j < l.count + 2 ==> (#[trigger] st.items[j]).right < l.count + 2
    &&& forall|j: int| 0 <= j < l.count + 2 && h_in(l, st, j) ==> #[trigger] h_ok(l, st, j)
}

/// The covered items are distinct items.
pub open spec fn cov_ok(l: Layout, st: State) -> bool {
    &&& st.cov.no_duplicates()
    &&& forall|k: int| 0 <= k < st.cov.len() ==> 1 <= #[trigger] st.cov[k] <= l.count
}

/// Takes item `i` out of its horizontal ring and records it as covered.
pub open spec fn h_splice(st: State, i: int) -> State {
    let a = st.items[i].left as int;
    let b = st.items[i].right as int;
    let i1 = st.items.update(a, Record { right: b as usize, ..st.items[a] });
    let i2 = i1.update(b, Record { left: a as usize, ..i1[b] });
    State { items: i2, nodes: st.nodes, linked: st.linked, cov: st.cov.push(i) }
}

/// Puts item `i` back between the neighbours it remembers and forgets the
/// last covering.
pub open spec fn h_unsplice(st: State, i: int) -> State {
    let a = st.items[i].left as int;
    let b = st.items[i].right as int;
    let i1 = st.items.update(a, Record { right: i as usize, ..st.items[a] });
    let i2 = i1.update(b, Record { left: i as usize, ..i1[b] });
    State { items: i2, nodes: st.nodes, linked: st.linked, cov: st.cov.drop_last() }
}

/// An uncovered item has two neighbours other than itself, sound ones.
pub proof fn lemma_h_neighbours(l: Layout, st: State, i: int)
    requires
        l.wf(),
        st.items.len() == l.count + 2,
        rings_ok(l, st),
        cov_ok(l, st),
        1 <= i <= l.count,
        !st.cov.contains(i),
    ensures
        st.items[i].left != i,
        st.items[i].right != i,
        0 <= st.items[i].left < l.count + 2,
        0 <= st.items[i].right < l.count + 2,
        h_ok(l, st, i),
        h_ok(l, st, st.items[i].left as int),
        h_ok(l, st, st.items[i].right as int),
{
    let a = st.items[i].left as int;
    let b = st.items[i].right as int;
    assert(h_in(l, st, i));
    assert(h_ok(l, st, i));
    assert(h_in(l, st, a));
    assert(h_in(l, st, b));
    assert(h_ok(l, st, a));
    assert(h_ok(l, st, b));
}

/// What a sequence holds after one more element was pushed.
pub proof fn lemma_push_contains(c: Seq<int>, i: int)
    ensures
        forall|k: int| #[trigger] c.push(i).contains(k) <==> (c.contains(k) || k == i),
{
    assert forall|k: int| #[trigger] c.push(i).contains(k) <==> (c.contains(k) || k == i) by {
        if c.contains(k) {
            let t = choose|t: int| 0 <= t < c.len() && c[t] == k;
            assert(c.push(i)[t] == k);
        }
        if k == i {
            assert(c.push(i)[c.len() as int] == i);
        }
        if c.push(i).contains(k) {
            let t = choose|t: int| 0 <= t < c.push(i).len() && c.push(i)[t] == k;
            if t < c.len() {
                assert(c[t] == k);
            }
        }
    }
}

/// Taking an item out of the root's ring leaves no uncovered item between
/// the neighbours that are joined.
proof fn lemma_h_splice_gap(l: Layout, st: State, i: int, j: int)
    requires
        l.wf(),
        st.items.len() == l.count + 2,
        rings_ok(l, st),
        cov_ok(l, st),
        1 <= i <= l.count,
        !st.cov.contains(i),
        0 <= j < l.count + 2,
        j != i,
        h_in(l, st, j),
        j <= l.primary,
    ensures
        h_gap(l, h_splice(st, i), j),
{
    let s2 = h_splice(st, i);
    let a = st.items[i].left as int;
    let b = st.items[i].right as int;
    lemma_h_neighbours(l, st, i);
    lemma_push_contains(st.cov, i);
    assert(h_ok(l, st, j));
    assert(h_gap(l, st, j));
    let jb = st.items[j].right as int;
    assert(h_in(l, st, jb));
    if j == a {
        assert(s2.items[j].right == b);
        assert(h_gap(l, st, i));
        assert forall|k: int| j < k < h_reach(l, s2, j) implies #[trigger] s2.cov.contains(k) by {
            if k < i {
                assert(st.cov.contains(k));
            } else if k > i {
                assert(st.cov.contains(k));
            }
        }
    } else {
        assert(jb != i);
        assert(s2.items[j].right == jb);
        assert forall|k: int| j < k < h_reach(l, s2, j) implies #[trigger] s2.cov.contains(k) by {
            assert(st.cov.contains(k));
        }
    }
}

/// Taking an item out of its ring keeps every other member sound.
#[verifier::rlimit(40)]
proof fn lemma_h_splice_one(l: Layout, st: State, i: int, j: int)
    requires
        l.wf(),
        st.items.len() == l.count + 2,
        rings_ok(l, st),
        cov_ok(l, st),
        1 <= i <= l.count,
        !st.cov.contains(i),
        0 <= j < l.count + 2,
        h_in(l, h_splice(st, i), j),
    ensures
        h_ok(l, h_splice(st, i), j),
{
    let s2 = h_splice(st, i);
    let a = st.items[i].left as int;
    let b = st.items[i].right as int;
    lemma_h_neighbours(l, st, i);
    lemma_push_contains(st.cov, i);
    assert(j != i);
    assert(h_in(l, st, j));
    assert(h_ok(l, st, j));
    let ja = st.items[j].left as int;
    let jb = st.items[j].right as int;
    assert(h_in(l, st, ja));
    assert(h_in(l, st, jb));
    if j == a {
        assert(s2.items[j].right == b);
    } else {
        assert(jb != i);
        assert(s2.items[j].right == jb);
    }
    if j == b {
        assert(s2.items[j].left == a);
    } else {
        assert(ja != i);
        assert(s2.items[j].left == ja);
    }
    if j <= l.primary {
        lemma_h_splice_gap(l, st, i, j);
    }
}

/// Taking an uncovered item out of its ring keeps both rings sound.
pub proof fn lemma_h_splice_keeps(l: Layout, st: State, i: int)
    requires
        l.wf(),
        st.items.len() == l.count + 2,
        rings_ok(l, st),
        cov_ok(l, st),
        1 <= i <= l.count,
        !st.cov.contains(i),
    ensures
        rings_ok(l, h_splice(st, i)),
        cov_ok(l, h_splice(st, i)),
        h_unsplice(h_splice(st, i), i) == st,
{
    let s2 = h_splice(st, i);
    let s3 = h_unsplice(s2, i);
    lemma_h_neighbours(l, st, i);
    assert forall|j: int| 0 <= j < l.count + 2 && h_in(l, s2, j) implies #[trigger] h_ok(
        l,
        s2,
        j,
    ) by {
        lemma_h_splice_one(l, st, i, j);
    }
    assert forall|j: int| 0 <= j < l.count + 2 implies (#[trigger] s2.items[j]).left < l.count
        + 2 by {
        assert(st.items[j].left < l.count + 2);
    }
    assert forall|j: int| 0 <= j < l.count + 2 implies (#[trigger] s2.items[j]).right < l.count
        + 2 by {
        assert(st.items[j].right < l.count + 2);
    }
    assert(s3.items =~= st.items);
    assert(s3.cov =~= st.cov);
    assert(s2.cov.no_duplicates()) by {
        assert forall|x: int, y: int|
            0 <= x < s2.cov.len() && 0 <= y < s2.cov.len() && x != y implies s2.cov[x]
            != s2.cov[y] by {
            if x < st.cov.len() {
                assert(st.cov[x] == s2.cov[x]);
            }
            if y < st.cov.len() {
                assert(st.cov[y] == s2.cov[y]);
            }
        }
    }
}

/// Index of the first covering that touches option `o`, or the number of
/// coverings when none does.
pub open spec fn hit(l: Layout, cov: Seq<int>, o: int) -> int
    decreases cov.len(),
{
    if cov.len() == 0 {
        0
    } else {
        let h = hit(l, cov.drop_last(), o);
        if h < cov.len() - 1 {
            h
        } else if l.options[o].contains(cov.last()) {
            cov.len() - 1
        } else {
            cov.len() as int
        }
    }
}

/// Option `o` names no covered item.
pub open spec fn live(l: Layout, cov: Seq<int>, o: int) -> bool {
    hit(l, cov, o) == cov.len()
}

/// Whether cell `x` is threaded once the items of `cov` are covered in that
/// order: its option is untouched, or was first touched through the column
/// of `x` itself.
pub open spec fn cell_linked(l: Layout, cov: Seq<int>, x: int) -> bool {
    let h = hit(l, cov, l.rows[x]);
    h == cov.len() || cov[h] == l.top(x)
}

/// The thread flags are those that the coverings call for.
pub open spec fn links_ok(l: Layout, st: State) -> bool {
    forall|x: int| l.is_cell(x) ==> #[trigger] st.linked[x] == cell_linked(l, st.cov, x)
}

/// What holds of the structure between any two coverings.
pub open spec fn inv(l: Layout, st: State) -> bool {
    &&& fixed_ok(l, st)
    &&& cols_ok(l, st)
    &&& rings_ok(l, st)
    &&& cov_ok(l, st)
    &&& links_ok(l, st)
}

/// The first covering that touches an option is a covering of one of its
/// items, and none before it is.
pub proof fn lemma_hit_facts(l: Layout, cov: Seq<int>, o: int)
    ensures
        0 <= hit(l, cov, o) <= cov.len(),
        hit(l, cov, o) < cov.len() ==> l.options[o].contains(cov[hit(l, cov, o)]),
        forall|k: int| 0 <= k < hit(l, cov, o) ==> !l.options[o].contains(#[trigger] cov[k]),
    decreases cov.len(),
{
    if cov.len() > 0 {
        let front = cov.drop_last();
        lemma_hit_facts(l, front, o);
        assert forall|k: int| 0 <= k < hit(l, cov, o) implies !l.options[o].contains(
            #[trigger] cov[k],
        ) by {
            if k < front.len() {
                assert(front[k] == cov[k]);
            }
        }
        if hit(l, front, o) < front.len() {
            assert(front[hit(l, front, o)] == cov[hit(l, front, o)]);
        }
    }
}

/// What one more covering does to the first covering that touches an
/// option.
pub proof fn lemma_hit_push(l: Layout, cov: Seq<int>, i: int, o: int)
    ensures
        hit(l, cov.push(i), o) == if hit(l, cov, o) < cov.len() {
            hit(l, cov, o)
        } else if l.options[o].contains(i) {
            cov.len() as int
        } else {
            cov.len() as int + 1
        },
{
    lemma_hit_facts(l, cov, o);
    assert(cov.push(i).drop_last() =~= cov);
}

/// An untouched option names no covered item, and the other way round.
pub proof fn lemma_live_items(l: Layout, cov: Seq<int>, o: int)
    ensures
        live(l, cov, o) <==> forall|t: int|
            #[trigger] cov.contains(t) ==> !l.options[o].contains(t),
{
    lemma_hit_facts(l, cov, o);
    if live(l, cov, o) {
        assert forall|t: int| #[trigger] cov.contains(t) implies !l.options[o].contains(t) by {
            let k = choose|k: int| 0 <= k < cov.len() && cov[k] == t;
            assert(!l.options[o].contains(cov[k]));
        }
    } else {
        let h = hit(l, cov, o);
        assert(cov.contains(cov[h]));
    }
}

/// The cells that a covering of the column with the threaded cells `rows`
/// takes out: for each of them, the other cells of its option.
pub open spec fn row_cells(l: Layout, rows: Seq<int>) -> Seq<int>
    decreases rows.len(),
{
    if rows.len() == 0 {
        Seq::empty()
    } else {
        row_cells(l, rows.drop_last()) + l.others(rows.last())
    }
}

/// The cells that covering item `i` takes out of their columns.
pub open spec fn cover_cells(l: Layout, st: State, i: int) -> Seq<int> {
    row_cells(l, col_cells(l, st, i, l.size()))
}

/// The state after item `i` was covered.
pub open spec fn cover_state(l: Layout, st: State, i: int) -> State {
    h_splice(hide_cells(st, cover_cells(l, st, i)), i)
}

/// The state after item `i`, covered last, was uncovered.
pub open spec fn uncover_state(l: Layout, st: State, i: int) -> State {
    unhide_cells(h_unsplice(st, i), cover_cells(l, st, i))
}

/// The other cells of the option of `p` are the cells of its block
/// without `p`, each once.
pub proof fn lemma_others_member(l: Layout, p: int, x: int)
    requires
        l.wf(),
        l.is_cell(p),
    ensures
        l.others(p).contains(x) <==> (l.first(p) <= x < l.close(p) && x != p),
        l.others(p).no_duplicates(),
        l.others(p).len() == l.options[l.rows[p]].len() - 1,
{
    lemma_cell_facts(l, p);
    let len = l.options[l.rows[p]].len() as int;
    let s = l.others(p);
    if l.first(p) <= x < l.close(p) && x != p {
        let t = if x > p {
            x - p - 1
        } else {
            x - p - 1 + len
        };
        assert(s[t] == x);
    }
}

/// The list of a column below a position holds exactly the threaded
/// cells of the column below that position.
pub proof fn lemma_col_cells_member(l: Layout, st: State, j: int, k: int, x: int)
    ensures
        col_cells(l, st, j, k).contains(x) <==> (0 <= x < k && l.is_cell(x) && l.top(x) == j
            && st.linked[x]),
    decreases k,
{
    if k > 0 {
        lemma_col_cells_member(l, st, j, k - 1, x);
        let r = col_cells(l, st, j, k - 1);
        if l.is_cell(k - 1) && l.top(k - 1) == j && st.linked[k - 1] {
            lemma_push_contains(r, k - 1);
        }
    }
}

/// Two cells of one option that name the same item are one cell.
pub proof fn lemma_one_cell_per_item(l: Layout, x: int, y: int)
    requires
        l.wf(),
        l.is_cell(x),
        l.is_cell(y),
        l.rows[x] == l.rows[y],
        l.top(x) == l.top(y),
    ensures
        x == y,
{
    let o = l.rows[x];
    assert(l.options[o].no_duplicates());
}

/// An option names an item exactly if one of its cells carries it.
pub proof fn lemma_item_cell(l: Layout, o: int, i: int)
    requires
        l.wf(),
        0 <= o < l.options.len(),
    ensures
        l.options[o].contains(i) <==> exists|x: int|
            l.is_cell(x) && #[trigger] l.rows[x] == o && l.top(x) == i,
{
    if l.options[o].contains(i) {
        let k = choose|k: int| 0 <= k < l.options[o].len() && l.options[o][k] == i;
        let x = l.at(o, k);
        assert(l.rows[x] == o);
        assert(l.is_cell(x) && l.rows[x] == o && l.top(x) == i);
    }
    if exists|x: int| l.is_cell(x) && #[trigger] l.rows[x] == o && l.top(x) == i {
        let x = choose|x: int| l.is_cell(x) && #[trigger] l.rows[x] == o && l.top(x) == i;
        assert(l.options[o][x - l.starts[o]] == i);
    }
}

/// Cells of pairwise different options.
pub open spec fn apart(l: Layout, rows: Seq<int>) -> bool {
    &&& forall|t: int| 0 <= t < rows.len() ==> l.is_cell(#[trigger] rows[t])
    &&& forall|t: int, u: int|
        0 <= t < rows.len() && 0 <= u < rows.len() && t != u ==> l.rows[#[trigger] rows[t]]
            != l.rows[#[trigger] rows[u]]
}

/// The cells of a column lie in pairwise different options.
pub proof fn lemma_col_cells_apart(l: Layout, st: State, j: int, k: int)
    requires
        l.wf(),
    ensures
        apart(l, col_cells(l, st, j, k)),
    decreases k,
{
    if k > 0 {
        lemma_col_cells_apart(l, st, j, k - 1);
        lemma_col_cells_bound(l, st, j, k - 1);
        let r = col_cells(l, st, j, k - 1);
        let c = col_cells(l, st, j, k);
        if l.is_cell(k - 1) && l.top(k - 1) == j && st.linked[k - 1] {
            assert forall|t: int, u: int|
                0 <= t < c.len() && 0 <= u < c.len() && t != u implies l.rows[#[trigger] c[t]]
                != l.rows[#[trigger] c[u]] by {
                if t < r.len() && u < r.len() {
                    assert(c[t] == r[t] && c[u] == r[u]);
                } else if t < r.len() {
                    assert(c[t] == r[t]);
                    if l.rows[c[t]] == l.rows[c[u]] {
                        lemma_one_cell_per_item(l, c[t], c[u]);
                    }
                } else {
                    assert(c[u] == r[u]);
                    if l.rows[c[t]] == l.rows[c[u]] {
                        lemma_one_cell_per_item(l, c[t], c[u]);
                    }
                }
            }
            assert forall|t: int| 0 <= t < c.len() implies l.is_cell(#[trigger] c[t]) by {
                if t < r.len() {
                    assert(c[t] == r[t]);
                }
            }
        }
    }
}

/// What a covering takes out are the cells that share an option with a
/// threaded cell of the column.
pub proof fn lemma_row_cells_member(l: Layout, rows: Seq<int>, x: int)
    requires
        l.wf(),
        apart(l, rows),
    ensures
        row_cells(l, rows).contains(x) <==> exists|t: int|
            0 <= t < rows.len() && l.first(#[trigger] rows[t]) <= x < l.close(rows[t]) && x
                != rows[t],
    decreases rows.len(),
{
    if rows.len() > 0 {
        let front = rows.drop_last();
        let p = rows.last();
        assert(apart(l, front)) by {
            assert forall|t: int| 0 <= t < front.len() implies l.is_cell(#[trigger] front[t]) by {
                assert(front[t] == rows[t]);
            }
            assert forall|t: int, u: int|
                0 <= t < front.len() && 0 <= u < front.len() && t
                    != u implies l.rows[#[trigger] front[t]]
                != l.rows[#[trigger] front[u]] by {
                assert(front[t] == rows[t] && front[u] == rows[u]);
            }
        }
        lemma_row_cells_member(l, front, x);
        assert(l.is_cell(rows[rows.len() - 1]));
        lemma_others_member(l, p, x);
        let a = row_cells(l, front);
        let b = l.others(p);
        if (a + b).contains(x) {
            let t = choose|t: int| 0 <= t < (a + b).len() && (a + b)[t] == x;
            if t < a.len() {
                assert(a[t] == x);
                assert(a.contains(x));
                let u = choose|u: int|
                    0 <= u < front.len() && l.first(#[trigger] front[u]) <= x < l.close(front[u])
                        && x != front[u];
                assert(rows[u] == front[u]);
            } else {
                assert(b[t - a.len()] == x);
                assert(b.contains(x));
                assert(rows[rows.len() - 1] == p);
            }
        }
        if exists|t: int|
            0 <= t < rows.len() && l.first(#[trigger] rows[t]) <= x < l.close(rows[t]) && x
                != rows[t] {
            let t = choose|t: int|
                0 <= t < rows.len() && l.first(#[trigger] rows[t]) <= x < l.close(rows[t]) && x
                    != rows[t];
            if t < front.len() {
                assert(front[t] == rows[t]);
                assert(a.contains(x));
                let u = choose|u: int| 0 <= u < a.len() && a[u] == x;
                assert((a + b)[u] == x);
            } else {
                assert(b.contains(x));
                let u = choose|u: int| 0 <= u < b.len() && b[u] == x;
                assert((a + b)[a.len() + u] == x);
            }
        }
    }
}

/// A position inside the block of cell `p` is a cell of the same option.
pub proof fn lemma_block(l: Layout, p: int, x: int)
    requires
        l.wf(),
        l.is_cell(p),
        l.first(p) <= x < l.close(p),
    ensures
        l.is_cell(x),
        l.rows[x] == l.rows[p],
{
    lemma_cell_facts(l, p);
    let o = l.rows[p];
    assert(l.at(o, x - l.starts[o]) == x);
}

/// What a covering takes out are cells, each once.
pub proof fn lemma_row_cells_no_dup(l: Layout, rows: Seq<int>)
    requires
        l.wf(),
        apart(l, rows),
    ensures
        row_cells(l, rows).no_duplicates(),
        forall|t: int|
            0 <= t < row_cells(l, rows).len() ==> l.is_cell(#[trigger] row_cells(l, rows)[t]),
    decreases rows.len(),
{
    if rows.len() > 0 {
        let front = rows.drop_last();
        let p = rows.last();
        assert(apart(l, front)) by {
            assert forall|t: int| 0 <= t < front.len() implies l.is_cell(#[trigger] front[t]) by {
                assert(front[t] == rows[t]);
            }
            assert forall|t: int, u: int|
                0 <= t < front.len() && 0 <= u < front.len() && t
                    != u implies l.rows[#[trigger] front[t]]
                != l.rows[#[trigger] front[u]] by {
                assert(front[t] == rows[t] && front[u] == rows[u]);
            }
        }
        lemma_row_cells_no_dup(l, front);
        assert(l.is_cell(rows[rows.len() - 1]));
        let a = row_cells(l, front);
        let b = l.others(p);
        let c = a + b;
        lemma_others_member(l, p, 0);
        assert forall|t: int| 0 <= t < c.len() implies l.is_cell(#[trigger] c[t]) && (t
            >= a.len() ==> l.rows[c[t]] == l.rows[p]) by {
            if t < a.len() {
                assert(c[t] == a[t]);
            } else {
                assert(c[t] == b[t - a.len()]);
                assert(b.contains(c[t]));
                lemma_others_member(l, p, c[t]);
                lemma_block(l, p, c[t]);
            }
        }
        assert forall|t: int, u: int| 0 <= t < c.len() && 0 <= u < c.len() && t != u implies c[t]
            != c[u] by {
            if t < a.len() && u < a.len() {
                assert(c[t] == a[t] && c[u] == a[u]);
            } else if t >= a.len() && u >= a.len() {
                assert(c[t] == b[t - a.len()] && c[u] == b[u - a.len()]);
            } else {
                let (ta, tb) = if t < a.len() {
                    (t, u)
                } else {
                    (u, t)
                };
                assert(c[ta] == a[ta]);
                assert(a.contains(c[ta]));
                lemma_row_cells_member(l, front, c[ta]);
                let w = choose|w: int|
                    0 <= w < front.len() && l.first(#[trigger] front[w]) <= c[ta] < l.close(
                        front[w],
                    ) && c[ta] != front[w];
                assert(front[w] == rows[w]);
                lemma_block(l, front[w], c[ta]);
                assert(l.rows[c[tb]] == l.rows[p]);
                assert(l.rows[rows[w]] != l.rows[rows[rows.len() - 1]]);
            }
        }
    }
}

/// When an uncovered item is about to be covered, the cells that the
/// covering takes out are distinct, threaded, and none lies in the item's
/// own column.
pub proof fn lemma_cover_ready(l: Layout, st: State, i: int)
    requires
        l.wf(),
        inv(l, st),
        1 <= i <= l.count,
        !st.cov.contains(i),
    ensures
        cells_ready(l, st, cover_cells(l, st, i)),
        forall|t: int|
            0 <= t < cover_cells(l, st, i).len() ==> l.top(#[trigger] cover_cells(l, st, i)[t])
                != i,
{
    let rows = col_cells(l, st, i, l.size());
    let cells = cover_cells(l, st, i);
    lemma_col_cells_apart(l, st, i, l.size());
    lemma_row_cells_no_dup(l, rows);
    assert forall|t: int| 0 <= t < cells.len() implies st.linked[#[trigger] cells[t]] && l.top(
        cells[t],
    ) != i by {
        let x = cells[t];
        assert(cells.contains(x));
        lemma_row_cells_member(l, rows, x);
        let w = choose|w: int|
            0 <= w < rows.len() && l.first(#[trigger] rows[w]) <= x < l.close(rows[w]) && x
                != rows[w];
        let p = rows[w];
        assert(rows.contains(p));
        lemma_col_cells_member(l, st, i, l.size(), p);
        lemma_block(l, p, x);
        lemma_hit_facts(l, st.cov, l.rows[p]);
        assert(st.linked[p] == cell_linked(l, st.cov, p));
        let h = hit(l, st.cov, l.rows[p]);
        if h < st.cov.len() {
            assert(st.cov.contains(st.cov[h]));
        }
        assert(st.linked[x] == cell_linked(l, st.cov, x));
        if l.top(x) == i {
            lemma_one_cell_per_item(l, x, p);
        }
    }
}

/// After a covering each cell is threaded exactly as the longer list of
/// coverings calls for.
proof fn lemma_cover_links(l: Layout, st: State, i: int, x: int)
    requires
        l.wf(),
        inv(l, st),
        1 <= i <= l.count,
        !st.cov.contains(i),
        l.is_cell(x),
    ensures
        (st.linked[x] && !cover_cells(l, st, i).contains(x)) == cell_linked(
            l,
            st.cov.push(i),
            x,
        ),
{
    let rows = col_cells(l, st, i, l.size());
    let cells = cover_cells(l, st, i);
    let o = l.rows[x];
    let h = hit(l, st.cov, o);
    let cov2 = st.cov.push(i);
    lemma_cell_facts(l, x);
    lemma_col_cells_apart(l, st, i, l.size());
    lemma_row_cells_member(l, rows, x);
    lemma_hit_facts(l, st.cov, o);
    lemma_hit_push(l, st.cov, i, o);
    assert(st.linked[x] == cell_linked(l, st.cov, x));
    if cells.contains(x) {
        let w = choose|w: int|
            0 <= w < rows.len() && l.first(#[trigger] rows[w]) <= x < l.close(rows[w]) && x
                != rows[w];
        let p = rows[w];
        assert(rows.contains(p));
        lemma_col_cells_member(l, st, i, l.size(), p);
        lemma_block(l, p, x);
        assert(st.linked[p] == cell_linked(l, st.cov, p));
        if h < st.cov.len() {
            assert(st.cov.contains(st.cov[h]));
        }
        lemma_item_cell(l, o, i);
        if l.top(x) == i {
            lemma_one_cell_per_item(l, x, p);
        }
        assert(l.options[o].contains(i));
        assert(cov2[h] == i);
    } else {
        if h < st.cov.len() {
            assert(cov2[h] == st.cov[h]);
        } else if l.options[o].contains(i) {
            lemma_item_cell(l, o, i);
            let p = choose|p: int| l.is_cell(p) && #[trigger] l.rows[p] == o && l.top(p) == i;
            assert(st.linked[p] == cell_linked(l, st.cov, p));
            lemma_col_cells_member(l, st, i, l.size(), p);
            let w = choose|w: int| 0 <= w < rows.len() && rows[w] == p;
            lemma_cell_facts(l, p);
            if x != p {
                assert(l.first(rows[w]) <= x < l.close(rows[w]) && x != rows[w]);
            }
            assert(x == p);
            assert(cov2[h] == i);
        }
    }
}

/// Where two states agree on the horizontal links and on what is covered,
/// sound rings in one are sound rings in the other.
pub proof fn lemma_rings_same(l: Layout, a: State, b: State)
    requires
        rings_ok(l, a),
        sides_same(a, b),
        a.cov == b.cov,
        a.items.len() == l.count + 2,
    ensures
        rings_ok(l, b),
{
    assert forall|j: int| 0 <= j < l.count + 2 && h_in(l, b, j) implies #[trigger] h_ok(
        l,
        b,
        j,
    ) by {
        assert(h_in(l, a, j));
        assert(h_ok(l, a, j));
        if j <= l.primary {
            assert(h_gap(l, a, j));
            assert forall|k: int| j < k < h_reach(l, b, j) implies #[trigger] b.cov.contains(k) by {
                assert(a.cov.contains(k));
            }
        }
    }
    assert forall|j: int| 0 <= j < l.count + 2 implies (#[trigger] b.items[j]).left < l.count
        + 2 by {
        assert(a.items[j].left < l.count + 2);
    }
    assert forall|j: int| 0 <= j < l.count + 2 implies (#[trigger] b.items[j]).right < l.count
        + 2 by {
        assert(a.items[j].right < l.count + 2);
    }
}

/// Where two states agree on the arena, on the thread flags and on the
/// counts, sound columns in one are sound columns in the other.
pub proof fn lemma_cols_same(l: Layout, a: State, b: State)
    requires
        0 <= l.count,
        fixed_ok(l, a),
        cols_ok(l, a),
        a.nodes == b.nodes,
        a.linked == b.linked,
        a.items.len() == b.items.len(),
        forall|j: int|
            0 <= j < a.items.len() ==> (#[trigger] b.items[j]).length == a.items[j].length
                && b.items[j].name == a.items[j].name,
    ensures
        fixed_ok(l, b),
        cols_ok(l, b),
{
    assert forall|j: int| 0 <= j < l.count + 2 implies name_ok(
        l,
        j,
        (#[trigger] b.items[j]).name,
    ) by {
        assert(name_ok(l, j, a.items[j].name));
    }
    assert(b.items[0].length == a.items[0].length);
    assert(b.items[l.count + 1].length == a.items[l.count + 1].length);
    assert forall|x: int| 0 <= x < l.size() && in_list(l, b, x) implies #[trigger] ring_ok(
        l,
        b,
        x,
    ) by {
        assert(ring_ok(l, a, x));
    }
    assert forall|x: int| 0 <= x < l.size() && in_list(l, b, x) implies #[trigger] gap_ok(
        l,
        b,
        x,
    ) by {
        assert(gap_ok(l, a, x));
    }
    assert forall|j: int| 1 <= j <= l.count implies (#[trigger] b.items[j]).length == col_cells(
        l,
        b,
        j,
        l.size(),
    ).len() by {
        assert(a.items[j].length == col_cells(l, a, j, l.size()).len());
        lemma_col_cells_same(l, a, b, j, l.size());
    }
}

/// Covering an uncovered item keeps the structure sound, and leaves the
/// item's own column as it was.
pub proof fn lemma_cover_keeps(l: Layout, st: State, i: int)
    requires
        l.wf(),
        inv(l, st),
        1 <= i <= l.count,
        !st.cov.contains(i),
    ensures
        inv(l, cover_state(l, st, i)),
        cover_state(l, st, i).cov == st.cov.push(i),
        col_cells(l, cover_state(l, st, i), i, l.size()) == col_cells(l, st, i, l.size()),
{
    let cells = cover_cells(l, st, i);
    let mid = hide_cells(st, cells);
    let s2 = cover_state(l, st, i);
    lemma_cover_ready(l, st, i);
    lemma_hide_cells_keeps(l, st, cells);
    lemma_rings_same(l, st, mid);
    lemma_h_splice_keeps(l, mid, i);
    lemma_h_neighbours(l, mid, i);
    lemma_cols_same(l, mid, s2);
    assert forall|x: int| l.is_cell(x) implies #[trigger] s2.linked[x] == cell_linked(
        l,
        s2.cov,
        x,
    ) by {
        lemma_cover_links(l, st, i, x);
    }
    assert forall|x: int| 0 <= x < l.size() && l.is_cell(x) && l.top(x) == i implies st.linked[x]
        == s2.linked[x] by {
        if cells.contains(x) {
            let t = choose|t: int| 0 <= t < cells.len() && cells[t] == x;
            assert(l.top(cells[t]) != i);
        }
    }
    lemma_col_cells_same(l, st, s2, i, l.size());
}

/// Uncovering the item that was covered last restores every link and every
/// count to what it was before that covering.
pub proof fn lemma_uncover_cover(l: Layout, st: State, i: int)
    requires
        l.wf(),
        inv(l, st),
        1 <= i <= l.count,
        !st.cov.contains(i),
    ensures
        uncover_state(l, cover_state(l, st, i), i) == st,
{
    let cells = cover_cells(l, st, i);
    let mid = hide_cells(st, cells);
    lemma_cover_ready(l, st, i);
    lemma_cover_keeps(l, st, i);
    lemma_hide_cells_keeps(l, st, cells);
    lemma_rings_same(l, st, mid);
    lemma_h_splice_keeps(l, mid, i);
    lemma_unhide_hide_cells(l, st, cells);
}

/// Distinct integers from a range are no more than the range holds.
pub proof fn lemma_distinct_bounded(s: Seq<int>, lo: int, hi: int)
    requires
        s.no_duplicates(),
        lo <= hi,
        forall|t: int| 0 <= t < s.len() ==> lo <= #[trigger] s[t] < hi,
    ensures
        s.len() <= hi - lo,
{
    s.unique_seq_to_set();
    lemma_int_range(lo, hi);
    assert(s.to_set().subset_of(set_int_range(lo, hi))) by {
        assert forall|x: int| s.to_set().contains(x) implies set_int_range(lo, hi).contains(x) by {
            let t = choose|t: int| 0 <= t < s.len() && s[t] == x;
            assert(lo <= s[t] < hi);
        }
    }
    lemma_len_subset(s.to_set(), set_int_range(lo, hi));
}

/// Where no threaded cell of the column lies between two positions, the
/// lists below them are the same.
pub proof fn lemma_col_cells_gap(l: Layout, st: State, j: int, a: int, b: int)
    requires
        a <= b,
        forall|z: int| a <= z < b && l.is_cell(z) && l.top(z) == j ==> !#[trigger] st.linked[z],
    ensures
        col_cells(l, st, j, b) == col_cells(l, st, j, a),
    decreases b - a,
{
    if a < b {
        lemma_col_cells_gap(l, st, j, a, b - 1);
        if b - 1 >= 0 && l.is_cell(b - 1) && l.top(b - 1) == j {
            assert(!st.linked[b - 1]);
        }
    }
}

/// The list of a column below a position begins with the list below an
/// earlier position.
pub proof fn lemma_col_cells_prefix(l: Layout, st: State, j: int, a: int, b: int)
    requires
        a <= b,
    ensures
        col_cells(l, st, j, a).len() <= col_cells(l, st, j, b).len(),
        col_cells(l, st, j, b).take(col_cells(l, st, j, a).len() as int) == col_cells(
            l,
            st,
            j,
            a,
        ),
    decreases b - a,
{
    if a < b {
        lemma_col_cells_prefix(l, st, j, a, b - 1);
        let ca = col_cells(l, st, j, a);
        let cm = col_cells(l, st, j, b - 1);
        let cb = col_cells(l, st, j, b);
        if b > 0 {
            assert(cb.take(ca.len() as int) =~= cm.take(ca.len() as int));
        } else {
            assert(cb =~= cm);
        }
    } else {
        let ca = col_cells(l, st, j, a);
        assert(ca.take(ca.len() as int) =~= ca);
    }
}

/// No cell lies among the headers, so no column has cells there.
pub proof fn lemma_col_cells_low(l: Layout, st: State, j: int, k: int)
    requires
        k <= l.count + 2,
    ensures
        col_cells(l, st, j, k).len() == 0,
    decreases k,
{
    if k > 0 {
        lemma_col_cells_low(l, st, j, k - 1);
    }
}

/// The list of a column is in arena order.
pub proof fn lemma_col_cells_sorted(l: Layout, st: State, j: int, k: int)
    ensures
        forall|t: int, u: int|
            0 <= t < u < col_cells(l, st, j, k).len() ==> #[trigger] col_cells(l, st, j, k)[t]
                < #[trigger] col_cells(l, st, j, k)[u],
    decreases k,
{
    if k > 0 {
        lemma_col_cells_sorted(l, st, j, k - 1);
        lemma_col_cells_bound(l, st, j, k - 1);
    }
}

/// Where a threaded cell of column `j` stands in the list of that column.
pub proof fn lemma_rows_at(l: Layout, st: State, j: int, p: int)
    requires
        l.wf(),
        l.is_cell(p),
        st.linked[p],
        l.top(p) == j,
    ensures
        ({
            let rows = col_cells(l, st, j, l.size());
            let r = col_cells(l, st, j, p).len() as int;
            &&& r < rows.len()
            &&& rows[r] == p
            &&& rows.take(r) == col_cells(l, st, j, p)
            &&& rows.take(r + 1) == col_cells(l, st, j, p + 1)
            &&& col_cells(l, st, j, p + 1).len() == r + 1
            &&& forall|t: int| 0 <= t < rows.len() && #[trigger] rows[t] == p ==> t == r
        }),
{
    let rows = col_cells(l, st, j, l.size());
    let r = col_cells(l, st, j, p).len() as int;
    lemma_col_cells_prefix(l, st, j, p, l.size());
    lemma_col_cells_prefix(l, st, j, p + 1, l.size());
    assert(col_cells(l, st, j, p + 1) == col_cells(l, st, j, p).push(p));
    assert(rows.take(r + 1)[r] == p);
    lemma_col_cells_sorted(l, st, j, l.size());
}

/// From a member of column `j` the pointer down leads to the next threaded
/// cell of the column, or back to the header after the last one.
pub proof fn lemma_col_step_down(l: Layout, st: State, j: int, x: int)
    requires
        l.wf(),
        fixed_ok(l, st),
        cols_ok(l, st),
        0 <= x < l.size(),
        in_list(l, st, x),
        l.col(x) == j,
        1 <= j <= l.count,
    ensures
        ({
            let d = st.nodes[x].down as int;
            &&& 0 <= d < l.size()
            &&& in_list(l, st, d)
            &&& l.col(d) == j
            &&& d <= l.count ==> d == j && col_cells(l, st, j, l.size()) == col_cells(
                l,
                st,
                j,
                x + 1,
            )
            &&& d > l.count ==> l.is_cell(d) && st.linked[d] && l.top(d) == j && x < d
                && col_cells(l, st, j, d) == col_cells(l, st, j, x + 1)
        }),
{
    let d = st.nodes[x].down as int;
    assert(ring_ok(l, st, x));
    assert(gap_ok(l, st, x));
    lemma_col_cells_gap(l, st, j, x + 1, reach(l, st, x));
}

/// From a member of column `j` the pointer up leads to the threaded cell
/// before it, or to the header from the first one.
pub proof fn lemma_col_step_up(l: Layout, st: State, j: int, x: int)
    requires
        l.wf(),
        fixed_ok(l, st),
        cols_ok(l, st),
        0 <= x < l.size(),
        in_list(l, st, x),
        l.col(x) == j,
        1 <= j <= l.count,
    ensures
        ({
            let u = st.nodes[x].up as int;
            let bound = if x <= l.count {
                l.size()
            } else {
                x
            };
            &&& 0 <= u < l.size()
            &&& in_list(l, st, u)
            &&& l.col(u) == j
            &&& u <= l.count ==> u == j && col_cells(l, st, j, bound).len() == 0
            &&& u > l.count ==> l.is_cell(u) && st.linked[u] && l.top(u) == j && u < bound
                && col_cells(l, st, j, bound) == col_cells(l, st, j, u + 1)
        }),
{
    let u = st.nodes[x].up as int;
    assert(ring_ok(l, st, x));
    assert(ring_ok(l, st, u));
    assert(gap_ok(l, st, u));
    lemma_col_cells_gap(l, st, j, u + 1, reach(l, st, u));
    if u <= l.count {
        lemma_col_cells_low(l, st, j, u + 1);
    }
}

/// The position just before the first cell of an option is no cell.
pub proof fn lemma_before_first(l: Layout, p: int)
    requires
        l.wf(),
        l.is_cell(p),
    ensures
        l.count + 1 <= l.first(p) - 1 < l.size() - 1,
        !l.is_cell(l.first(p) - 1),
        l.close(l.first(p)) == l.close(p),
        l.top(l.first(p) - 1) <= 0,
{
    lemma_cell_facts(l, p);
    let f = l.first(p);
    let o = l.rows[p];
    assert(l.at(o, 0) == f);
    let x = f - 1;
    if x >= l.count + 2 {
        let o2 = l.rows[x];
        if x - l.starts[o2] < l.options[o2].len() {
            assert(l.at(o2, f - l.starts[o2]) == f);
        }
    }
}

/// The tag of a position tells whether it is a cell.
pub proof fn lemma_top_sign(l: Layout, x: int)
    requires
        l.wf(),
        0 <= x < l.size(),
    ensures
        l.is_cell(x) <==> l.top(x) > 0,
        !l.is_cell(x) && x >= l.count + 2 ==> l.is_spacer(x) && l.top(x) < 0,
{
    if l.is_cell(x) {
        lemma_cell_facts(l, x);
    }
}

/// The first of distinct threaded cells are distinct threaded cells, and
/// the next one is not among them.
pub proof fn lemma_ready_prefix(l: Layout, st: State, cells: Seq<int>, k: int)
    requires
        cells_ready(l, st, cells),
        0 <= k <= cells.len(),
    ensures
        cells_ready(l, st, cells.take(k)),
        k < cells.len() ==> !cells.take(k).contains(cells[k]),
{
    let front = cells.take(k);
    assert forall|t: int| 0 <= t < front.len() implies l.is_cell(#[trigger] front[t])
        && st.linked[front[t]] by {
        assert(front[t] == cells[t]);
    }
    if k < cells.len() && front.contains(cells[k]) {
        let t = choose|t: int| 0 <= t < front.len() && front[t] == cells[k];
        assert(cells[t] == cells[k]);
    }
}

/// What is known before the `k`-th of the cells is taken out, and that
/// putting it back right away undoes the step.
pub proof fn lemma_hide_step(l: Layout, st: State, cells: Seq<int>, k: int)
    requires
        l.wf(),
        fixed_ok(l, st),
        cols_ok(l, st),
        cells_ready(l, st, cells),
        0 <= k < cells.len(),
    ensures
        ({
            let cur = hide_cells(st, cells.take(k));
            let q = cells[k];
            &&& fixed_ok(l, cur)
            &&& cols_ok(l, cur)
            &&& l.is_cell(q)
            &&& cur.linked[q]
            &&& 1 <= l.top(q) <= l.count
            &&& cur.items[l.top(q)].length > 0
            &&& hide_cells(st, cells.take(k + 1)) == splice(cur, q)
            &&& unsplice(splice(cur, q), q) == cur
            &&& fixed_ok(l, splice(cur, q))
            &&& cur.nodes[q].up != q
            &&& cur.nodes[q].down != q
        }),
{
    let cur = hide_cells(st, cells.take(k));
    let q = cells[k];
    lemma_ready_prefix(l, st, cells, k);
    lemma_hide_cells_keeps(l, st, cells.take(k));
    lemma_cell_facts(l, q);
    lemma_splice_keeps(l, cur, q);
    lemma_unsplice_splice(l, cur, q);
    assert(cells.take(k + 1).drop_last() =~= cells.take(k));
    assert(cells.take(k + 1).last() == q);
    assert(in_list(l, cur, q));
    assert(ring_ok(l, cur, q));
    let u = cur.nodes[q].up as int;
    let d = cur.nodes[q].down as int;
    assert(ring_ok(l, cur, u));
}

/// The first of cells of different options are cells of different
/// options.
pub proof fn lemma_apart_prefix(l: Layout, rows: Seq<int>, r: int)
    requires
        apart(l, rows),
        0 <= r <= rows.len(),
    ensures
        apart(l, rows.take(r)),
{
    let front = rows.take(r);
    assert forall|t: int| 0 <= t < front.len() implies l.is_cell(#[trigger] front[t]) by {
        assert(front[t] == rows[t]);
    }
    assert forall|t: int, u: int|
        0 <= t < front.len() && 0 <= u < front.len() && t != u implies l.rows[#[trigger] front[t]]
        != l.rows[#[trigger] front[u]] by {
        assert(front[t] == rows[t] && front[u] == rows[u]);
    }
}

/// The cells taken out for the first `r` threaded cells of the column of an
/// uncovered item are distinct, threaded, and outside that column.
pub proof fn lemma_cover_prefix_ready(l: Layout, st: State, i: int, r: int)
    requires
        l.wf(),
        inv(l, st),
        1 <= i <= l.count,
        !st.cov.contains(i),
        0 <= r <= col_cells(l, st, i, l.size()).len(),
    ensures
        cells_ready(l, st, row_cells(l, col_cells(l, st, i, l.size()).take(r))),
        forall|t: int|
            0 <= t < row_cells(l, col_cells(l, st, i, l.size()).take(r)).len() ==> l.top(
                #[trigger] row_cells(l, col_cells(l, st, i, l.size()).take(r))[t],
            ) != i,
        row_cells(l, col_cells(l, st, i, l.size()).take(r)).len() <= l.size() - l.count - 2,
{
    let rows = col_cells(l, st, i, l.size());
    let pre = row_cells(l, rows.take(r));
    let cells = cover_cells(l, st, i);
    lemma_col_cells_apart(l, st, i, l.size());
    lemma_apart_prefix(l, rows, r);
    lemma_row_cells_no_dup(l, rows.take(r));
    lemma_cover_ready(l, st, i);
    assert forall|t: int| 0 <= t < pre.len() implies st.linked[#[trigger] pre[t]] && l.top(pre[t])
        != i && l.count + 2 <= pre[t] < l.size() by {
        let x = pre[t];
        assert(pre.contains(x));
        lemma_row_cells_member(l, rows.take(r), x);
        let w = choose|w: int|
            0 <= w < rows.take(r).len() && l.first(#[trigger] rows.take(r)[w]) <= x < l.close(
                rows.take(r)[w],
            ) && x != rows.take(r)[w];
        assert(rows.take(r)[w] == rows[w]);
        lemma_row_cells_member(l, rows, x);
        assert(cells.contains(x));
        let u = choose|u: int| 0 <= u < cells.len() && cells[u] == x;
        assert(st.linked[cells[u]]);
        assert(l.top(cells[u]) != i);
    }
    lemma_distinct_bounded(pre, l.count + 2, l.size());
}

/// What is known in the middle of a covering, when the first `r` threaded
/// cells of the item's column have had their options hidden.
pub proof fn lemma_cover_rows(l: Layout, st: State, i: int, r: int)
    requires
        l.wf(),
        inv(l, st),
        1 <= i <= l.count,
        !st.cov.contains(i),
        0 <= r <= col_cells(l, st, i, l.size()).len(),
    ensures
        ({
            let rows = col_cells(l, st, i, l.size());
            let pre = row_cells(l, rows.take(r));
            let cur = hide_cells(st, pre);
            &&& fixed_ok(l, cur)
            &&& cols_ok(l, cur)
            &&& cur.cov == st.cov
            &&& sides_same(st, cur)
            &&& pre.len() <= l.size() - l.count - 2
            &&& forall|k: int| #[trigger] col_cells(l, cur, i, k) == col_cells(l, st, i, k)
            &&& forall|x: int|
                0 <= x < l.size() && l.is_cell(x) && l.top(x) == i ==> #[trigger] cur.linked[x]
                    == st.linked[x]
            &&& r < rows.len() ==> {
                let p = rows[r];
                &&& l.is_cell(p)
                &&& l.top(p) == i
                &&& cur.linked[p]
                &&& cells_ready(l, cur, l.others(p))
                &&& row_cells(l, rows.take(r + 1)) == pre + l.others(p)
                &&& hide_cells(st, row_cells(l, rows.take(r + 1))) == hide_cells(cur, l.others(p))
                &&& pre.len() + l.others(p).len() <= l.size() - l.count - 2
            }
        }),
{
    let rows = col_cells(l, st, i, l.size());
    let pre = row_cells(l, rows.take(r));
    let cur = hide_cells(st, pre);
    lemma_cover_prefix_ready(l, st, i, r);
    lemma_hide_cells_keeps(l, st, pre);
    assert forall|x: int|
        0 <= x < l.size() && l.is_cell(x) && l.top(x) == i implies #[trigger] cur.linked[x]
        == st.linked[x] by {
        if pre.contains(x) {
            let t = choose|t: int| 0 <= t < pre.len() && pre[t] == x;
            assert(l.top(pre[t]) != i);
        }
    }
    assert forall|k: int| #[trigger] col_cells(l, cur, i, k) == col_cells(l, st, i, k) by {
        if k <= l.size() {
            lemma_col_cells_same(l, cur, st, i, k);
        } else {
            lemma_col_cells_gap(l, cur, i, l.size(), k);
            lemma_col_cells_gap(l, st, i, l.size(), k);
            lemma_col_cells_same(l, cur, st, i, l.size());
        }
    }
    if r < rows.len() {
        let p = rows[r];
        let next = row_cells(l, rows.take(r + 1));
        assert(rows.contains(p));
        lemma_col_cells_member(l, st, i, l.size(), p);
        lemma_cover_prefix_ready(l, st, i, r + 1);
        assert(rows.take(r + 1).drop_last() =~= rows.take(r));
        assert(rows.take(r + 1).last() == p);
        assert(next == pre + l.others(p));
        lemma_hide_cells_concat(st, pre, l.others(p));
        lemma_others_member(l, p, 0);
        let oth = l.others(p);
        assert forall|t: int| 0 <= t < oth.len() implies l.is_cell(#[trigger] oth[t])
            && cur.linked[oth[t]] by {
            assert(next[pre.len() + t] == oth[t]);
            if pre.contains(oth[t]) {
                let u = choose|u: int| 0 <= u < pre.len() && pre[u] == oth[t];
                assert(next[u] == pre[u]);
            }
        }
    }
}

} // verus!
